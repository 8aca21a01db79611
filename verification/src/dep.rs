//! A prerequisite edge: the dependency record that rules and file nodes own.

use vstd::prelude::*;
use crate::recipe::copy_bytes;

verus! {

/// Identifier of a file node in the file table.
pub type FileId = usize;

/// One prerequisite of a rule or a target.
#[derive(Debug, PartialEq, Eq)]
pub struct DepNode {
    /// The prerequisite's name (raw bytes).
    pub name: Vec<u8>,
    /// The file node it refers to, once entered.
    pub file: Option<FileId>,
    /// The dependency's flag bits (`RM_*` style).
    pub flags: u32,
    /// The prerequisite's directory does not exist (pattern rules).
    pub changed: bool,
    /// Order-only prerequisite (after `|`).
    pub ignore_mtime: bool,
    /// Prerequisite of a static pattern rule.
    pub static_pattern: bool,
    /// Needs the second expansion.
    pub needs_second_expansion: bool,
    /// Automatic variables are not set from this prerequisite.
    pub ignore_automatic_vars: bool,
    /// Named explicitly in the makefile.
    pub is_explicit: bool,
    /// A `.WAIT` precedes this prerequisite.
    pub wait_here: bool,
}

/// Two prerequisites hold the same values.
pub open spec fn same_dep(a: DepNode, b: DepNode) -> bool {
    &&& a.name@ == b.name@
    &&& a.file == b.file
    &&& a.flags == b.flags
    &&& a.changed == b.changed
    &&& a.ignore_mtime == b.ignore_mtime
    &&& a.static_pattern == b.static_pattern
    &&& a.needs_second_expansion == b.needs_second_expansion
    &&& a.ignore_automatic_vars == b.ignore_automatic_vars
    &&& a.is_explicit == b.is_explicit
    &&& a.wait_here == b.wait_here
}

impl Clone for DepNode {
    fn clone(&self) -> (r: DepNode)
        ensures
            same_dep(r, *self),
    {
        DepNode {
            name: copy_bytes(&self.name),
            file: self.file,
            flags: self.flags,
            changed: self.changed,
            ignore_mtime: self.ignore_mtime,
            static_pattern: self.static_pattern,
            needs_second_expansion: self.needs_second_expansion,
            ignore_automatic_vars: self.ignore_automatic_vars,
            is_explicit: self.is_explicit,
            wait_here: self.wait_here,
        }
    }
}

/// Dependency flag: the goal was read by `include`.
pub const RM_INCLUDED: u32 = 2;
/// Dependency flag: failing to make the goal is no error.
pub const RM_DONTCARE: u32 = 4;

/// A goal: a prerequisite of the whole run, with where it was named and
/// the error that reading it gave.
#[derive(Debug)]
pub struct GoalDepNode {
    pub dep: DepNode,
    pub error: i32,
    pub defined_in: Option<Vec<u8>>,
    pub lineno: u64,
    pub offset: u64,
}

} // verus!
