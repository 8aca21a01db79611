//! File nodes: one per target or prerequisite make knows of, addressed by
//! [`FileId`], with the state the updater keeps on each.

use vstd::prelude::*;
use crate::dep::{DepNode, FileId};
use crate::execctx::ExecContext;
use crate::parser::bytes_eq;
use crate::recipe::Recipe;

verus! {

/// Where a target's recipe stands.
#[derive(Debug, Clone, Copy, PartialEq, Eq, Structural, Hash)]
pub enum CommandState {
    NotStarted,
    DepsRunning,
    Running,
    Finished,
}

/// The order of command states (`cs_not_started` < ... < `cs_finished`).
pub open spec fn cs_rank(s: CommandState) -> int {
    match s {
        CommandState::NotStarted => 0,
        CommandState::DepsRunning => 1,
        CommandState::Running => 2,
        CommandState::Finished => 3,
    }
}

impl CommandState {
    /// The state's rank.
    pub fn rank(self) -> (r: u32)
        ensures
            r == cs_rank(self),
    {
        match self {
            CommandState::NotStarted => 0,
            CommandState::DepsRunning => 1,
            CommandState::Running => 2,
            CommandState::Finished => 3,
        }
    }
}

/// The outcome of updating a target.
#[derive(Debug, Clone, Copy, PartialEq, Eq, Structural, Hash)]
pub enum UpdateStatus {
    Success,
    NoStatus,
    Question,
    Failed,
}

/// The order of update statuses (`us_success` < `us_none` < `us_question`
/// < `us_failed`).
pub open spec fn us_rank(s: UpdateStatus) -> int {
    match s {
        UpdateStatus::Success => 0,
        UpdateStatus::NoStatus => 1,
        UpdateStatus::Question => 2,
        UpdateStatus::Failed => 3,
    }
}

impl UpdateStatus {
    /// The status's rank.
    pub fn rank(self) -> (r: u32)
        ensures
            r == us_rank(self),
    {
        match self {
            UpdateStatus::Success => 0,
            UpdateStatus::NoStatus => 1,
            UpdateStatus::Question => 2,
            UpdateStatus::Failed => 3,
        }
    }
}

/// The timestamp of a file whose time is not known yet.
pub const UNKNOWN_MTIME: u64 = 0;
/// The timestamp of a file that does not exist.
pub const NONEXISTENT_MTIME: u64 = 1;
/// The timestamp of a file older than any other.
pub const OLD_MTIME: u64 = 2;
/// The least ordinary timestamp.
pub const ORDINARY_MTIME_MIN: u64 = 3;

/// A file node.
#[derive(Debug)]
pub struct FileNode {
    /// The file's name (raw bytes).
    pub name: Vec<u8>,
    /// Its prerequisites.
    pub deps: Vec<DepNode>,
    /// The other targets its recipe makes (grouped targets).
    pub also_make: Vec<DepNode>,
    /// Its recipe, if any.
    pub recipe: Option<Recipe>,
    /// The node it was renamed to, if any.
    pub renamed: Option<FileId>,
    /// The further entries of a double-colon target (the head is entry 0).
    pub double_colon: Vec<FileNode>,
    /// Whether this is a double-colon target.
    pub is_double_colon: bool,
    /// The pass in which the updater last considered it.
    pub considered: u32,
    pub command_state: CommandState,
    pub update_status: UpdateStatus,
    /// Its recipe has been run (or found unneeded).
    pub updated: bool,
    pub phony: bool,
    /// Named as a target in the makefiles.
    pub is_target: bool,
    /// Failing to make it is no error.
    pub dontcare: bool,
    /// Diagnostics for it have already been given.
    pub no_diag: bool,
    /// An implicit rule search was tried for it.
    pub tried_implicit: bool,
    /// It is a suffix rule (`.c.o`).
    pub suffix: bool,
    /// Named on the command line.
    pub cmd_target: bool,
    /// Its last known modification time.
    pub last_mtime: u64,
    /// Its modification time before the recipe ran.
    pub mtime_before_update: u64,
    /// What special targets said of it, and where the updater stands on it.
    pub marks: FileMarks,
    /// The name the file is known by in the table (before a directory
    /// search changed `name`).
    pub hname: Vec<u8>,
}

/// What special targets said of a file, and where the updater's walk stands
/// on it.
#[derive(Debug, Clone, Copy, PartialEq, Eq, Structural)]
pub struct FileMarks {
    /// The updater is working through its prerequisites (a dependency on it
    /// now is circular).
    pub updating: bool,
    /// `.LOW_RESOLUTION_TIME`: its time stamp is only good to the second.
    pub low_resolution_time: bool,
    /// It is an intermediate file.
    pub intermediate: bool,
    /// `.SECONDARY`: an intermediate file that is kept.
    pub secondary: bool,
    /// `.NOTINTERMEDIATE`: never an intermediate file.
    pub notintermediate: bool,
    /// The name found by a directory search is not used.
    pub ignore_vpath: bool,
    /// Named explicitly in the makefiles, as a target or a prerequisite.
    pub is_explicit: bool,
    /// The target it was last considered as a prerequisite of.
    pub parent: Option<FileId>,
}

/// Entry `entry` of a double-colon chain: the head is entry 0, then the
/// further entries in order.
pub open spec fn entry_of(n: FileNode, entry: int) -> FileNode {
    if entry == 0 {
        n
    } else {
        n.double_colon@[entry - 1]
    }
}

/// `entry` names an entry of `n`.
pub open spec fn valid_entry(n: FileNode, entry: int) -> bool {
    0 <= entry <= n.double_colon@.len()
}

/// `new` is `old` with entry `entry` replaced by `e` (for the head, `e` keeps
/// the head's own chain of entries).
pub open spec fn entry_replaced(old: FileNode, new: FileNode, entry: int, e: FileNode) -> bool {
    if entry == 0 {
        &&& new == e
        &&& e.double_colon == old.double_colon
    } else {
        &&& new == (FileNode { double_colon: new.double_colon, ..old })
        &&& new.double_colon@ == old.double_colon@.update(entry - 1, e)
    }
}

/// The first node at or after `k` named `name`.
pub open spec fn find_file(files: Seq<FileNode>, name: Seq<u8>, k: int) -> Option<FileId>
    decreases files.len() - k,
{
    if k < 0 || k >= files.len() {
        None
    } else if files[k].name@ == name {
        Some(k as FileId)
    } else {
        find_file(files, name, k + 1)
    }
}

pub proof fn lemma_find_file(files: Seq<FileNode>, name: Seq<u8>, k: int)
    requires
        0 <= k <= files.len(),
        files.len() <= usize::MAX,
    ensures
        find_file(files, name, k) matches Some(id) ==> k <= id < files.len() && files[id as int].name@ == name,
    decreases files.len() - k,
{
    if k < files.len() && files[k].name@ != name {
        lemma_find_file(files, name, k + 1);
    }
}

/// The node named `name`, if the table holds one.
pub fn lookup_file(ctx: &ExecContext, name: &[u8]) -> (r: Option<FileId>)
    ensures
        r == find_file(ctx.files@, name@, 0),
        r matches Some(id) ==> id < ctx.files@.len() && ctx.files@[id as int].name@ == name@,
{
    let n = ctx.files.len();
    assert(ctx.files@.len() == n);
    proof {
        lemma_find_file(ctx.files@, name@, 0);
    }
    let mut k: usize = 0;
    while k < ctx.files.len()
        invariant
            k <= ctx.files@.len(),
            find_file(ctx.files@, name@, k as int) == find_file(ctx.files@, name@, 0),
        decreases ctx.files@.len() - k,
    {
        if bytes_eq(ctx.files[k].name.as_slice(), name) {
            return Some(k);
        }
        k += 1;
    }
    None
}

} // verus!
