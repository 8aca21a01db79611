//! The plugin host's own data: the capabilities granted to a plugin
//! instance, the handles a guest holds, and the conversions of graph records
//! into the interface's records.

use vstd::prelude::*;
use crate::dep::DepNode;
use crate::plugin::nodeset::{NodeId, SetId};
use vstd::string::StringSliceAdditionalSpecFns;
use crate::recipe::copy_bytes;
use crate::rule::push_slice;

verus! {

/// A graph node, as the guest holds it.
pub struct NodeHandle(pub NodeId);

/// A nested set, as the guest holds it.
pub struct SetHandle(pub SetId);

/// An open declared output, as the guest holds it.
pub struct OutputHandle(pub usize);

// ─── Capabilities ────────────────────────────────────────────────────────

/// Capability bit: read recipes.
pub const READ_RECIPES: u16 = 1;
/// Capability bit: read variables.
pub const READ_VARIABLES: u16 = 2;
/// Capability bit: expand variables through make's expander.
pub const EXPAND_VARIABLES: u16 = 4;
/// Capability bit: read the environment.
pub const READ_ENVIRONMENT: u16 = 8;
/// Capability bit: read file contents.
pub const READ_FILE_CONTENT: u16 = 16;
/// Capability bit: read the wall clock.
pub const WALL_CLOCK: u16 = 32;
/// Capability bit: write declared outputs.
pub const WRITE_OUTPUTS: u16 = 64;
/// Capability bit: fail the build.
pub const FAIL_BUILD: u16 = 128;
/// Every capability bit.
pub const ALL_CAPS: u16 = 255;

/// The authority granted to one plugin instance: a set of capability bits.
#[derive(Debug, Clone, Copy, PartialEq, Eq, Structural, Default)]
pub struct Caps {
    pub bits: u16,
}

/// A capability as the plugin interface names it.
#[derive(Debug, Clone, Copy, PartialEq, Eq, Structural)]
pub enum Capability {
    ReadRecipes,
    ReadVariables,
    ExpandVariables,
    ReadEnvironment,
    ReadFileContent,
    WallClock,
    WriteOutputs,
    FailBuild,
}

/// The bit of a capability.
pub open spec fn capability_bit(c: Capability) -> u16 {
    match c {
        Capability::ReadRecipes => READ_RECIPES,
        Capability::ReadVariables => READ_VARIABLES,
        Capability::ExpandVariables => EXPAND_VARIABLES,
        Capability::ReadEnvironment => READ_ENVIRONMENT,
        Capability::ReadFileContent => READ_FILE_CONTENT,
        Capability::WallClock => WALL_CLOCK,
        Capability::WriteOutputs => WRITE_OUTPUTS,
        Capability::FailBuild => FAIL_BUILD,
    }
}

/// The capability named `name` (as written in the allow/deny lists), with
/// `all` naming every one.
pub open spec fn caps_named(name: Seq<u8>) -> Option<u16> {
    if name == "read-recipes".spec_bytes() {
        Some(READ_RECIPES)
    } else if name == "read-variables".spec_bytes() {
        Some(READ_VARIABLES)
    } else if name == "expand-variables".spec_bytes() {
        Some(EXPAND_VARIABLES)
    } else if name == "read-environment".spec_bytes() {
        Some(READ_ENVIRONMENT)
    } else if name == "read-file-content".spec_bytes() {
        Some(READ_FILE_CONTENT)
    } else if name == "wall-clock".spec_bytes() {
        Some(WALL_CLOCK)
    } else if name == "write-outputs".spec_bytes() {
        Some(WRITE_OUTPUTS)
    } else if name == "fail-build".spec_bytes() {
        Some(FAIL_BUILD)
    } else if name == "all".spec_bytes() {
        Some(ALL_CAPS)
    } else {
        None
    }
}

/// The capability names in their stable order.
pub open spec fn cap_names() -> Seq<Seq<char>> {
    seq![
        "read-recipes"@,
        "read-variables"@,
        "expand-variables"@,
        "read-environment"@,
        "read-file-content"@,
        "wall-clock"@,
        "write-outputs"@,
        "fail-build"@,
    ]
}

/// The names of the capabilities among the first `k` bits that `bits` holds,
/// in bit order.
pub open spec fn names_of(bits: u16, k: int) -> Seq<Seq<char>>
    decreases k,
{
    if k <= 0 {
        Seq::empty()
    } else {
        let rest = names_of(bits, k - 1);
        if bits & (1u16 << (k - 1) as u16) != 0 {
            rest.push(cap_names()[k - 1])
        } else {
            rest
        }
    }
}

impl Caps {
    /// What a plugin gets without the operator saying anything: reading
    /// recipes and variables, and writing its declared outputs.
    pub fn default_grant() -> (r: Caps)
        ensures
            r.bits == READ_RECIPES | READ_VARIABLES | WRITE_OUTPUTS,
    {
        Caps { bits: READ_RECIPES | READ_VARIABLES | WRITE_OUTPUTS }
    }

    /// No capability.
    pub fn empty() -> (r: Caps)
        ensures
            r.bits == 0,
    {
        Caps { bits: 0 }
    }

    /// Every capability.
    pub fn all() -> (r: Caps)
        ensures
            r.bits == ALL_CAPS,
    {
        Caps { bits: ALL_CAPS }
    }

    /// Whether every capability of `other` is in `self`.
    pub fn contains(self, other: Caps) -> (r: bool)
        ensures
            r == (self.bits & other.bits == other.bits),
    {
        self.bits & other.bits == other.bits
    }

    /// The capabilities of either.
    pub fn union(self, other: Caps) -> (r: Caps)
        ensures
            r.bits == self.bits | other.bits,
    {
        Caps { bits: self.bits | other.bits }
    }

    /// The capabilities of `self` that are not in `other`.
    pub fn difference(self, other: Caps) -> (r: Caps)
        ensures
            r.bits == self.bits & !other.bits,
    {
        Caps { bits: self.bits & !other.bits }
    }

    /// The capability the interface names.
    pub fn from_wit(c: Capability) -> (r: Caps)
        ensures
            r.bits == capability_bit(c),
    {
        match c {
            Capability::ReadRecipes => Caps { bits: READ_RECIPES },
            Capability::ReadVariables => Caps { bits: READ_VARIABLES },
            Capability::ExpandVariables => Caps { bits: EXPAND_VARIABLES },
            Capability::ReadEnvironment => Caps { bits: READ_ENVIRONMENT },
            Capability::ReadFileContent => Caps { bits: READ_FILE_CONTENT },
            Capability::WallClock => Caps { bits: WALL_CLOCK },
            Capability::WriteOutputs => Caps { bits: WRITE_OUTPUTS },
            Capability::FailBuild => Caps { bits: FAIL_BUILD },
        }
    }

    /// Parse one capability name as written in the allow/deny lists.
    pub fn parse(name: &str) -> (r: Option<Caps>)
        ensures
            r matches Some(c) ==> caps_named(name.spec_bytes()) == Some(c.bits),
            r is None ==> caps_named(name.spec_bytes()) is None,
    {
        let b = name.as_bytes();
        let bits = parse_cap_bytes(b);
        match bits {
            Some(v) => Some(Caps { bits: v }),
            None => None,
        }
    }

    /// The names of the capabilities held, in a stable order.
    pub fn names(self) -> (r: Vec<&'static str>)
        ensures
            r@.map_values(|s: &'static str| s@) == names_of(self.bits, 8),
    {
        let table: [&'static str; 8] = [
            "read-recipes",
            "read-variables",
            "expand-variables",
            "read-environment",
            "read-file-content",
            "wall-clock",
            "write-outputs",
            "fail-build",
        ];
        proof {
            assert(table@.map_values(|s: &'static str| s@) =~= cap_names());
        }
        let mut out: Vec<&'static str> = Vec::new();
        let mut k: usize = 0;
        while k < 8
            invariant
                k <= 8,
                table@.map_values(|s: &'static str| s@) == cap_names(),
                out@.map_values(|s: &'static str| s@) == names_of(self.bits, k as int),
            decreases 8 - k,
        {
            let bit: u16 = 1u16 << (k as u16);
            if self.bits & bit != 0 {
                out.push(table[k]);
                proof {
                    assert(table@.map_values(|s: &'static str| s@)[k as int] == table@[k as int]@);
                }
            }
            k += 1;
            assert(out@.map_values(|s: &'static str| s@) =~= names_of(self.bits, k as int));
        }
        out
    }
}

/// The bits named by `name`.
pub fn parse_cap_bytes(b: &[u8]) -> (r: Option<u16>)
    ensures
        r == caps_named(b@),
{
    let s1 = "read-recipes".as_bytes();
    let s2 = "read-variables".as_bytes();
    let s3 = "expand-variables".as_bytes();
    let s4 = "read-environment".as_bytes();
    let s5 = "read-file-content".as_bytes();
    let s6 = "wall-clock".as_bytes();
    let s7 = "write-outputs".as_bytes();
    let s8 = "fail-build".as_bytes();
    let s9 = "all".as_bytes();
    if crate::parser::bytes_eq(b, s1) {
        Some(READ_RECIPES)
    } else if crate::parser::bytes_eq(b, s2) {
        Some(READ_VARIABLES)
    } else if crate::parser::bytes_eq(b, s3) {
        Some(EXPAND_VARIABLES)
    } else if crate::parser::bytes_eq(b, s4) {
        Some(READ_ENVIRONMENT)
    } else if crate::parser::bytes_eq(b, s5) {
        Some(READ_FILE_CONTENT)
    } else if crate::parser::bytes_eq(b, s6) {
        Some(WALL_CLOCK)
    } else if crate::parser::bytes_eq(b, s7) {
        Some(WRITE_OUTPUTS)
    } else if crate::parser::bytes_eq(b, s8) {
        Some(FAIL_BUILD)
    } else if crate::parser::bytes_eq(b, s9) {
        Some(ALL_CAPS)
    } else {
        None
    }
}

// ─── Interface records ───────────────────────────────────────────────────

/// A source location, as the interface reports it.
#[derive(Debug, PartialEq, Eq)]
pub struct Location {
    pub file: Vec<u8>,
    pub line: u64,
    pub column: u32,
}

/// An error handed back to the guest.
#[derive(Debug, PartialEq, Eq)]
pub struct WitError {
    pub message: Vec<u8>,
    pub location: Option<Location>,
}

/// The message of a capability denial.
pub open spec fn denied_message(cap: Seq<u8>, what: Seq<u8>) -> Seq<u8> {
    what + " requires the `".spec_bytes() + cap + "` capability, which was not granted".spec_bytes()
}

/// The error a gated action returns when `cap` was not granted.
pub fn denied(cap: &str, what: &str) -> (r: WitError)
    ensures
        r.message@ == denied_message(cap.spec_bytes(), what.spec_bytes()),
        r.location is None,
{
    let mut m: Vec<u8> = Vec::new();
    push_slice(&mut m, what.as_bytes());
    push_slice(&mut m, " requires the `".as_bytes());
    push_slice(&mut m, cap.as_bytes());
    push_slice(&mut m, "` capability, which was not granted".as_bytes());
    WitError { message: m, location: None }
}

/// The location of a definition in `file` at `line`, if the file is known.
pub fn location_of(file: Option<&Vec<u8>>, line: u64) -> (r: Option<Location>)
    ensures
        file is None ==> r is None,
        file matches Some(f) ==> r matches Some(l) && l.file@ == f@ && l.line == line && l.column == 0,
{
    match file {
        Some(f) => Some(Location { file: copy_bytes(f), line, column: 0 }),
        None => None,
    }
}

/// Interface flag: an order-only prerequisite.
pub const DEP_ORDER_ONLY: u8 = 1;
/// Interface flag: a `.WAIT` precedes the prerequisite.
pub const DEP_WAIT: u8 = 2;
/// Interface flag: named explicitly.
pub const DEP_EXPLICIT: u8 = 4;
/// Interface flag: a static pattern prerequisite.
pub const DEP_STATIC_PATTERN: u8 = 8;
/// Interface flag: subject to the second expansion.
pub const DEP_SECOND_EXPANSION: u8 = 16;

/// The flags of a dependency edge, as the interface reports them.
#[derive(Debug, Clone, Copy, PartialEq, Eq, Structural, Default)]
pub struct DepFlags {
    pub bits: u8,
}

/// The interface flags of a prerequisite.
pub open spec fn dep_flag_bits(dep: DepNode) -> u8 {
    (if dep.ignore_mtime { DEP_ORDER_ONLY } else { 0u8 }) | (if dep.wait_here { DEP_WAIT } else { 0u8 }) | (
    if dep.is_explicit { DEP_EXPLICIT } else { 0u8 }) | (if dep.static_pattern {
        DEP_STATIC_PATTERN
    } else {
        0u8
    }) | (if dep.needs_second_expansion { DEP_SECOND_EXPANSION } else { 0u8 })
}

/// The interface flags of a prerequisite.
pub fn dep_flags(dep: &DepNode) -> (r: DepFlags)
    ensures
        r.bits == dep_flag_bits(*dep),
{
    let a: u8 = if dep.ignore_mtime { DEP_ORDER_ONLY } else { 0 };
    let b: u8 = if dep.wait_here { DEP_WAIT } else { 0 };
    let c: u8 = if dep.is_explicit { DEP_EXPLICIT } else { 0 };
    let d: u8 = if dep.static_pattern { DEP_STATIC_PATTERN } else { 0 };
    let e: u8 = if dep.needs_second_expansion { DEP_SECOND_EXPANSION } else { 0 };
    DepFlags { bits: a | b | c | d | e }
}

/// How a variable was defined.
#[derive(Debug, Clone, Copy, PartialEq, Eq, Structural)]
pub enum VarFlavor {
    Bogus,
    Simple,
    Recursive,
    Expand,
    Append,
    Shell,
    AppendValue,
}

/// Where a variable's definition came from.
#[derive(Debug, Clone, Copy, PartialEq, Eq, Structural)]
pub enum VarOrigin {
    Default,
    Environment,
    File,
    EnvOverride,
    Command,
    Override,
    Automatic,
    Invalid,
}

/// A target-specific variable of the build graph.
#[derive(Debug)]
pub struct TargetVariable {
    pub name: Vec<u8>,
    pub value: Vec<u8>,
    pub flavor: VarFlavor,
    pub origin: VarOrigin,
    pub defined_in: Option<Vec<u8>>,
    pub defined_lineno: u64,
    pub exportable: bool,
    pub private_var: bool,
}

/// A variable's flavor, as the interface reports it.
#[derive(Debug, Clone, Copy, PartialEq, Eq, Structural)]
pub enum WitVarFlavor {
    Simple,
    Recursive,
    Undefined,
}

/// A variable's origin, as the interface reports it.
#[derive(Debug, Clone, Copy, PartialEq, Eq, Structural)]
pub enum WitVarOrigin {
    Default,
    Environment,
    EnvOverride,
    File,
    CommandLine,
    Override,
    Automatic,
}

/// A variable, as the interface reports it.
#[derive(Debug)]
pub struct Variable {
    pub name: Vec<u8>,
    pub value: Vec<u8>,
    pub flavor: WitVarFlavor,
    pub origin: WitVarOrigin,
    pub defined_at: Option<Location>,
    pub exported: bool,
    pub private: bool,
}

/// The interface flavor of a flavor: simple and recursive as such, any
/// other undefined.
pub open spec fn wit_flavor(f: VarFlavor) -> WitVarFlavor {
    match f {
        VarFlavor::Simple => WitVarFlavor::Simple,
        VarFlavor::Recursive => WitVarFlavor::Recursive,
        _ => WitVarFlavor::Undefined,
    }
}

/// The interface origin of an origin (an invalid one reads as default).
pub open spec fn wit_origin(o: VarOrigin) -> WitVarOrigin {
    match o {
        VarOrigin::Default => WitVarOrigin::Default,
        VarOrigin::Environment => WitVarOrigin::Environment,
        VarOrigin::EnvOverride => WitVarOrigin::EnvOverride,
        VarOrigin::File => WitVarOrigin::File,
        VarOrigin::Command => WitVarOrigin::CommandLine,
        VarOrigin::Override => WitVarOrigin::Override,
        VarOrigin::Automatic => WitVarOrigin::Automatic,
        VarOrigin::Invalid => WitVarOrigin::Default,
    }
}

/// A target-specific variable as the interface reports it.
pub fn target_variable(v: &TargetVariable) -> (r: Variable)
    ensures
        r.name@ == v.name@,
        r.value@ == v.value@,
        r.flavor == wit_flavor(v.flavor),
        r.origin == wit_origin(v.origin),
        v.defined_in is None ==> r.defined_at is None,
        v.defined_in matches Some(f) ==> r.defined_at matches Some(l) && l.file@ == f@ && l.line
            == v.defined_lineno && l.column == 0,
        r.exported == v.exportable,
        r.private == v.private_var,
{
    let flavor = match v.flavor {
        VarFlavor::Simple => WitVarFlavor::Simple,
        VarFlavor::Recursive => WitVarFlavor::Recursive,
        _ => WitVarFlavor::Undefined,
    };
    let origin = match v.origin {
        VarOrigin::Default => WitVarOrigin::Default,
        VarOrigin::Environment => WitVarOrigin::Environment,
        VarOrigin::EnvOverride => WitVarOrigin::EnvOverride,
        VarOrigin::File => WitVarOrigin::File,
        VarOrigin::Command => WitVarOrigin::CommandLine,
        VarOrigin::Override => WitVarOrigin::Override,
        VarOrigin::Automatic => WitVarOrigin::Automatic,
        VarOrigin::Invalid => WitVarOrigin::Default,
    };
    Variable {
        name: copy_bytes(&v.name),
        value: copy_bytes(&v.value),
        flavor,
        origin,
        defined_at: location_of(v.defined_in.as_ref(), v.defined_lineno),
        exported: v.exportable,
        private: v.private_var,
    }
}

/// One declared output, resolved to a real path.
#[derive(Debug)]
pub struct OutputSlot {
    pub logical: Vec<u8>,
    pub path: Vec<u8>,
    /// Buffered bytes; nothing reaches the file system before the finish.
    pub buf: Vec<u8>,
    pub open: bool,
    pub published: bool,
}

} // verus!
