//! Makefile syntax that is a pure function of the line text: the keyword
//! classifiers, the token scanners, the variable-assignment parser, the
//! `ifeq`/`ifneq` argument parser, the rule-word scanner and the backslash
//! unquoting routines.
//!
//! Every routine works on a byte slice that stands for a C string without its
//! trailing NUL: reading past the end yields a NUL ([`at`]), which stops every
//! scan. The specifications speak of the same convention through
//! [`byte_at`].

use vstd::prelude::*;
use vstd::string::StringSliceAdditionalSpecFns;
use core::ops::Range;
use crate::stopchar::{
    is_blank, is_space, lemma_map_classes, map_has, stop_flags, stopchar_flags, MAP_BLANK,
    MAP_COMMENT, MAP_NEWLINE, MAP_NUL, MAP_VARSEP,
};

verus! {

// ─── Byte access and classes ─────────────────────────────────────────────

/// The byte at `i` of the C string `s`: `s[i]` inside, NUL outside.
pub open spec fn byte_at(s: Seq<u8>, i: int) -> u8 {
    if 0 <= i < s.len() {
        s[i]
    } else {
        0
    }
}

/// Byte at `i`, or a NUL terminator past the end.
pub fn at(bytes: &[u8], i: usize) -> (r: u8)
    ensures
        r == byte_at(bytes@, i as int),
{
    if i < bytes.len() {
        bytes[i]
    } else {
        0
    }
}

/// The class bits of byte `b`.
pub fn flags(b: u8) -> (r: i32)
    ensures
        r == stop_flags(b),
{
    stopchar_flags(b)
}

/// Is any class of `mask` set for byte `b`?
pub fn map_set(b: u8, mask: i32) -> (r: bool)
    ensures
        r == map_has(b, mask),
        mask == MAP_NUL ==> (r == (b == 0)),
        mask == MAP_BLANK ==> (r == is_blank(b)),
        mask == (MAP_BLANK | MAP_NEWLINE) ==> (r == is_space(b)),
        mask == (MAP_BLANK | MAP_NEWLINE | MAP_NUL) ==> (r == (is_space(b) || b == 0)),
        mask == (MAP_BLANK | MAP_NUL) ==> (r == (is_blank(b) || b == 0)),
        mask == (MAP_COMMENT | MAP_NUL) ==> (r == (b == '#' as u8 || b == 0)),
        mask == (MAP_NUL | MAP_VARSEP) ==> (r == is_refsep(b)),
{
    proof {
        lemma_map_classes(b);
    }
    flags(b) & mask != 0
}

/// The bytes that matter inside a `$(...)`/`${...}` reference: a NUL or one of
/// the four brackets.
pub open spec fn is_refsep(b: u8) -> bool {
    b == 0 || b == '(' as u8 || b == ')' as u8 || b == '{' as u8 || b == '}' as u8
}

// ─── Keyword spellings ───────────────────────────────────────────────────

pub open spec fn kw_ifdef() -> Seq<u8> {
    seq!['i' as u8, 'f' as u8, 'd' as u8, 'e' as u8, 'f' as u8]
}

pub open spec fn kw_ifndef() -> Seq<u8> {
    seq!['i' as u8, 'f' as u8, 'n' as u8, 'd' as u8, 'e' as u8, 'f' as u8]
}

pub open spec fn kw_ifeq() -> Seq<u8> {
    seq!['i' as u8, 'f' as u8, 'e' as u8, 'q' as u8]
}

pub open spec fn kw_ifneq() -> Seq<u8> {
    seq!['i' as u8, 'f' as u8, 'n' as u8, 'e' as u8, 'q' as u8]
}

pub open spec fn kw_else() -> Seq<u8> {
    seq!['e' as u8, 'l' as u8, 's' as u8, 'e' as u8]
}

pub open spec fn kw_endif() -> Seq<u8> {
    seq!['e' as u8, 'n' as u8, 'd' as u8, 'i' as u8, 'f' as u8]
}

pub open spec fn kw_export() -> Seq<u8> {
    seq!['e' as u8, 'x' as u8, 'p' as u8, 'o' as u8, 'r' as u8, 't' as u8]
}

pub open spec fn kw_unexport() -> Seq<u8> {
    seq!['u' as u8, 'n' as u8, 'e' as u8, 'x' as u8, 'p' as u8, 'o' as u8, 'r' as u8, 't' as u8]
}

pub open spec fn kw_override() -> Seq<u8> {
    seq!['o' as u8, 'v' as u8, 'e' as u8, 'r' as u8, 'r' as u8, 'i' as u8, 'd' as u8, 'e' as u8]
}

pub open spec fn kw_private() -> Seq<u8> {
    seq!['p' as u8, 'r' as u8, 'i' as u8, 'v' as u8, 'a' as u8, 't' as u8, 'e' as u8]
}

pub open spec fn kw_define() -> Seq<u8> {
    seq!['d' as u8, 'e' as u8, 'f' as u8, 'i' as u8, 'n' as u8, 'e' as u8]
}

pub open spec fn kw_undefine() -> Seq<u8> {
    seq!['u' as u8, 'n' as u8, 'd' as u8, 'e' as u8, 'f' as u8, 'i' as u8, 'n' as u8, 'e' as u8]
}

pub open spec fn kw_endef() -> Seq<u8> {
    seq!['e' as u8, 'n' as u8, 'd' as u8, 'e' as u8, 'f' as u8]
}

pub open spec fn kw_vpath() -> Seq<u8> {
    seq!['v' as u8, 'p' as u8, 'a' as u8, 't' as u8, 'h' as u8]
}

pub open spec fn kw_include() -> Seq<u8> {
    seq!['i' as u8, 'n' as u8, 'c' as u8, 'l' as u8, 'u' as u8, 'd' as u8, 'e' as u8]
}

pub open spec fn kw_dash_include() -> Seq<u8> {
    seq!['-' as u8, 'i' as u8, 'n' as u8, 'c' as u8, 'l' as u8, 'u' as u8, 'd' as u8, 'e' as u8]
}

pub open spec fn kw_sinclude() -> Seq<u8> {
    seq!['s' as u8, 'i' as u8, 'n' as u8, 'c' as u8, 'l' as u8, 'u' as u8, 'd' as u8, 'e' as u8]
}

pub open spec fn kw_load() -> Seq<u8> {
    seq!['l' as u8, 'o' as u8, 'a' as u8, 'd' as u8]
}

pub open spec fn kw_dash_load() -> Seq<u8> {
    seq!['-' as u8, 'l' as u8, 'o' as u8, 'a' as u8, 'd' as u8]
}

pub open spec fn kw_posix() -> Seq<u8> {
    seq!['.' as u8, 'P' as u8, 'O' as u8, 'S' as u8, 'I' as u8, 'X' as u8]
}

pub open spec fn kw_secondexpansion() -> Seq<u8> {
    seq![
        '.' as u8, 'S' as u8, 'E' as u8, 'C' as u8, 'O' as u8, 'N' as u8, 'D' as u8,
        'E' as u8, 'X' as u8, 'P' as u8, 'A' as u8, 'N' as u8, 'S' as u8, 'I' as u8,
        'O' as u8, 'N' as u8,
    ]
}

pub open spec fn kw_oneshell() -> Seq<u8> {
    seq!['.' as u8, 'O' as u8, 'N' as u8, 'E' as u8, 'S' as u8, 'H' as u8, 'E' as u8, 'L' as u8, 'L' as u8]
}

pub open spec fn kw_error() -> Seq<u8> {
    seq!['e' as u8, 'r' as u8, 'r' as u8, 'o' as u8, 'r' as u8]
}

pub open spec fn kw_warning() -> Seq<u8> {
    seq!['w' as u8, 'a' as u8, 'r' as u8, 'n' as u8, 'i' as u8, 'n' as u8, 'g' as u8]
}

pub open spec fn kw_info() -> Seq<u8> {
    seq!['i' as u8, 'n' as u8, 'f' as u8, 'o' as u8]
}

pub open spec fn kw_notdir() -> Seq<u8> {
    seq!['n' as u8, 'o' as u8, 't' as u8, 'd' as u8, 'i' as u8, 'r' as u8]
}

pub open spec fn kw_suffix() -> Seq<u8> {
    seq!['s' as u8, 'u' as u8, 'f' as u8, 'f' as u8, 'i' as u8, 'x' as u8]
}

pub open spec fn kw_basename() -> Seq<u8> {
    seq!['b' as u8, 'a' as u8, 's' as u8, 'e' as u8, 'n' as u8, 'a' as u8, 'm' as u8, 'e' as u8]
}

pub open spec fn kw_dir() -> Seq<u8> {
    seq!['d' as u8, 'i' as u8, 'r' as u8]
}

pub open spec fn kw_addprefix() -> Seq<u8> {
    seq!['a' as u8, 'd' as u8, 'd' as u8, 'p' as u8, 'r' as u8, 'e' as u8, 'f' as u8, 'i' as u8, 'x' as u8]
}

pub open spec fn kw_addsuffix() -> Seq<u8> {
    seq!['a' as u8, 'd' as u8, 'd' as u8, 's' as u8, 'u' as u8, 'f' as u8, 'f' as u8, 'i' as u8, 'x' as u8]
}

pub open spec fn kw_wait() -> Seq<u8> {
    seq!['.' as u8, 'W' as u8, 'A' as u8, 'I' as u8, 'T' as u8]
}

/// Byte-for-byte equality of two byte strings.
pub fn bytes_eq(a: &[u8], b: &[u8]) -> (r: bool)
    ensures
        r == (a@ == b@),
{
    if a.len() != b.len() {
        return false;
    }
    let mut i: usize = 0;
    while i < a.len()
        invariant
            a.len() == b.len(),
            0 <= i <= a.len(),
            forall|j: int| 0 <= j < i ==> a@[j] == b@[j],
        decreases a.len() - i,
    {
        if a[i] != b[i] {
            return false;
        }
        i += 1;
    }
    assert(a@ =~= b@);
    true
}

// ─── Flavors and assignments ─────────────────────────────────────────────

/// The assignment operator's flavor, mirroring make's `variable_flavor`.
#[derive(Clone, Copy, PartialEq, Eq, Hash, Debug)]
pub enum Flavor {
    /// `=` — recursively expanded.
    Recursive,
    /// `:=` / `::=` — simply (immediately) expanded.
    Simple,
    /// `:::=` — immediately expanded, value re-escaped.
    Expand,
    /// `+=` — append.
    Append,
    /// `!=` — shell assignment.
    Shell,
}

/// make's `variable_flavor` codes (`f_bogus` is 0).
pub const F_SIMPLE: u32 = 1;
pub const F_RECURSIVE: u32 = 2;
pub const F_EXPAND: u32 = 3;
pub const F_APPEND: u32 = 4;
pub const F_CONDITIONAL: u32 = 5;
pub const F_SHELL: u32 = 6;

pub open spec fn flavor_code(f: Flavor) -> u32 {
    match f {
        Flavor::Recursive => F_RECURSIVE,
        Flavor::Simple => F_SIMPLE,
        Flavor::Expand => F_EXPAND,
        Flavor::Append => F_APPEND,
        Flavor::Shell => F_SHELL,
    }
}

impl Flavor {
    /// The matching `variable_flavor` code for write-back into a variable.
    pub fn to_variable_flavor(self) -> (r: u32)
        ensures
            r == flavor_code(self),
    {
        match self {
            Flavor::Recursive => F_RECURSIVE,
            Flavor::Simple => F_SIMPLE,
            Flavor::Expand => F_EXPAND,
            Flavor::Append => F_APPEND,
            Flavor::Shell => F_SHELL,
        }
    }
}

/// A parsed variable assignment, expressed as byte offsets into the source
/// line.
#[derive(Clone, Copy, PartialEq, Eq, Hash, Debug)]
pub struct Assignment {
    /// Start offset of the variable name within the line.
    pub name_start: usize,
    /// Length of the variable name.
    pub name_len: usize,
    /// Assignment flavor.
    pub flavor: Flavor,
    /// Whether the operator was conditional (`?=`).
    pub conditional: bool,
    /// Offset just past the operator.
    pub op_end: usize,
    /// Offset of the first value byte (the operator's trailing whitespace
    /// skipped).
    pub value_start: usize,
}

impl Assignment {
    /// The variable name's byte range within the source line.
    pub fn name(&self) -> (r: Range<usize>)
        requires
            self.name_start + self.name_len <= usize::MAX,
        ensures
            r.start == self.name_start,
            r.end == self.name_start + self.name_len,
    {
        self.name_start..self.name_start + self.name_len
    }
}

// ─── Keyword classifiers ─────────────────────────────────────────────────

/// A conditional directive keyword (`ifdef`, `ifeq`, `else`, `endif`, …).
#[derive(Clone, Copy, PartialEq, Eq, Hash, Debug)]
pub enum Directive {
    /// `ifdef`
    Ifdef,
    /// `ifndef`
    Ifndef,
    /// `ifeq`
    Ifeq,
    /// `ifneq`
    Ifneq,
    /// `else`
    Else,
    /// `endif`
    Endif,
}

pub open spec fn directive_of(w: Seq<u8>) -> Option<Directive> {
    if w == kw_ifdef() {
        Some(Directive::Ifdef)
    } else if w == kw_ifndef() {
        Some(Directive::Ifndef)
    } else if w == kw_ifeq() {
        Some(Directive::Ifeq)
    } else if w == kw_ifneq() {
        Some(Directive::Ifneq)
    } else if w == kw_else() {
        Some(Directive::Else)
    } else if w == kw_endif() {
        Some(Directive::Endif)
    } else {
        None
    }
}

pub open spec fn directive_name(d: Directive) -> Seq<char> {
    match d {
        Directive::Ifdef => "ifdef"@,
        Directive::Ifndef => "ifndef"@,
        Directive::Ifeq => "ifeq"@,
        Directive::Ifneq => "ifneq"@,
        Directive::Else => "else"@,
        Directive::Endif => "endif"@,
    }
}

/// The directive's keyword as bytes.
pub open spec fn directive_bytes(d: Directive) -> Seq<u8> {
    match d {
        Directive::Ifdef => "ifdef".spec_bytes(),
        Directive::Ifndef => "ifndef".spec_bytes(),
        Directive::Ifeq => "ifeq".spec_bytes(),
        Directive::Ifneq => "ifneq".spec_bytes(),
        Directive::Else => "else".spec_bytes(),
        Directive::Endif => "endif".spec_bytes(),
    }
}

impl Directive {
    /// Classify `word` (a line's leading token) as a conditional directive, or
    /// `None` if it is not one. Matching is exact.
    pub fn from_word(word: &[u8]) -> (r: Option<Directive>)
        ensures
            r == directive_of(word@),
    {
        let k1: [u8; 5] = ['i' as u8, 'f' as u8, 'd' as u8, 'e' as u8, 'f' as u8];
        let k2: [u8; 6] = ['i' as u8, 'f' as u8, 'n' as u8, 'd' as u8, 'e' as u8, 'f' as u8];
        let k3: [u8; 4] = ['i' as u8, 'f' as u8, 'e' as u8, 'q' as u8];
        let k4: [u8; 5] = ['i' as u8, 'f' as u8, 'n' as u8, 'e' as u8, 'q' as u8];
        let k5: [u8; 4] = ['e' as u8, 'l' as u8, 's' as u8, 'e' as u8];
        let k6: [u8; 5] = ['e' as u8, 'n' as u8, 'd' as u8, 'i' as u8, 'f' as u8];
        assert(k1@ =~= kw_ifdef() && k2@ =~= kw_ifndef() && k3@ =~= kw_ifeq());
        assert(k4@ =~= kw_ifneq() && k5@ =~= kw_else() && k6@ =~= kw_endif());
        if bytes_eq(word, k1.as_slice()) {
            Some(Directive::Ifdef)
        } else if bytes_eq(word, k2.as_slice()) {
            Some(Directive::Ifndef)
        } else if bytes_eq(word, k3.as_slice()) {
            Some(Directive::Ifeq)
        } else if bytes_eq(word, k4.as_slice()) {
            Some(Directive::Ifneq)
        } else if bytes_eq(word, k5.as_slice()) {
            Some(Directive::Else)
        } else if bytes_eq(word, k6.as_slice()) {
            Some(Directive::Endif)
        } else {
            None
        }
    }

    /// The keyword, as used verbatim in make's diagnostics.
    pub fn name(self) -> (r: &'static str)
        ensures
            r@ == directive_name(self),
            r.spec_bytes() == directive_bytes(self),
    {
        match self {
            Directive::Ifdef => "ifdef",
            Directive::Ifndef => "ifndef",
            Directive::Ifeq => "ifeq",
            Directive::Ifneq => "ifneq",
            Directive::Else => "else",
            Directive::Endif => "endif",
        }
    }
}

/// A variable-definition modifier keyword that may prefix an assignment.
#[derive(Clone, Copy, PartialEq, Eq, Hash, Debug)]
pub enum VarModifier {
    /// `export`
    Export,
    /// `unexport`
    Unexport,
    /// `override`
    Override,
    /// `private`
    Private,
    /// `define`
    Define,
    /// `undefine`
    Undefine,
}

pub open spec fn var_modifier_of(w: Seq<u8>) -> Option<VarModifier> {
    if w == kw_export() {
        Some(VarModifier::Export)
    } else if w == kw_unexport() {
        Some(VarModifier::Unexport)
    } else if w == kw_override() {
        Some(VarModifier::Override)
    } else if w == kw_private() {
        Some(VarModifier::Private)
    } else if w == kw_define() {
        Some(VarModifier::Define)
    } else if w == kw_undefine() {
        Some(VarModifier::Undefine)
    } else {
        None
    }
}

impl VarModifier {
    /// Classify `word` as a variable-definition modifier, or `None`.
    pub fn from_word(word: &[u8]) -> (r: Option<VarModifier>)
        ensures
            r == var_modifier_of(word@),
    {
        let k1: [u8; 6] = ['e' as u8, 'x' as u8, 'p' as u8, 'o' as u8, 'r' as u8, 't' as u8];
        let k2: [u8; 8] = [
            'u' as u8, 'n' as u8, 'e' as u8, 'x' as u8, 'p' as u8, 'o' as u8, 'r' as u8, 't' as u8,
        ];
        let k3: [u8; 8] = [
            'o' as u8, 'v' as u8, 'e' as u8, 'r' as u8, 'r' as u8, 'i' as u8, 'd' as u8, 'e' as u8,
        ];
        let k4: [u8; 7] = ['p' as u8, 'r' as u8, 'i' as u8, 'v' as u8, 'a' as u8, 't' as u8, 'e' as u8];
        let k5: [u8; 6] = ['d' as u8, 'e' as u8, 'f' as u8, 'i' as u8, 'n' as u8, 'e' as u8];
        let k6: [u8; 8] = [
            'u' as u8, 'n' as u8, 'd' as u8, 'e' as u8, 'f' as u8, 'i' as u8, 'n' as u8, 'e' as u8,
        ];
        assert(k1@ =~= kw_export() && k2@ =~= kw_unexport() && k3@ =~= kw_override());
        assert(k4@ =~= kw_private() && k5@ =~= kw_define() && k6@ =~= kw_undefine());
        if bytes_eq(word, k1.as_slice()) {
            Some(VarModifier::Export)
        } else if bytes_eq(word, k2.as_slice()) {
            Some(VarModifier::Unexport)
        } else if bytes_eq(word, k3.as_slice()) {
            Some(VarModifier::Override)
        } else if bytes_eq(word, k4.as_slice()) {
            Some(VarModifier::Private)
        } else if bytes_eq(word, k5.as_slice()) {
            Some(VarModifier::Define)
        } else if bytes_eq(word, k6.as_slice()) {
            Some(VarModifier::Undefine)
        } else {
            None
        }
    }
}

/// A file/path directive keyword (`include`, `vpath`, `load`, …).
#[derive(Clone, Copy, PartialEq, Eq, Hash, Debug)]
pub enum FileDirective {
    /// `vpath`
    Vpath,
    /// `include` (missing file is an error)
    Include,
    /// `-include` / `sinclude` (missing file is silently ignored)
    IncludeOpt,
    /// `load` (missing object is an error)
    Load,
    /// `-load` (missing object is silently ignored)
    LoadOpt,
}

pub open spec fn file_directive_of(w: Seq<u8>) -> Option<FileDirective> {
    if w == kw_vpath() {
        Some(FileDirective::Vpath)
    } else if w == kw_include() {
        Some(FileDirective::Include)
    } else if w == kw_dash_include() || w == kw_sinclude() {
        Some(FileDirective::IncludeOpt)
    } else if w == kw_load() {
        Some(FileDirective::Load)
    } else if w == kw_dash_load() {
        Some(FileDirective::LoadOpt)
    } else {
        None
    }
}

impl FileDirective {
    /// Classify `word` as a file/path directive, or `None`.
    pub fn from_word(word: &[u8]) -> (r: Option<FileDirective>)
        ensures
            r == file_directive_of(word@),
    {
        let k1: [u8; 5] = ['v' as u8, 'p' as u8, 'a' as u8, 't' as u8, 'h' as u8];
        let k2: [u8; 7] = ['i' as u8, 'n' as u8, 'c' as u8, 'l' as u8, 'u' as u8, 'd' as u8, 'e' as u8];
        let k3: [u8; 8] = [
            '-' as u8, 'i' as u8, 'n' as u8, 'c' as u8, 'l' as u8, 'u' as u8, 'd' as u8, 'e' as u8,
        ];
        let k4: [u8; 8] = [
            's' as u8, 'i' as u8, 'n' as u8, 'c' as u8, 'l' as u8, 'u' as u8, 'd' as u8, 'e' as u8,
        ];
        let k5: [u8; 4] = ['l' as u8, 'o' as u8, 'a' as u8, 'd' as u8];
        let k6: [u8; 5] = ['-' as u8, 'l' as u8, 'o' as u8, 'a' as u8, 'd' as u8];
        assert(k1@ =~= kw_vpath() && k2@ =~= kw_include() && k3@ =~= kw_dash_include());
        assert(k4@ =~= kw_sinclude() && k5@ =~= kw_load() && k6@ =~= kw_dash_load());
        if bytes_eq(word, k1.as_slice()) {
            Some(FileDirective::Vpath)
        } else if bytes_eq(word, k2.as_slice()) {
            Some(FileDirective::Include)
        } else if bytes_eq(word, k3.as_slice()) || bytes_eq(word, k4.as_slice()) {
            Some(FileDirective::IncludeOpt)
        } else if bytes_eq(word, k5.as_slice()) {
            Some(FileDirective::Load)
        } else if bytes_eq(word, k6.as_slice()) {
            Some(FileDirective::LoadOpt)
        } else {
            None
        }
    }
}

/// A `define`/`endef` block keyword.
#[derive(Clone, Copy, PartialEq, Eq, Hash, Debug)]
pub enum DefineKeyword {
    /// `define` — opens a multi-line definition.
    Define,
    /// `endef` — closes a multi-line definition.
    Endef,
}

pub open spec fn define_keyword_of(w: Seq<u8>) -> Option<DefineKeyword> {
    if w == kw_define() {
        Some(DefineKeyword::Define)
    } else if w == kw_endef() {
        Some(DefineKeyword::Endef)
    } else {
        None
    }
}

impl DefineKeyword {
    /// Classify `word` as a define-block keyword, or `None`.
    pub fn from_word(word: &[u8]) -> (r: Option<DefineKeyword>)
        ensures
            r == define_keyword_of(word@),
    {
        let k1: [u8; 6] = ['d' as u8, 'e' as u8, 'f' as u8, 'i' as u8, 'n' as u8, 'e' as u8];
        let k2: [u8; 5] = ['e' as u8, 'n' as u8, 'd' as u8, 'e' as u8, 'f' as u8];
        assert(k1@ =~= kw_define() && k2@ =~= kw_endef());
        if bytes_eq(word, k1.as_slice()) {
            Some(DefineKeyword::Define)
        } else if bytes_eq(word, k2.as_slice()) {
            Some(DefineKeyword::Endef)
        } else {
            None
        }
    }
}

/// The coarse kind of a logical line, decided from its first byte.
#[derive(Clone, Copy, PartialEq, Eq, Hash, Debug)]
pub enum LineKind {
    /// An empty line (the first byte is the NUL terminator).
    Blank,
    /// A recipe line (begins with the recipe prefix character).
    Recipe,
    /// Any other line — parsed further by the reader.
    Other,
}

pub open spec fn line_kind_of(first_byte: u8, prefix: u8) -> LineKind {
    if first_byte == 0 {
        LineKind::Blank
    } else if first_byte == prefix {
        LineKind::Recipe
    } else {
        LineKind::Other
    }
}

impl LineKind {
    /// Classify a logical line from its `first_byte` and the active recipe
    /// `prefix`: the empty-line test comes first, then the recipe-prefix test.
    pub fn classify(first_byte: u8, prefix: u8) -> (r: LineKind)
        ensures
            r == line_kind_of(first_byte, prefix),
    {
        if first_byte == 0 {
            LineKind::Blank
        } else if first_byte == prefix {
            LineKind::Recipe
        } else {
            LineKind::Other
        }
    }
}

/// A special target whose declaration toggles a global reader mode.
#[derive(Clone, Copy, PartialEq, Eq, Hash, Debug)]
pub enum SpecialTarget {
    /// `.POSIX`
    Posix,
    /// `.SECONDEXPANSION`
    SecondExpansion,
    /// `.ONESHELL`
    OneShell,
}

pub open spec fn special_target_of(w: Seq<u8>) -> Option<SpecialTarget> {
    if w == kw_posix() {
        Some(SpecialTarget::Posix)
    } else if w == kw_secondexpansion() {
        Some(SpecialTarget::SecondExpansion)
    } else if w == kw_oneshell() {
        Some(SpecialTarget::OneShell)
    } else {
        None
    }
}

impl SpecialTarget {
    /// Classify a target `name` as a reader-mode special target, or `None`.
    pub fn from_name(name: &[u8]) -> (r: Option<SpecialTarget>)
        ensures
            r == special_target_of(name@),
    {
        let k1: [u8; 6] = ['.' as u8, 'P' as u8, 'O' as u8, 'S' as u8, 'I' as u8, 'X' as u8];
        let k2: [u8; 16] = [
            '.' as u8, 'S' as u8, 'E' as u8, 'C' as u8, 'O' as u8, 'N' as u8, 'D' as u8,
            'E' as u8, 'X' as u8, 'P' as u8, 'A' as u8, 'N' as u8, 'S' as u8, 'I' as u8,
            'O' as u8, 'N' as u8,
        ];
        let k3: [u8; 9] = [
            '.' as u8, 'O' as u8, 'N' as u8, 'E' as u8, 'S' as u8, 'H' as u8, 'E' as u8, 'L' as u8,
            'L' as u8,
        ];
        assert(k1@ =~= kw_posix() && k2@ =~= kw_secondexpansion() && k3@ =~= kw_oneshell());
        if bytes_eq(name, k1.as_slice()) {
            Some(SpecialTarget::Posix)
        } else if bytes_eq(name, k2.as_slice()) {
            Some(SpecialTarget::SecondExpansion)
        } else if bytes_eq(name, k3.as_slice()) {
            Some(SpecialTarget::OneShell)
        } else {
            None
        }
    }
}

/// The diagnostic expansion functions `$(error …)`, `$(warning …)`, `$(info …)`.
#[derive(Clone, Copy, PartialEq, Eq, Hash, Debug)]
pub enum LogFunction {
    /// `$(error …)`
    Error,
    /// `$(warning …)`
    Warning,
    /// `$(info …)`
    Info,
}

pub open spec fn log_function_of(w: Seq<u8>) -> Option<LogFunction> {
    if w == kw_error() {
        Some(LogFunction::Error)
    } else if w == kw_warning() {
        Some(LogFunction::Warning)
    } else if w == kw_info() {
        Some(LogFunction::Info)
    } else {
        None
    }
}

impl LogFunction {
    /// Classify a built-in function `name` as a diagnostic function, or `None`.
    pub fn from_funcname(name: &[u8]) -> (r: Option<LogFunction>)
        ensures
            r == log_function_of(name@),
    {
        let k1: [u8; 5] = ['e' as u8, 'r' as u8, 'r' as u8, 'o' as u8, 'r' as u8];
        let k2: [u8; 7] = ['w' as u8, 'a' as u8, 'r' as u8, 'n' as u8, 'i' as u8, 'n' as u8, 'g' as u8];
        let k3: [u8; 4] = ['i' as u8, 'n' as u8, 'f' as u8, 'o' as u8];
        assert(k1@ =~= kw_error() && k2@ =~= kw_warning() && k3@ =~= kw_info());
        if bytes_eq(name, k1.as_slice()) {
            Some(LogFunction::Error)
        } else if bytes_eq(name, k2.as_slice()) {
            Some(LogFunction::Warning)
        } else if bytes_eq(name, k3.as_slice()) {
            Some(LogFunction::Info)
        } else {
            None
        }
    }
}

/// `$(notdir …)` and `$(suffix …)`.
#[derive(Clone, Copy, PartialEq, Eq, Hash, Debug)]
pub enum NotdirSuffix {
    /// `$(notdir …)`
    Notdir,
    /// `$(suffix …)`
    Suffix,
}

pub open spec fn notdir_suffix_of(w: Seq<u8>) -> Option<NotdirSuffix> {
    if w == kw_notdir() {
        Some(NotdirSuffix::Notdir)
    } else if w == kw_suffix() {
        Some(NotdirSuffix::Suffix)
    } else {
        None
    }
}

impl NotdirSuffix {
    /// Classify a built-in function `name`, or `None`.
    pub fn from_funcname(name: &[u8]) -> (r: Option<NotdirSuffix>)
        ensures
            r == notdir_suffix_of(name@),
    {
        let k1: [u8; 6] = ['n' as u8, 'o' as u8, 't' as u8, 'd' as u8, 'i' as u8, 'r' as u8];
        let k2: [u8; 6] = ['s' as u8, 'u' as u8, 'f' as u8, 'f' as u8, 'i' as u8, 'x' as u8];
        assert(k1@ =~= kw_notdir() && k2@ =~= kw_suffix());
        if bytes_eq(name, k1.as_slice()) {
            Some(NotdirSuffix::Notdir)
        } else if bytes_eq(name, k2.as_slice()) {
            Some(NotdirSuffix::Suffix)
        } else {
            None
        }
    }
}

/// `$(basename …)` and `$(dir …)`.
#[derive(Clone, Copy, PartialEq, Eq, Hash, Debug)]
pub enum BasenameDir {
    /// `$(basename …)`
    Basename,
    /// `$(dir …)`
    Dir,
}

pub open spec fn basename_dir_of(w: Seq<u8>) -> Option<BasenameDir> {
    if w == kw_basename() {
        Some(BasenameDir::Basename)
    } else if w == kw_dir() {
        Some(BasenameDir::Dir)
    } else {
        None
    }
}

impl BasenameDir {
    /// Classify a built-in function `name`, or `None`.
    pub fn from_funcname(name: &[u8]) -> (r: Option<BasenameDir>)
        ensures
            r == basename_dir_of(name@),
    {
        let k1: [u8; 8] = [
            'b' as u8, 'a' as u8, 's' as u8, 'e' as u8, 'n' as u8, 'a' as u8, 'm' as u8, 'e' as u8,
        ];
        let k2: [u8; 3] = ['d' as u8, 'i' as u8, 'r' as u8];
        assert(k1@ =~= kw_basename() && k2@ =~= kw_dir());
        if bytes_eq(name, k1.as_slice()) {
            Some(BasenameDir::Basename)
        } else if bytes_eq(name, k2.as_slice()) {
            Some(BasenameDir::Dir)
        } else {
            None
        }
    }
}

/// `$(addprefix …)` and `$(addsuffix …)`.
#[derive(Clone, Copy, PartialEq, Eq, Hash, Debug)]
pub enum AddprefixAddsuffix {
    /// `$(addprefix …)`
    Addprefix,
    /// `$(addsuffix …)`
    Addsuffix,
}

pub open spec fn addprefix_addsuffix_of(w: Seq<u8>) -> Option<AddprefixAddsuffix> {
    if w == kw_addprefix() {
        Some(AddprefixAddsuffix::Addprefix)
    } else if w == kw_addsuffix() {
        Some(AddprefixAddsuffix::Addsuffix)
    } else {
        None
    }
}

impl AddprefixAddsuffix {
    /// Classify a built-in function `name`, or `None`.
    pub fn from_funcname(name: &[u8]) -> (r: Option<AddprefixAddsuffix>)
        ensures
            r == addprefix_addsuffix_of(name@),
    {
        let k1: [u8; 9] = [
            'a' as u8, 'd' as u8, 'd' as u8, 'p' as u8, 'r' as u8, 'e' as u8, 'f' as u8, 'i' as u8,
            'x' as u8,
        ];
        let k2: [u8; 9] = [
            'a' as u8, 'd' as u8, 'd' as u8, 's' as u8, 'u' as u8, 'f' as u8, 'f' as u8, 'i' as u8,
            'x' as u8,
        ];
        assert(k1@ =~= kw_addprefix() && k2@ =~= kw_addsuffix());
        if bytes_eq(name, k1.as_slice()) {
            Some(AddprefixAddsuffix::Addprefix)
        } else if bytes_eq(name, k2.as_slice()) {
            Some(AddprefixAddsuffix::Addsuffix)
        } else {
            None
        }
    }
}


// ─── Token scanners ──────────────────────────────────────────────────────

/// make's `next_token`: the first index at or after `i` whose byte is not a
/// blank or newline.
pub open spec fn next_token(s: Seq<u8>, i: int) -> int
    decreases s.len() - i,
{
    if is_space(byte_at(s, i)) {
        next_token(s, i + 1)
    } else {
        i
    }
}

/// make's `end_of_token`: the first index at or after `i` whose byte is a
/// blank, a newline or the NUL.
pub open spec fn end_of_token(s: Seq<u8>, i: int) -> int
    decreases s.len() - i,
{
    if !(is_space(byte_at(s, i)) || byte_at(s, i) == 0) {
        end_of_token(s, i + 1)
    } else {
        i
    }
}

/// The first index at or after `i` whose byte is a blank or the NUL (a newline
/// does not end the token) — the scan of a `define` body line.
pub open spec fn end_of_blank_token(s: Seq<u8>, i: int) -> int
    decreases s.len() - i,
{
    if !(is_blank(byte_at(s, i)) || byte_at(s, i) == 0) {
        end_of_blank_token(s, i + 1)
    } else {
        i
    }
}

pub proof fn lemma_next_token(s: Seq<u8>, i: int)
    ensures
        i <= next_token(s, i),
        0 <= i <= s.len() ==> next_token(s, i) <= s.len(),
        i < 0 ==> next_token(s, i) == i,
        forall|k: int| i <= k < next_token(s, i) ==> is_space(#[trigger] byte_at(s, k)),
        !is_space(byte_at(s, next_token(s, i))),
    decreases s.len() - i,
{
    if is_space(byte_at(s, i)) {
        lemma_next_token(s, i + 1);
    }
}

pub proof fn lemma_end_of_token(s: Seq<u8>, i: int)
    ensures
        i <= end_of_token(s, i),
        0 <= i <= s.len() ==> end_of_token(s, i) <= s.len(),
        i < 0 ==> end_of_token(s, i) == i,
        forall|k: int|
            i <= k < end_of_token(s, i) ==> !is_space(#[trigger] byte_at(s, k)) && byte_at(s, k)
                != 0,
        is_space(byte_at(s, end_of_token(s, i))) || byte_at(s, end_of_token(s, i)) == 0,
    decreases s.len() - i,
{
    if !(is_space(byte_at(s, i)) || byte_at(s, i) == 0) {
        lemma_end_of_token(s, i + 1);
    }
}

pub proof fn lemma_end_of_blank_token(s: Seq<u8>, i: int)
    ensures
        i <= end_of_blank_token(s, i),
        0 <= i <= s.len() ==> end_of_blank_token(s, i) <= s.len(),
    decreases s.len() - i,
{
    if !(is_blank(byte_at(s, i)) || byte_at(s, i) == 0) {
        lemma_end_of_blank_token(s, i + 1);
    }
}

/// Advance past a token (to the first blank/newline/NUL).
pub(crate) fn end_of_token_off(bytes: &[u8], i: usize) -> (r: usize)
    ensures
        r == end_of_token(bytes@, i as int),
{
    let mut i = i;
    let ghost i0 = i as int;
    while !map_set(at(bytes, i), MAP_BLANK | MAP_NEWLINE | MAP_NUL)
        invariant
            i0 <= i,
            end_of_token(bytes@, i as int) == end_of_token(bytes@, i0),
        decreases bytes.len() - i,
    {
        i += 1;
    }
    i
}

/// Skip leading blanks/newlines.
pub(crate) fn next_token_off(bytes: &[u8], i: usize) -> (r: usize)
    ensures
        r == next_token(bytes@, i as int),
{
    let mut i = i;
    let ghost i0 = i as int;
    while map_set(at(bytes, i), MAP_BLANK | MAP_NEWLINE)
        invariant
            i0 <= i,
            next_token(bytes@, i as int) == next_token(bytes@, i0),
        decreases bytes.len() - i,
    {
        i += 1;
    }
    i
}

/// Classify the leading `define`/`endef` keyword of a line in a `define`
/// body, returning the keyword (if any) and the offset just past the leading
/// token. The token ends at a blank or NUL only — not at a newline.
pub fn define_keyword(bytes: &[u8]) -> (r: (Option<DefineKeyword>, usize))
    ensures
        r.1 == end_of_blank_token(bytes@, 0),
        r.0 == define_keyword_of(bytes@.subrange(0, r.1 as int)),
{
    let mut i: usize = 0;
    proof {
        lemma_end_of_blank_token(bytes@, 0);
    }
    while !map_set(at(bytes, i), MAP_BLANK | MAP_NUL)
        invariant
            0 <= i,
            end_of_blank_token(bytes@, i as int) == end_of_blank_token(bytes@, 0),
        decreases bytes.len() - i,
    {
        i += 1;
    }
    (DefineKeyword::from_word(&bytes[0..i]), i)
}

/// Whether the line closes an ignored `define` body: its first token is
/// exactly `endef` and only a comment or end-of-line follows.
pub open spec fn closes_ignored_define_spec(s: Seq<u8>) -> bool {
    let word_end = end_of_token(s, 0);
    let after = byte_at(s, next_token(s, word_end));
    define_keyword_of(s.subrange(0, word_end)) == Some(DefineKeyword::Endef) && (after
        == '#' as u8 || after == 0)
}

/// Whether `bytes` closes an *ignored* `define` body.
pub fn closes_ignored_define(bytes: &[u8]) -> (r: bool)
    ensures
        r == closes_ignored_define_spec(bytes@),
{
    let word_end = end_of_token_off(bytes, 0);
    proof {
        lemma_end_of_token(bytes@, 0);
    }
    match DefineKeyword::from_word(&bytes[0..word_end]) {
        Some(DefineKeyword::Endef) => {},
        _ => return false,
    }
    map_set(at(bytes, next_token_off(bytes, word_end)), MAP_COMMENT | MAP_NUL)
}

/// The result of [`rule_probe`].
#[derive(Clone, Copy, PartialEq, Eq, Hash, Debug)]
pub struct RuleProbe {
    /// Length of the leading token (`end_of_token`).
    pub word_len: usize,
    /// Offset of the first non-blank byte after the leading token.
    pub rest: usize,
    /// The line is a rule: a `:` (or `&:` / `|:`) follows the first token.
    pub is_rule: bool,
}

/// Probe a target/rule line: measure the first token, skip the blanks after
/// it, and decide whether its next significant characters are `:`, `&:` or
/// `|:`.
pub fn rule_probe(bytes: &[u8]) -> (r: RuleProbe)
    ensures
        r.word_len == end_of_token(bytes@, 0),
        r.rest == next_token(bytes@, r.word_len as int),
        r.is_rule == (byte_at(bytes@, r.rest as int) == ':' as u8 || ((byte_at(bytes@, r.rest as int)
            == '&' as u8 || byte_at(bytes@, r.rest as int) == '|' as u8) && byte_at(
            bytes@,
            r.rest + 1,
        ) == ':' as u8)),
{
    let word_len = end_of_token_off(bytes, 0);
    proof {
        lemma_end_of_token(bytes@, 0);
        lemma_next_token(bytes@, word_len as int);
    }
    let rest = next_token_off(bytes, word_len);
    let c = at(bytes, rest);
    let is_rule = if c == ':' as u8 {
        true
    } else if c == '&' as u8 || c == '|' as u8 {
        let n = bytes.len();
        assert(rest < n);
        at(bytes, rest + 1) == ':' as u8
    } else {
        false
    };
    RuleProbe { word_len, rest, is_rule }
}

/// The byte range of the name in `bytes`: skip leading whitespace, then trim
/// trailing blanks (not newlines), keeping at least one byte; `None` when the
/// input is empty or all whitespace.
pub fn trimmed_token(bytes: &[u8]) -> (r: Option<Range<usize>>)
    ensures
        r is None <==> byte_at(bytes@, next_token(bytes@, 0)) == 0,
        r matches Some(rg) ==> {
            &&& rg.start == next_token(bytes@, 0)
            &&& rg.start < rg.end <= bytes@.len()
            &&& forall|k: int| rg.end <= k < bytes@.len() ==> is_blank(#[trigger] bytes@[k])
            &&& (rg.end - 1 == rg.start || !is_blank(bytes@[rg.end - 1]))
        },
{
    let start = next_token_off(bytes, 0);
    proof {
        lemma_next_token(bytes@, 0);
    }
    if at(bytes, start) == 0 {
        return None;
    }
    let mut end = bytes.len();
    while end - 1 > start && map_set(at(bytes, end - 1), MAP_BLANK)
        invariant
            start < end <= bytes@.len(),
            forall|k: int| end <= k < bytes@.len() ==> is_blank(#[trigger] bytes@[k]),
        decreases end,
    {
        end -= 1;
    }
    Some(start..end)
}

/// Whether the rest of the line is empty or only whitespace.
pub fn rest_is_blank(bytes: &[u8]) -> (r: bool)
    ensures
        r == (byte_at(bytes@, next_token(bytes@, 0)) == 0),
{
    at(bytes, next_token_off(bytes, 0)) == 0
}

/// `ifeq`/`ifneq` not followed by a blank (a NUL past the end counts as
/// non-blank).
pub open spec fn ifeq_ifneq_without_separator_spec(s: Seq<u8>) -> bool {
    &&& s.len() >= 2 && s[0] == 'i' as u8 && s[1] == 'f' as u8
    &&& {
        ||| s.len() >= 5 && s[2] == 'n' as u8 && s[3] == 'e' as u8 && s[4] == 'q' as u8 && !is_blank(
            byte_at(s, 5),
        )
        ||| s.len() >= 4 && s[2] == 'e' as u8 && s[3] == 'q' as u8 && !is_blank(byte_at(s, 4))
    }
}

/// Whether a "missing separator" line begins with `ifeq`/`ifneq` that is not
/// followed by whitespace.
pub fn ifeq_ifneq_without_separator(bytes: &[u8]) -> (r: bool)
    ensures
        r == ifeq_ifneq_without_separator_spec(bytes@),
{
    if bytes.len() < 2 || bytes[0] != 'i' as u8 || bytes[1] != 'f' as u8 {
        return false;
    }
    (bytes.len() >= 5 && bytes[2] == 'n' as u8 && bytes[3] == 'e' as u8 && bytes[4] == 'q' as u8
        && !map_set(at(bytes, 5), MAP_BLANK)) || (bytes.len() >= 4 && bytes[2] == 'e' as u8
        && bytes[3] == 'q' as u8 && !map_set(at(bytes, 4), MAP_BLANK))
}

/// Whether a parsed file-sequence token is exactly `.WAIT`.
pub fn is_wait_token(token: &[u8]) -> (r: bool)
    ensures
        r == (token@ == kw_wait()),
{
    let kw: [u8; 5] = ['.' as u8, 'W' as u8, 'A' as u8, 'I' as u8, 'T' as u8];
    assert(kw@ =~= kw_wait());
    bytes_eq(token, kw.as_slice())
}

/// Whether a prerequisite string needs second expansion: it contains a `$`.
pub fn prereq_needs_second_expansion(depstr: &[u8]) -> (r: bool)
    ensures
        r == depstr@.contains('$' as u8),
{
    let mut i: usize = 0;
    while i < depstr.len()
        invariant
            0 <= i <= depstr@.len(),
            forall|k: int| 0 <= k < i ==> depstr@[k] != '$' as u8,
        decreases depstr.len() - i,
    {
        if depstr[i] == '$' as u8 {
            assert(depstr@[i as int] == '$' as u8);
            return true;
        }
        i += 1;
    }
    false
}

/// Whether a line begins with eight space characters.
pub fn starts_with_eight_spaces(line: &[u8]) -> (r: bool)
    ensures
        r == (line@.len() >= 8 && forall|k: int| 0 <= k < 8 ==> line@[k] == 32),
{
    if line.len() < 8 {
        return false;
    }
    let mut i: usize = 0;
    while i < 8
        invariant
            line@.len() >= 8,
            0 <= i <= 8,
            forall|k: int| 0 <= k < i ==> line@[k] == 32,
        decreases 8 - i,
    {
        if line[i] != 32 {
            return false;
        }
        i += 1;
    }
    true
}

/// The first index at or after `j` that is not a `/`.
pub open spec fn skip_slashes(s: Seq<u8>, j: int) -> int
    decreases s.len() - j,
{
    if 0 <= j < s.len() && s[j] == '/' as u8 {
        skip_slashes(s, j + 1)
    } else {
        j
    }
}

pub proof fn lemma_skip_slashes(s: Seq<u8>, j: int)
    ensures
        j <= skip_slashes(s, j),
        0 <= j <= s.len() ==> skip_slashes(s, j) <= s.len(),
    decreases s.len() - j,
{
    if 0 <= j < s.len() && s[j] == '/' as u8 {
        lemma_skip_slashes(s, j + 1);
    }
}

/// Strip `./` pairs (each followed by any run of `/`) from position `i` while
/// more than two bytes remain.
pub open spec fn dot_slash_prefix(s: Seq<u8>, i: int) -> int
    decreases s.len() - i,
{
    if 0 <= i && s.len() - i > 2 && s[i] == '.' as u8 && s[i + 1] == '/' as u8 {
        proof {
            lemma_skip_slashes(s, i + 2);
        }
        dot_slash_prefix(s, skip_slashes(s, i + 2))
    } else {
        i
    }
}

pub proof fn lemma_dot_slash_prefix(s: Seq<u8>, i: int)
    requires
        0 <= i <= s.len(),
    ensures
        i <= dot_slash_prefix(s, i) <= s.len(),
    decreases s.len() - i,
{
    if 0 <= i && s.len() - i > 2 && s[i] == '.' as u8 && s[i + 1] == '/' as u8 {
        lemma_skip_slashes(s, i + 2);
        lemma_dot_slash_prefix(s, skip_slashes(s, i + 2));
    }
}

/// How many leading bytes of a file-sequence token are redundant `./`
/// prefixes: repeatedly drop a `./` pair followed by any run of `/`, as long as
/// more than two bytes of the token remain.
pub fn strip_dot_slash_prefix(token: &[u8]) -> (r: usize)
    ensures
        r == dot_slash_prefix(token@, 0),
        r <= token@.len(),
{
    let mut i: usize = 0;
    proof {
        lemma_dot_slash_prefix(token@, 0);
    }
    while token.len() - i > 2 && token[i] == '.' as u8 && token[i + 1] == '/' as u8
        invariant
            0 <= i <= token@.len(),
            dot_slash_prefix(token@, i as int) == dot_slash_prefix(token@, 0),
        decreases token.len() - i,
    {
        proof {
            lemma_skip_slashes(token@, i + 2);
        }
        i += 2;
        let ghost j0 = i as int;
        while i < token.len() && token[i] == '/' as u8
            invariant
                0 <= i <= token@.len(),
                skip_slashes(token@, i as int) == skip_slashes(token@, j0),
                dot_slash_prefix(token@, skip_slashes(token@, j0)) == dot_slash_prefix(token@, 0),
            decreases token.len() - i,
        {
            i += 1;
        }
    }
    i
}

/// If `bytes` is a single leading token optionally followed by trailing
/// blanks, the token's length; otherwise `None`.
pub fn lone_token(bytes: &[u8]) -> (r: Option<usize>)
    ensures
        r == (if byte_at(bytes@, next_token(bytes@, end_of_token(bytes@, 0))) == 0 {
            Some(end_of_token(bytes@, 0) as usize)
        } else {
            None::<usize>
        }),
{
    let end = end_of_token_off(bytes, 0);
    proof {
        lemma_end_of_token(bytes@, 0);
    }
    if at(bytes, next_token_off(bytes, end)) == 0 {
        Some(end)
    } else {
        None
    }
}


// ─── References ──────────────────────────────────────────────────────────

/// Scan a `$(`/`${` reference whose last examined byte is at `p` and whose
/// nesting depth is `count`: returns the index just past the matching close
/// bracket, or the index of the NUL that ends the text first.
pub open spec fn ref_scan(s: Seq<u8>, p: int, open: u8, close: u8, count: int) -> int
    decreases s.len() - p,
{
    let q = p + 1;
    let c = byte_at(s, q);
    if c == 0 {
        q
    } else if c == open {
        ref_scan(s, q, open, close, count + 1)
    } else if c == close {
        if count - 1 == 0 {
            q + 1
        } else {
            ref_scan(s, q, open, close, count - 1)
        }
    } else {
        ref_scan(s, q, open, close, count)
    }
}

/// Skip a `$(...)`/`${...}` reference (nesting respected) or a one-byte
/// reference like `$X`; `p` is just past the `$`.
pub open spec fn skip_ref(s: Seq<u8>, p: int) -> int {
    let c = byte_at(s, p);
    if c == 0 {
        p
    } else if c == '(' as u8 {
        ref_scan(s, p, '(' as u8, ')' as u8, 1)
    } else if c == '{' as u8 {
        ref_scan(s, p, '{' as u8, '}' as u8, 1)
    } else {
        p + 1
    }
}

pub proof fn lemma_ref_scan(s: Seq<u8>, p: int, open: u8, close: u8, count: int)
    requires
        -1 <= p < s.len(),
    ensures
        p < ref_scan(s, p, open, close, count) <= s.len(),
    decreases s.len() - p,
{
    let q = p + 1;
    let c = byte_at(s, q);
    if c == 0 {
    } else if c == open {
        lemma_ref_scan(s, q, open, close, count + 1);
    } else if c == close {
        if count - 1 != 0 {
            lemma_ref_scan(s, q, open, close, count - 1);
        }
    } else {
        lemma_ref_scan(s, q, open, close, count);
    }
}

pub proof fn lemma_skip_ref(s: Seq<u8>, p: int)
    requires
        0 <= p,
    ensures
        p <= skip_ref(s, p),
        p <= s.len() ==> skip_ref(s, p) <= s.len(),
        byte_at(s, p) != 0 ==> p < skip_ref(s, p),
        byte_at(s, p) == 0 ==> skip_ref(s, p) == p,
{
    if byte_at(s, p) != 0 && (byte_at(s, p) == '(' as u8 || byte_at(s, p) == '{' as u8) {
        if byte_at(s, p) == '(' as u8 {
            lemma_ref_scan(s, p, '(' as u8, ')' as u8, 1);
        } else {
            lemma_ref_scan(s, p, '{' as u8, '}' as u8, 1);
        }
    }
}

/// Skip a `$(...)`/`${...}` reference embedded in a name, honoring nested
/// parens/braces. `p` points just past the `$`.
fn skip_reference(bytes: &[u8], start: usize) -> (r: usize)
    ensures
        r == skip_ref(bytes@, start as int),
{
    let n = bytes.len();
    let mut p = start;
    let openparen = at(bytes, p);
    if openparen == 0 {
        return p;
    }
    let closeparen = if openparen == '(' as u8 {
        ')' as u8
    } else if openparen == '{' as u8 {
        '}' as u8
    } else {
        return p + 1;
    };
    let mut count: usize = 1;
    loop
        invariant
            n == bytes@.len(),
            0 <= p < n,
            1 <= count <= p + 1,
            (openparen == '(' as u8 && closeparen == ')' as u8) || (openparen == '{' as u8
                && closeparen == '}' as u8),
            ref_scan(bytes@, p as int, openparen, closeparen, count as int) == skip_ref(
                bytes@,
                start as int,
            ),
        decreases n - p,
    {
        p += 1;
        let c = at(bytes, p);
        if !map_set(c, MAP_NUL | MAP_VARSEP) {
            continue;
        }
        if c == 0 {
            return p;
        }
        if c == openparen {
            count += 1;
        } else if c == closeparen {
            count -= 1;
            if count == 0 {
                return p + 1;
            }
        }
    }
}

// ─── Variable assignments ────────────────────────────────────────────────

/// The outcome of one operator: where the name ended, the flavor, whether it
/// was conditional, and the offset just past the operator.
pub struct AssignOp {
    pub end: int,
    pub flavor: Flavor,
    pub conditional: bool,
    pub op_end: int,
}

/// make's `parse_variable_definition`, from position `p` with the name's end
/// (if a blank already ended it) and the pending `?`.
pub open spec fn assign_scan(s: Seq<u8>, p: int, end: Option<int>, cond: bool) -> Option<AssignOp>
    decreases s.len() + 1 - p,
{
    let c0 = byte_at(s, p);
    if p < 0 || p > s.len() || c0 == '#' as u8 || c0 == 0 {
        None
    } else if is_blank(c0) {
        if end is Some {
            None
        } else {
            proof {
                lemma_next_token(s, p + 1);
            }
            assign_scan(s, next_token(s, p + 1), Some(p), cond)
        }
    } else {
        let start = p;
        let q = if c0 == '?' as u8 { p + 2 } else { p + 1 };
        let c = if c0 == '?' as u8 { byte_at(s, p + 1) } else { c0 };
        let cond2 = cond || c0 == '?' as u8;
        let name_end = match end { Some(e) => e, None => start };
        if c == '=' as u8 {
            Some(AssignOp { end: name_end, flavor: Flavor::Recursive, conditional: cond2, op_end: q })
        } else if c == ':' as u8 {
            if byte_at(s, q) == '=' as u8 {
                Some(AssignOp { end: name_end, flavor: Flavor::Simple, conditional: cond2, op_end: q + 1 })
            } else if byte_at(s, q) == ':' as u8 && byte_at(s, q + 1) == '=' as u8 {
                Some(AssignOp { end: name_end, flavor: Flavor::Simple, conditional: cond2, op_end: q + 2 })
            } else if byte_at(s, q) == ':' as u8 && byte_at(s, q + 1) == ':' as u8 && byte_at(s, q + 2)
                == '=' as u8 {
                Some(AssignOp { end: name_end, flavor: Flavor::Expand, conditional: cond2, op_end: q + 3 })
            } else {
                None
            }
        } else if byte_at(s, q) == '=' as u8 && c == '+' as u8 {
            Some(AssignOp { end: name_end, flavor: Flavor::Append, conditional: cond2, op_end: q + 1 })
        } else if byte_at(s, q) == '=' as u8 && c == '!' as u8 {
            Some(AssignOp { end: name_end, flavor: Flavor::Shell, conditional: cond2, op_end: q + 1 })
        } else if end is Some {
            None
        } else {
            proof {
                lemma_skip_ref(s, q);
            }
            let next = if c == '$' as u8 { skip_ref(s, q) } else { q };
            assign_scan(s, next, None, false)
        }
    }
}

/// The whole line as a variable definition, or `None`.
pub open spec fn parse_assignment_spec(s: Seq<u8>) -> Option<Assignment> {
    let name_start = next_token(s, 0);
    match assign_scan(s, name_start, None, false) {
        Some(op) => Some(
            Assignment {
                name_start: name_start as usize,
                name_len: (op.end - name_start) as usize,
                flavor: op.flavor,
                conditional: op.conditional,
                op_end: op.op_end as usize,
                value_start: next_token(s, op.op_end) as usize,
            },
        ),
        None => None,
    }
}

/// An optional offset, widened.
pub open spec fn opt_int(o: Option<usize>) -> Option<int> {
    match o {
        Some(e) => Some(e as int),
        None => None,
    }
}

pub proof fn lemma_assign_scan(s: Seq<u8>, p: int, end: Option<int>, cond: bool)
    requires
        0 <= p,
        end matches Some(e) ==> 0 <= e <= p,
    ensures
        assign_scan(s, p, end, cond) matches Some(op) ==> {
            &&& 0 <= op.end <= p || (end is None && p <= op.end)
            &&& (end matches Some(e) ==> op.end == e)
            &&& op.end < op.op_end <= s.len()
            &&& s[op.op_end - 1] == '=' as u8
        },
    decreases s.len() + 1 - p,
{
    let c0 = byte_at(s, p);
    if p < 0 || p > s.len() || c0 == '#' as u8 || c0 == 0 {
    } else if is_blank(c0) {
        if end is None {
            lemma_next_token(s, p + 1);
            lemma_assign_scan(s, next_token(s, p + 1), Some(p), cond);
        }
    } else {
        let q = if c0 == '?' as u8 { p + 2 } else { p + 1 };
        let c = if c0 == '?' as u8 { byte_at(s, p + 1) } else { c0 };
        if c == '=' as u8 || c == ':' as u8 {
        } else if byte_at(s, q) == '=' as u8 && (c == '+' as u8 || c == '!' as u8) {
        } else if end is Some {
        } else {
            lemma_skip_ref(s, q);
            let next = if c == '$' as u8 { skip_ref(s, q) } else { q };
            lemma_assign_scan(s, next, None, false);
        }
    }
}

/// Build the assignment once the operator is found.
fn finish_assignment(
    bytes: &[u8],
    name_start: usize,
    end: usize,
    flavor: Flavor,
    conditional: bool,
    op_end: usize,
) -> (r: Assignment)
    requires
        name_start <= end,
        op_end <= bytes@.len(),
    ensures
        r.op_end <= r.value_start <= bytes@.len(),
        r == (Assignment {
            name_start,
            name_len: (end - name_start) as usize,
            flavor,
            conditional,
            op_end,
            value_start: next_token(bytes@, op_end as int) as usize,
        }),
{
    let value = next_token_off(bytes, op_end);
    proof {
        lemma_next_token(bytes@, op_end as int);
    }
    Assignment { name_start, name_len: end - name_start, flavor, conditional, op_end, value_start: value }
}

/// Parse `bytes` (one logical line) as a variable assignment, returning the
/// typed [`Assignment`] or `None` when the line is not a definition.
pub fn parse_assignment(bytes: &[u8]) -> (r: Option<Assignment>)
    ensures
        r == parse_assignment_spec(bytes@),
        r matches Some(a) ==> {
            &&& a.name_start + a.name_len < a.op_end <= a.value_start <= bytes@.len()
            &&& bytes@[a.op_end - 1] == '=' as u8
        },
{
    let n = bytes.len();
    let mut p = next_token_off(bytes, 0);
    proof {
        lemma_next_token(bytes@, 0);
    }
    let name_start = p;
    let ghost goal = assign_scan(bytes@, name_start as int, None, false);
    proof {
        lemma_assign_scan(bytes@, name_start as int, None, false);
    }
    let mut end: Option<usize> = None;
    let mut conditional = false;
    loop
        invariant
            n == bytes@.len(),
            name_start <= p <= n,
            end matches Some(e) ==> name_start <= e <= p,
            assign_scan(bytes@, p as int, opt_int(end), conditional)
                == goal,
            goal == assign_scan(bytes@, name_start as int, None, false),
            name_start == next_token(bytes@, 0),
        decreases n + 1 - p,
    {
        proof {
            lemma_assign_scan(bytes@, p as int, opt_int(end), conditional);
        }
        let c0 = at(bytes, p);
        if map_set(c0, MAP_COMMENT | MAP_NUL) {
            return None;
        }
        if map_set(c0, MAP_BLANK) {
            if end.is_some() {
                return None;
            }
            end = Some(p);
            proof {
                lemma_next_token(bytes@, p + 1);
            }
            p = next_token_off(bytes, p + 1);
            continue;
        }
        let start = p;
        let mut c = c0;
        let mut q = p + 1;
        if c == '?' as u8 {
            if q == n {
                // A trailing `?`: everything after it reads as the NUL.
                assert(assign_scan(bytes@, (n + 1) as int, None, false) is None);
                return None;
            }
            conditional = true;
            c = at(bytes, q);
            q = q + 1;
        }
        let name_end = match end {
            Some(e) => e,
            None => start,
        };
        if c == '=' as u8 {
            let r = finish_assignment(bytes, name_start, name_end, Flavor::Recursive, conditional, q);
            return Some(r);
        } else if c == ':' as u8 {
            if at(bytes, q) == '=' as u8 {
                let r = finish_assignment(bytes, name_start, name_end, Flavor::Simple, conditional, q + 1);
                return Some(r);
            }
            if at(bytes, q) == ':' as u8 {
                if at(bytes, q + 1) == '=' as u8 {
                    let r = finish_assignment(bytes, name_start, name_end, Flavor::Simple, conditional, q + 2);
                    return Some(r);
                }
                if at(bytes, q + 1) == ':' as u8 && at(bytes, q + 2) == '=' as u8 {
                    let r = finish_assignment(bytes, name_start, name_end, Flavor::Expand, conditional, q + 3);
                    return Some(r);
                }
            }
            return None;
        } else {
            if at(bytes, q) == '=' as u8 {
                if c == '+' as u8 {
                    let r = finish_assignment(bytes, name_start, name_end, Flavor::Append, conditional, q + 1);
                    return Some(r);
                } else if c == '!' as u8 {
                    let r = finish_assignment(bytes, name_start, name_end, Flavor::Shell, conditional, q + 1);
                    return Some(r);
                }
            }
            if end.is_some() {
                return None;
            }
            proof {
                lemma_skip_ref(bytes@, q as int);
            }
            if c == '$' as u8 {
                q = skip_reference(bytes, q);
            }
            p = q;
            conditional = false;
        }
    }
}


// ─── Variable-definition modifiers and line classes ──────────────────────

/// Which export state a leading `export`/`unexport` modifier requests.
#[derive(Clone, Copy, PartialEq, Eq, Hash, Debug)]
pub enum ExportMode {
    /// `export`
    Export,
    /// `unexport`
    NoExport,
}

/// The variable-definition modifiers that may stack in front of an
/// assignment or `define` line.
#[derive(Clone, Copy, PartialEq, Eq, Hash, Debug)]
pub struct VarModifiers {
    /// `export` / `unexport`, if present.
    pub export: Option<ExportMode>,
    /// `override` seen.
    pub over: bool,
    /// `private` seen.
    pub private: bool,
    /// `define` seen (opens a multi-line definition).
    pub define: bool,
    /// `undefine` seen.
    pub undefine: bool,
}

/// No modifier at all.
pub open spec fn no_modifiers() -> VarModifiers {
    VarModifiers { export: None, over: false, private: false, define: false, undefine: false }
}

impl Default for VarModifiers {
    fn default() -> (r: VarModifiers)
        ensures
            r == no_modifiers(),
    {
        VarModifiers { export: None, over: false, private: false, define: false, undefine: false }
    }
}

/// The result of [`scan_var_modifiers`].
#[derive(Clone, Copy, PartialEq, Eq, Hash, Debug)]
pub struct VarModScan {
    /// The modifier flags accumulated from the leading keywords.
    pub mods: VarModifiers,
    /// At least one modifier keyword was consumed.
    pub had_modifier: bool,
    /// The text after the modifiers is a variable definition.
    pub assign: bool,
    /// The start of the definition when `assign`, otherwise the first
    /// non-blank byte of the line.
    pub rest: usize,
}

/// The modifiers after one more keyword (`define`/`undefine` end the scan and
/// are handled by the caller).
pub open spec fn add_modifier(mods: VarModifiers, m: VarModifier) -> VarModifiers {
    match m {
        VarModifier::Export => VarModifiers { export: Some(ExportMode::Export), ..mods },
        VarModifier::Unexport => VarModifiers { export: Some(ExportMode::NoExport), ..mods },
        VarModifier::Override => VarModifiers { over: true, ..mods },
        VarModifier::Private => VarModifiers { private: true, ..mods },
        VarModifier::Define => VarModifiers { define: true, ..mods },
        VarModifier::Undefine => VarModifiers { undefine: true, ..mods },
    }
}

/// make's `parse_var_assignment` from the word at `i`: an assignment at the
/// current position ends the scan; otherwise a modifier keyword is consumed
/// (`define`/`undefine` end it, except in a target-variable context, where
/// they are plain names) and any other word means the line is not a
/// modifier-led definition.
pub open spec fn modifier_scan(
    s: Seq<u8>,
    i: int,
    mods: VarModifiers,
    had: bool,
    targvar: bool,
    line_start: int,
) -> VarModScan
    decreases s.len() - i,
{
    if !(0 <= i <= s.len()) {
        VarModScan { mods, had_modifier: had, assign: false, rest: line_start as usize }
    } else if parse_assignment_spec(s.subrange(i, s.len() as int)) is Some {
        VarModScan { mods, had_modifier: had, assign: true, rest: i as usize }
    } else {
        let w_end = end_of_token(s, i);
        match var_modifier_of(s.subrange(i, w_end)) {
            Some(m) => {
                if (m == VarModifier::Define || m == VarModifier::Undefine) && targvar {
                    VarModScan { mods, had_modifier: had, assign: false, rest: line_start as usize }
                } else if m == VarModifier::Define || m == VarModifier::Undefine {
                    VarModScan {
                        mods: add_modifier(mods, m),
                        had_modifier: true,
                        assign: true,
                        rest: next_token(s, w_end) as usize,
                    }
                } else {
                    proof {
                        lemma_end_of_token(s, i);
                        lemma_next_token(s, w_end);
                    }
                    let i2 = next_token(s, w_end);
                    if byte_at(s, i2) == 0 || w_end <= i {
                        VarModScan {
                            mods: add_modifier(mods, m),
                            had_modifier: true,
                            assign: false,
                            rest: line_start as usize,
                        }
                    } else {
                        modifier_scan(s, i2, add_modifier(mods, m), true, targvar, line_start)
                    }
                }
            },
            None => VarModScan { mods, had_modifier: had, assign: false, rest: line_start as usize },
        }
    }
}

/// The leading-modifier scan of a whole line.
pub open spec fn scan_var_modifiers_spec(s: Seq<u8>, targvar: bool) -> VarModScan {
    let i = next_token(s, 0);
    if byte_at(s, i) == 0 {
        VarModScan { mods: no_modifiers(), had_modifier: false, assign: false, rest: i as usize }
    } else {
        modifier_scan(s, i, no_modifiers(), false, targvar, i)
    }
}

/// Scan the leading variable-definition modifiers of a line.
///
/// `targvar` is true in a target-specific variable context, where `define` /
/// `undefine` are not modifiers. The assignment detector runs at each step
/// before a modifier keyword is classified, so `export = 1` assigns the
/// variable `export` while `export FOO = 1` consumes `export` as a modifier.
pub fn scan_var_modifiers(bytes: &[u8], targvar: bool) -> (r: VarModScan)
    ensures
        r == scan_var_modifiers_spec(bytes@, targvar),
{
    let n = bytes.len();
    let mut i = next_token_off(bytes, 0);
    proof {
        lemma_next_token(bytes@, 0);
    }
    let line_start = i;
    let mut mods = VarModifiers::default();
    let mut had_modifier = false;
    if at(bytes, i) == 0 {
        return VarModScan { mods, had_modifier, assign: false, rest: line_start };
    }
    let ghost goal = modifier_scan(bytes@, i as int, mods, had_modifier, targvar, line_start as int);
    loop
        invariant
            n == bytes@.len(),
            0 <= i <= n,
            byte_at(bytes@, i as int) != 0,
            !is_space(byte_at(bytes@, i as int)),
            modifier_scan(bytes@, i as int, mods, had_modifier, targvar, line_start as int) == goal,
            goal == scan_var_modifiers_spec(bytes@, targvar),
            line_start == next_token(bytes@, 0),
        decreases n - i,
    {
        if parse_assignment(&bytes[i..n]).is_some() {
            return VarModScan { mods, had_modifier, assign: true, rest: i };
        }
        let w_end = end_of_token_off(bytes, i);
        proof {
            lemma_end_of_token(bytes@, i as int);
            lemma_next_token(bytes@, w_end as int);
        }
        let m = VarModifier::from_word(&bytes[i..w_end]);
        match m {
            Some(VarModifier::Export) => {
                mods.export = Some(ExportMode::Export);
            },
            Some(VarModifier::Unexport) => {
                mods.export = Some(ExportMode::NoExport);
            },
            Some(VarModifier::Override) => {
                mods.over = true;
            },
            Some(VarModifier::Private) => {
                mods.private = true;
            },
            Some(VarModifier::Define) if !targvar => {
                mods.define = true;
                return VarModScan {
                    mods,
                    had_modifier: true,
                    assign: true,
                    rest: next_token_off(bytes, w_end),
                };
            },
            Some(VarModifier::Undefine) if !targvar => {
                mods.undefine = true;
                return VarModScan {
                    mods,
                    had_modifier: true,
                    assign: true,
                    rest: next_token_off(bytes, w_end),
                };
            },
            _ => {
                return VarModScan { mods, had_modifier, assign: false, rest: line_start };
            },
        }
        had_modifier = true;
        i = next_token_off(bytes, w_end);
        if at(bytes, i) == 0 {
            return VarModScan { mods, had_modifier, assign: false, rest: line_start };
        }
    }
}

/// The variable-definition payload of [`LineClass::VarDef`].
#[derive(Clone, Copy, PartialEq, Eq, Hash, Debug)]
pub struct VarLine {
    /// The modifier flags accumulated from the leading keywords.
    pub mods: VarModifiers,
    /// At least one modifier keyword was consumed.
    pub had_modifier: bool,
    /// The text after the modifiers is a variable definition.
    pub assign: bool,
    /// Offset into the line where the definition tail begins.
    pub rest: usize,
}

/// The typed classification of a whole logical (non-recipe) line.
#[derive(Clone, Copy, PartialEq, Eq, Hash, Debug)]
pub enum LineClass {
    /// A conditional directive line.
    Conditional(Directive),
    /// A variable definition, carrying its leading modifiers and the offset of
    /// the definition tail.
    VarDef(VarLine),
    /// A file/path directive line.
    File(FileDirective),
    /// Anything else — a rule or other plain line.
    Plain,
}

/// The parser's database handle. Parsing is a pure function of the line
/// text, so nothing a result depends on is kept in it.
#[derive(Clone, Copy, Debug, Default)]
pub struct MakeDb;

pub open spec fn var_line_of(scan: VarModScan) -> VarLine {
    VarLine { mods: scan.mods, had_modifier: scan.had_modifier, assign: scan.assign, rest: scan.rest }
}

/// make's `eval` dispatch order: an assignment (even to a keyword-named
/// variable) first, then a conditional directive, then a file directive, then
/// a modifier-led line that is not a definition; everything else is plain.
pub open spec fn classify_line_spec(s: Seq<u8>, targvar: bool) -> LineClass {
    let scan = scan_var_modifiers_spec(s, targvar);
    let i = next_token(s, 0);
    let word = s.subrange(i, end_of_token(s, i));
    if scan.assign {
        LineClass::VarDef(var_line_of(scan))
    } else if directive_of(word) is Some {
        LineClass::Conditional(directive_of(word)->0)
    } else if file_directive_of(word) is Some {
        LineClass::File(file_directive_of(word)->0)
    } else if scan.had_modifier {
        LineClass::VarDef(var_line_of(scan))
    } else {
        LineClass::Plain
    }
}

/// Parse `bytes` as a variable assignment through the parser database.
pub fn assignment_ast(db: &MakeDb, bytes: &[u8]) -> (r: Option<Assignment>)
    ensures
        r == parse_assignment_spec(bytes@),
{
    let parsed = parse_assignment(bytes);
    match parsed {
        Some(a) => Some(a),
        None => None,
    }
}

/// Classify a whole logical (non-recipe) line into its [`LineClass`].
pub fn classify_line(db: &MakeDb, bytes: &[u8], targvar: bool) -> (r: LineClass)
    ensures
        r == classify_line_spec(bytes@, targvar),
{
    let scan = scan_var_modifiers(bytes, targvar);
    if scan.assign {
        return var_def(db, scan);
    }
    let i = next_token_off(bytes, 0);
    let w_end = end_of_token_off(bytes, i);
    proof {
        lemma_next_token(bytes@, 0);
        lemma_end_of_token(bytes@, i as int);
    }
    let word = &bytes[i..w_end];
    if let Some(d) = Directive::from_word(word) {
        return LineClass::Conditional(d);
    }
    if let Some(f) = FileDirective::from_word(word) {
        return LineClass::File(f);
    }
    if scan.had_modifier {
        return var_def(db, scan);
    }
    LineClass::Plain
}

/// The [`LineClass::VarDef`] of a variable-definition scan.
fn var_def(db: &MakeDb, scan: VarModScan) -> (r: LineClass)
    ensures
        r == LineClass::VarDef(var_line_of(scan)),
{
    LineClass::VarDef(
        VarLine {
            mods: VarModifiers {
                export: scan.mods.export,
                over: scan.mods.over,
                private: scan.mods.private,
                define: scan.mods.define,
                undefine: scan.mods.undefine,
            },
            had_modifier: scan.had_modifier,
            assign: scan.assign,
            rest: scan.rest,
        },
    )
}


// ─── Rule words ──────────────────────────────────────────────────────────

/// The classification of the next word of a rule line.
#[derive(Debug, PartialEq, Eq, Clone, Copy)]
pub enum MWordType {
    Eol,
    Static,
    Variable,
    Colon,
    DColon,
    Semicolon,
    AmpColon,
    AmpDColon,
}

/// The bytes a backslash escapes inside a static word.
pub open spec fn is_word_escapable(b: u8) -> bool {
    b == ':' as u8 || b == ';' as u8 || b == '=' as u8 || b == '\\' as u8
}

/// Scan a static word from its byte at `p`: returns the word's type (promoted
/// to `Variable` when a `$` reference is crossed) and the index of the byte
/// that ends it — a blank, newline, NUL, `:`, the `&` of `&:`, or the NUL after
/// a trailing `$`.
pub open spec fn word_scan(s: Seq<u8>, p: int, w: MWordType) -> (MWordType, int)
    decreases s.len() - p,
{
    let c = byte_at(s, p);
    if !(0 <= p < s.len()) || is_space(c) || c == 0 || c == ':' as u8 {
        (w, p)
    } else if c == '$' as u8 {
        let c2 = byte_at(s, p + 1);
        if c2 == '$' as u8 {
            word_scan(s, p + 2, w)
        } else if c2 == 0 {
            (w, p + 1)
        } else {
            proof {
                lemma_skip_ref(s, p + 1);
            }
            word_scan(s, skip_ref(s, p + 1), MWordType::Variable)
        }
    } else if c == '\\' as u8 {
        if is_word_escapable(byte_at(s, p + 1)) {
            word_scan(s, p + 2, w)
        } else {
            word_scan(s, p + 1, w)
        }
    } else if c == '&' as u8 && byte_at(s, p + 1) == ':' as u8 {
        (w, p)
    } else {
        word_scan(s, p + 1, w)
    }
}

/// make's `get_next_mword`: the next word's type, start, and length.
pub open spec fn next_mword_spec(s: Seq<u8>) -> (MWordType, int, int) {
    let beg = next_token(s, 0);
    let c = byte_at(s, beg);
    if c == 0 {
        (MWordType::Eol, beg, 1)
    } else if c == ';' as u8 {
        (MWordType::Semicolon, beg, 1)
    } else if c == ':' as u8 {
        if byte_at(s, beg + 1) == ':' as u8 {
            (MWordType::DColon, beg, 2)
        } else {
            (MWordType::Colon, beg, 1)
        }
    } else if c == '&' as u8 && byte_at(s, beg + 1) == ':' as u8 {
        if byte_at(s, beg + 2) != ':' as u8 {
            (MWordType::AmpColon, beg, 2)
        } else {
            (MWordType::AmpDColon, beg, 3)
        }
    } else {
        let (w, e) = word_scan(s, beg, MWordType::Static);
        (w, beg, e - beg)
    }
}

pub proof fn lemma_word_scan(s: Seq<u8>, p: int, w: MWordType)
    requires
        0 <= p <= s.len(),
    ensures
        p <= word_scan(s, p, w).1 <= s.len(),
    decreases s.len() - p,
{
    let c = byte_at(s, p);
    if !(0 <= p < s.len()) || is_space(c) || c == 0 || c == ':' as u8 {
    } else if c == '$' as u8 {
        let c2 = byte_at(s, p + 1);
        if c2 == '$' as u8 {
            lemma_word_scan(s, p + 2, w);
        } else if c2 == 0 {
        } else {
            lemma_skip_ref(s, p + 1);
            lemma_word_scan(s, skip_ref(s, p + 1), MWordType::Variable);
        }
    } else if c == '\\' as u8 {
        if is_word_escapable(byte_at(s, p + 1)) {
            lemma_word_scan(s, p + 2, w);
        } else {
            lemma_word_scan(s, p + 1, w);
        }
    } else if c == '&' as u8 && byte_at(s, p + 1) == ':' as u8 {
    } else {
        lemma_word_scan(s, p + 1, w);
    }
}

/// Scan the next "make word" out of a rule line, returning its type and its
/// `[start, start + len)` span. Leading blanks/newlines are skipped; the first
/// byte selects a separator (`;`, `:`/`::`, `&:`/`&::`, or end-of-line),
/// otherwise a static word is scanned up to the next separator/blank,
/// honoring `$(...)` references (which make it `Variable`) and `\`-escapes.
pub fn get_next_mword(buf: &[u8]) -> (r: (MWordType, usize, usize))
    ensures
        r.0 == next_mword_spec(buf@).0,
        r.1 == next_mword_spec(buf@).1,
        r.2 == next_mword_spec(buf@).2,
{
    let n = buf.len();
    let beg = next_token_off(buf, 0);
    proof {
        lemma_next_token(buf@, 0);
    }
    let c = at(buf, beg);
    if c == 0 {
        return (MWordType::Eol, beg, 1);
    }
    if c == ';' as u8 {
        return (MWordType::Semicolon, beg, 1);
    }
    if c == ':' as u8 {
        if at(buf, beg + 1) == ':' as u8 {
            return (MWordType::DColon, beg, 2);
        }
        return (MWordType::Colon, beg, 1);
    }
    if c == '&' as u8 && at(buf, beg + 1) == ':' as u8 {
        if at(buf, beg + 2) != ':' as u8 {
            return (MWordType::AmpColon, beg, 2);
        }
        return (MWordType::AmpDColon, beg, 3);
    }
    let mut wtype = MWordType::Static;
    let mut p = beg;
    let ghost goal = word_scan(buf@, beg as int, MWordType::Static);
    proof {
        lemma_word_scan(buf@, beg as int, MWordType::Static);
    }
    assert(next_mword_spec(buf@) == (goal.0, beg as int, goal.1 - beg));
    loop
        invariant
            n == buf@.len(),
            beg <= p <= n,
            word_scan(buf@, p as int, wtype) == goal,
            next_mword_spec(buf@) == (goal.0, beg as int, goal.1 - beg),
        decreases n - p,
    {
        proof {
            lemma_word_scan(buf@, p as int, wtype);
        }
        let c = at(buf, p);
        if p == n || map_set(c, MAP_BLANK | MAP_NEWLINE | MAP_NUL) || c == ':' as u8 {
            return (wtype, beg, p - beg);
        }
        if c == '$' as u8 {
            let c2 = at(buf, p + 1);
            if c2 == '$' as u8 {
                p = p + 2;
            } else if c2 == 0 {
                return (wtype, beg, p + 1 - beg);
            } else {
                proof {
                    lemma_skip_ref(buf@, p + 1);
                }
                wtype = MWordType::Variable;
                p = skip_reference(buf, p + 1);
            }
        } else if c == '\\' as u8 {
            let e = at(buf, p + 1);
            if e == ':' as u8 || e == ';' as u8 || e == '=' as u8 || e == '\\' as u8 {
                p = p + 2;
            } else {
                p = p + 1;
            }
        } else if c == '&' as u8 && at(buf, p + 1) == ':' as u8 {
            return (wtype, beg, p - beg);
        } else {
            p = p + 1;
        }
    }
}

// ─── `ifeq`/`ifneq` arguments ────────────────────────────────────────────

/// The result of [`parse_conditional_args`].
#[derive(PartialEq, Eq, Hash, Debug)]
pub enum ConditionalArgs {
    /// Both arguments parsed successfully.
    Both {
        /// Byte range of the first argument within the line.
        arg1: Range<usize>,
        /// Byte range of the second argument.
        arg2: Range<usize>,
        /// Non-blank text follows the closing delimiter.
        trailing_text: bool,
    },
    /// The first argument parsed, but the second is malformed; the caller must
    /// still expand `arg1` before reporting the syntax error.
    FirstArgOnly {
        /// Byte range of the (well-formed) first argument.
        arg1: Range<usize>,
    },
    /// The line is malformed before a complete first argument.
    Error,
}

impl Clone for ConditionalArgs {
    fn clone(&self) -> (r: ConditionalArgs)
        ensures
            r == *self,
    {
        match self {
            ConditionalArgs::Both { arg1, arg2, trailing_text } => ConditionalArgs::Both {
                arg1: arg1.start..arg1.end,
                arg2: arg2.start..arg2.end,
                trailing_text: *trailing_text,
            },
            ConditionalArgs::FirstArgOnly { arg1 } => ConditionalArgs::FirstArgOnly {
                arg1: arg1.start..arg1.end,
            },
            ConditionalArgs::Error => ConditionalArgs::Error,
        }
    }
}

/// Scan the first argument from `p`: stop at the NUL or the terminator,
/// skipping `$(...)` references whole.
pub open spec fn arg1_scan(s: Seq<u8>, p: int, termin: u8) -> int
    decreases s.len() - p,
{
    let c = byte_at(s, p);
    if !(0 <= p < s.len()) || c == 0 || c == termin {
        p
    } else if c == '$' as u8 {
        proof {
            lemma_skip_ref(s, p + 1);
        }
        arg1_scan(s, skip_ref(s, p + 1), termin)
    } else {
        arg1_scan(s, p + 1, termin)
    }
}

/// Trim trailing blanks back from `e`.
pub open spec fn trim_blanks_back(s: Seq<u8>, e: int) -> int
    decreases e,
{
    if e >= 1 && is_blank(byte_at(s, e - 1)) {
        trim_blanks_back(s, e - 1)
    } else {
        e
    }
}

/// Scan the parenthesised second argument from `p` to its matching `)` at
/// depth `count`, or to the NUL.
pub open spec fn paren_scan(s: Seq<u8>, p: int, count: int) -> int
    decreases s.len() - p,
{
    let c = byte_at(s, p);
    if !(0 <= p < s.len()) || c == 0 {
        p
    } else if c == '(' as u8 {
        paren_scan(s, p + 1, count + 1)
    } else if c == ')' as u8 {
        if count <= 0 {
            p
        } else {
            paren_scan(s, p + 1, count - 1)
        }
    } else {
        paren_scan(s, p + 1, count)
    }
}

/// Scan a quoted argument from `p` to the closing quote or the NUL.
pub open spec fn quote_scan(s: Seq<u8>, p: int, termin: u8) -> int
    decreases s.len() - p,
{
    let c = byte_at(s, p);
    if !(0 <= p < s.len()) || c == 0 || c == termin {
        p
    } else {
        quote_scan(s, p + 1, termin)
    }
}

pub proof fn lemma_arg1_scan(s: Seq<u8>, p: int, termin: u8)
    requires
        0 <= p <= s.len(),
    ensures
        p <= arg1_scan(s, p, termin) <= s.len(),
    decreases s.len() - p,
{
    let c = byte_at(s, p);
    if !(0 <= p < s.len()) || c == 0 || c == termin {
    } else if c == '$' as u8 {
        lemma_skip_ref(s, p + 1);
        lemma_arg1_scan(s, skip_ref(s, p + 1), termin);
    } else {
        lemma_arg1_scan(s, p + 1, termin);
    }
}

pub proof fn lemma_trim_blanks_back(s: Seq<u8>, e: int)
    requires
        1 <= e,
        !is_blank(byte_at(s, 0)),
    ensures
        1 <= trim_blanks_back(s, e) <= e,
        forall|k: int| trim_blanks_back(s, e) <= k < e ==> is_blank(#[trigger] byte_at(s, k)),
    decreases e,
{
    if e >= 1 && is_blank(byte_at(s, e - 1)) {
        lemma_trim_blanks_back(s, e - 1);
    }
}

pub proof fn lemma_paren_scan(s: Seq<u8>, p: int, count: int)
    requires
        0 <= p <= s.len(),
    ensures
        p <= paren_scan(s, p, count) <= s.len(),
    decreases s.len() - p,
{
    let c = byte_at(s, p);
    if !(0 <= p < s.len()) || c == 0 {
    } else if c == '(' as u8 {
        lemma_paren_scan(s, p + 1, count + 1);
    } else if c == ')' as u8 {
        if count > 0 {
            lemma_paren_scan(s, p + 1, count - 1);
        }
    } else {
        lemma_paren_scan(s, p + 1, count);
    }
}

pub proof fn lemma_quote_scan(s: Seq<u8>, p: int, termin: u8)
    requires
        0 <= p <= s.len(),
    ensures
        p <= quote_scan(s, p, termin) <= s.len(),
    decreases s.len() - p,
{
    let c = byte_at(s, p);
    if !(0 <= p < s.len()) || c == 0 || c == termin {
    } else {
        lemma_quote_scan(s, p + 1, termin);
    }
}

pub open spec fn range_of(a: int, b: int) -> Range<usize> {
    Range { start: a as usize, end: b as usize }
}

/// The argument forms of an `ifeq`/`ifneq` line: `(a,b)`, `"a" "b"`, `'a' 'b'`.
pub open spec fn conditional_args_spec(s: Seq<u8>) -> ConditionalArgs {
    let first = byte_at(s, 0);
    let comma_form = first == '(' as u8;
    let termin = if comma_form { ',' as u8 } else { first };
    if termin != ',' as u8 && termin != '"' as u8 && termin != '\'' as u8 {
        ConditionalArgs::Error
    } else {
        let p = arg1_scan(s, 1, termin);
        if byte_at(s, p) == 0 {
            ConditionalArgs::Error
        } else {
            let arg1_end = if comma_form { trim_blanks_back(s, p) } else { p };
            let arg1 = range_of(1, arg1_end);
            let p2 = if comma_form { p + 1 } else { next_token(s, p + 1) };
            let termin2 = if comma_form { ')' as u8 } else { byte_at(s, p2) };
            if termin2 != ')' as u8 && termin2 != '"' as u8 && termin2 != '\'' as u8 {
                ConditionalArgs::FirstArgOnly { arg1 }
            } else {
                let arg2_start = if termin2 == ')' as u8 { next_token(s, p2) } else { p2 + 1 };
                let arg2_end = if termin2 == ')' as u8 {
                    paren_scan(s, arg2_start, 0)
                } else {
                    quote_scan(s, arg2_start, termin2)
                };
                if byte_at(s, arg2_end) == 0 {
                    ConditionalArgs::FirstArgOnly { arg1 }
                } else {
                    ConditionalArgs::Both {
                        arg1,
                        arg2: range_of(arg2_start, arg2_end),
                        trailing_text: byte_at(s, next_token(s, arg2_end + 1)) != 0,
                    }
                }
            }
        }
    }
}

/// Parse the argument forms of an `ifeq`/`ifneq` line. `bytes` begins at the
/// opening `(` or quote. A `$` begins a reference skipped whole; the comma form
/// trims trailing blanks of the first argument and balances parentheses in the
/// second; the quoted forms take everything up to the matching quote. A failure
/// after the first argument is complete is [`ConditionalArgs::FirstArgOnly`];
/// one before it is [`ConditionalArgs::Error`].
pub fn parse_conditional_args(bytes: &[u8]) -> (r: ConditionalArgs)
    ensures
        r == conditional_args_spec(bytes@),
        r matches ConditionalArgs::Both { arg1, arg2, trailing_text } ==> {
            &&& 1 <= arg1.start <= arg1.end < arg2.start <= arg2.end < bytes@.len()
        },
        r matches ConditionalArgs::FirstArgOnly { arg1 } ==> 1 <= arg1.start <= arg1.end
            <= bytes@.len(),
{
    let n = bytes.len();
    let first = at(bytes, 0);
    let comma_form = first == '(' as u8;
    let termin = if comma_form { ',' as u8 } else { first };
    if termin != ',' as u8 && termin != '"' as u8 && termin != '\'' as u8 {
        return ConditionalArgs::Error;
    }
    let mut p: usize = 1;
    proof {
        lemma_arg1_scan(bytes@, 1, termin);
    }
    while at(bytes, p) != 0 && at(bytes, p) != termin
        invariant
            n == bytes@.len(),
            1 <= p <= n,
            arg1_scan(bytes@, p as int, termin) == arg1_scan(bytes@, 1, termin),
        decreases n - p,
    {
        if at(bytes, p) == '$' as u8 {
            proof {
                lemma_skip_ref(bytes@, p + 1);
            }
            p = skip_reference(bytes, p + 1);
        } else {
            p += 1;
        }
    }
    if at(bytes, p) == 0 {
        return ConditionalArgs::Error;
    }
    let arg1_end = if comma_form {
        let mut e = p;
        proof {
            lemma_trim_blanks_back(bytes@, p as int);
        }
        while map_set(at(bytes, e - 1), MAP_BLANK)
            invariant
                1 <= e <= p,
                trim_blanks_back(bytes@, e as int) == trim_blanks_back(bytes@, p as int),
                1 <= trim_blanks_back(bytes@, p as int),
                trim_blanks_back(bytes@, p as int) <= e,
                byte_at(bytes@, 0) == '(' as u8,
            decreases e,
        {
            proof {
                lemma_trim_blanks_back(bytes@, e - 1);
            }
            e -= 1;
        }
        p += 1;
        e
    } else {
        let e = p;
        p += 1;
        e
    };
    let arg1 = 1..arg1_end;
    if !comma_form {
        proof {
            lemma_next_token(bytes@, p as int);
        }
        p = next_token_off(bytes, p);
    }
    let termin2 = if comma_form { ')' as u8 } else { at(bytes, p) };
    if termin2 != ')' as u8 && termin2 != '"' as u8 && termin2 != '\'' as u8 {
        return ConditionalArgs::FirstArgOnly { arg1 };
    }
    let arg2_start;
    if termin2 == ')' as u8 {
        proof {
            lemma_next_token(bytes@, p as int);
        }
        p = next_token_off(bytes, p);
        arg2_start = p;
        proof {
            lemma_paren_scan(bytes@, p as int, 0);
        }
        let mut count: usize = 0;
        while at(bytes, p) != 0
            invariant
                n == bytes@.len(),
                arg2_start <= p <= n,
                paren_scan(bytes@, p as int, count as int) == paren_scan(bytes@, arg2_start as int, 0),
                count <= p - arg2_start,
            ensures
                arg2_start <= p <= n,
                p == paren_scan(bytes@, arg2_start as int, 0),
            decreases n - p,
        {
            let c = at(bytes, p);
            if c == '(' as u8 {
                count += 1;
            } else if c == ')' as u8 {
                if count == 0 {
                    break;
                }
                count -= 1;
            }
            p += 1;
        }
    } else {
        p += 1;
        arg2_start = p;
        proof {
            lemma_quote_scan(bytes@, p as int, termin2);
        }
        while at(bytes, p) != 0 && at(bytes, p) != termin2
            invariant
                n == bytes@.len(),
                arg2_start <= p <= n,
                quote_scan(bytes@, p as int, termin2) == quote_scan(bytes@, arg2_start as int, termin2),
            decreases n - p,
        {
            p += 1;
        }
    }
    if at(bytes, p) == 0 {
        return ConditionalArgs::FirstArgOnly { arg1 };
    }
    let arg2_end = p;
    p += 1;
    proof {
        lemma_next_token(bytes@, p as int);
    }
    let rest = next_token_off(bytes, p);
    ConditionalArgs::Both { arg1, arg2: arg2_start..arg2_end, trailing_text: at(bytes, rest) != 0 }
}


// ─── Backslash unquoting ─────────────────────────────────────────────────

/// The index of the first NUL at or after `i` (the length when there is none).
pub open spec fn zero_from(s: Seq<u8>, i: int) -> int
    decreases s.len() - i,
{
    if i < 0 || i >= s.len() {
        s.len() as int
    } else if s[i] == 0 {
        i
    } else {
        zero_from(s, i + 1)
    }
}

/// The C string length of `s`.
pub open spec fn strlen(s: Seq<u8>) -> int {
    zero_from(s, 0)
}

/// The number of backslashes immediately before `p`.
pub open spec fn backslashes_before(s: Seq<u8>, p: int) -> int
    decreases p,
{
    if 0 < p <= s.len() && s[p - 1] == '\\' as u8 {
        1 + backslashes_before(s, p - 1)
    } else {
        0
    }
}

/// Swallow half of the `n` backslashes before the stop byte at `p`: the tail
/// from `p - n/2` (through the terminator of the string of length
/// `slen`) moves left over the escaping backslashes.
pub open spec fn collapse_run(s: Seq<u8>, p: int, n: int, slen: int) -> Seq<u8> {
    let half = n / 2;
    let dest = p - n;
    let shift = n - half;
    let len = slen - p + half + 1;
    Seq::new(s.len(), |k: int| if dest <= k < dest + len { s[k + shift] } else { s[k] })
}

/// The first index at or after `p` holding the NUL or `stop`.
pub open spec fn scan_char(s: Seq<u8>, p: int, stop: u8) -> int
    decreases s.len() - p,
{
    if 0 <= p < s.len() && s[p] != 0 && s[p] != stop {
        scan_char(s, p + 1, stop)
    } else {
        p
    }
}

/// The first index at or after `p` whose byte has a class of `mask`.
pub open spec fn scan_map(s: Seq<u8>, p: int, mask: i32) -> int
    decreases s.len() - p,
{
    if 0 <= p < s.len() && !map_has(s[p], mask) {
        scan_map(s, p + 1, mask)
    } else {
        p
    }
}

/// The scan state is sound: `p` lies within the C string, whose terminator
/// is inside the buffer, and `slen` (the length measured before any collapse)
/// is at least the current length.
pub open spec fn unquote_state_ok(s: Seq<u8>, p: int, slen: int) -> bool {
    &&& 0 <= p <= strlen(s)
    &&& strlen(s) <= slen < s.len()
}

pub proof fn lemma_zero_from(s: Seq<u8>, i: int)
    requires
        0 <= i,
    ensures
        i <= zero_from(s, i) <= s.len() || (i > s.len() && zero_from(s, i) == s.len()),
        forall|k: int| i <= k < zero_from(s, i) ==> #[trigger] s[k] != 0,
        zero_from(s, i) < s.len() ==> s[zero_from(s, i)] == 0,
    decreases s.len() - i,
{
    if i < 0 || i >= s.len() {
    } else if s[i] == 0 {
    } else {
        lemma_zero_from(s, i + 1);
    }
}

/// `z` is the first NUL at or after `i`.
pub proof fn lemma_zero_from_at(s: Seq<u8>, i: int, z: int)
    requires
        0 <= i <= z < s.len(),
        s[z] == 0,
        forall|k: int| i <= k < z ==> s[k] != 0,
    ensures
        zero_from(s, i) == z,
    decreases z - i,
{
    if i < z {
        lemma_zero_from_at(s, i + 1, z);
    }
}

pub proof fn lemma_scan_char(s: Seq<u8>, p: int, stop: u8)
    requires
        0 <= p <= strlen(s) < s.len(),
    ensures
        p <= scan_char(s, p, stop) <= strlen(s),
        s[scan_char(s, p, stop)] == 0 || s[scan_char(s, p, stop)] == stop,
        forall|k: int| p <= k < scan_char(s, p, stop) ==> #[trigger] s[k] != stop,
    decreases s.len() - p,
{
    lemma_zero_from(s, 0);
    if 0 <= p < s.len() && s[p] != 0 && s[p] != stop {
        if p == strlen(s) {
        } else {
            lemma_scan_char(s, p + 1, stop);
        }
    }
}

pub proof fn lemma_nul_in_mask(mask: i32)
    ensures
        (1i32 & (mask | 1)) != 0,
{
    assert((1i32 & (mask | 1)) != 0) by (bit_vector);
}

pub proof fn lemma_scan_map(s: Seq<u8>, p: int, mask: i32)
    requires
        0 <= p <= strlen(s) < s.len(),
    ensures
        p <= scan_map(s, p, mask | MAP_NUL) <= strlen(s),
        map_has(s[scan_map(s, p, mask | MAP_NUL)], mask | MAP_NUL),
    decreases s.len() - p,
{
    lemma_zero_from(s, 0);
    lemma_nul_in_mask(mask);
    if 0 <= p < s.len() && !map_has(s[p], mask | MAP_NUL) {
        if p == strlen(s) {
        } else {
            lemma_scan_map(s, p + 1, mask);
        }
    }
}

pub proof fn lemma_backslashes_before(s: Seq<u8>, p: int)
    requires
        0 <= p <= s.len(),
    ensures
        0 <= backslashes_before(s, p) <= p,
        forall|k: int| p - backslashes_before(s, p) <= k < p ==> #[trigger] s[k] == '\\' as u8,
        p - backslashes_before(s, p) == 0 || s[p - backslashes_before(s, p) - 1] != '\\' as u8,
    decreases p,
{
    if 0 < p <= s.len() && s[p - 1] == '\\' as u8 {
        lemma_backslashes_before(s, p - 1);
    }
}

/// What a collapse does to the buffer: the length is unchanged, the prefix
/// before the run is kept, the stop byte moves left by the number of
/// backslashes swallowed, and so does the terminator.
pub proof fn lemma_collapse_run(s: Seq<u8>, q: int, n: int, slen: int)
    requires
        unquote_state_ok(s, 0, slen),
        1 <= n <= q < strlen(s),
        forall|k: int| q - n <= k < q ==> #[trigger] s[k] == '\\' as u8,
    ensures
        collapse_run(s, q, n, slen).len() == s.len(),
        forall|k: int| 0 <= k < q - n ==> #[trigger] collapse_run(s, q, n, slen)[k] == s[k],
        collapse_run(s, q, n, slen)[q - (n - n / 2)] == s[q],
        forall|k: int|
            q - n <= k < q - (n - n / 2) ==> #[trigger] collapse_run(s, q, n, slen)[k] == '\\' as u8,
        strlen(collapse_run(s, q, n, slen)) == strlen(s) - (n - n / 2),
        unquote_state_ok(collapse_run(s, q, n, slen), q - n / 2, slen) || n % 2 == 0,
        unquote_state_ok(collapse_run(s, q, n, slen), 0, slen),
{
    let s2 = collapse_run(s, q, n, slen);
    let z = strlen(s);
    let shift = n - n / 2;
    lemma_zero_from(s, 0);
    assert forall|k: int| 0 <= k < z - shift implies #[trigger] s2[k] != 0 by {
        if k < q - n {
        } else {
            assert(s2[k] == s[k + shift]);
        }
    }
    assert(s2[z - shift] == s[z]);
    lemma_zero_from_at(s2, 0, z - shift);
}

/// make's `find_char_unquote` from position `p`: find the next `stop` (or the
/// NUL); an odd run of backslashes before it escapes it — half of the run,
/// rounded up, is swallowed and the scan goes on after it — while an even run
/// collapses by half and the `stop` there is the answer.
pub open spec fn unquote_char_loop(s: Seq<u8>, p: int, stop: u8, slen: int) -> (Seq<u8>, Option<int>)
    decreases strlen(s) - p,
{
    if !unquote_state_ok(s, p, slen) {
        (s, None)
    } else {
        proof {
            lemma_scan_char(s, p, stop);
        }
        let q = scan_char(s, p, stop);
        if s[q] == 0 {
            (s, None)
        } else if q > 0 && s[q - 1] == '\\' as u8 {
            proof {
                lemma_backslashes_before(s, q);
                lemma_zero_from(s, 0);
            }
            let n = backslashes_before(s, q);
            let s2 = collapse_run(s, q, n, slen);
            if n % 2 == 0 {
                (s2, Some(q - n / 2))
            } else {
                proof {
                    lemma_collapse_run(s, q, n, slen);
                }
                unquote_char_loop(s2, q - n / 2, stop, slen)
            }
        } else {
            (s, Some(q))
        }
    }
}

/// make's `find_map_unquote` from position `p`: like [`unquote_char_loop`],
/// stopping at any byte with a class of `mask` (which includes the NUL), and
/// skipping a `$` reference whole when `$` is a stop byte.
pub open spec fn unquote_map_loop(s: Seq<u8>, p: int, mask: i32, slen: int) -> (Seq<u8>, Option<int>)
    decreases strlen(s) - p,
{
    if !unquote_state_ok(s, p, slen) {
        (s, None)
    } else {
        proof {
            lemma_scan_map(s, p, mask);
            lemma_nul_in_mask(mask);
        }
        let q = scan_map(s, p, mask | MAP_NUL);
        if s[q] == 0 {
            (s, None)
        } else if s[q] == '$' as u8 {
            proof {
                lemma_zero_from(s, 0);
                lemma_skip_ref_in_string(s, q + 1);
            }
            unquote_map_loop(s, skip_ref(s, q + 1), mask, slen)
        } else if q > 0 && s[q - 1] == '\\' as u8 {
            proof {
                lemma_backslashes_before(s, q);
                lemma_zero_from(s, 0);
            }
            let n = backslashes_before(s, q);
            let s2 = collapse_run(s, q, n, slen);
            if n % 2 == 0 {
                (s2, Some(q - n / 2))
            } else {
                proof {
                    lemma_collapse_run(s, q, n, slen);
                }
                unquote_map_loop(s2, q - n / 2, mask, slen)
            }
        } else {
            (s, Some(q))
        }
    }
}

pub proof fn lemma_ref_scan_in_string(s: Seq<u8>, p: int, open: u8, close: u8, count: int)
    requires
        0 <= p < strlen(s) < s.len(),
    ensures
        p < ref_scan(s, p, open, close, count) <= strlen(s),
    decreases s.len() - p,
{
    lemma_zero_from(s, 0);
    let q = p + 1;
    let c = byte_at(s, q);
    if c == 0 {
    } else if c == open {
        lemma_ref_scan_in_string(s, q, open, close, count + 1);
    } else if c == close {
        if count - 1 != 0 {
            lemma_ref_scan_in_string(s, q, open, close, count - 1);
        }
    } else {
        lemma_ref_scan_in_string(s, q, open, close, count);
    }
}

/// A reference skipped from inside a C string ends within it.
pub proof fn lemma_skip_ref_in_string(s: Seq<u8>, p: int)
    requires
        1 <= p <= strlen(s) < s.len(),
    ensures
        p <= skip_ref(s, p) <= strlen(s),
{
    lemma_zero_from(s, 0);
    if byte_at(s, p) != 0 {
        if byte_at(s, p) == '(' as u8 {
            lemma_ref_scan_in_string(s, p, '(' as u8, ')' as u8, 1);
        } else if byte_at(s, p) == '{' as u8 {
            lemma_ref_scan_in_string(s, p, '{' as u8, '}' as u8, 1);
        }
    }
}

/// Whether the buffer holds a C string: a NUL terminator lies inside it.
pub open spec fn nul_terminated(s: Seq<u8>) -> bool {
    s.contains(0)
}

pub proof fn lemma_nul_terminated(s: Seq<u8>)
    requires
        nul_terminated(s),
    ensures
        strlen(s) < s.len(),
        unquote_state_ok(s, 0, strlen(s)),
{
    lemma_zero_from(s, 0);
    let k = choose|k: int| 0 <= k < s.len() && s[k] == 0;
    if strlen(s) >= s.len() {
        assert(s[k] != 0);
    }
}

/// The index of the first NUL, as make's `strlen`.
pub(crate) fn c_strlen(buf: &[u8]) -> (r: usize)
    requires
        nul_terminated(buf@),
    ensures
        r == strlen(buf@),
{
    proof {
        lemma_nul_terminated(buf@);
        lemma_zero_from(buf@, 0);
    }
    let mut i: usize = 0;
    while buf[i] != 0
        invariant
            0 <= i <= strlen(buf@) < buf@.len(),
            buf@[strlen(buf@)] == 0,
            zero_from(buf@, i as int) == strlen(buf@),
        decreases buf@.len() - i,
    {
        i += 1;
    }
    i
}

/// The number of backslashes just before `p`.
fn count_backslashes(buf: &[u8], p: usize) -> (r: usize)
    requires
        p <= buf@.len(),
    ensures
        r == backslashes_before(buf@, p as int),
{
    proof {
        lemma_backslashes_before(buf@, p as int);
    }
    let mut i = p;
    while i > 0 && buf[i - 1] == '\\' as u8
        invariant
            i <= p <= buf@.len(),
            backslashes_before(buf@, p as int) == (p - i) + backslashes_before(buf@, i as int),
        decreases i,
    {
        i -= 1;
    }
    p - i
}

/// Move the tail left over the swallowed backslashes (a forward copy, since the
/// source lies to the right of the destination).
fn collapse_in_place(buf: &mut [u8], p: usize, n: usize, slen: usize)
    requires
        unquote_state_ok(old(buf)@, 0, slen as int),
        1 <= n <= p < strlen(old(buf)@),
    ensures
        final(buf)@ == collapse_run(old(buf)@, p as int, n as int, slen as int),
{
    let half = n / 2;
    let dest = p - n;
    let shift = n - half;
    let len = slen - p + half + 1;
    let ghost s0 = buf@;
    let mut k = dest;
    while k < dest + len
        invariant
            buf@.len() == s0.len(),
            dest <= k <= dest + len,
            dest + len + shift == slen + 1,
            slen < s0.len(),
            forall|j: int| 0 <= j < k ==> #[trigger] buf@[j] == collapse_run(s0, p as int, n as int, slen as int)[j],
            forall|j: int| k <= j < s0.len() ==> #[trigger] buf@[j] == s0[j],
            half == n / 2 && dest == p - n && shift == n - half && len == slen - p + half + 1,
        decreases dest + len - k,
    {
        let v = buf[k + shift];
        buf[k] = v;
        k += 1;
    }
    assert(buf@ =~= collapse_run(s0, p as int, n as int, slen as int));
}

/// Scan the NUL-terminated `buf` for the first *unquoted* `stop` byte,
/// collapsing each run of backslashes that precedes a `stop` and shifting the
/// tail left. Returns the index of the unescaped `stop`, or `None` if none
/// remains.
pub fn find_char_unquote_idx(buf: &mut [u8], stop: u8) -> (r: Option<usize>)
    requires
        nul_terminated(old(buf)@),
    ensures
        (final(buf)@, opt_int(r)) == unquote_char_loop(old(buf)@, 0, stop, strlen(old(buf)@)),
        final(buf)@.len() == old(buf)@.len(),
        r matches Some(i) ==> i < final(buf)@.len() && final(buf)@[i as int] == stop,
{
    proof {
        lemma_nul_terminated(buf@);
    }
    let ghost s0 = buf@;
    let ghost slen0 = strlen(buf@);
    let ghost goal = unquote_char_loop(buf@, 0, stop, slen0);
    let mut string_len: Option<usize> = None;
    let mut p: usize = 0;
    loop
        invariant
            unquote_state_ok(buf@, p as int, slen0),
            buf@.len() == s0.len(),
            string_len matches Some(l) ==> l == slen0,
            string_len is None ==> buf@ == s0,
            slen0 == strlen(s0),
            s0 == old(buf)@,
            unquote_char_loop(buf@, p as int, stop, slen0) == goal,
            goal == unquote_char_loop(s0, 0, stop, strlen(s0)),
        decreases strlen(buf@) - p,
    {
        proof {
            lemma_scan_char(buf@, p as int, stop);
            lemma_zero_from(buf@, 0);
        }
        let ghost pstart = p as int;
        while buf[p] != 0 && buf[p] != stop
            invariant
                pstart <= p <= strlen(buf@) < buf@.len(),
                buf@[strlen(buf@)] == 0,
                scan_char(buf@, p as int, stop) == scan_char(buf@, pstart, stop),
            decreases strlen(buf@) - p,
        {
            p += 1;
        }
        if buf[p] == 0 {
            return None;
        }
        if p > 0 && buf[p - 1] == '\\' as u8 {
            proof {
                lemma_backslashes_before(buf@, p as int);
            }
            let n = count_backslashes(buf, p);
            let slen = match string_len {
                Some(l) => l,
                None => {
                    let l = c_strlen(buf);
                    string_len = Some(l);
                    l
                },
            };
            proof {
                lemma_collapse_run(buf@, p as int, n as int, slen as int);
            }
            collapse_in_place(buf, p, n, slen);
            let half = n / 2;
            p = p - half;
            if n % 2 == 0 {
                return Some(p);
            }
        } else {
            return Some(p);
        }
    }
}

/// Scan the NUL-terminated `buf` for the first *unquoted* byte whose class
/// intersects `stopmap` (the NUL always stops the scan). A backslash run
/// before a stop byte collapses as in [`find_char_unquote_idx`]; when `$` is a
/// stop byte, a `$(...)`/`${...}` reference is skipped whole.
pub fn find_map_unquote_idx(buf: &mut [u8], stopmap: i32) -> (r: Option<usize>)
    requires
        nul_terminated(old(buf)@),
    ensures
        (final(buf)@, opt_int(r)) == unquote_map_loop(old(buf)@, 0, stopmap, strlen(old(buf)@)),
        final(buf)@.len() == old(buf)@.len(),
        r matches Some(i) ==> i < final(buf)@.len() && map_has(final(buf)@[i as int], stopmap | MAP_NUL)
            && final(buf)@[i as int] != 0,
{
    proof {
        lemma_nul_terminated(buf@);
    }
    let ghost mask = stopmap;
    let stop_mask = stopmap | MAP_NUL;
    proof {
        lemma_nul_in_mask(mask);
    }
    let ghost s0 = buf@;
    let ghost slen0 = strlen(buf@);
    let ghost goal = unquote_map_loop(buf@, 0, mask, slen0);
    let mut string_len: Option<usize> = None;
    let mut p: usize = 0;
    loop
        invariant
            unquote_state_ok(buf@, p as int, slen0),
            buf@.len() == s0.len(),
            string_len matches Some(l) ==> l == slen0,
            string_len is None ==> buf@ == s0,
            slen0 == strlen(s0),
            stop_mask == mask | MAP_NUL,
            mask == stopmap,
            s0 == old(buf)@,
            map_has(0, stop_mask),
            unquote_map_loop(buf@, p as int, mask, slen0) == goal,
            goal == unquote_map_loop(s0, 0, mask, strlen(s0)),
        decreases strlen(buf@) - p,
    {
        proof {
            lemma_scan_map(buf@, p as int, mask);
            lemma_zero_from(buf@, 0);
        }
        let ghost pstart = p as int;
        while !map_set(buf[p], stop_mask)
            invariant
                pstart <= p <= strlen(buf@) < buf@.len(),
                buf@[strlen(buf@)] == 0,
                map_has(0, stop_mask),
                scan_map(buf@, p as int, stop_mask) == scan_map(buf@, pstart, stop_mask),
            decreases strlen(buf@) - p,
        {
            p += 1;
        }
        if buf[p] == 0 {
            return None;
        }
        if buf[p] == '$' as u8 {
            proof {
                lemma_skip_ref_in_string(buf@, p + 1);
            }
            p = skip_reference(buf, p + 1);
        } else if p > 0 && buf[p - 1] == '\\' as u8 {
            proof {
                lemma_backslashes_before(buf@, p as int);
            }
            let n = count_backslashes(buf, p);
            let slen = match string_len {
                Some(l) => l,
                None => {
                    let l = c_strlen(buf);
                    string_len = Some(l);
                    l
                },
            };
            proof {
                lemma_collapse_run(buf@, p as int, n as int, slen as int);
            }
            collapse_in_place(buf, p, n, slen);
            let half = n / 2;
            p = p - half;
            if n % 2 == 0 {
                return Some(p);
            }
        } else {
            return Some(p);
        }
    }
}


// ─── One level of escaping ───────────────────────────────────────────────

/// The first index at or after `i` that does not hold a backslash.
pub open spec fn run_end(s: Seq<u8>, i: int) -> int
    decreases s.len() - i,
{
    if 0 <= i < s.len() && s[i] == '\\' as u8 {
        run_end(s, i + 1)
    } else {
        i
    }
}

pub proof fn lemma_run_end(s: Seq<u8>, i: int)
    requires
        0 <= i <= s.len(),
    ensures
        i <= run_end(s, i) <= s.len(),
        forall|k: int| i <= k < run_end(s, i) ==> s[k] == '\\' as u8,
        run_end(s, i) < s.len() ==> s[run_end(s, i)] != '\\' as u8,
    decreases s.len() - i,
{
    if i < s.len() && s[i] == '\\' as u8 {
        lemma_run_end(s, i + 1);
    }
}

/// `s` from index `i` on with one level of escaping of `c` removed: a run of
/// backslashes directly before a `c` escapes it when the run is odd, and then
/// keeps half of its backslashes (rounded down); every other byte, and every
/// other run, is copied as it stands.
pub open spec fn unescape_from(s: Seq<u8>, c: u8, i: int) -> Seq<u8>
    decreases s.len() - i,
{
    if i < 0 || i >= s.len() {
        Seq::empty()
    } else if s[i] == '\\' as u8 {
        proof {
            lemma_run_end(s, i + 1);
        }
        let j = run_end(s, i + 1);
        if j >= s.len() {
            s.subrange(i, s.len() as int)
        } else if s[j] != c || (j - i) % 2 == 0 {
            s.subrange(i, j) + seq![s[j]] + unescape_from(s, c, j + 1)
        } else {
            s.subrange(i, i + (j - i) / 2) + seq![s[j]] + unescape_from(s, c, j + 1)
        }
    } else {
        seq![s[i]] + unescape_from(s, c, i + 1)
    }
}

/// Append `s[from..to]` to `out`.
fn push_range(out: &mut Vec<u8>, s: &[u8], from: usize, to: usize)
    requires
        from <= to <= s@.len(),
    ensures
        final(out)@ == old(out)@ + s@.subrange(from as int, to as int),
{
    let mut k = from;
    while k < to
        invariant
            from <= k <= to <= s@.len(),
            out@ == old(out)@ + s@.subrange(from as int, k as int),
        decreases to - k,
    {
        out.push(s[k]);
        k += 1;
        assert(out@ =~= old(out)@ + s@.subrange(from as int, k as int));
    }
}

/// Remove one level of `\` escaping in front of the byte `c`: an odd run of
/// `n` backslashes directly before a `c` becomes `n / 2` backslashes followed
/// by the `c`; even runs, runs before any other byte and a run that ends the
/// string are kept as they are.
pub fn unescape_char(s: &[u8], c: u8) -> (r: Vec<u8>)
    ensures
        r@ == unescape_from(s@, c, 0),
{
    let mut out: Vec<u8> = Vec::new();
    let mut i: usize = 0;
    while i < s.len()
        invariant
            0 <= i <= s@.len(),
            out@ + unescape_from(s@, c, i as int) == unescape_from(s@, c, 0),
        decreases s@.len() - i,
    {
        if s[i] == '\\' as u8 {
            let start = i;
            proof {
                lemma_run_end(s@, start + 1);
            }
            while i < s.len() && s[i] == '\\' as u8
                invariant
                    start <= i <= s@.len(),
                    start < s@.len(),
                    s@[start as int] == '\\' as u8,
                    i > start ==> run_end(s@, i as int) == run_end(s@, start + 1),
                    i == start ==> run_end(s@, start + 1) == run_end(s@, start + 1),
                decreases s@.len() - i,
            {
                i += 1;
            }
            let ghost j = i as int;
            assert(j == run_end(s@, start + 1));
            let run = i - start;
            if i >= s.len() {
                push_range(&mut out, s, start, i);
                assert(unescape_from(s@, c, start as int) == s@.subrange(start as int, s@.len() as int));
                assert(unescape_from(s@, c, i as int) =~= Seq::<u8>::empty());
                assert(out@ + unescape_from(s@, c, i as int) =~= out@);
                return out;
            }
            let ghost before = out@;
            if s[i] != c || run % 2 == 0 {
                push_range(&mut out, s, start, i);
            } else {
                push_range(&mut out, s, start, start + run / 2);
            }
            out.push(s[i]);
            i += 1;
            assert(out@ + unescape_from(s@, c, i as int) =~= before + unescape_from(s@, c, start as int));
        } else {
            let ghost before = out@;
            out.push(s[i]);
            i += 1;
            assert(out@ + unescape_from(s@, c, i as int) =~= before + unescape_from(s@, c, i - 1));
        }
    }
    assert(unescape_from(s@, c, i as int) =~= Seq::<u8>::empty());
    assert(out@ =~= out@ + unescape_from(s@, c, i as int));
    out
}

// ─── Locating the pattern `%` ────────────────────────────────────────────

/// The first index at or after `i` that holds `b`, or the length.
pub open spec fn index_of_byte(s: Seq<u8>, b: u8, i: int) -> int
    decreases s.len() - i,
{
    if 0 <= i < s.len() && s[i] != b {
        index_of_byte(s, b, i + 1)
    } else {
        i
    }
}

pub proof fn lemma_index_of_byte(s: Seq<u8>, b: u8, i: int)
    requires
        0 <= i <= s.len(),
    ensures
        i <= index_of_byte(s, b, i) <= s.len(),
        forall|k: int| i <= k < index_of_byte(s, b, i) ==> s[k] != b,
        index_of_byte(s, b, i) < s.len() ==> s[index_of_byte(s, b, i)] == b,
    decreases s.len() - i,
{
    if i < s.len() && s[i] != b {
        lemma_index_of_byte(s, b, i + 1);
    }
}

/// What [`find_percent_cached`] gives back: either the pattern needs no
/// rewrite (its first `%`, if any, is not escaped) or a collapsed copy of it.
#[derive(Debug, PartialEq, Eq)]
pub enum FindPercentCached {
    /// No rewrite needed; the first `%` sits at this index of the pattern, or
    /// there is no `%` at all.
    AsIs(Option<usize>),
    /// The first `%` was preceded by a backslash: `buf` is the NUL-terminated
    /// copy with the backslash runs before `%` collapsed, and `idx` the index
    /// of the first unquoted `%` in it, if any remains.
    Collapsed { buf: Vec<u8>, idx: Option<usize> },
}

/// Locate the first unquoted `%` of the pattern `s` (given without its NUL),
/// collapsing backslash escapes only when the first `%` is preceded by a
/// backslash; the collapse is that of [`find_char_unquote_idx`] on the
/// NUL-terminated copy.
pub fn find_percent_cached(s: &[u8]) -> (r: FindPercentCached)
    ensures
        ({
            let p = index_of_byte(s@, '%' as u8, 0);
            match r {
                FindPercentCached::AsIs(o) => {
                    &&& p == s@.len() ==> o is None
                    &&& p < s@.len() ==> o == Some(p as usize)
                    &&& (p < s@.len() && p > 0 ==> s@[p - 1] != '\\' as u8)
                },
                FindPercentCached::Collapsed { buf, idx } => {
                    &&& 0 < p < s@.len()
                    &&& s@[p - 1] == '\\' as u8
                    &&& (buf@, opt_int(idx)) == unquote_char_loop(
                        s@.push(0),
                        0,
                        '%' as u8,
                        strlen(s@.push(0)),
                    )
                },
            }
        }),
{
    proof {
        lemma_index_of_byte(s@, '%' as u8, 0);
    }
    let mut p: usize = 0;
    while p < s.len() && s[p] != '%' as u8
        invariant
            0 <= p <= s@.len(),
            index_of_byte(s@, '%' as u8, p as int) == index_of_byte(s@, '%' as u8, 0),
        decreases s@.len() - p,
    {
        p += 1;
    }
    if p == s.len() {
        FindPercentCached::AsIs(None)
    } else if p == 0 || s[p - 1] != '\\' as u8 {
        FindPercentCached::AsIs(Some(p))
    } else {
        let mut buf: Vec<u8> = Vec::new();
        push_range(&mut buf, s, 0, s.len());
        buf.push(0);
        assert(buf@ =~= s@.push(0));
        assert(buf@[s@.len() as int] == 0);
        let idx = find_char_unquote_idx(buf.as_mut_slice(), '%' as u8);
        FindPercentCached::Collapsed { buf, idx }
    }
}

// ─── Laws ────────────────────────────────────────────────────────────────

/// An assignment beats a keyword: a line that, after its leading blanks,
/// parses as an assignment classifies as a plain variable definition
/// starting there, whatever its first word is (`include = x` assigns the
/// variable `include`).
pub proof fn law_assignment_beats_keyword(s: Seq<u8>, targvar: bool)
    requires
        s.len() <= usize::MAX,
        byte_at(s, next_token(s, 0)) != 0,
        parse_assignment_spec(s.subrange(next_token(s, 0), s.len() as int)) is Some,
    ensures
        classify_line_spec(s, targvar) == LineClass::VarDef(
            VarLine { mods: no_modifiers(), had_modifier: false, assign: true, rest: next_token(s, 0) as usize },
        ),
{
    lemma_next_token(s, 0);
}

/// No conditional directive keyword is a variable modifier.
proof fn lemma_directive_not_modifier(w: Seq<u8>)
    requires
        directive_of(w) is Some,
    ensures
        var_modifier_of(w) is None,
{
    assert(kw_export() != kw_ifdef()) by { assert(kw_export().len() != kw_ifdef().len()); }
    assert(kw_export() != kw_ifndef()) by { assert(kw_export()[0] != kw_ifndef()[0]); }
    assert(kw_export() != kw_ifeq()) by { assert(kw_export().len() != kw_ifeq().len()); }
    assert(kw_export() != kw_ifneq()) by { assert(kw_export()[0] != kw_ifneq()[0]); }
    assert(kw_export() != kw_else()) by { assert(kw_export().len() != kw_else().len()); }
    assert(kw_export() != kw_endif()) by { assert(kw_export()[1] != kw_endif()[1]); }
    assert(kw_unexport() != w) by { assert(kw_unexport().len() == 8); }
    assert(kw_override() != w) by { assert(kw_override().len() == 8); }
    assert(kw_private() != w) by { assert(kw_private()[0] == 'p' as u8); }
    assert(kw_define() != w) by { assert(kw_define()[0] == 'd' as u8); }
    assert(kw_undefine() != w) by { assert(kw_undefine().len() == 8); }
}

/// A line whose first word is a conditional directive and that is no
/// assignment classifies as that conditional.
pub proof fn law_directive_line_is_conditional(s: Seq<u8>, targvar: bool)
    requires
        s.len() <= usize::MAX,
        directive_of(s.subrange(next_token(s, 0), end_of_token(s, next_token(s, 0)))) is Some,
        parse_assignment_spec(s.subrange(next_token(s, 0), s.len() as int)) is None,
    ensures
        classify_line_spec(s, targvar) == LineClass::Conditional(
            directive_of(s.subrange(next_token(s, 0), end_of_token(s, next_token(s, 0))))->0,
        ),
{
    lemma_next_token(s, 0);
    let i = next_token(s, 0);
    lemma_end_of_token(s, i);
    let w = s.subrange(i, end_of_token(s, i));
    lemma_directive_not_modifier(w);
    if byte_at(s, i) == 0 {
        assert(end_of_token(s, i) == i);
        assert(w.len() == 0);
    }
}

/// Unescaping leaves a string without backslashes as it is.
pub proof fn law_unescape_without_backslashes(s: Seq<u8>, c: u8)
    requires
        !s.contains('\\' as u8),
    ensures
        unescape_from(s, c, 0) == s,
{
    lemma_unescape_plain_from(s, c, 0);
    assert(s.subrange(0, s.len() as int) =~= s);
}

proof fn lemma_unescape_plain_from(s: Seq<u8>, c: u8, i: int)
    requires
        0 <= i <= s.len(),
        !s.contains('\\' as u8),
    ensures
        unescape_from(s, c, i) == s.subrange(i, s.len() as int),
    decreases s.len() - i,
{
    if i < s.len() {
        assert(s[i] != '\\' as u8) by {
            if s[i] == '\\' as u8 {
                assert(s.contains('\\' as u8));
            }
        }
        lemma_unescape_plain_from(s, c, i + 1);
        assert(seq![s[i]] + s.subrange(i + 1, s.len() as int) =~= s.subrange(i, s.len() as int));
    } else {
        assert(s.subrange(i, s.len() as int) =~= Seq::<u8>::empty());
    }
}

} // verus!
