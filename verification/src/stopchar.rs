//! The reader's byte-class table (`stopchar_map`): every byte of makefile text
//! belongs to a class — blank, newline, comment, variable-reference start, … —
//! and the scanners test classes with a bit mask rather than comparing bytes.
//!
//! The table is the one make builds at start-up in the C locale: `isspace`
//! bytes other than space and TAB are the newline class, and alphanumerics
//! (plus `-`, `_`, `.`) may appear in user-defined function names.

use vstd::prelude::*;

verus! {

pub const MAP_NUL: i32 = 0x1;
pub const MAP_BLANK: i32 = 0x2;
pub const MAP_NEWLINE: i32 = 0x4;
pub const MAP_COMMENT: i32 = 0x8;
pub const MAP_SEMI: i32 = 0x10;
pub const MAP_EQUALS: i32 = 0x20;
pub const MAP_COLON: i32 = 0x40;
pub const MAP_VARSEP: i32 = 0x80;
pub const MAP_PIPE: i32 = 0x100;
pub const MAP_DOT: i32 = 0x200;
pub const MAP_COMMA: i32 = 0x400;
pub const MAP_USERFUNC: i32 = 0x2000;
pub const MAP_VARIABLE: i32 = 0x4000;
pub const MAP_DIRSEP: i32 = 0x8000;
/// Blank or newline: what `isspace` accepts.
pub const MAP_SPACE: i32 = 0x6;

/// Space or TAB.
pub open spec fn is_blank(b: u8) -> bool {
    b == 32 || b == 9
}

/// The other `isspace` bytes: `\n`, `\v`, `\f`, `\r`.
pub open spec fn is_newline(b: u8) -> bool {
    10 <= b <= 13
}

/// `isspace` in the C locale.
pub open spec fn is_space(b: u8) -> bool {
    is_blank(b) || is_newline(b)
}

pub open spec fn is_alnum(b: u8) -> bool {
    (48 <= b <= 57) || (65 <= b <= 90) || (97 <= b <= 122)
}

/// The class bits of byte `b`.
pub open spec fn stop_flags(b: u8) -> i32 {
    if b == 0 {
        MAP_NUL
    } else if b == '#' as u8 {
        MAP_COMMENT
    } else if b == ';' as u8 {
        MAP_SEMI
    } else if b == '=' as u8 {
        MAP_EQUALS
    } else if b == ':' as u8 {
        MAP_COLON
    } else if b == '|' as u8 {
        MAP_PIPE
    } else if b == '.' as u8 {
        0x2200  // MAP_DOT | MAP_USERFUNC
    } else if b == ',' as u8 {
        MAP_COMMA
    } else if b == '(' as u8 || b == ')' as u8 || b == '{' as u8 || b == '}' as u8 {
        MAP_VARSEP
    } else if b == '$' as u8 {
        MAP_VARIABLE
    } else if b == '-' as u8 || b == '_' as u8 {
        MAP_USERFUNC
    } else if is_blank(b) {
        MAP_BLANK
    } else if b == '/' as u8 {
        MAP_DIRSEP
    } else if is_newline(b) {
        MAP_NEWLINE
    } else if is_alnum(b) {
        MAP_USERFUNC
    } else {
        0
    }
}

/// Whether byte `b` belongs to any class of `mask`.
pub open spec fn map_has(b: u8, mask: i32) -> bool {
    stop_flags(b) & mask != 0
}

/// The class bits of byte `b`, as make's `stopchar_map[b]`.
pub fn stopchar_flags(b: u8) -> (r: i32)
    ensures
        r == stop_flags(b),
{
    if b == 0 {
        MAP_NUL
    } else if b == '#' as u8 {
        MAP_COMMENT
    } else if b == ';' as u8 {
        MAP_SEMI
    } else if b == '=' as u8 {
        MAP_EQUALS
    } else if b == ':' as u8 {
        MAP_COLON
    } else if b == '|' as u8 {
        MAP_PIPE
    } else if b == '.' as u8 {
        assert(MAP_DOT | MAP_USERFUNC == 0x2200) by (bit_vector);
        MAP_DOT | MAP_USERFUNC
    } else if b == ',' as u8 {
        MAP_COMMA
    } else if b == '(' as u8 || b == ')' as u8 || b == '{' as u8 || b == '}' as u8 {
        MAP_VARSEP
    } else if b == '$' as u8 {
        MAP_VARIABLE
    } else if b == '-' as u8 || b == '_' as u8 {
        MAP_USERFUNC
    } else if b == 32 || b == 9 {
        MAP_BLANK
    } else if b == '/' as u8 {
        MAP_DIRSEP
    } else if 10 <= b && b <= 13 {
        MAP_NEWLINE
    } else if (48 <= b && b <= 57) || (65 <= b && b <= 90) || (97 <= b && b <= 122) {
        MAP_USERFUNC
    } else {
        0
    }
}

/// What each mask the reader uses selects, in plain terms.
pub proof fn lemma_map_classes(b: u8)
    ensures
        map_has(b, MAP_NUL) == (b == 0),
        map_has(b, MAP_BLANK) == is_blank(b),
        map_has(b, MAP_BLANK | MAP_NEWLINE) == is_space(b),
        map_has(b, MAP_BLANK | MAP_NEWLINE | MAP_NUL) == (is_space(b) || b == 0),
        map_has(b, MAP_BLANK | MAP_NUL) == (is_blank(b) || b == 0),
        map_has(b, MAP_COMMENT | MAP_NUL) == (b == '#' as u8 || b == 0),
        map_has(b, MAP_NUL | MAP_VARSEP) == (b == 0 || b == '(' as u8 || b == ')' as u8
            || b == '{' as u8 || b == '}' as u8),
        map_has(b, MAP_SEMI) == (b == ';' as u8),
        map_has(b, MAP_VARIABLE) == (b == '$' as u8),
{
    assert(
        (1i32 & 2) == 0 && (1i32 & 6) == 0 && (1i32 & 7) != 0 && (1i32 & 3) != 0 && (1i32 & 9) != 0
        && (1i32 & 0x81) != 0 && (1i32 & 0x10) == 0 && (1i32 & 0x4000) == 0 && (1i32 & 1) != 0
        && (2i32 & 2) != 0 && (2i32 & 6) != 0 && (2i32 & 7) != 0 && (2i32 & 3) != 0 && (2i32 & 9) == 0
        && (2i32 & 0x81) == 0 && (2i32 & 0x10) == 0 && (2i32 & 0x4000) == 0 && (2i32 & 1) == 0
        && (4i32 & 2) == 0 && (4i32 & 6) != 0 && (4i32 & 7) != 0 && (4i32 & 3) == 0 && (4i32 & 9) == 0
        && (4i32 & 0x81) == 0 && (4i32 & 0x10) == 0 && (4i32 & 0x4000) == 0 && (4i32 & 1) == 0
        && (8i32 & 2) == 0 && (8i32 & 6) == 0 && (8i32 & 7) == 0 && (8i32 & 3) == 0 && (8i32 & 9) != 0
        && (8i32 & 0x81) == 0 && (8i32 & 0x10) == 0 && (8i32 & 0x4000) == 0 && (8i32 & 1) == 0
        && (0x10i32 & 2) == 0 && (0x10i32 & 6) == 0 && (0x10i32 & 7) == 0 && (0x10i32 & 3) == 0
        && (0x10i32 & 9) == 0 && (0x10i32 & 0x81) == 0 && (0x10i32 & 0x10) != 0
        && (0x10i32 & 0x4000) == 0 && (0x10i32 & 1) == 0
        && (0x20i32 & 2) == 0 && (0x20i32 & 6) == 0 && (0x20i32 & 7) == 0 && (0x20i32 & 3) == 0
        && (0x20i32 & 9) == 0 && (0x20i32 & 0x81) == 0 && (0x20i32 & 0x10) == 0
        && (0x20i32 & 0x4000) == 0 && (0x20i32 & 1) == 0
        && (0x40i32 & 2) == 0 && (0x40i32 & 6) == 0 && (0x40i32 & 7) == 0 && (0x40i32 & 3) == 0
        && (0x40i32 & 9) == 0 && (0x40i32 & 0x81) == 0 && (0x40i32 & 0x10) == 0
        && (0x40i32 & 0x4000) == 0 && (0x40i32 & 1) == 0
        && (0x80i32 & 2) == 0 && (0x80i32 & 6) == 0 && (0x80i32 & 7) == 0 && (0x80i32 & 3) == 0
        && (0x80i32 & 9) == 0 && (0x80i32 & 0x81) != 0 && (0x80i32 & 0x10) == 0
        && (0x80i32 & 0x4000) == 0 && (0x80i32 & 1) == 0
        && (0x100i32 & 2) == 0 && (0x100i32 & 6) == 0 && (0x100i32 & 7) == 0 && (0x100i32 & 3) == 0
        && (0x100i32 & 9) == 0 && (0x100i32 & 0x81) == 0 && (0x100i32 & 0x10) == 0
        && (0x100i32 & 0x4000) == 0 && (0x100i32 & 1) == 0
        && (0x2200i32 & 2) == 0 && (0x2200i32 & 6) == 0 && (0x2200i32 & 7) == 0
        && (0x2200i32 & 3) == 0 && (0x2200i32 & 9) == 0 && (0x2200i32 & 0x81) == 0
        && (0x2200i32 & 0x10) == 0 && (0x2200i32 & 0x4000) == 0 && (0x2200i32 & 1) == 0
        && (0x400i32 & 2) == 0 && (0x400i32 & 6) == 0 && (0x400i32 & 7) == 0 && (0x400i32 & 3) == 0
        && (0x400i32 & 9) == 0 && (0x400i32 & 0x81) == 0 && (0x400i32 & 0x10) == 0
        && (0x400i32 & 0x4000) == 0 && (0x400i32 & 1) == 0
        && (0x2000i32 & 2) == 0 && (0x2000i32 & 6) == 0 && (0x2000i32 & 7) == 0
        && (0x2000i32 & 3) == 0 && (0x2000i32 & 9) == 0 && (0x2000i32 & 0x81) == 0
        && (0x2000i32 & 0x10) == 0 && (0x2000i32 & 0x4000) == 0 && (0x2000i32 & 1) == 0
        && (0x4000i32 & 2) == 0 && (0x4000i32 & 6) == 0 && (0x4000i32 & 7) == 0
        && (0x4000i32 & 3) == 0 && (0x4000i32 & 9) == 0 && (0x4000i32 & 0x81) == 0
        && (0x4000i32 & 0x10) == 0 && (0x4000i32 & 0x4000) != 0 && (0x4000i32 & 1) == 0
        && (0x8000i32 & 2) == 0 && (0x8000i32 & 6) == 0 && (0x8000i32 & 7) == 0
        && (0x8000i32 & 3) == 0 && (0x8000i32 & 9) == 0 && (0x8000i32 & 0x81) == 0
        && (0x8000i32 & 0x10) == 0 && (0x8000i32 & 0x4000) == 0 && (0x8000i32 & 1) == 0
        && (0i32 & 2) == 0 && (0i32 & 6) == 0 && (0i32 & 7) == 0 && (0i32 & 3) == 0 && (0i32 & 9) == 0
        && (0i32 & 0x81) == 0 && (0i32 & 0x10) == 0 && (0i32 & 0x4000) == 0 && (0i32 & 1) == 0
        && (2i32 | 4) == 6 && (2i32 | 4 | 1) == 7 && (2i32 | 1) == 3 && (8i32 | 1) == 9
        && (1i32 | 0x80) == 0x81
    ) by (bit_vector);
}

} // verus!
