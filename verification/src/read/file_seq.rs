//! Splitting a file sequence (targets, prerequisites, included makefiles)
//! into names: blank-separated words, unquoted, with redundant `./`
//! prefixes dropped, `.WAIT` markers noted, and archive groups such as
//! `lib(a b c)` spelled out member by member (`lib(a)`, `lib(b)`, `lib(c)`).
//! What the file system decides of a name (`~` homes, archive members,
//! wildcard matches) is asked of the caller's [`FileSeqEnv`].

use vstd::prelude::*;
use crate::execctx::BuildError;
use crate::parser::{
    at, byte_at, c_strlen, dot_slash_prefix, find_map_unquote_idx, is_wait_token, kw_wait, lemma_next_token,
    lemma_nul_terminated, lemma_scan_map, lemma_skip_ref_in_string, lemma_backslashes_before, lemma_collapse_run,
    lemma_zero_from, map_set, next_token, next_token_off, nul_terminated, scan_map, skip_ref, strip_dot_slash_prefix,
    strlen, unquote_map_loop, unquote_state_ok, backslashes_before, collapse_run,
};
use crate::dep::DepNode;
use crate::read::{dep_from_name, ParsedName};
use crate::rule::push_slice;
use crate::stopchar::{is_space, lemma_map_classes, map_has, stop_flags, MAP_BLANK, MAP_NEWLINE, MAP_NUL, MAP_PIPE};

verus! {

/// No option.
pub const PARSEFS_NONE: i32 = 0x0;
/// Keep leading `./` prefixes.
pub const PARSEFS_NOSTRIP: i32 = 0x1;
/// No archive groups or members.
pub const PARSEFS_NOAR: i32 = 0x2;
/// Names are taken as they are: no `~`, archive or wildcard expansion.
pub const PARSEFS_NOGLOB: i32 = 0x4;
/// Keep only names that exist (a wildcard that matches nothing gives none).
pub const PARSEFS_EXISTS: i32 = 0x8;
/// The names are not to be kept in the string cache.
pub const PARSEFS_NOCACHE: i32 = 0x10;
/// The sequence is one word: blanks do not separate names.
pub const PARSEFS_ONEWORD: i32 = 0x20;
/// Recognize `.WAIT` markers.
pub const PARSEFS_WAIT: i32 = 0x40;

/// Option `f` is among `flags`.
pub open spec fn has_flag(flags: i32, f: i32) -> bool {
    flags & f != 0
}

/// The classes that end a name: those of `stopmap`, the NUL, and the blanks
/// unless the sequence is one word.
pub open spec fn find_mask(stopmap: i32, flags: i32) -> i32 {
    if has_flag(flags, PARSEFS_ONEWORD) {
        stopmap | MAP_NUL
    } else {
        stopmap | MAP_NUL | MAP_BLANK
    }
}

// ─── What one unquoting scan finds ───────────────────────────────────────

/// A scan that starts past the first byte, or at a first byte that does not
/// end a name, finds a name of at least one byte, and keeps the string a C
/// string.
pub proof fn lemma_unquote_found(s: Seq<u8>, p: int, mask: i32, slen: int)
    requires
        unquote_state_ok(s, p, slen),
        p >= 1 || !map_has(s[0], mask | MAP_NUL),
    ensures
        unquote_map_loop(s, p, mask, slen).0.len() == s.len(),
        unquote_state_ok(unquote_map_loop(s, p, mask, slen).0, 0, slen),
        unquote_map_loop(s, p, mask, slen).1 matches Some(i) ==> 1 <= i < strlen(unquote_map_loop(s, p, mask, slen).0),
        strlen(unquote_map_loop(s, p, mask, slen).0) >= 1,
    decreases strlen(s) - p,
{
    lemma_scan_map(s, p, mask);
    lemma_zero_from(s, 0);
    lemma_map_classes(0u8);
    assert(map_has(0u8, mask | MAP_NUL)) by {
        let x = stop_flags(0u8);
        assert(x & 1 != 0 ==> x & (mask | 1) != 0) by (bit_vector);
    }
    let q = scan_map(s, p, mask | MAP_NUL);
    if s[q] == 0 {
    } else if s[q] == '$' as u8 {
        lemma_skip_ref_in_string(s, q + 1);
        lemma_unquote_found(s, skip_ref(s, q + 1), mask, slen);
    } else if q > 0 && s[q - 1] == '\\' as u8 {
        lemma_backslashes_before(s, q);
        let n = backslashes_before(s, q);
        lemma_collapse_run(s, q, n, slen);
        if n % 2 != 0 {
            lemma_unquote_found(collapse_run(s, q, n, slen), q - n / 2, mask, slen);
        }
    } else {
    }
}

/// An unquoting scan keeps a C string a C string of the same length.
pub proof fn lemma_unquote_keeps_c_string(s: Seq<u8>, p: int, mask: i32, slen: int)
    requires
        unquote_state_ok(s, p, slen),
    ensures
        unquote_map_loop(s, p, mask, slen).0.len() == s.len(),
        nul_terminated(unquote_map_loop(s, p, mask, slen).0),
        unquote_map_loop(s, p, mask, slen).1 matches Some(i) ==> 0 <= i < s.len(),
    decreases strlen(s) - p,
{
    lemma_scan_map(s, p, mask);
    lemma_zero_from(s, 0);
    assert(s[strlen(s)] == 0);
    let q = scan_map(s, p, mask | MAP_NUL);
    if s[q] == 0 {
    } else if s[q] == '$' as u8 {
        lemma_skip_ref_in_string(s, q + 1);
        lemma_unquote_keeps_c_string(s, skip_ref(s, q + 1), mask, slen);
    } else if q > 0 && s[q - 1] == '\\' as u8 {
        lemma_backslashes_before(s, q);
        let n = backslashes_before(s, q);
        lemma_collapse_run(s, q, n, slen);
        let s2 = collapse_run(s, q, n, slen);
        lemma_zero_from(s2, 0);
        assert(s2[strlen(s2)] == 0);
        if n % 2 != 0 {
            lemma_unquote_keeps_c_string(s2, q - n / 2, mask, slen);
        }
    } else {
    }
}

// ─── Archive groups ──────────────────────────────────────────────────────

/// Whether a later word of `s`, from `e` on, ends in `)` before the string
/// ends: words run up to a byte of `mask`, and a word that ends at once ends
/// the search.
pub open spec fn group_closes(s: Seq<u8>, e: int, mask: i32) -> bool
    decreases s.len() - e,
{
    if e < 0 || e >= s.len() {
        false
    } else {
        proof {
            lemma_next_token(s, e);
            lemma_scan_map_ge(s, next_token(s, e), mask);
        }
        let e2 = scan_map(s, next_token(s, e), mask);
        if e2 == e {
            false
        } else if s[e2 - 1] == ')' as u8 {
            true
        } else if byte_at(s, e2) == 0 {
            false
        } else {
            group_closes(s, e2, mask)
        }
    }
}

/// A class scan ends at or after its start, and within the string.
pub proof fn lemma_scan_map_ge(s: Seq<u8>, p: int, mask: i32)
    ensures
        p <= scan_map(s, p, mask),
        0 <= p <= s.len() ==> scan_map(s, p, mask) <= s.len(),
        0 <= p ==> scan_map(s, p, mask) < s.len() ==> map_has(s[scan_map(s, p, mask)], mask),
        forall|k: int| p <= k < scan_map(s, p, mask) ==> !map_has(#[trigger] s[k], mask),
    decreases s.len() - p,
{
    if 0 <= p < s.len() && !map_has(s[p], mask) {
        lemma_scan_map_ge(s, p + 1, mask);
    }
}

/// The first index at or after `p` whose byte is of class `mask`, or the end.
fn scan_map_off(s: &[u8], p: usize, mask: i32) -> (r: usize)
    requires
        p <= s@.len(),
    ensures
        r == scan_map(s@, p as int, mask),
{
    let mut i = p;
    while i < s.len() && !map_set(s[i], mask)
        invariant
            p <= i <= s@.len(),
            scan_map(s@, i as int, mask) == scan_map(s@, p as int, mask),
        decreases s@.len() - i,
    {
        i += 1;
    }
    i
}

/// Whether a later word of `s` from `e` on closes an archive group; see
/// [`group_closes`].
fn group_closes_exec(s: &[u8], start: usize, mask: i32) -> (r: bool)
    ensures
        r == group_closes(s@, start as int, mask),
{
    let mut e = start;
    loop
        invariant
            group_closes(s@, e as int, mask) == group_closes(s@, start as int, mask),
        decreases s@.len() - e,
    {
        if e >= s.len() {
            return false;
        }
        let e1 = next_token_off(s, e);
        proof {
            lemma_next_token(s@, e as int);
            lemma_scan_map_ge(s@, e1 as int, mask);
        }
        let e2 = scan_map_off(s, e1, mask);
        if e2 == e {
            return false;
        } else if s[e2 - 1] == ')' as u8 {
            return true;
        } else if at(s, e2) == 0 {
            return false;
        }
        e = e2;
    }
}

// ─── One step ────────────────────────────────────────────────────────────

/// What a step of the split found.
pub enum SeqStep {
    /// The sequence ends here.
    Stop,
    /// A `.WAIT` marker.
    Wait,
    /// Nothing to name (the opening or closing word of an archive group).
    Skip,
    /// A name.
    Name(Vec<u8>),
}

/// The kinds of step, as numbers in the specifications.
pub open spec fn step_kind(s: SeqStep) -> int {
    match s {
        SeqStep::Stop => 0,
        SeqStep::Wait => 1,
        SeqStep::Skip => 2,
        SeqStep::Name(_) => 3,
    }
}

/// Where the next word starts.
pub open spec fn word_start(rest: Seq<u8>) -> int {
    next_token(rest, 0)
}

/// The sequence ends at the next word: its first byte is of `stopmap`, or the
/// string ends.
pub open spec fn at_stop(rest: Seq<u8>, stopmap: i32) -> bool {
    map_has(byte_at(rest, word_start(rest)), stopmap | MAP_NUL)
}

/// The string from the next word on.
pub open spec fn from_word(rest: Seq<u8>) -> Seq<u8> {
    rest.subrange(word_start(rest), rest.len() as int)
}

/// The unquoting scan of the next word: the string after it, and where the
/// word ends.
pub open spec fn word_scan(rest: Seq<u8>, stopmap: i32, flags: i32) -> (Seq<u8>, Option<int>) {
    unquote_map_loop(from_word(rest), 0, find_mask(stopmap, flags), strlen(from_word(rest)))
}

/// Where the next word ends, in the unquoted string.
pub open spec fn word_end(rest: Seq<u8>, stopmap: i32, flags: i32) -> int {
    match word_scan(rest, stopmap, flags).1 {
        Some(i) => i,
        None => strlen(word_scan(rest, stopmap, flags).0),
    }
}

/// The next word, unquoted.
pub open spec fn word(rest: Seq<u8>, stopmap: i32, flags: i32) -> Seq<u8> {
    word_scan(rest, stopmap, flags).0.subrange(0, word_end(rest, stopmap, flags))
}

/// The string after the next word.
pub open spec fn after_word(rest: Seq<u8>, stopmap: i32, flags: i32) -> Seq<u8> {
    word_scan(rest, stopmap, flags).0.subrange(word_end(rest, stopmap, flags), word_scan(rest, stopmap, flags).0.len() as int)
}

/// The word with its redundant `./` prefixes dropped (unless kept by
/// option); what is left of nothing is `./`.
pub open spec fn stripped(w: Seq<u8>, flags: i32) -> Seq<u8> {
    let t = if has_flag(flags, PARSEFS_NOSTRIP) {
        w
    } else {
        w.subrange(dot_slash_prefix(w, 0), w.len() as int)
    };
    if t.len() == 0 {
        seq!['.' as u8, '/' as u8]
    } else {
        t
    }
}

/// The first index at or after `k` of the byte `c` in `t`, or its length.
pub open spec fn find_byte(t: Seq<u8>, c: u8, k: int) -> int
    decreases t.len() - k,
{
    if k < 0 || k >= t.len() {
        t.len() as int
    } else if t[k] == c {
        k
    } else {
        find_byte(t, c, k + 1)
    }
}

/// A member word `m` of the archive group opened by `g` (`lib(`): it names
/// `lib(m)`; a word that ends in `)` closes the group, and a lone `)` names
/// nothing.
pub open spec fn member_step(g: Seq<u8>, m: Seq<u8>) -> (int, Seq<u8>, Option<Seq<u8>>) {
    if m.last() == ')' as u8 {
        if m.len() == 1 {
            (2, Seq::empty(), None)
        } else {
            (3, g + m, None)
        }
    } else {
        (3, g + m + seq![')' as u8], Some(g))
    }
}

/// A word `t` that opens an archive group: it has a `(` but neither starts
/// with one nor ends in `)`, and a later word closes the group.
pub open spec fn opens_group(t: Seq<u8>, after: Seq<u8>, stopmap: i32, flags: i32) -> bool {
    &&& !has_flag(flags, PARSEFS_NOAR)
    &&& t[0] != '(' as u8
    &&& t.last() != ')' as u8
    &&& find_byte(t, '(' as u8, 0) < t.len()
    &&& group_closes(after, 0, find_mask(stopmap, flags))
}

/// What a word `t` names, outside an archive group or inside the one `group`
/// opened: the kind of step, the name, and the group after it.
pub open spec fn word_step(t: Seq<u8>, after: Seq<u8>, group: Option<Seq<u8>>, stopmap: i32, flags: i32) -> (
    int,
    Seq<u8>,
    Option<Seq<u8>>,
) {
    match group {
        Some(g) => member_step(g, t),
        None => if opens_group(t, after, stopmap, flags) {
            let n = find_byte(t, '(' as u8, 0);
            let m = t.subrange(n + 1, t.len() as int);
            if m.len() == 0 {
                (2, Seq::empty(), Some(t.subrange(0, n + 1)))
            } else {
                member_step(t.subrange(0, n + 1), m)
            }
        } else {
            (3, t, None)
        },
    }
}

/// One step of the split of `rest` (inside the archive group `group`
/// opened, if any): the kind of step, the name, the string left, and the
/// group after it.
pub open spec fn seq_step(rest: Seq<u8>, group: Option<Seq<u8>>, stopmap: i32, flags: i32) -> (
    int,
    Seq<u8>,
    Seq<u8>,
    Option<Seq<u8>>,
) {
    if at_stop(rest, stopmap) {
        (0, Seq::empty(), from_word(rest), group)
    } else {
        let w = word(rest, stopmap, flags);
        let after = after_word(rest, stopmap, flags);
        if has_flag(flags, PARSEFS_WAIT) && w == kw_wait() {
            (1, Seq::empty(), after, group)
        } else {
            let ws = word_step(stripped(w, flags), after, group, stopmap, flags);
            (ws.0, ws.1, after, ws.2)
        }
    }
}

/// A byte string that may be absent, as a value.
pub open spec fn opt_bytes(o: Option<Vec<u8>>) -> Option<Seq<u8>> {
    match o {
        Some(v) => Some(v@),
        None => None,
    }
}

proof fn lemma_find_mask(b: u8, stopmap: i32, flags: i32)
    requires
        !map_has(b, stopmap | MAP_NUL),
        !is_space(b),
    ensures
        !map_has(b, find_mask(stopmap, flags) | MAP_NUL),
{
    lemma_map_classes(b);
    let x = stop_flags(b);
    assert(x & (stopmap | MAP_NUL) == 0 ==> x & (MAP_BLANK | MAP_NEWLINE) == 0 ==> x & ((stopmap | MAP_NUL) | MAP_NUL) == 0
        && x & ((stopmap | MAP_NUL | MAP_BLANK) | MAP_NUL) == 0) by (bit_vector);
}

/// A step that does not stop leaves a shorter C string.
pub proof fn lemma_step_shrinks(rest: Seq<u8>, stopmap: i32, flags: i32)
    requires
        nul_terminated(rest),
        !at_stop(rest, stopmap),
    ensures
        nul_terminated(after_word(rest, stopmap, flags)),
        after_word(rest, stopmap, flags).len() < rest.len(),
        nul_terminated(from_word(rest)),
        nul_terminated(word_scan(rest, stopmap, flags).0),
        word_end(rest, stopmap, flags) >= 1,
{
    lemma_nul_terminated(rest);
    lemma_zero_from(rest, 0);
    lemma_next_token(rest, 0);
    let k = word_start(rest);
    lemma_map_classes(0u8);
    if k > strlen(rest) {
        assert(is_space(byte_at(rest, strlen(rest))));
    }
    let t = from_word(rest);
    assert(t[strlen(rest) - k] == 0);
    assert(nul_terminated(t));
    lemma_nul_terminated(t);
    assert(t[0] == byte_at(rest, k));
    lemma_find_mask(t[0], stopmap, flags);
    lemma_unquote_found(t, 0, find_mask(stopmap, flags), strlen(t));
    let t2 = word_scan(rest, stopmap, flags).0;
    lemma_zero_from(t2, 0);
    let q = word_end(rest, stopmap, flags);
    assert(t2[strlen(t2)] == 0);
    assert(nul_terminated(t2));
    assert(after_word(rest, stopmap, flags)[strlen(t2) - q] == 0);
}

/// The bytes of `s` from `i` to `j`, as a new vector.
fn copy_range(s: &[u8], i: usize, j: usize) -> (r: Vec<u8>)
    requires
        i <= j <= s@.len(),
    ensures
        r@ == s@.subrange(i as int, j as int),
{
    let mut out: Vec<u8> = Vec::new();
    push_slice(&mut out, vstd::slice::slice_subrange(s, i, j));
    out
}

/// The first index of `(` in `t`, or its length.
fn find_open_paren(t: &[u8]) -> (r: usize)
    ensures
        r == find_byte(t@, '(' as u8, 0),
        r <= t@.len(),
{
    let mut k: usize = 0;
    while k < t.len() && t[k] != '(' as u8
        invariant
            k <= t@.len(),
            find_byte(t@, '(' as u8, k as int) == find_byte(t@, '(' as u8, 0),
        decreases t@.len() - k,
    {
        k += 1;
    }
    k
}

/// A member word `m` of the archive group `g` opened; see [`member_step`].
fn member_step_exec(g: &[u8], m: &[u8]) -> (r: (SeqStep, Option<Vec<u8>>))
    requires
        m@.len() > 0,
    ensures
        step_kind(r.0) == member_step(g@, m@).0,
        r.0 matches SeqStep::Name(n) ==> n@ == member_step(g@, m@).1,
        opt_bytes(r.1) == member_step(g@, m@).2,
{
    if m[m.len() - 1] == ')' as u8 {
        if m.len() == 1 {
            (SeqStep::Skip, None)
        } else {
            let mut n: Vec<u8> = Vec::new();
            push_slice(&mut n, g);
            push_slice(&mut n, m);
            (SeqStep::Name(n), None)
        }
    } else {
        let mut n: Vec<u8> = Vec::new();
        push_slice(&mut n, g);
        push_slice(&mut n, m);
        n.push(')' as u8);
        let mut gv: Vec<u8> = Vec::new();
        push_slice(&mut gv, g);
        (SeqStep::Name(n), Some(gv))
    }
}

/// What the word `t` names; see [`word_step`].
fn word_step_exec(t: &[u8], after: &[u8], group: &Option<Vec<u8>>, stopmap: i32, flags: i32) -> (r: (SeqStep, Option<Vec<u8>>))
    requires
        t@.len() > 0,
    ensures
        step_kind(r.0) == word_step(t@, after@, opt_bytes(*group), stopmap, flags).0,
        r.0 matches SeqStep::Name(n) ==> n@ == word_step(t@, after@, opt_bytes(*group), stopmap, flags).1,
        opt_bytes(r.1) == word_step(t@, after@, opt_bytes(*group), stopmap, flags).2,
{
    match group {
        Some(g) => member_step_exec(g.as_slice(), t),
        None => {
            let fm = if flags & PARSEFS_ONEWORD != 0 {
                stopmap | MAP_NUL
            } else {
                stopmap | MAP_NUL | MAP_BLANK
            };
            let n = find_open_paren(t);
            if flags & PARSEFS_NOAR == 0 && t[0] != '(' as u8 && t[t.len() - 1] != ')' as u8 && n < t.len()
                && group_closes_exec(after, 0, fm) {
                let g = copy_range(t, 0, n + 1);
                if n + 1 == t.len() {
                    assert(t@.subrange(n + 1, t@.len() as int).len() == 0);
                    (SeqStep::Skip, Some(g))
                } else {
                    let m = vstd::slice::slice_subrange(t, n + 1, t.len());
                    member_step_exec(g.as_slice(), m)
                }
            } else {
                let mut v: Vec<u8> = Vec::new();
                push_slice(&mut v, t);
                (SeqStep::Name(v), None)
            }
        },
    }
}

/// The word `w` with its redundant `./` prefixes dropped; see [`stripped`].
fn stripped_exec(w: &[u8], flags: i32) -> (r: Vec<u8>)
    ensures
        r@ == stripped(w@, flags),
{
    let d = if flags & PARSEFS_NOSTRIP != 0 {
        0
    } else {
        strip_dot_slash_prefix(w)
    };
    if d == w.len() {
        let mut v: Vec<u8> = Vec::new();
        v.push('.' as u8);
        v.push('/' as u8);
        assert(v@ =~= seq!['.' as u8, '/' as u8]);
        v
    } else {
        let v = copy_range(w, d, w.len());
        assert(flags & PARSEFS_NOSTRIP != 0 ==> w@.subrange(0, w@.len() as int) =~= w@);
        v
    }
}

/// Split the next name off the C string `rest`, inside the archive group
/// `group` opened if any: `rest` becomes what is left, `group` the group
/// after it; see [`seq_step`].
pub fn file_seq_step(rest: &mut Vec<u8>, group: &mut Option<Vec<u8>>, stopmap: i32, flags: i32) -> (r: SeqStep)
    requires
        nul_terminated(old(rest)@),
    ensures
        step_kind(r) == seq_step(old(rest)@, opt_bytes(*old(group)), stopmap, flags).0,
        r matches SeqStep::Name(n) ==> n@ == seq_step(old(rest)@, opt_bytes(*old(group)), stopmap, flags).1,
        final(rest)@ == seq_step(old(rest)@, opt_bytes(*old(group)), stopmap, flags).2,
        opt_bytes(*final(group)) == seq_step(old(rest)@, opt_bytes(*old(group)), stopmap, flags).3,
        nul_terminated(final(rest)@),
        step_kind(r) != 0 ==> final(rest)@.len() < old(rest)@.len(),
{
    let ghost r0 = rest@;
    let k = next_token_off(rest.as_slice(), 0);
    proof {
        lemma_next_token(rest@, 0);
    }
    let c = at(rest.as_slice(), k);
    let mut t = copy_range(rest.as_slice(), k, rest.len());
    if map_set(c, stopmap | MAP_NUL) {
        proof {
            lemma_nul_terminated(r0);
            lemma_zero_from(r0, 0);
            lemma_map_classes(0u8);
            if k > strlen(r0) {
                assert(crate::stopchar::is_space(byte_at(r0, strlen(r0))));
            }
            assert(t@[strlen(r0) - k] == 0);
        }
        *rest = t;
        return SeqStep::Stop;
    }
    proof {
        lemma_step_shrinks(r0, stopmap, flags);
    }
    let fm = if flags & PARSEFS_ONEWORD != 0 {
        stopmap | MAP_NUL
    } else {
        stopmap | MAP_NUL | MAP_BLANK
    };
    let found = find_map_unquote_idx(t.as_mut_slice(), fm);
    let q: usize = match found {
        Some(i) => i,
        None => c_strlen(t.as_slice()),
    };
    proof {
        lemma_zero_from(t@, 0);
    }
    let after = copy_range(t.as_slice(), q, t.len());
    let w = vstd::slice::slice_subrange(t.as_slice(), 0, q);
    if flags & PARSEFS_WAIT != 0 && is_wait_token(w) {
        *rest = after;
        return SeqStep::Wait;
    }
    let st = stripped_exec(w, flags);
    let (step, g2) = word_step_exec(st.as_slice(), after.as_slice(), group, stopmap, flags);
    *rest = after;
    *group = g2;
    step
}

// ─── The whole sequence ──────────────────────────────────────────────────

/// What a wildcard expansion gave.
pub enum GlobOutcome {
    /// The names the pattern matched.
    Matches(Vec<Vec<u8>>),
    /// The pattern matched nothing.
    NoMatch,
    /// Memory ran out.
    NoSpace,
    /// The expansion failed otherwise.
    Failed,
}

/// What the file system and the archives decide of a name.
pub trait FileSeqEnv {
    /// The `~` expansion of `name` (which starts with `~`); `None` when no
    /// home directory is found.
    fn tilde_expand(&mut self, name: &[u8]) -> Result<Option<Vec<u8>>, BuildError>;

    /// Expand the wildcard pattern `pattern` against the file system.
    fn glob(&mut self, pattern: &[u8]) -> GlobOutcome;

    /// The members of the archive `archive` that the pattern `member`
    /// matches; `None` when it matches none.
    fn ar_glob(&mut self, archive: &[u8], member: &[u8]) -> Option<Vec<Vec<u8>>>;

    /// Whether each member an archive wildcard matched is named by itself
    /// rather than by its archive (a setting of the run).
    fn member_names(&mut self) -> bool;
}

/// `n` holds a wildcard character.
pub open spec fn has_glob_char(n: Seq<u8>) -> bool {
    n.contains('?' as u8) || n.contains('*' as u8) || n.contains('[' as u8)
}

/// `n` names an archive member, `archive(member)`: it has a `(` after its
/// first byte, ends in `)`, and something stands between the two.
pub open spec fn is_ar_name(n: Seq<u8>) -> bool {
    let p = find_byte(n, '(' as u8, 0);
    0 < p && p + 2 < n.len() && n.last() == ')' as u8
}

/// The form `archive((entry))`, which make does not support.
pub open spec fn ar_name_unsupported(n: Seq<u8>) -> bool {
    let p = find_byte(n, '(' as u8, 0);
    is_ar_name(n) && n[p + 1] == '(' as u8 && n[n.len() - 2] == ')' as u8
}

/// Whether `name` names an archive member ([`is_ar_name`]); an error for
/// the unsupported form `archive((entry))`.
pub fn ar_name(name: &[u8]) -> (r: Result<bool, BuildError>)
    ensures
        ar_name_unsupported(name@) ==> r is Err,
        !ar_name_unsupported(name@) ==> r == Ok::<bool, BuildError>(is_ar_name(name@)),
{
    let p = find_open_paren(name);
    let len = name.len();
    if p == 0 || p >= len || len - p <= 2 || name[len - 1] != ')' as u8 {
        return Ok(false);
    }
    if name[p + 1] == '(' as u8 && name[len - 2] == ')' as u8 {
        return Err(BuildError::Failure);
    }
    Ok(true)
}

/// The name `n` is taken as it is, with nothing asked of the file system:
/// expansion is off, or it starts with no `~`, archives are off or it names
/// no archive member, it need not exist and it holds no wildcard.
pub open spec fn resolves_alone(n: Seq<u8>, flags: i32) -> bool {
    has_flag(flags, PARSEFS_NOGLOB) || (n[0] != '~' as u8 && (has_flag(flags, PARSEFS_NOAR) || !is_ar_name(n))
        && !has_flag(flags, PARSEFS_EXISTS) && !has_glob_char(n))
}

/// The names, each with whether a `.WAIT` came before it, and the string
/// left, of the sequence in the C string `rest` (inside the archive group
/// `group` opened, after a `.WAIT` if `wait`), each name after `prefix`;
/// `None` when a name needs the file system.
pub open spec fn seq_names(
    rest: Seq<u8>,
    group: Option<Seq<u8>>,
    wait: bool,
    stopmap: i32,
    flags: i32,
    prefix: Seq<u8>,
) -> Option<(Seq<(Seq<u8>, bool)>, Seq<u8>)>
    decreases rest.len(),
{
    if !nul_terminated(rest) {
        None
    } else {
        let st = seq_step(rest, group, stopmap, flags);
        if st.0 == 0 {
            Some((Seq::empty(), st.2))
        } else {
            proof {
                lemma_step_shrinks(rest, stopmap, flags);
            }
            if st.0 == 1 {
                seq_names(st.2, st.3, true, stopmap, flags, prefix)
            } else if st.0 == 2 {
                seq_names(st.2, st.3, wait, stopmap, flags, prefix)
            } else if !resolves_alone(st.1, flags) {
                None
            } else {
                match seq_names(st.2, st.3, false, stopmap, flags, prefix) {
                    Some(more) => Some((seq![(prefix + st.1, wait)] + more.0, more.1)),
                    None => None,
                }
            }
        }
    }
}

/// The parsed names as values.
pub open spec fn names_view(v: Seq<ParsedName>) -> Seq<(Seq<u8>, bool)> {
    v.map_values(|p: ParsedName| (p.name@, p.wait))
}

/// The prefix as bytes (none: empty).
pub open spec fn prefix_bytes(prefix: Option<&[u8]>) -> Seq<u8> {
    match prefix {
        Some(p) => p@,
        None => Seq::empty(),
    }
}

/// Append the name `n` after `prefix`, marked with the pending `.WAIT`,
/// which it uses up.
fn push_name(out: &mut Vec<ParsedName>, wait: &mut bool, prefix: Option<&[u8]>, n: &[u8])
    ensures
        names_view(final(out)@) == names_view(old(out)@).push((prefix_bytes(prefix) + n@, *old(wait))),
        !*final(wait),
{
    let mut v: Vec<u8> = Vec::new();
    match prefix {
        Some(p) => push_slice(&mut v, p),
        None => {},
    }
    push_slice(&mut v, n);
    out.push(ParsedName { name: v, wait: *wait });
    *wait = false;
    assert(names_view(out@) =~= names_view(old(out)@).push((prefix_bytes(prefix) + n@, *old(wait))));
}

/// Whether `n` holds a wildcard character.
fn has_glob_char_exec(n: &[u8]) -> (r: bool)
    ensures
        r == has_glob_char(n@),
{
    let mut k: usize = 0;
    while k < n.len()
        invariant
            k <= n@.len(),
            forall|i: int| 0 <= i < k ==> n@[i] != '?' as u8 && n@[i] != '*' as u8 && n@[i] != '[' as u8,
        decreases n@.len() - k,
    {
        if n[k] == '?' as u8 || n[k] == '*' as u8 || n[k] == '[' as u8 {
            assert(n@[k as int] == n[k as int]);
            return true;
        }
        k += 1;
    }
    false
}

/// `archive(member)` split into the archive and the member; `None` when the
/// name is not of that form.
fn ar_split(name: &[u8]) -> (r: Option<(Vec<u8>, Vec<u8>)>)
    ensures
        r is Some <==> (find_byte(name@, '(' as u8, 0) + 1 < name@.len() && name@.last() == ')' as u8),
        r matches Some((a, m)) ==> ({
            let n = find_byte(name@, '(' as u8, 0);
            &&& n + 1 < name@.len()
            &&& name@.last() == ')' as u8
            &&& a@ == name@.subrange(0, n)
            &&& m@ == name@.subrange(n + 1, name@.len() - 1)
        }),
{
    let n = find_open_paren(name);
    if name.len() > 0 && n < name.len() - 1 && name[name.len() - 1] == ')' as u8 {
        let a = copy_range(name, 0, n);
        let m = copy_range(name, n + 1, name.len() - 1);
        Some((a, m))
    } else {
        None
    }
}

/// Turn the name `n` that a step found into the names it stands for, after
/// `prefix`: as it is when expansion is off; else with its `~` expanded, its
/// wildcards matched and its archive members listed, as `env` decides.
fn resolve_name<E: FileSeqEnv>(
    n: Vec<u8>,
    prefix: Option<&[u8]>,
    flags: i32,
    env: &mut E,
    out: &mut Vec<ParsedName>,
    wait: &mut bool,
) -> (r: Result<(), BuildError>)
    requires
        n@.len() > 0,
    ensures
        resolves_alone(n@, flags) ==> r is Ok && names_view(final(out)@) == names_view(old(out)@).push(
            (prefix_bytes(prefix) + n@, *old(wait)),
        ) && !*final(wait),
{
    if flags & PARSEFS_NOGLOB != 0 {
        push_name(out, wait, prefix, n.as_slice());
        return Ok(());
    }
    let mut name = n;
    if name[0] == '~' as u8 {
        match env.tilde_expand(name.as_slice()) {
            Ok(Some(x)) => {
                name = x;
            },
            Ok(None) => {},
            Err(e) => {
                return Err(e);
            },
        }
    }
    let mut memname: Option<Vec<u8>> = None;
    if flags & PARSEFS_NOAR == 0 {
        let is_ar = match ar_name(name.as_slice()) {
            Ok(b) => b,
            Err(e) => {
                return Err(e);
            },
        };
        if is_ar {
            match ar_split(name.as_slice()) {
                Some((a, m)) => {
                    name = a;
                    memname = Some(m);
                },
                None => {},
            }
        }
    }
    let plain = flags & PARSEFS_EXISTS == 0 && !has_glob_char_exec(name.as_slice());
    if plain && memname.is_none() {
        push_name(out, wait, prefix, name.as_slice());
        return Ok(());
    }
    let list: Vec<Vec<u8>> = if plain {
        let mut v: Vec<Vec<u8>> = Vec::new();
        v.push(copy_range(name.as_slice(), 0, name.len()));
        v
    } else {
        match env.glob(name.as_slice()) {
            GlobOutcome::Matches(v) => v,
            GlobOutcome::NoMatch => {
                let mut v: Vec<Vec<u8>> = Vec::new();
                if flags & PARSEFS_EXISTS == 0 {
                    v.push(copy_range(name.as_slice(), 0, name.len()));
                }
                v
            },
            GlobOutcome::NoSpace => {
                return Err(BuildError::Failure);
            },
            GlobOutcome::Failed => {
                let mut v: Vec<Vec<u8>> = Vec::new();
                v.push(copy_range(name.as_slice(), 0, name.len()));
                v
            },
        }
    };
    let cachep = flags & PARSEFS_NOCACHE == 0;
    let mut i: usize = 0;
    while i < list.len()
        invariant
            i <= list@.len(),
        decreases list@.len() - i,
    {
        match &memname {
            Some(m) => {
                match env.ar_glob(list[i].as_slice(), m.as_slice()) {
                    None => {
                        let mut v: Vec<u8> = Vec::new();
                        push_slice(&mut v, list[i].as_slice());
                        v.push('(' as u8);
                        push_slice(&mut v, m.as_slice());
                        v.push(')' as u8);
                        push_name(out, wait, prefix, v.as_slice());
                    },
                    Some(found) => {
                        let by_member = env.member_names() || (cachep && prefix.is_none());
                        let mut j: usize = 0;
                        while j < found.len()
                            invariant
                                j <= found@.len(),
                            decreases found@.len() - j,
                        {
                            if by_member {
                                push_name(out, wait, prefix, found[j].as_slice());
                            } else {
                                push_name(out, wait, prefix, name.as_slice());
                            }
                            j += 1;
                        }
                    },
                }
            },
            None => {
                push_name(out, wait, prefix, list[i].as_slice());
            },
        }
        i += 1;
    }
    Ok(())
}

/// Split the file sequence in the C string `input` into names, up to a byte
/// of `stopmap` or the end; each name after `prefix` and marked with whether
/// a `.WAIT` came before it. Gives the names
/// and the string left. Where no name needs the file system
/// ([`resolves_alone`]), the names are exactly those of [`seq_names`].
pub fn parse_file_seq<E: FileSeqEnv>(
    input: &[u8],
    stopmap: i32,
    prefix: Option<&[u8]>,
    flags: i32,
    env: &mut E,
) -> (r: Result<(Vec<ParsedName>, Vec<u8>), BuildError>)
    requires
        nul_terminated(input@),
    ensures
        seq_names(input@, None, false, stopmap, flags, prefix_bytes(prefix)) matches Some(res) ==> r matches Ok(
            (names, rest),
        ) && names_view(names@) == res.0 && rest@ == res.1,
        r matches Ok((_, rest)) ==> nul_terminated(rest@),
{
    let ghost total = seq_names(input@, None, false, stopmap, flags, prefix_bytes(prefix));
    let mut rest = copy_range(input, 0, input.len());
    assert(rest@ =~= input@);
    let mut group: Option<Vec<u8>> = None;
    let mut wait = false;
    let mut out: Vec<ParsedName> = Vec::new();
    loop
        invariant
            nul_terminated(rest@),
            total == seq_names(input@, None, false, stopmap, flags, prefix_bytes(prefix)),
            total matches Some(t) ==> (seq_names(rest@, opt_bytes(group), wait, stopmap, flags, prefix_bytes(prefix)) matches Some(
                tail,
            ) && names_view(out@) + tail.0 == t.0 && tail.1 == t.1),
        decreases rest@.len(),
    {
        let ghost r0 = rest@;
        let ghost g0 = opt_bytes(group);
        let ghost w0 = wait;
        let ghost o0 = out@;
        let step = file_seq_step(&mut rest, &mut group, stopmap, flags);
        match step {
            SeqStep::Stop => {
                proof {
                    if total is Some {
                        assert(names_view(out@) + Seq::<(Seq<u8>, bool)>::empty() =~= names_view(out@));
                    }
                }
                return Ok((out, rest));
            },
            SeqStep::Wait => {
                wait = true;
            },
            SeqStep::Skip => {},
            SeqStep::Name(n) => {
                proof {
                    lemma_step_name_nonempty(r0, g0, stopmap, flags);
                }
                let res = resolve_name(n, prefix, flags, env, &mut out, &mut wait);
                match res {
                    Ok(()) => {},
                    Err(e) => {
                        return Err(e);
                    },
                }
                proof {
                    if total is Some {
                        let tail = seq_names(r0, g0, w0, stopmap, flags, prefix_bytes(prefix))->0;
                        let more = seq_names(rest@, opt_bytes(group), false, stopmap, flags, prefix_bytes(prefix))->0;
                        assert(names_view(out@) + more.0 =~= names_view(o0) + tail.0);
                    }
                }
            },
        }
    }
}

/// A step's name is never empty.
proof fn lemma_step_name_nonempty(rest: Seq<u8>, group: Option<Seq<u8>>, stopmap: i32, flags: i32)
    requires
        seq_step(rest, group, stopmap, flags).0 == 3,
    ensures
        seq_step(rest, group, stopmap, flags).1.len() > 0,
{
}

// ─── Prerequisite lists ──────────────────────────────────────────────────

/// A prerequisite as values: its name, whether a `.WAIT` precedes it, and
/// whether it is order-only.
pub open spec fn prereq_view(d: DepNode) -> (Seq<u8>, bool, bool) {
    (d.name@, d.wait_here, d.ignore_mtime)
}

/// A prerequisite as `split_prereqs_vec` makes it: not yet entered, no flag
/// but its `.WAIT` marker and its order-only mark.
pub open spec fn fresh_prereq(d: DepNode) -> bool {
    &&& d.file is None
    &&& d.flags == 0
    &&& !d.changed
    &&& !d.static_pattern
    &&& !d.needs_second_expansion
    &&& !d.ignore_automatic_vars
    &&& !d.is_explicit
}

/// The prerequisites the names stand for: `normal` ones, then the
/// order-only ones named after a `|`.
pub open spec fn prereqs_of(normal: Seq<(Seq<u8>, bool)>, order_only: Seq<(Seq<u8>, bool)>) -> Seq<(Seq<u8>, bool, bool)> {
    normal.map_values(|n: (Seq<u8>, bool)| (n.0, n.1, false)) + order_only.map_values(
        |n: (Seq<u8>, bool)| (n.0, n.1, true),
    )
}

/// The prerequisites of the names `normal` and, after a `|`, `order_only`.
pub fn prereqs_from_names(normal: Vec<ParsedName>, order_only: Vec<ParsedName>) -> (r: Vec<DepNode>)
    ensures
        r@.map_values(|d: DepNode| prereq_view(d)) == prereqs_of(names_view(normal@), names_view(order_only@)),
        forall|i: int| 0 <= i < r@.len() ==> fresh_prereq(#[trigger] r@[i]),
{
    let mut out: Vec<DepNode> = Vec::new();
    let ghost target = prereqs_of(names_view(normal@), names_view(order_only@));
    let ghost nn = names_view(normal@);
    let ghost oo = names_view(order_only@);
    let ghost n0 = normal@;
    let ghost o0 = order_only@;
    let mut k: usize = 0;
    let nlen = normal.len();
    while k < nlen
        invariant
            nlen == n0.len(),
            k <= nlen,
            normal@.len() == nlen,
            forall|i: int| k <= i < nlen ==> #[trigger] normal@[i] == n0[i],
            nn == names_view(n0),
            out@.map_values(|d: DepNode| prereq_view(d)) == prereqs_of(nn, oo).subrange(0, k as int),
            prereqs_of(nn, oo) == target,
            forall|i: int| 0 <= i < out@.len() ==> fresh_prereq(#[trigger] out@[i]),
        decreases nlen - k,
    {
        let d = dep_from_name(copy_range(normal[k].name.as_slice(), 0, normal[k].name.len()), normal[k].wait, false);
        assert(d.name@ =~= n0[k as int].name@);
        let ghost before = out@;
        out.push(d);
        proof {
            assert(nn[k as int] == (n0[k as int].name@, n0[k as int].wait));
            assert(nn.map_values(|n: (Seq<u8>, bool)| (n.0, n.1, false))[k as int] == (nn[k as int].0, nn[k as int].1, false));
            assert(prereqs_of(nn, oo)[k as int] == (n0[k as int].name@, n0[k as int].wait, false));
            assert(prereq_view(d) == prereqs_of(nn, oo)[k as int]);
            assert(out@.map_values(|d: DepNode| prereq_view(d)) =~= before.map_values(|d: DepNode| prereq_view(d)).push(
                prereq_view(d),
            ));
            assert(prereqs_of(nn, oo).subrange(0, k + 1) =~= prereqs_of(nn, oo).subrange(0, k as int).push(
                prereqs_of(nn, oo)[k as int],
            ));
        }
        k += 1;
    }
    let olen = order_only.len();
    let mut j: usize = 0;
    while j < olen
        invariant
            olen == o0.len(),
            j <= olen,
            order_only@.len() == olen,
            forall|i: int| j <= i < olen ==> #[trigger] order_only@[i] == o0[i],
            oo == names_view(o0),
            nn.len() == nlen,
            out@.map_values(|d: DepNode| prereq_view(d)) == prereqs_of(nn, oo).subrange(0, nlen + j),
            forall|i: int| 0 <= i < out@.len() ==> fresh_prereq(#[trigger] out@[i]),
        decreases olen - j,
    {
        let mut d = dep_from_name(
            copy_range(order_only[j].name.as_slice(), 0, order_only[j].name.len()),
            order_only[j].wait,
            false,
        );
        d.ignore_mtime = true;
        assert(d.name@ =~= o0[j as int].name@);
        let ghost before = out@;
        out.push(d);
        proof {
            assert(oo[j as int] == (o0[j as int].name@, o0[j as int].wait));
            assert(oo.map_values(|n: (Seq<u8>, bool)| (n.0, n.1, true))[j as int] == (oo[j as int].0, oo[j as int].1, true));
            assert(prereqs_of(nn, oo)[nlen + j] == (o0[j as int].name@, o0[j as int].wait, true));
            assert(prereq_view(d) == prereqs_of(nn, oo)[nlen + j]);
            assert(out@.map_values(|d: DepNode| prereq_view(d)) =~= before.map_values(|d: DepNode| prereq_view(d)).push(
                prereq_view(d),
            ));
            assert(prereqs_of(nn, oo).subrange(0, nlen + j + 1) =~= prereqs_of(nn, oo).subrange(0, nlen + j).push(
                prereqs_of(nn, oo)[nlen + j],
            ));
        }
        j += 1;
    }
    assert(prereqs_of(nn, oo).subrange(0, nlen + olen) =~= prereqs_of(nn, oo));
    out
}

/// Split a prerequisite list, the C string `input`, into prerequisites:
/// the names before a `|`, then the order-only ones after it, `.WAIT`
/// markers noted; see [`prereqs_from_names`].
pub fn split_prereqs_vec<E: FileSeqEnv>(input: &[u8], env: &mut E) -> (r: Result<Vec<DepNode>, BuildError>)
    requires
        nul_terminated(input@),
    ensures
        seq_names(input@, None, false, MAP_PIPE, PARSEFS_WAIT, Seq::empty()) matches Some(x) ==> (if x.1.len() > 0
            && x.1[0] != 0 {
            seq_names(x.1.subrange(1, x.1.len() as int), None, false, MAP_NUL, PARSEFS_WAIT, Seq::empty()) matches Some(y)
                ==> r matches Ok(deps) && deps@.map_values(|d: DepNode| prereq_view(d)) == prereqs_of(x.0, y.0)
        } else {
            r matches Ok(deps) && deps@.map_values(|d: DepNode| prereq_view(d)) == prereqs_of(x.0, Seq::empty())
        }),
        r matches Ok(deps) ==> forall|i: int| 0 <= i < deps@.len() ==> fresh_prereq(#[trigger] deps@[i]),
{
    let (normal, rest) = match parse_file_seq(input, MAP_PIPE, None, PARSEFS_WAIT, env) {
        Ok(x) => x,
        Err(e) => {
            return Err(e);
        },
    };
    let ghost x = seq_names(input@, None, false, MAP_PIPE, PARSEFS_WAIT, Seq::empty());
    let order_only = if rest.len() > 0 && rest[0] != 0 {
        let mut tail: Vec<u8> = Vec::new();
        push_slice(&mut tail, vstd::slice::slice_subrange(rest.as_slice(), 1, rest.len()));
        proof {
            lemma_after_pipe_c_string(rest@);
        }
        assert(x matches Some(xv) ==> tail@ =~= xv.1.subrange(1, xv.1.len() as int));
        match parse_file_seq(tail.as_slice(), MAP_NUL, None, PARSEFS_WAIT, env) {
            Ok((names, _)) => names,
            Err(e) => {
                return Err(e);
            },
        }
    } else {
        let v: Vec<ParsedName> = Vec::new();
        assert(names_view(v@) =~= Seq::<(Seq<u8>, bool)>::empty());
        v
    };
    Ok(prereqs_from_names(normal, order_only))
}

/// A C string that does not start with its NUL is still one past its first
/// byte.
proof fn lemma_after_pipe_c_string(s: Seq<u8>)
    requires
        nul_terminated(s),
        s.len() > 0,
        s[0] != 0,
    ensures
        nul_terminated(s.subrange(1, s.len() as int)),
{
    let z = choose|z: int| 0 <= z < s.len() && s[z] == 0;
    assert(s.subrange(1, s.len() as int)[z - 1] == 0);
}

} // verus!
