//! Pieces of the makefile reader: the conditionals frame of a nested
//! reading scope, the conditional directive codes, prerequisite records and
//! the special-file tests.

use vstd::prelude::*;
use crate::dep::DepNode;
use crate::dep::FileId;
use crate::file::lookup_file;
use crate::execctx::{is_empty_frame, BuildError, ConditionalsFrame, Diagnostic, ExecContext, Floc, RunFlags};
use crate::parser::{
    at, byte_at, bytes_eq, is_wait_token, kw_wait, scan_var_modifiers, scan_var_modifiers_spec,
    ExportMode, VarModScan, special_target_of, SpecialTarget, find_char_unquote_idx, find_map_unquote_idx, nul_terminated, opt_int,
    unquote_char_loop, unquote_map_loop, directive_of, end_of_blank_token, lemma_end_of_token,
    lemma_next_token, lemma_zero_from, lone_token, next_token, next_token_off,
    parse_conditional_args, strlen, zero_from, ConditionalArgs, Directive, directive_bytes,
};
use crate::stopchar::{MAP_COMMENT, MAP_VARIABLE};
use crate::recipe::copy_bytes;
use crate::rule::{copy_slice, push_slice};
use vstd::string::StringSliceAdditionalSpecFns;

pub mod lines;
pub mod include_path;
pub mod file_seq;
pub mod define;
pub mod record;

pub use lines::{readstring, EBuffer};

verus! {

/// The command code of `ifdef`.
pub const c_ifdef: u32 = 0;
/// The command code of `ifndef`.
pub const c_ifndef: u32 = 1;
/// The command code of `ifeq`.
pub const c_ifeq: u32 = 2;
/// The command code of `ifneq`.
pub const c_ifneq: u32 = 3;
/// The command code of `else`.
pub const c_else: u32 = 4;
/// The command code of `endif`.
pub const c_endif: u32 = 5;

/// One parsed name of a file sequence, with whether a `.WAIT` preceded it.
#[derive(Debug, PartialEq, Eq)]
pub struct ParsedName {
    pub name: Vec<u8>,
    pub wait: bool,
}

/// Install a fresh, empty conditionals frame for a nested reading scope,
/// returning the frame it replaced.
pub fn install_conditionals(ctx: &mut ExecContext) -> (r: ConditionalsFrame)
    ensures
        r == old(ctx).conditionals,
        is_empty_frame(final(ctx).conditionals),
        *final(ctx) == (ExecContext { conditionals: final(ctx).conditionals, ..*old(ctx) }),
{
    let mut frame = ConditionalsFrame::default();
    core::mem::swap(&mut ctx.conditionals, &mut frame);
    frame
}

/// Restore a frame saved by [`install_conditionals`].
pub fn restore_conditionals(ctx: &mut ExecContext, saved: ConditionalsFrame)
    ensures
        *final(ctx) == (ExecContext { conditionals: saved, ..*old(ctx) }),
{
    ctx.conditionals = saved;
}

/// A `vpath` pattern token: the bytes before the first NUL, NUL-terminated.
pub fn vpath_pattern_token(token: &[u8]) -> (r: Vec<u8>)
    ensures
        r@ == token@.subrange(0, zero_from(token@, 0)).push(0),
{
    proof {
        lemma_zero_from(token@, 0);
    }
    let mut end: usize = 0;
    while end < token.len() && token[end] != 0
        invariant
            end <= token@.len(),
            zero_from(token@, end as int) == zero_from(token@, 0),
        decreases token@.len() - end,
    {
        end += 1;
    }
    let mut pat: Vec<u8> = Vec::new();
    push_slice(&mut pat, &token[0..end]);
    pat.push(0);
    pat
}

/// The command code of a conditional directive.
pub open spec fn cmdtype_of(d: Directive) -> u32 {
    match d {
        Directive::Ifdef => c_ifdef,
        Directive::Ifndef => c_ifndef,
        Directive::Ifeq => c_ifeq,
        Directive::Ifneq => c_ifneq,
        Directive::Else => c_else,
        Directive::Endif => c_endif,
    }
}

/// The command code of a conditional directive.
pub fn directive_cmdtype(d: Directive) -> (r: u32)
    ensures
        r == cmdtype_of(d),
{
    match d {
        Directive::Ifdef => c_ifdef,
        Directive::Ifndef => c_ifndef,
        Directive::Ifeq => c_ifeq,
        Directive::Ifneq => c_ifneq,
        Directive::Else => c_else,
        Directive::Endif => c_endif,
    }
}

/// The name of a prerequisite, as owned bytes.
pub fn dep_name_bytes(dp: &DepNode) -> (r: Vec<u8>)
    ensures
        r@ == dp.name@,
{
    copy_bytes(&dp.name)
}

/// A fresh prerequisite named `name`, with its `.WAIT` marker and its
/// static-pattern flag; every other flag clear.
pub fn dep_from_name(name: Vec<u8>, wait: bool, static_pattern: bool) -> (r: DepNode)
    ensures
        r.name@ == name@,
        r.wait_here == wait,
        r.static_pattern == static_pattern,
        r.file is None,
        r.flags == 0,
        !r.changed,
        !r.ignore_mtime,
        !r.needs_second_expansion,
        !r.ignore_automatic_vars,
        !r.is_explicit,
{
    DepNode {
        name,
        file: None,
        flags: 0,
        changed: false,
        ignore_mtime: false,
        static_pattern,
        needs_second_expansion: false,
        ignore_automatic_vars: false,
        is_explicit: false,
        wait_here: wait,
    }
}

/// `.SUFFIXES` as bytes.
pub open spec fn suffixes_name() -> Seq<u8> {
    seq!['.' as u8, 'S' as u8, 'U' as u8, 'F' as u8, 'F' as u8, 'I' as u8, 'X' as u8, 'E' as u8, 'S' as u8]
}

/// `.DEFAULT` as bytes.
pub open spec fn default_name() -> Seq<u8> {
    seq!['.' as u8, 'D' as u8, 'E' as u8, 'F' as u8, 'A' as u8, 'U' as u8, 'L' as u8, 'T' as u8]
}

/// Whether `name` is the special `.SUFFIXES` file.
pub fn is_suffix_file(name: &[u8]) -> (r: bool)
    ensures
        r == (name@ == suffixes_name()),
{
    let k: [u8; 9] = ['.' as u8, 'S' as u8, 'U' as u8, 'F' as u8, 'F' as u8, 'I' as u8, 'X' as u8, 'E' as u8, 'S' as u8];
    assert(k@ =~= suffixes_name());
    bytes_eq(name, &k)
}

/// Whether `name` is the special `.DEFAULT` file.
pub fn is_default_file(name: &[u8]) -> (r: bool)
    ensures
        r == (name@ == default_name()),
{
    let k: [u8; 8] = ['.' as u8, 'D' as u8, 'E' as u8, 'F' as u8, 'A' as u8, 'U' as u8, 'L' as u8, 'T' as u8];
    assert(k@ =~= default_name());
    bytes_eq(name, &k)
}

/// Restoring the frame that installing a fresh one gave back returns the
/// context to what it was before the nested scope.
pub proof fn law_install_restore_round_trip(before: ExecContext, saved: ConditionalsFrame, during: ExecContext, after: ExecContext)
    requires
        saved == before.conditionals,
        during == (ExecContext { conditionals: during.conditionals, ..before }),
        after == (ExecContext { conditionals: saved, ..during }),
    ensures
        after == before,
{
}

// ─── Conditional directives ──────────────────────────────────────────────

/// The variable layer, as reading a conditional directive needs it.
pub trait ConditionalEnv {
    /// The expansion of `text`.
    fn expand(&mut self, ctx: &ExecContext, text: &[u8]) -> Result<Vec<u8>, BuildError>;
    /// Whether a variable named `name` is defined with a non-empty value.
    fn is_set(&mut self, ctx: &ExecContext, name: &[u8]) -> Result<bool, BuildError>;
}

/// A frame records, for each open conditional, both whether it ignores its
/// text and whether its `else` was seen.
pub open spec fn frame_wf(f: ConditionalsFrame) -> bool {
    f.ignoring@.len() == f.seen_else@.len()
}

/// Some open conditional ignores its text.
pub open spec fn any_ignoring(s: Seq<u8>) -> bool {
    exists|i: int| 0 <= i < s.len() && s[i] != 0
}

/// The reader's status: 1 while some conditional ignores its text, else 0.
pub open spec fn ignoring_code(s: Seq<u8>) -> i32 {
    if any_ignoring(s) {
        1
    } else {
        0
    }
}

/// An `else` switches a conditional: a taken branch (0) makes the rest
/// ignored for good (2), an ignored one (1) is taken, and one ignored for
/// good stays so.
pub open spec fn else_flip(b: u8) -> u8 {
    if b == 0 {
        2
    } else if b == 1 {
        0
    } else {
        b
    }
}

/// A directive that opens a conditional.
pub open spec fn opens_conditional(d: Directive) -> bool {
    d != Directive::Else && d != Directive::Endif
}

/// What an `else` (whose line continues at `p`) does to the conditionals.
pub open spec fn else_outcome(
    f0: ConditionalsFrame,
    f1: ConditionalsFrame,
    line: Seq<u8>,
    p: int,
    r: Result<i32, BuildError>,
) -> bool {
    let ig = f0.ignoring@;
    let se = f0.seen_else@;
    let ig1 = f1.ignoring@;
    let se1 = f1.seen_else@;
    if ig.len() == 0 || se.last() != 0 {
        r is Err && ig1 == ig && se1 == se
    } else {
        let o = ig.len() - 1;
        let flipped = ig.update(o, else_flip(ig[o]));
        if byte_at(line, p) == 0 {
            r is Ok && ig1 == flipped && se1 == se.update(o, 1)
        } else {
            match directive_of(line.subrange(p, end_of_blank_token(line, p + 1))) {
                Some(d) => if opens_conditional(d) {
                    r is Ok ==> {
                        ||| (ig1 == flipped.push(0) && se1 == se.push(0))
                        ||| {
                            &&& se1 == se
                            &&& ig1.len() == ig.len()
                            &&& forall|i: int| 0 <= i < o ==> ig1[i] == ig[i]
                            &&& (else_flip(ig[o]) >= 2 ==> ig1[o] == else_flip(ig[o]))
                            &&& (else_flip(ig[o]) < 2 ==> ig1[o] <= 1)
                        }
                    }
                } else {
                    r is Ok && ig1 == flipped && se1 == se
                },
                None => r is Ok && ig1 == flipped && se1 == se,
            }
        }
    }
}

/// The entry a conditional ends with after an `else` chained to a further
/// condition whose opening gave `verdict` (1: the condition is false, 0: it
/// holds): an entry that already took a branch (2 or more) stays; otherwise
/// it takes the chained condition's verdict.
pub open spec fn chained_entry(entry: u8, verdict: i32) -> u8 {
    if entry >= 2 {
        entry
    } else if verdict == 1 {
        1
    } else {
        0
    }
}

/// An `else` chained to a condition, on a conditional that has taken no
/// branch yet, ends exactly as opening that condition fresh would: its
/// entry is the one the fresh opening pushes (the branch is ignored for a
/// false condition and read for a true one); a conditional that already
/// took a branch keeps ignoring.
pub proof fn law_chained_else_matches_a_fresh_open(
    f0: ConditionalsFrame,
    f1: ConditionalsFrame,
    verdict: i32,
    entry: u8,
)
    requires
        open_outcome(f0, f1, Ok::<i32, BuildError>(verdict)),
        0 <= verdict <= 1,
    ensures
        entry < 2 ==> chained_entry(entry, verdict) == f1.ignoring@.last(),
        entry < 2 ==> (chained_entry(entry, verdict) != 0 <==> verdict == 1),
        entry >= 2 ==> chained_entry(entry, verdict) == entry,
{
}

/// What opening a conditional does: inside an ignored one it is ignored
/// too; otherwise the outside expansions decide, or the condition is
/// malformed (-1) and the entry stays open and read.
pub open spec fn open_outcome(f0: ConditionalsFrame, f1: ConditionalsFrame, r: Result<i32, BuildError>) -> bool {
    let ig = f0.ignoring@;
    let se = f0.seen_else@;
    let ig1 = f1.ignoring@;
    let se1 = f1.seen_else@;
    if any_ignoring(ig) {
        r == Ok::<i32, BuildError>(1i32) && ig1 == ig.push(1) && se1 == se.push(0)
    } else {
        r matches Ok(v) ==> {
            &&& -1 <= v <= 1
            &&& ig1 == ig.push(if v == 1 { 1u8 } else { 0u8 })
            &&& se1 == se.push(0)
        }
    }
}

/// What reading one directive line does to the conditionals, given the
/// frame before (`f0`) and after (`f1`), the line and the length of its first
/// word. The outside expansions decide the branch an `if` takes; everything
/// else is fixed here.
pub open spec fn cond_outcome(
    f0: ConditionalsFrame,
    f1: ConditionalsFrame,
    line: Seq<u8>,
    len: int,
    r: Result<i32, BuildError>,
) -> bool {
    let ig = f0.ignoring@;
    let se = f0.seen_else@;
    let ig1 = f1.ignoring@;
    let se1 = f1.seen_else@;
    match directive_of(line.subrange(0, len)) {
        None => r == Ok::<i32, BuildError>(-2i32) && ig1 == ig && se1 == se,
        Some(Directive::Endif) => if ig.len() == 0 {
            r is Err && ig1 == ig && se1 == se
        } else {
            r == Ok::<i32, BuildError>(ignoring_code(ig.drop_last())) && ig1 == ig.drop_last() && se1 == se.drop_last()
        },
        Some(Directive::Else) => else_outcome(f0, f1, line, next_token(line, len), r),
        Some(_) => open_outcome(f0, f1, r),
    }
}

/// Whether one of the first `n` conditionals ignores its text.
fn ignoring_within(v: &Vec<u8>, n: usize) -> (r: bool)
    requires
        n <= v@.len(),
    ensures
        r == (exists|i: int| 0 <= i < n && v@[i] != 0),
{
    let mut k: usize = 0;
    while k < n
        invariant
            k <= n <= v@.len(),
            forall|i: int| 0 <= i < k ==> v@[i] == 0,
        decreases n - k,
    {
        if v[k] != 0 {
            return true;
        }
        k += 1;
    }
    false
}

/// The reader's status for the frame `f`.
fn ignoring_status(f: &ConditionalsFrame) -> (r: i32)
    ensures
        r == ignoring_code(f.ignoring@),
{
    if ignoring_within(&f.ignoring, f.ignoring.len()) {
        1
    } else {
        0
    }
}

/// Whether an `ifdef` (an `ifndef` when `negated`) ignores its text, given
/// whether its variable is set to a non-empty value.
pub fn ifdef_ignores(negated: bool, set: bool) -> (r: u8)
    ensures
        r == (if set == negated { 1u8 } else { 0u8 }),
{
    if set == negated {
        1
    } else {
        0
    }
}

/// Whether the comparison directive `d` (`ifeq` or `ifneq`) skips its text,
/// given the expansions `a1` and `a2` of its two arguments: `ifeq` skips
/// when they differ, `ifneq` when they are equal.
pub fn comparison_ignores(d: Directive, a1: &[u8], a2: &[u8]) -> (r: u8)
    ensures
        r == (if (a1@ == a2@) != (d == Directive::Ifeq) { 1u8 } else { 0u8 }),
{
    let negated = match d {
        Directive::Ifeq => false,
        _ => true,
    };
    ifeq_ignores(negated, a1, a2)
}

/// Whether an `ifeq` (an `ifneq` when `negated`) ignores its text, given
/// the expansions of its two arguments.
pub fn ifeq_ignores(negated: bool, a1: &[u8], a2: &[u8]) -> (r: u8)
    ensures
        r == (if (a1@ == a2@) == negated { 1u8 } else { 0u8 }),
{
    if bytes_eq(a1, a2) == negated {
        1
    } else {
        0
    }
}

/// Give the warning or error `message` located at `floc`.
pub(crate) fn report(diags: &mut Vec<Diagnostic>, floc: &Floc, message: Vec<u8>)
    ensures
        final(diags)@ == old(diags)@.push(final(diags)@.last()),
        final(diags)@.last().message@ == message@,
{
    let filenm = match &floc.filenm {
        Some(n) => Some(copy_bytes(n)),
        None => None,
    };
    diags.push(Diagnostic { floc: Floc { filenm, lineno: floc.lineno, offset: floc.offset }, message });
}

/// `<before><directive name><after>`.
fn directive_message(before: &[u8], d: Directive, after: &[u8]) -> (r: Vec<u8>)
    ensures
        r@ == before@ + directive_bytes(d) + after@,
{
    let mut m: Vec<u8> = Vec::new();
    push_slice(&mut m, before);
    push_slice(&mut m, d.name().as_bytes());
    push_slice(&mut m, after);
    m
}

/// Open a conditional whose first word `d` ends at `p` in `line` (blanks
/// skipped): push its entry, then decide from the expansions whether it
/// ignores its text. Gives -1 on a syntax error.
fn open_conditional<E: ConditionalEnv>(
    frame: &mut ConditionalsFrame,
    diags: &mut Vec<Diagnostic>,
    ctx: &ExecContext,
    d: Directive,
    rest: &[u8],
    floc: &Floc,
    env: &mut E,
) -> (r: Result<i32, BuildError>)
    requires
        frame_wf(*old(frame)),
        opens_conditional(d),
    ensures
        frame_wf(*final(frame)),
        old(diags)@.is_prefix_of(final(diags)@),
        r matches Ok(v) ==> (v >= 0 ==> v == ignoring_code(final(frame).ignoring@)),
        open_outcome(*old(frame), *final(frame), r),
{
    let o = frame.ignoring.len();
    let outer = ignoring_within(&frame.ignoring, o);
    frame.ignoring.push(0);
    frame.seen_else.push(0);
    assert(old(diags)@.is_prefix_of(diags@));
    if outer {
        frame.ignoring.set(o, 1);
        assert(frame.ignoring@ =~= old(frame).ignoring@.push(1));
        assert(frame.seen_else@ =~= old(frame).seen_else@.push(0));
        assert(frame.ignoring@[o as int] != 0);
        return Ok(1);
    }
    let ignore: u8;
    if matches!(d, Directive::Ifdef) || matches!(d, Directive::Ifndef) {
        let var = env.expand(ctx, rest)?;
        let l = match lone_token(var.as_slice()) {
            Some(l) => l,
            None => {
                assert(frame.ignoring@ =~= old(frame).ignoring@.push(0));
                return Ok(-1);
            },
        };
        proof {
            lemma_end_of_token(var@, 0);
        }
        let set = env.is_set(ctx, &var.as_slice()[0..l])?;
        ignore = ifdef_ignores(matches!(d, Directive::Ifndef), set);
    } else {
        match parse_conditional_args(rest) {
            ConditionalArgs::Error => {
                assert(frame.ignoring@ =~= old(frame).ignoring@.push(0));
                return Ok(-1);
            },
            ConditionalArgs::FirstArgOnly { arg1 } => {
                let _ = env.expand(ctx, &rest[arg1.start..arg1.end])?;
                assert(frame.ignoring@ =~= old(frame).ignoring@.push(0));
                return Ok(-1);
            },
            ConditionalArgs::Both { arg1, arg2, trailing_text } => {
                if trailing_text {
                    let m = directive_message("extraneous text after '".as_bytes(), d, "' directive".as_bytes());
                    report(diags, floc, m);
                    assert(old(diags)@.is_prefix_of(diags@));
                }
                let a1 = env.expand(ctx, &rest[arg1.start..arg1.end])?;
                let a2 = env.expand(ctx, &rest[arg2.start..arg2.end])?;
                ignore = comparison_ignores(d, a1.as_slice(), a2.as_slice());
            },
        }
    }
    frame.ignoring.set(o, ignore);
    assert(frame.ignoring@ =~= old(frame).ignoring@.push(ignore));
    if ignore != 0 {
        assert(frame.ignoring@[o as int] != 0);
        Ok(1)
    } else {
        assert(!any_ignoring(frame.ignoring@)) by {
            assert forall|i: int| 0 <= i < frame.ignoring@.len() implies frame.ignoring@[i] == 0 by {
                if i < o {
                    assert(!(old(frame).ignoring@[i] != 0));
                }
            }
        }
        Ok(0)
    }
}

/// The first blank or the end of `bytes`, from `i` on.
fn end_of_blank_token_off(bytes: &[u8], i: usize) -> (r: usize)
    requires
        i <= bytes@.len(),
    ensures
        r == end_of_blank_token(bytes@, i as int),
        i <= r <= bytes@.len(),
{
    let mut k = i;
    while k < bytes.len() && bytes[k] != 0 && bytes[k] != 32 && bytes[k] != 9
        invariant
            i <= k <= bytes@.len(),
            end_of_blank_token(bytes@, k as int) == end_of_blank_token(bytes@, i as int),
        decreases bytes@.len() - k,
    {
        k += 1;
    }
    k
}

/// `endif`: close the innermost conditional; `trailing` text after the
/// keyword is warned about.
fn endif_line(frame: &mut ConditionalsFrame, diags: &mut Vec<Diagnostic>, d: Directive, trailing: bool, floc: &Floc) -> (r: Result<i32, BuildError>)
    requires
        frame_wf(*old(frame)),
    ensures
        frame_wf(*final(frame)),
        old(diags)@.is_prefix_of(final(diags)@),
        r matches Ok(v) ==> v == ignoring_code(final(frame).ignoring@),
        old(frame).ignoring@.len() == 0 ==> {
            &&& r is Err
            &&& final(frame).ignoring@ == old(frame).ignoring@
            &&& final(frame).seen_else@ == old(frame).seen_else@
        },
        old(frame).ignoring@.len() > 0 ==> {
            &&& r is Ok
            &&& final(frame).ignoring@ == old(frame).ignoring@.drop_last()
            &&& final(frame).seen_else@ == old(frame).seen_else@.drop_last()
        },
{
    if trailing {
        let m = directive_message("extraneous text after '".as_bytes(), d, "' directive".as_bytes());
        report(diags, floc, m);
    }
    assert(old(diags)@.is_prefix_of(diags@));
    if frame.ignoring.len() == 0 {
        let m = directive_message("extraneous '".as_bytes(), d, "'".as_bytes());
        report(diags, floc, m);
        assert(old(diags)@.is_prefix_of(diags@));
        return Err(BuildError::Failure);
    }
    frame.ignoring.pop();
    frame.seen_else.pop();
    assert(frame.ignoring@ =~= old(frame).ignoring@.drop_last());
    assert(frame.seen_else@ =~= old(frame).seen_else@.drop_last());
    Ok(ignoring_status(frame))
}

/// `else` (its line continuing at `p`): switch the innermost conditional;
/// a conditional directive after the `else` opens a chained branch whose
/// entry is folded back into it.
fn else_line<E: ConditionalEnv>(
    frame: &mut ConditionalsFrame,
    diags: &mut Vec<Diagnostic>,
    ctx: &ExecContext,
    d: Directive,
    line: &[u8],
    p: usize,
    floc: &Floc,
    env: &mut E,
) -> (r: Result<i32, BuildError>)
    requires
        p <= line@.len(),
        frame_wf(*old(frame)),
    ensures
        frame_wf(*final(frame)),
        old(diags)@.is_prefix_of(final(diags)@),
        r matches Ok(v) ==> v == ignoring_code(final(frame).ignoring@),
        else_outcome(*old(frame), *final(frame), line@, p as int, r),
{
    if frame.ignoring.len() == 0 {
        let m = directive_message("extraneous '".as_bytes(), d, "'".as_bytes());
        report(diags, floc, m);
        assert(old(diags)@.is_prefix_of(diags@));
        return Err(BuildError::Failure);
    }
    let o = frame.ignoring.len() - 1;
    if frame.seen_else[o] != 0 {
        report(diags, floc, copy_slice("only one 'else' per conditional".as_bytes()));
        assert(old(diags)@.is_prefix_of(diags@));
        return Err(BuildError::Failure);
    }
    let b = frame.ignoring[o];
    if b == 0 {
        frame.ignoring.set(o, 2);
    } else if b == 1 {
        frame.ignoring.set(o, 0);
    }
    let ghost flipped = frame.ignoring@;
    assert(flipped =~= old(frame).ignoring@.update(o as int, else_flip(b)));
    assert(old(diags)@.is_prefix_of(diags@));
    if at(line, p) == 0 {
        frame.seen_else.set(o, 1);
        return Ok(ignoring_status(frame));
    }
    let _ = else_tail(frame, diags, ctx, d, line, p, floc, env)?;
    Ok(ignoring_status(frame))
}

/// The warning about text after the directive `d` was given last.
pub open spec fn extra_text_warned(before: Seq<Diagnostic>, after: Seq<Diagnostic>, d: Directive) -> bool {
    &&& after.len() > before.len()
    &&& after.last().message@ == "extraneous text after '".spec_bytes() + directive_bytes(d) + "' directive".spec_bytes()
}

/// The text after an `else` at `p`: a conditional directive there opens a
/// branch chained to the innermost conditional (already switched), and the
/// branch's entry is folded back into it; any other text is warned about.
fn else_tail<E: ConditionalEnv>(
    frame: &mut ConditionalsFrame,
    diags: &mut Vec<Diagnostic>,
    ctx: &ExecContext,
    d: Directive,
    line: &[u8],
    p: usize,
    floc: &Floc,
    env: &mut E,
) -> (r: Result<Option<i32>, BuildError>)
    requires
        p < line@.len(),
        frame_wf(*old(frame)),
        old(frame).ignoring@.len() > 0,
    ensures
        frame_wf(*final(frame)),
        old(diags)@.is_prefix_of(final(diags)@),
        ({
            let ig = old(frame).ignoring@;
            let se = old(frame).seen_else@;
            let ig1 = final(frame).ignoring@;
            let se1 = final(frame).seen_else@;
            let o = ig.len() - 1;
            match directive_of(line@.subrange(p as int, end_of_blank_token(line@, p + 1))) {
                Some(n) => if opens_conditional(n) {
                    r is Ok ==> {
                        ||| (r == Ok::<Option<i32>, BuildError>(None) && ig1 == ig.push(0) && se1 == se.push(0)
                            && extra_text_warned(old(diags)@, final(diags)@, d))
                        ||| (r matches Ok(Some(v)) && {
                            &&& 0 <= v <= 1
                            &&& se1 == se
                            &&& ig1.len() == ig.len()
                            &&& forall|i: int| 0 <= i < o ==> ig1[i] == ig[i]
                            &&& ig1[o] == chained_entry(ig[o], v)
                        })
                    }
                } else {
                    r == Ok::<Option<i32>, BuildError>(None) && ig1 == ig && se1 == se && final(diags)@.drop_last()
                        == old(diags)@ && extra_text_warned(old(diags)@, final(diags)@, d)
                },
                None => r == Ok::<Option<i32>, BuildError>(None) && ig1 == ig && se1 == se && final(diags)@.drop_last() == old(diags)@ && extra_text_warned(
                    old(diags)@,
                    final(diags)@,
                    d,
                ),
            }
        }),
{
    let o = frame.ignoring.len() - 1;
    let n = line.len();
    assert(p + 1 <= n);
    let q = end_of_blank_token_off(line, p + 1);
    let next = Directive::from_word(&line[p..q]);
    assert(line@.subrange(p as int, q as int) =~= line@.subrange(p as int, q as int));
    let ghost se0 = frame.seen_else@;
    let ghost ig0 = frame.ignoring@;
    let mut verdict: i32 = 0;
    let chained = match next {
        Some(n) => if matches!(n, Directive::Else) || matches!(n, Directive::Endif) {
            false
        } else {
            let p2 = next_token_off(line, q);
            proof {
                lemma_next_token(line@, q as int);
            }
            let v = open_conditional(frame, diags, ctx, n, &line[p2..line.len()], floc, env)?;
            verdict = v;
            if v >= 0 {
                let ghost opened = frame.ignoring@;
                assert(opened.len() == o + 2);
                assert(opened[o as int] == ig0[o as int]);
                let inner = frame.ignoring[o + 1];
                assert(inner <= 1);
                assert(inner == (if v == 1 { 1u8 } else { 0u8 }));
                if frame.ignoring[o] < 2 {
                    frame.ignoring.set(o, inner);
                }
                frame.ignoring.pop();
                frame.seen_else.pop();
                assert(frame.seen_else@ =~= se0);
                assert(forall|i: int| 0 <= i < o ==> frame.ignoring@[i] == opened[i]);
                true
            } else {
                false
            }
        },
        None => false,
    };
    if !chained {
        let m = directive_message("extraneous text after '".as_bytes(), d, "' directive".as_bytes());
        report(diags, floc, m);
        assert(old(diags)@.is_prefix_of(diags@));
        return Ok(None);
    }
    Ok(Some(verdict))
}

/// Read the conditional directive at the start of `line`, whose first word
/// is `len` bytes long: `ifdef`/`ifndef`/`ifeq`/`ifneq` open a conditional,
/// `else` switches the innermost one (an `else` followed by another
/// conditional directive chains it), `endif` closes it. Gives -2 when the
/// word is no conditional directive, -1 on a syntax error in the condition,
/// else 1 while some conditional ignores its text and 0 otherwise. An
/// unmatched `else`/`endif` or a second `else` is an error. Warnings and
/// errors go to the diagnostics, located at `floc`.
pub fn conditional_line<E: ConditionalEnv>(
    ctx: &mut ExecContext,
    line: &[u8],
    len: usize,
    floc: &Floc,
    initial_tab: bool,
    env: &mut E,
) -> (r: Result<i32, BuildError>)
    requires
        len <= line@.len(),
        frame_wf(old(ctx).conditionals),
    ensures
        frame_wf(final(ctx).conditionals),
        *final(ctx) == (ExecContext { conditionals: final(ctx).conditionals, diagnostics: final(ctx).diagnostics, ..*old(ctx) }),
        old(ctx).diagnostics@.is_prefix_of(final(ctx).diagnostics@),
        r matches Ok(v) ==> (v >= 0 ==> v == ignoring_code(final(ctx).conditionals.ignoring@)),
        cond_outcome(old(ctx).conditionals, final(ctx).conditionals, line@, len as int, r),
{
    let mut frame = ConditionalsFrame::default();
    core::mem::swap(&mut frame, &mut ctx.conditionals);
    let mut diags: Vec<Diagnostic> = Vec::new();
    core::mem::swap(&mut diags, &mut ctx.diagnostics);
    let r = read_conditional(&mut frame, &mut diags, ctx, line, len, floc, initial_tab, env);
    ctx.conditionals = frame;
    ctx.diagnostics = diags;
    r
}

/// [`conditional_line`] on the frame and the diagnostics taken out of the
/// context, which the variable layer reads meanwhile.
fn read_conditional<E: ConditionalEnv>(
    frame: &mut ConditionalsFrame,
    diags: &mut Vec<Diagnostic>,
    ctx: &ExecContext,
    line: &[u8],
    len: usize,
    floc: &Floc,
    initial_tab: bool,
    env: &mut E,
) -> (r: Result<i32, BuildError>)
    requires
        len <= line@.len(),
        frame_wf(*old(frame)),
    ensures
        frame_wf(*final(frame)),
        old(diags)@.is_prefix_of(final(diags)@),
        r matches Ok(v) ==> (v >= 0 ==> v == ignoring_code(final(frame).ignoring@)),
        cond_outcome(*old(frame), *final(frame), line@, len as int, r),
{
    let d = match Directive::from_word(&line[0..len]) {
        Some(d) => d,
        None => {
            assert(old(diags)@.is_prefix_of(diags@));
            return Ok(-2);
        },
    };
    if initial_tab {
        report(diags, floc, copy_slice("warning: conditional directive lines cannot start with TAB".as_bytes()));
    }
    assert(old(diags)@.is_prefix_of(diags@));
    let p = next_token_off(line, len);
    proof {
        lemma_next_token(line@, len as int);
    }
    if matches!(d, Directive::Endif) {
        return endif_line(frame, diags, d, at(line, p) != 0, floc);
    }
    if matches!(d, Directive::Else) {
        return else_line(frame, diags, ctx, d, line, p, floc, env);
    }
    let rest = &line[p..line.len()];
    open_conditional(frame, diags, ctx, d, rest, floc, env)
}

/// An `endif` closes exactly what the conditional directive before it
/// opened: reading an opening line and then an `endif` line succeeds and
/// gives the frame back as it was.
pub proof fn law_endif_closes_what_if_opened(
    f0: ConditionalsFrame,
    f1: ConditionalsFrame,
    f2: ConditionalsFrame,
    open_line: Seq<u8>,
    open_len: int,
    v: i32,
    endif_line: Seq<u8>,
    endif_len: int,
    r: Result<i32, BuildError>,
)
    requires
        0 <= open_len <= open_line.len(),
        0 <= endif_len <= endif_line.len(),
        directive_of(open_line.subrange(0, open_len)) matches Some(d) && opens_conditional(d),
        cond_outcome(f0, f1, open_line, open_len, Ok(v)),
        directive_of(endif_line.subrange(0, endif_len)) == Some(Directive::Endif),
        cond_outcome(f1, f2, endif_line, endif_len, r),
    ensures
        r is Ok,
        f2.ignoring@ == f0.ignoring@,
        f2.seen_else@ == f0.seen_else@,
{
    assert(f2.ignoring@ =~= f0.ignoring@);
    assert(f2.seen_else@ =~= f0.seen_else@);
}

/// Once a branch of a conditional chain has been taken, every later `else`
/// branch of it is ignored, whatever condition it carries.
pub proof fn law_taken_branch_ignores_the_rest(
    f0: ConditionalsFrame,
    f1: ConditionalsFrame,
    line: Seq<u8>,
    len: int,
    r: Result<i32, BuildError>,
)
    requires
        0 <= len <= line.len(),
        frame_wf(f0),
        f0.ignoring@.len() > 0,
        f0.ignoring@.last() == 0,
        directive_of(line.subrange(0, len)) == Some(Directive::Else),
        cond_outcome(f0, f1, line, len, r),
        r is Ok,
    ensures
        f1.ignoring@[f0.ignoring@.len() - 1] == 2,
        any_ignoring(f1.ignoring@),
{
    let o = f0.ignoring@.len() - 1;
    assert(f1.ignoring@[o] == 2);
}

// ─── Comments and patterns ───────────────────────────────────────────────

/// The first unquoted `%` of the NUL-terminated pattern in `buf`, with the
/// backslashes that quote a `%` before it collapsed in place.
pub fn find_percent(buf: &mut [u8]) -> (r: Option<usize>)
    requires
        nul_terminated(old(buf)@),
    ensures
        (final(buf)@, opt_int(r)) == unquote_char_loop(old(buf)@, 0, '%' as u8, strlen(old(buf)@)),
        final(buf)@.len() == old(buf)@.len(),
        r matches Some(i) ==> i < final(buf)@.len() && final(buf)@[i as int] == '%' as u8,
{
    find_char_unquote_idx(buf, '%' as u8)
}

/// Cut the NUL-terminated line in `buf` at its first unquoted comment
/// character (a `#` outside any variable reference): a NUL is written there.
pub fn remove_comments(buf: &mut [u8])
    requires
        nul_terminated(old(buf)@),
    ensures
        ({
            let (scanned, found) = unquote_map_loop(old(buf)@, 0, MAP_COMMENT | MAP_VARIABLE, strlen(old(buf)@));
            match found {
                Some(i) => final(buf)@ == scanned.update(i, 0),
                None => final(buf)@ == scanned,
            }
        }),
{
    match find_map_unquote_idx(buf, MAP_COMMENT | MAP_VARIABLE) {
        Some(i) => {
            buf[i] = 0;
        },
        None => {},
    }
}

// ─── Special files ───────────────────────────────────────────────────────

/// Node `file` is a `.WAIT` target.
pub open spec fn is_wait_node(ctx: ExecContext, file: FileId) -> bool {
    file < ctx.files@.len() && ctx.files@[file as int].name@ == kw_wait()
}

/// Checking node `file` warns that `.WAIT` has prerequisites (once per run).
pub open spec fn warns_wait_prereqs(ctx: ExecContext, file: FileId) -> bool {
    is_wait_node(ctx, file) && !ctx.run.wait_prereqs_warned && ctx.files@[file as int].deps@.len() > 0
}

/// Checking node `file` warns that `.WAIT` has a recipe (once per run).
pub open spec fn warns_wait_recipe(ctx: ExecContext, file: FileId) -> bool {
    is_wait_node(ctx, file) && !ctx.run.wait_recipe_warned && ctx.files@[file as int].recipe is Some
}

/// The `.WAIT` checks on the diagnostics and the run's once-only flags.
fn wait_checks(diags: &mut Vec<Diagnostic>, run: &mut RunFlags, has_deps: bool, has_recipe: bool, floc: &Floc)
    ensures
        ({
            let w_deps = !old(run).wait_prereqs_warned && has_deps;
            let w_recipe = !old(run).wait_recipe_warned && has_recipe;
            &&& final(diags)@.len() == old(diags)@.len() + (if w_deps { 1int } else { 0 }) + (if w_recipe { 1int } else { 0 })
            &&& old(diags)@.is_prefix_of(final(diags)@)
            &&& *final(run) == (RunFlags {
                wait_prereqs_warned: old(run).wait_prereqs_warned || w_deps,
                wait_recipe_warned: old(run).wait_recipe_warned || w_recipe,
                ..*old(run)
            })
            &&& (w_deps ==> final(diags)@[old(diags)@.len() as int].message@ == ".WAIT should not have prerequisites".spec_bytes())
            &&& (w_recipe ==> final(diags)@.last().message@ == ".WAIT should not have commands".spec_bytes())
        }),
{
    if !run.wait_prereqs_warned && has_deps {
        report(diags, floc, copy_slice(".WAIT should not have prerequisites".as_bytes()));
        run.wait_prereqs_warned = true;
    }
    assert(old(diags)@.is_prefix_of(diags@));
    let ghost mid = diags@;
    if !run.wait_recipe_warned && has_recipe {
        report(diags, floc, copy_slice(".WAIT should not have commands".as_bytes()));
        run.wait_recipe_warned = true;
        assert(diags@[old(diags)@.len() as int] == mid[old(diags)@.len() as int] || !(!old(run).wait_prereqs_warned && has_deps));
    }
    assert(old(diags)@.is_prefix_of(diags@));
}

/// Only the diagnostics and the once-only flags of `b` may differ from `a`.
#[verifier::opaque]
pub open spec fn only_warnings_changed(a: ExecContext, b: ExecContext) -> bool {
    b == (ExecContext { diagnostics: b.diagnostics, run: b.run, ..a })
}

/// [`wait_checks`] on the context.
fn apply_wait_checks(ctx: &mut ExecContext, has_deps: bool, has_recipe: bool, floc: &Floc)
    ensures
        ({
            let w_deps = !old(ctx).run.wait_prereqs_warned && has_deps;
            let w_recipe = !old(ctx).run.wait_recipe_warned && has_recipe;
            &&& final(ctx).diagnostics@.len() == old(ctx).diagnostics@.len() + (if w_deps { 1int } else { 0 }) + (
            if w_recipe { 1int } else { 0 })
            &&& old(ctx).diagnostics@.is_prefix_of(final(ctx).diagnostics@)
            &&& final(ctx).run == (RunFlags {
                wait_prereqs_warned: old(ctx).run.wait_prereqs_warned || w_deps,
                wait_recipe_warned: old(ctx).run.wait_recipe_warned || w_recipe,
                ..old(ctx).run
            })
            &&& (w_deps ==> final(ctx).diagnostics@[old(ctx).diagnostics@.len() as int].message@
                == ".WAIT should not have prerequisites".spec_bytes())
            &&& (w_recipe ==> final(ctx).diagnostics@.last().message@ == ".WAIT should not have commands".spec_bytes())
        }),
        only_warnings_changed(*old(ctx), *final(ctx)),
{
    wait_checks(&mut ctx.diagnostics, &mut ctx.run, has_deps, has_recipe, floc);
    proof {
        reveal(only_warnings_changed);
    }
}

/// Check node `file` for misuse of a special target: a `.WAIT` with
/// prerequisites or a recipe is warned about, once per run for each.
pub fn check_special_file(ctx: &mut ExecContext, file: FileId, floc: &Floc)
    ensures
        final(ctx).diagnostics@.len() == old(ctx).diagnostics@.len() + (if warns_wait_prereqs(*old(ctx), file) {
            1int
        } else {
            0
        }) + (if warns_wait_recipe(*old(ctx), file) {
            1int
        } else {
            0
        }),
        old(ctx).diagnostics@.is_prefix_of(final(ctx).diagnostics@),
        final(ctx).run == (RunFlags {
            wait_prereqs_warned: old(ctx).run.wait_prereqs_warned || warns_wait_prereqs(*old(ctx), file),
            wait_recipe_warned: old(ctx).run.wait_recipe_warned || warns_wait_recipe(*old(ctx), file),
            ..old(ctx).run
        }),
        only_warnings_changed(*old(ctx), *final(ctx)),
        warns_wait_prereqs(*old(ctx), file) ==> final(ctx).diagnostics@[old(ctx).diagnostics@.len() as int].message@
            == ".WAIT should not have prerequisites".spec_bytes(),
        warns_wait_recipe(*old(ctx), file) ==> final(ctx).diagnostics@.last().message@
            == ".WAIT should not have commands".spec_bytes(),
{
    proof {
        reveal(only_warnings_changed);
    }
    if file >= ctx.files.len() {
        assert(old(ctx).diagnostics@.is_prefix_of(ctx.diagnostics@));
        return;
    }
    let is_wait = is_wait_token(ctx.files[file].name.as_slice());
    let has_deps = ctx.files[file].deps.len() > 0;
    let has_recipe = ctx.files[file].recipe.is_some();
    if is_wait {
        apply_wait_checks(ctx, has_deps, has_recipe, floc);
    }
    assert(old(ctx).diagnostics@.is_prefix_of(ctx.diagnostics@));
}

// ─── Variable definition modifiers ───────────────────────────────────────

/// A variable exported as the default says.
pub const v_default: u32 = 0;
/// `export`.
pub const v_export: u32 = 1;
/// `unexport`.
pub const v_noexport: u32 = 2;
/// Exported only when set in the environment.
pub const v_ifset: u32 = 3;

/// The modifiers in front of a variable definition: whether the line
/// assigns, `define`, `undefine`, `override`, `private`, and the export mode.
#[derive(Debug, Clone, Copy, PartialEq, Eq, Structural)]
pub struct VModifiers {
    pub assign_v: bool,
    pub define_v: bool,
    pub undefine_v: bool,
    pub override_v: bool,
    pub private_v: bool,
    pub export_v: u32,
}

/// The modifier flags a scan of the leading keywords gives.
pub open spec fn vmods_of(scan: VarModScan) -> VModifiers {
    VModifiers {
        assign_v: scan.assign,
        define_v: scan.mods.define,
        undefine_v: scan.mods.undefine,
        override_v: scan.mods.over,
        private_v: scan.mods.private,
        export_v: match scan.mods.export {
            Some(ExportMode::Export) => v_export,
            Some(ExportMode::NoExport) => v_noexport,
            None => v_default,
        },
    }
}

/// Read the modifier keywords (`export`, `override`, `private`, `define`,
/// ...) in front of a variable definition on `line` into `vmod`, and give
/// where the rest of the line starts. A line with modifiers that started
/// with a TAB (its location given as `floc`) is warned about.
pub fn parse_var_assignment(
    ctx: &mut ExecContext,
    line: &[u8],
    targvar: bool,
    floc: Option<&Floc>,
    vmod: &mut VModifiers,
) -> (r: usize)
    ensures
        r == scan_var_modifiers_spec(line@, targvar).rest,
        *final(vmod) == vmods_of(scan_var_modifiers_spec(line@, targvar)),
        (scan_var_modifiers_spec(line@, targvar).had_modifier && floc is Some) ==> {
            &&& final(ctx).diagnostics@.len() == old(ctx).diagnostics@.len() + 1
            &&& final(ctx).diagnostics@.last().message@ == "warning: directive lines cannot start with TAB".spec_bytes()
        },
        !(scan_var_modifiers_spec(line@, targvar).had_modifier && floc is Some) ==> final(ctx).diagnostics@
            == old(ctx).diagnostics@,
        old(ctx).diagnostics@.is_prefix_of(final(ctx).diagnostics@),
        *final(ctx) == (ExecContext { diagnostics: final(ctx).diagnostics, ..*old(ctx) }),
{
    let scan = scan_var_modifiers(line, targvar);
    let export_v = match scan.mods.export {
        Some(ExportMode::Export) => v_export,
        Some(ExportMode::NoExport) => v_noexport,
        None => v_default,
    };
    *vmod = VModifiers {
        assign_v: scan.assign,
        define_v: scan.mods.define,
        undefine_v: scan.mods.undefine,
        override_v: scan.mods.over,
        private_v: scan.mods.private,
        export_v,
    };
    if scan.had_modifier {
        match floc {
            Some(f) => {
                report(&mut ctx.diagnostics, f, copy_slice("warning: directive lines cannot start with TAB".as_bytes()));
            },
            None => {},
        }
    }
    assert(old(ctx).diagnostics@.is_prefix_of(ctx.diagnostics@));
    scan.rest
}

// ─── Special targets ─────────────────────────────────────────────────────

/// The variable layer, as the special targets need it.
pub trait VariableEnv {
    /// Define the variable `name` as `value`, as a default of make's own.
    fn define_default(&mut self, ctx: &ExecContext, name: &[u8], value: &[u8]) -> Result<(), BuildError>;
    /// Whether `.DEFAULT_GOAL` is empty.
    fn default_goal_is_empty(&mut self, ctx: &ExecContext) -> bool;
    /// Set `.DEFAULT_GOAL` to `name`, as a makefile would.
    fn set_default_goal(&mut self, ctx: &ExecContext, name: &[u8]) -> Result<(), BuildError>;
}

/// What one target named in a rule does.
#[derive(Debug, Clone, Copy, PartialEq, Eq, Structural)]
pub enum SpecialStep {
    /// `.POSIX` turns POSIX mode on, with its variable defaults.
    Posix,
    /// `.SECONDEXPANSION` turns the second expansion on.
    SecondExpansion,
    /// `.ONESHELL` turns one-shell recipes on.
    OneShell,
    /// A pattern target ends the search for a default goal.
    Stop,
    /// The target becomes the default goal.
    DefaultGoal,
    /// Nothing.
    Nothing,
}

/// `name` is the name of a suffix rule for the suffixes `sufs`: it is a
/// suffix that does not start with `.`, or two suffixes one after the
/// other.
pub open spec fn suffix_rule_name(name: Seq<u8>, sufs: Seq<Vec<u8>>) -> bool {
    exists|i: int|
        0 <= i < sufs.len() && ((!(sufs[i]@.len() > 0 && sufs[i]@[0] == '.' as u8) && name == sufs[i]@) || exists|j: int|
            0 <= j < sufs.len() && name == sufs[j]@ + sufs[i]@)
}

/// The step for a target named `name`, given whether POSIX mode, the second
/// expansion and one-shell recipes are on already, whether a default goal
/// is looked for and is still empty, and the known suffixes.
pub open spec fn special_step_of(
    posix: bool,
    second_expansion: bool,
    one_shell: bool,
    name: Seq<u8>,
    want_default: bool,
    sufs: Seq<Vec<u8>>,
) -> SpecialStep {
    let special = special_target_of(name);
    if !posix && special == Some(SpecialTarget::Posix) {
        SpecialStep::Posix
    } else if !second_expansion && special == Some(SpecialTarget::SecondExpansion) {
        SpecialStep::SecondExpansion
    } else if !one_shell && special == Some(SpecialTarget::OneShell) {
        SpecialStep::OneShell
    } else if want_default {
        if name.contains('%' as u8) {
            SpecialStep::Stop
        } else if name.len() > 0 && name[0] == '.' as u8 && !name.contains('/' as u8) {
            SpecialStep::Nothing
        } else if suffix_rule_name(name, sufs) {
            SpecialStep::Nothing
        } else {
            SpecialStep::DefaultGoal
        }
    } else {
        SpecialStep::Nothing
    }
}

/// Whether `name` is `a` followed by `b`.
fn is_concat(name: &[u8], a: &[u8], b: &[u8]) -> (r: bool)
    ensures
        r == (name@ == a@ + b@),
{
    if a.len() > name.len() || name.len() - a.len() != b.len() {
        assert(name@.len() != (a@ + b@).len());
        return false;
    }
    let front = bytes_eq(&name[0..a.len()], a);
    let back = bytes_eq(&name[a.len()..name.len()], b);
    if front && back {
        assert(name@ =~= a@ + b@);
        true
    } else {
        assert(!(name@ == a@ + b@)) by {
            if name@ == a@ + b@ {
                assert(name@.subrange(0, a@.len() as int) =~= a@);
                assert(name@.subrange(a@.len() as int, name@.len() as int) =~= b@);
            }
        }
        false
    }
}

/// Whether `name` holds the byte `c`.
fn holds_byte(name: &[u8], c: u8) -> (r: bool)
    ensures
        r == name@.contains(c),
{
    let mut k: usize = 0;
    while k < name.len()
        invariant
            k <= name@.len(),
            forall|i: int| 0 <= i < k ==> name@[i] != c,
        decreases name@.len() - k,
    {
        if name[k] == c {
            assert(name@[k as int] == c);
            return true;
        }
        k += 1;
    }
    false
}

/// Whether `name` is the name of a suffix rule ([`suffix_rule_name`]).
pub fn is_suffix_rule_name(name: &[u8], sufs: &Vec<Vec<u8>>) -> (r: bool)
    ensures
        r == suffix_rule_name(name@, sufs@),
{
    let mut i: usize = 0;
    while i < sufs.len()
        invariant
            i <= sufs@.len(),
            forall|x: int|
                0 <= x < i ==> !((!(sufs@[x]@.len() > 0 && sufs@[x]@[0] == '.' as u8) && name@ == sufs@[x]@)
                    || exists|j: int| 0 <= j < sufs@.len() && name@ == sufs@[j]@ + sufs@[x]@),
        decreases sufs@.len() - i,
    {
        let d = sufs[i].as_slice();
        let dotted = d.len() > 0 && d[0] == '.' as u8;
        if !dotted && bytes_eq(name, d) {
            return true;
        }
        let mut j: usize = 0;
        while j < sufs.len()
            invariant
                j <= sufs@.len(),
                i < sufs@.len(),
                d@ == sufs@[i as int]@,
                forall|y: int| 0 <= y < j ==> name@ != sufs@[y]@ + sufs@[i as int]@,
            decreases sufs@.len() - j,
        {
            if is_concat(name, sufs[j].as_slice(), d) {
                return true;
            }
            j += 1;
        }
        i += 1;
    }
    false
}

/// The step for a target named `name` ([`special_step_of`]).
pub fn special_step(
    posix: bool,
    second_expansion: bool,
    one_shell: bool,
    name: &[u8],
    want_default: bool,
    sufs: &Vec<Vec<u8>>,
) -> (r: SpecialStep)
    ensures
        r == special_step_of(posix, second_expansion, one_shell, name@, want_default, sufs@),
{
    let special = SpecialTarget::from_name(name);
    if !posix && matches!(special, Some(SpecialTarget::Posix)) {
        SpecialStep::Posix
    } else if !second_expansion && matches!(special, Some(SpecialTarget::SecondExpansion)) {
        SpecialStep::SecondExpansion
    } else if !one_shell && matches!(special, Some(SpecialTarget::OneShell)) {
        SpecialStep::OneShell
    } else if want_default {
        if holds_byte(name, '%' as u8) {
            SpecialStep::Stop
        } else if name.len() > 0 && name[0] == '.' as u8 && !holds_byte(name, '/' as u8) {
            SpecialStep::Nothing
        } else if is_suffix_rule_name(name, sufs) {
            SpecialStep::Nothing
        } else {
            SpecialStep::DefaultGoal
        }
    } else {
        SpecialStep::Nothing
    }
}

/// Only the POSIX, second-expansion and one-shell modes of `b` may differ
/// from `a`.
#[verifier::opaque]
pub open spec fn only_modes_changed(a: ExecContext, b: ExecContext) -> bool {
    &&& b == (ExecContext { posix_pedantic: b.posix_pedantic, run: b.run, ..a })
    &&& b.run == (RunFlags { second_expansion: b.run.second_expansion, one_shell: b.run.one_shell, ..a.run })
}

proof fn lemma_only_modes_changed_trans(a: ExecContext, b: ExecContext, c: ExecContext)
    requires
        only_modes_changed(a, b),
        only_modes_changed(b, c),
    ensures
        only_modes_changed(a, c),
{
    reveal(only_modes_changed);
}

/// Turn POSIX mode on.
fn set_posix(ctx: &mut ExecContext)
    ensures
        only_modes_changed(*old(ctx), *final(ctx)),
        final(ctx).posix_pedantic,
        final(ctx).run == old(ctx).run,
{
    ctx.posix_pedantic = true;
    proof {
        reveal(only_modes_changed);
    }
}

/// Turn the second expansion on.
fn set_second_expansion(ctx: &mut ExecContext)
    ensures
        only_modes_changed(*old(ctx), *final(ctx)),
        final(ctx).run.second_expansion,
        final(ctx).run.one_shell == old(ctx).run.one_shell,
        final(ctx).posix_pedantic == old(ctx).posix_pedantic,
{
    ctx.run.second_expansion = true;
    proof {
        reveal(only_modes_changed);
    }
}

/// Turn one-shell recipes on.
fn set_one_shell(ctx: &mut ExecContext)
    ensures
        only_modes_changed(*old(ctx), *final(ctx)),
        final(ctx).run.one_shell,
        final(ctx).run.second_expansion == old(ctx).run.second_expansion,
        final(ctx).posix_pedantic == old(ctx).posix_pedantic,
{
    ctx.run.one_shell = true;
    proof {
        reveal(only_modes_changed);
    }
}

/// The names of the prerequisites of `.SUFFIXES`, the known suffixes.
fn known_suffixes(ctx: &ExecContext) -> (r: Vec<Vec<u8>>)
    ensures
        r@.map_values(|v: Vec<u8>| v@) == match crate::file::find_file(ctx.files@, suffixes_name(), 0) {
            Some(sid) => ctx.files@[sid as int].deps@.map_values(|d: DepNode| d.name@),
            None => Seq::<Seq<u8>>::empty(),
        },
{
    let k: [u8; 9] = ['.' as u8, 'S' as u8, 'U' as u8, 'F' as u8, 'F' as u8, 'I' as u8, 'X' as u8, 'E' as u8, 'S' as u8];
    let mut out: Vec<Vec<u8>> = Vec::new();
    assert(k@ =~= suffixes_name());
    match lookup_file(ctx, &k) {
        Some(sid) => {
            let deps = &ctx.files[sid].deps;
            let mut i: usize = 0;
            while i < deps.len()
                invariant
                    i <= deps@.len(),
                    out@.map_values(|v: Vec<u8>| v@) == deps@.subrange(0, i as int).map_values(|d: DepNode| d.name@),
                decreases deps@.len() - i,
            {
                let ghost o0 = out@;
                out.push(dep_name_bytes(&deps[i]));
                assert(out@.map_values(|v: Vec<u8>| v@) =~= deps@.subrange(0, i + 1).map_values(|d: DepNode| d.name@)) by {
                    assert(out@.map_values(|v: Vec<u8>| v@) =~= o0.map_values(|v: Vec<u8>| v@).push(deps@[i as int].name@));
                }
                i += 1;
            }
            assert(deps@.subrange(0, deps@.len() as int) =~= deps@);
        },
        None => {
            assert(out@.map_values(|v: Vec<u8>| v@) =~= Seq::<Seq<u8>>::empty());
        },
    }
    out
}

/// Act on the special targets among the targets `files` of a rule:
/// `.POSIX` turns POSIX mode on and defines its variable defaults,
/// `.SECONDEXPANSION` and `.ONESHELL` turn their modes on; and, when
/// `set_default` and no default goal is set yet, the first target that is
/// no special one, no suffix rule and no pattern becomes the default goal (a
/// pattern target ends that search).
pub fn check_specials<E: VariableEnv>(
    ctx: &mut ExecContext,
    files: &Vec<ParsedName>,
    set_default: bool,
    env: &mut E,
) -> (r: Result<(), BuildError>)
    ensures
        old(ctx).posix_pedantic ==> final(ctx).posix_pedantic,
        old(ctx).run.second_expansion ==> final(ctx).run.second_expansion,
        old(ctx).run.one_shell ==> final(ctx).run.one_shell,
        only_modes_changed(*old(ctx), *final(ctx)),
        final(ctx).posix_pedantic && !old(ctx).posix_pedantic ==> exists|i: int|
            0 <= i < files@.len() && special_target_of(#[trigger] files@[i].name@) == Some(SpecialTarget::Posix),
        final(ctx).run.second_expansion && !old(ctx).run.second_expansion ==> exists|i: int|
            0 <= i < files@.len() && special_target_of(#[trigger] files@[i].name@) == Some(
                SpecialTarget::SecondExpansion,
            ),
        final(ctx).run.one_shell && !old(ctx).run.one_shell ==> exists|i: int|
            0 <= i < files@.len() && special_target_of(#[trigger] files@[i].name@) == Some(SpecialTarget::OneShell),
{
    let sufs = known_suffixes(ctx);
    let ghost c0 = *ctx;
    assert(only_modes_changed(*old(ctx), *ctx)) by {
        reveal(only_modes_changed);
    }
    let mut i: usize = 0;
    while i < files.len()
        invariant
            i <= files@.len(),
            c0 == *old(ctx),
            old(ctx).posix_pedantic ==> ctx.posix_pedantic,
            old(ctx).run.second_expansion ==> ctx.run.second_expansion,
            old(ctx).run.one_shell ==> ctx.run.one_shell,
            only_modes_changed(*old(ctx), *ctx),
            ctx.posix_pedantic && !old(ctx).posix_pedantic ==> exists|x: int|
                0 <= x < i && special_target_of(#[trigger] files@[x].name@) == Some(SpecialTarget::Posix),
            ctx.run.second_expansion && !old(ctx).run.second_expansion ==> exists|x: int|
                0 <= x < i && special_target_of(#[trigger] files@[x].name@) == Some(SpecialTarget::SecondExpansion),
            ctx.run.one_shell && !old(ctx).run.one_shell ==> exists|x: int|
                0 <= x < i && special_target_of(#[trigger] files@[x].name@) == Some(SpecialTarget::OneShell),
        decreases files@.len() - i,
    {
        let name = files[i].name.as_slice();
        let special = SpecialTarget::from_name(name);
        let flagged = (!ctx.posix_pedantic && matches!(special, Some(SpecialTarget::Posix))) || (
        !ctx.run.second_expansion && matches!(special, Some(SpecialTarget::SecondExpansion))) || (
        !ctx.run.one_shell && matches!(special, Some(SpecialTarget::OneShell)));
        let want_default = !flagged && set_default && env.default_goal_is_empty(ctx);
        match special_step(ctx.posix_pedantic, ctx.run.second_expansion, ctx.run.one_shell, name, want_default, &sufs) {
            SpecialStep::Posix => {
                let ghost before = *ctx;
                set_posix(ctx);
                proof {
                    lemma_only_modes_changed_trans(*old(ctx), before, *ctx);
                }
                env.define_default(ctx, ".SHELLFLAGS".as_bytes(), "-ec".as_bytes())?;
                env.define_default(ctx, "CC".as_bytes(), "c99".as_bytes())?;
                env.define_default(ctx, "CFLAGS".as_bytes(), "-O1".as_bytes())?;
                env.define_default(ctx, "FC".as_bytes(), "fort77".as_bytes())?;
                env.define_default(ctx, "FFLAGS".as_bytes(), "-O1".as_bytes())?;
                env.define_default(ctx, "SCCSGETFLAGS".as_bytes(), "-s".as_bytes())?;
                env.define_default(ctx, "ARFLAGS".as_bytes(), "-rv".as_bytes())?;
            },
            SpecialStep::SecondExpansion => {
                let ghost before = *ctx;
                set_second_expansion(ctx);
                proof {
                    lemma_only_modes_changed_trans(*old(ctx), before, *ctx);
                }
            },
            SpecialStep::OneShell => {
                let ghost before = *ctx;
                set_one_shell(ctx);
                proof {
                    lemma_only_modes_changed_trans(*old(ctx), before, *ctx);
                }
            },
            SpecialStep::Stop => {
                break;
            },
            SpecialStep::DefaultGoal => {
                env.set_default_goal(ctx, name)?;
            },
            SpecialStep::Nothing => {},
        }
        i += 1;
    }
    Ok(())
}

} // verus!
