//! The body of a `define` directive: the lines up to the matching `endef`,
//! counting nested `define`s, joined by newlines.

use vstd::prelude::*;
use crate::execctx::{Diagnostic, Floc};
use crate::parser::{
    at, byte_at, define_keyword, define_keyword_of, end_of_blank_token, lemma_end_of_blank_token, lemma_next_token,
    lemma_nul_terminated, lemma_zero_from, next_token, next_token_off, nul_terminated, rest_is_blank, strlen,
    unquote_map_loop, DefineKeyword,
};
use crate::read::{remove_comments, report};
use crate::read::file_seq::lemma_unquote_keeps_c_string;
use crate::rule::push_slice;
use crate::stopchar::{MAP_COMMENT, MAP_VARIABLE};
use vstd::string::StringSliceAdditionalSpecFns;

verus! {

/// A `define` body being read: how many `define`s are open, and the lines
/// read so far, each followed by a newline.
pub struct DefineBody {
    pub nlevels: u64,
    pub text: Vec<u8>,
}

/// The bytes of a C string before its NUL.
pub open spec fn c_part(s: Seq<u8>) -> Seq<u8> {
    s.subrange(0, strlen(s))
}

/// Where the line's first word starts.
pub open spec fn keyword_start(line: Seq<u8>) -> int {
    next_token(line, 0)
}

/// The line from its first word on.
pub open spec fn from_keyword(line: Seq<u8>) -> Seq<u8> {
    line.subrange(keyword_start(line), line.len() as int)
}

/// Where the line's first word ends.
pub open spec fn keyword_end(line: Seq<u8>) -> int {
    keyword_start(line) + end_of_blank_token(from_keyword(line), 0)
}

/// The `define` or `endef` the line starts with, if any.
pub open spec fn line_keyword(line: Seq<u8>) -> Option<DefineKeyword> {
    define_keyword_of(from_keyword(line).subrange(0, end_of_blank_token(from_keyword(line), 0)))
}

/// The C string `s` cut at its first unquoted comment character.
pub open spec fn uncommented(s: Seq<u8>) -> Seq<u8> {
    let (scanned, found) = unquote_map_loop(s, 0, MAP_COMMENT | MAP_VARIABLE, strlen(s));
    match found {
        Some(i) => scanned.update(i, 0),
        None => scanned,
    }
}

/// What follows an `endef`, its comment cut off.
pub open spec fn endef_rest(line: Seq<u8>) -> Seq<u8> {
    uncommented(line.subrange(keyword_end(line), line.len() as int))
}

/// An `endef` line, its comment cut off.
pub open spec fn endef_line(line: Seq<u8>) -> Seq<u8> {
    line.subrange(0, keyword_end(line)) + endef_rest(line)
}

/// Something other than blanks follows the `endef`.
pub open spec fn endef_extraneous(line: Seq<u8>) -> bool {
    byte_at(endef_rest(line), next_token(endef_rest(line), 0)) != 0
}

/// One line of a `define` body read with `nlevels` definitions open and
/// `text` read so far: whether it ends the body, the definitions open and
/// the text after it, and whether it draws the warning about text after
/// `endef`. A recipe line (starting with `prefix`) is text; a nested
/// `define` opens one more; an `endef` closes one, and the last one ends
/// the body without joining it.
pub open spec fn define_line_step(nlevels: int, text: Seq<u8>, line: Seq<u8>, prefix: u8) -> (bool, int, Seq<u8>, bool) {
    let joined = text + c_part(line) + seq![0x0au8];
    if byte_at(line, 0) == prefix {
        (false, nlevels, joined, false)
    } else {
        match line_keyword(line) {
            Some(DefineKeyword::Define) => (false, nlevels + 1, joined, false),
            Some(DefineKeyword::Endef) => if nlevels - 1 == 0 {
                (true, 0, text, endef_extraneous(line))
            } else {
                (false, nlevels - 1, text + c_part(endef_line(line)) + seq![0x0au8], endef_extraneous(line))
            },
            None => (false, nlevels, joined, false),
        }
    }
}

/// The body of a `define` before its first line.
pub fn define_body_new() -> (r: DefineBody)
    ensures
        r.nlevels == 1,
        r.text@ == Seq::<u8>::empty(),
{
    DefineBody { nlevels: 1, text: Vec::new() }
}

/// The bytes of `s` before its NUL, appended to `out`, and a newline.
fn push_line(out: &mut Vec<u8>, s: &[u8])
    requires
        nul_terminated(s@),
    ensures
        final(out)@ == old(out)@ + c_part(s@) + seq![0x0au8],
{
    proof {
        lemma_nul_terminated(s@);
        lemma_zero_from(s@, 0);
    }
    let mut k: usize = 0;
    while s[k] != 0
        invariant
            k <= strlen(s@) < s@.len(),
            forall|i: int| 0 <= i < strlen(s@) ==> s@[i] != 0,
            s@[strlen(s@)] == 0,
            out@ == old(out)@ + s@.subrange(0, k as int),
        decreases strlen(s@) - k,
    {
        out.push(s[k]);
        assert(s@.subrange(0, k + 1) =~= s@.subrange(0, k as int).push(s@[k as int]));
        k += 1;
    }
    out.push(0x0au8);
}

/// Read one line of the `define` body `body`, after its continuations were
/// collapsed, at `floc`: see [`define_line_step`]. Gives whether the body
/// ended; text after an `endef` draws a warning.
pub fn define_body_line(
    body: &mut DefineBody,
    line: &[u8],
    prefix: u8,
    floc: &Floc,
    diags: &mut Vec<Diagnostic>,
) -> (done: bool)
    requires
        nul_terminated(line@),
        1 <= old(body).nlevels < u64::MAX,
    ensures
        ({
            let st = define_line_step(old(body).nlevels as int, old(body).text@, line@, prefix);
            &&& done == st.0
            &&& final(body).nlevels == st.1
            &&& final(body).text@ == st.2
            &&& st.3 ==> final(diags)@.len() == old(diags)@.len() + 1 && final(diags)@.last().message@
                == "extraneous text after 'endef' directive".spec_bytes() && final(diags)@.drop_last() == old(diags)@
            &&& !st.3 ==> final(diags)@ == old(diags)@
        }),
        !done ==> final(body).nlevels >= 1,
{
    if at(line, 0) == prefix {
        push_line(&mut body.text, line);
        return false;
    }
    let p = next_token_off(line, 0);
    proof {
        lemma_next_token(line@, 0);
        lemma_nul_terminated(line@);
        lemma_zero_from(line@, 0);
    }
    let rest = vstd::slice::slice_subrange(line, p, line.len());
    let (kw, wend) = define_keyword(rest);
    proof {
        lemma_end_of_blank_token(rest@, 0);
    }
    match kw {
        Some(DefineKeyword::Define) => {
            push_line(&mut body.text, line);
            body.nlevels = body.nlevels + 1;
            false
        },
        Some(DefineKeyword::Endef) => {
            let cut = p + wend;
            let mut tail: Vec<u8> = Vec::new();
            push_slice(&mut tail, vstd::slice::slice_subrange(line, cut, line.len()));
            proof {
                assert(line@[strlen(line@)] == 0);
                lemma_blank_scans_stop_at_nul(line@, 0, strlen(line@));
                assert(rest@[strlen(line@) - p] == 0);
                lemma_blank_scans_stop_at_nul(rest@, 0, strlen(line@) - p);
                assert(tail@[strlen(line@) - cut] == 0);
            }
            let ghost t0 = tail@;
            remove_comments(tail.as_mut_slice());
            proof {
                lemma_uncommented_c_string(t0);
            }
            let extraneous = !rest_is_blank(tail.as_slice());
            if extraneous {
                report(diags, floc, crate::rule::copy_slice("extraneous text after 'endef' directive".as_bytes()));
            }
            body.nlevels = body.nlevels - 1;
            if body.nlevels == 0 {
                return true;
            }
            let mut whole: Vec<u8> = Vec::new();
            push_slice(&mut whole, vstd::slice::slice_subrange(line, 0, cut));
            push_slice(&mut whole, tail.as_slice());
            proof {
                assert(whole@ =~= endef_line(line@));
                let z = choose|z: int| 0 <= z < tail@.len() && tail@[z] == 0;
                assert(whole@[cut + z] == 0);
            }
            push_line(&mut body.text, whole.as_slice());
            false
        },
        None => {
            push_line(&mut body.text, line);
            false
        },
    }
}

/// Scanning blanks, or a word up to a blank, stops at the latest at a NUL.
proof fn lemma_blank_scans_stop_at_nul(s: Seq<u8>, i: int, z: int)
    requires
        0 <= i <= z < s.len(),
        s[z] == 0,
    ensures
        next_token(s, i) <= z,
        end_of_blank_token(s, i) <= z,
    decreases z - i,
{
    crate::stopchar::lemma_map_classes(0u8);
    if i < z {
        lemma_blank_scans_stop_at_nul(s, i + 1, z);
    }
}

/// Cutting a C string at its comment leaves a C string.
proof fn lemma_uncommented_c_string(s: Seq<u8>)
    requires
        nul_terminated(s),
    ensures
        nul_terminated(uncommented(s)),
        uncommented(s).len() == s.len(),
{
    lemma_nul_terminated(s);
    lemma_unquote_keeps_c_string(s, 0, MAP_COMMENT | MAP_VARIABLE, strlen(s));
    let (scanned, found) = unquote_map_loop(s, 0, MAP_COMMENT | MAP_VARIABLE, strlen(s));
    match found {
        Some(i) => {
            assert(scanned.update(i, 0)[i] == 0);
        },
        None => {},
    }
}

/// The value the body defines: its text without the last newline.
pub fn define_value(body: &DefineBody) -> (r: Vec<u8>)
    ensures
        r@ == if body.text@.len() == 0 {
            Seq::<u8>::empty()
        } else {
            body.text@.drop_last()
        },
{
    let mut out: Vec<u8> = Vec::new();
    if body.text.len() > 0 {
        push_slice(&mut out, vstd::slice::slice_subrange(body.text.as_slice(), 0, body.text.len() - 1));
    }
    out
}

} // verus!
