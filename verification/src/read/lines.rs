//! Reading the logical lines of a makefile: from a text in memory
//! ([`readstring`]), or from a file, one read of the file at a time
//! ([`readline_begin`], [`absorb_chunk`], [`readline_chunk`],
//! [`readline_end`]); a newline behind an odd run of backslashes continues
//! the line.

use vstd::prelude::*;
use crate::execctx::{BuildError, Diagnostic, Floc};
use crate::parser::{lemma_zero_from, zero_from};
use crate::rule::copy_slice;
use vstd::string::StringSliceAdditionalSpecFns;

verus! {

// ─── Reading from memory ─────────────────────────────────────────────────

/// A makefile being read line by line. Read from memory, `bufstart` holds
/// the text (its first `size` bytes, then a NUL), `buffer` is where the line
/// last read starts and `bufnext` where the next one does. Read from a file,
/// `bufstart` is the line buffer, `size` bytes long.
pub struct EBuffer {
    pub buffer: usize,
    pub bufnext: usize,
    pub bufstart: Vec<u8>,
    pub size: usize,
    pub floc: Floc,
}

/// The first newline or NUL at or after `i` (the length when there is none).
pub open spec fn newline_or_nul(s: Seq<u8>, i: int) -> int
    decreases s.len() - i,
{
    if i < 0 || i >= s.len() || s[i] == '\n' as u8 || s[i] == 0 {
        i
    } else {
        newline_or_nul(s, i + 1)
    }
}

/// The number of backslashes directly before `e`, counting none before `bol`.
pub open spec fn backslash_run(s: Seq<u8>, bol: int, e: int) -> int
    decreases e - bol,
{
    if e > bol && 0 < e <= s.len() && s[e - 1] == '\\' as u8 {
        1 + backslash_run(s, bol, e - 1)
    } else {
        0
    }
}

/// The newline that ends the logical line whose physical line starts at
/// `bol`: a newline behind an odd run of backslashes continues the line.
/// `None` when the text ends first.
pub open spec fn logical_line_end(s: Seq<u8>, bol: int) -> Option<int>
    decreases s.len() - bol,
{
    let e = newline_or_nul(s, bol);
    if bol < 0 || e >= s.len() || s[e] != '\n' as u8 {
        None
    } else if backslash_run(s, bol, e) % 2 == 1 {
        logical_line_end(s, e + 1)
    } else {
        Some(e)
    }
}

/// Count the backslashes directly before `e`, back to `bol`; true when odd.
fn odd_backslashes(s: &Vec<u8>, bol: usize, e: usize) -> (r: bool)
    requires
        bol <= e <= s@.len(),
    ensures
        r == (backslash_run(s@, bol as int, e as int) % 2 == 1),
{
    let mut p = e;
    let mut odd = false;
    while p > bol && s[p - 1] == '\\' as u8
        invariant
            bol <= p <= e <= s@.len(),
            backslash_run(s@, bol as int, e as int) == (e - p) + backslash_run(s@, bol as int, p as int),
            odd == ((e - p) % 2 == 1),
        decreases p,
    {
        p -= 1;
        odd = !odd;
    }
    odd
}

/// Read the next logical line of the text: the line becomes the bytes from
/// `buffer` up to the NUL written over the newline that ends it, and
/// `bufnext` moves past that newline. A line the text ends in runs to the
/// end. Gives -1 when the text is used up, else 0.
pub fn readstring(ebuf: &mut EBuffer) -> (r: i64)
    requires
        old(ebuf).size < old(ebuf).bufstart@.len(),
    ensures
        final(ebuf).size == old(ebuf).size,
        final(ebuf).floc == old(ebuf).floc,
        old(ebuf).bufnext >= old(ebuf).size ==> r == -1 && *final(ebuf) == *old(ebuf),
        old(ebuf).bufnext < old(ebuf).size ==> {
            &&& r == 0
            &&& final(ebuf).buffer == old(ebuf).bufnext
            &&& match logical_line_end(old(ebuf).bufstart@, old(ebuf).bufnext as int) {
                Some(e) => {
                    &&& final(ebuf).bufstart@ == old(ebuf).bufstart@.update(e, 0)
                    &&& final(ebuf).bufnext == e + 1
                },
                None => {
                    &&& final(ebuf).bufstart@ == old(ebuf).bufstart@
                    &&& final(ebuf).bufnext == old(ebuf).size + 1
                },
            }
        },
{
    if ebuf.bufnext >= ebuf.size {
        return -1;
    }
    ebuf.buffer = ebuf.bufnext;
    let n = ebuf.bufstart.len();
    let start = ebuf.bufnext;
    let mut bol = start;
    loop
        invariant
            start <= bol <= n,
            n == ebuf.bufstart@.len(),
            ebuf.bufstart@ == old(ebuf).bufstart@,
            ebuf.size == old(ebuf).size,
            ebuf.size < n,
            ebuf.floc == old(ebuf).floc,
            ebuf.buffer == start,
            start == old(ebuf).bufnext,
            old(ebuf).bufnext < old(ebuf).size,
            logical_line_end(ebuf.bufstart@, bol as int) == logical_line_end(ebuf.bufstart@, start as int),
        decreases n - bol,
    {
        let mut e = bol;
        while e < n && ebuf.bufstart[e] != '\n' as u8 && ebuf.bufstart[e] != 0
            invariant
                bol <= e <= n,
                n == ebuf.bufstart@.len(),
                newline_or_nul(ebuf.bufstart@, e as int) == newline_or_nul(ebuf.bufstart@, bol as int),
            decreases n - e,
        {
            e += 1;
        }
        if e >= n || ebuf.bufstart[e] != '\n' as u8 {
            ebuf.bufnext = ebuf.size + 1;
            return 0;
        }
        if !odd_backslashes(&ebuf.bufstart, bol, e) {
            ebuf.bufstart.set(e, 0);
            ebuf.bufnext = e + 1;
            return 0;
        }
        bol = e + 1;
    }
}


// ─── Reading from a file ─────────────────────────────────────────────────

/// Where reading one logical line from a file stands: the end `p` of what
/// the buffer holds so far, and the number of physical lines read.
pub struct LineRead {
    pub p: usize,
    pub nlines: i64,
}

/// What one read did to the line being read: its new end, whether the read
/// ended a physical line, whether that ended the logical line, and whether a
/// NUL cut the read short.
#[derive(Debug, Clone, Copy, PartialEq, Eq, Structural)]
pub struct ChunkStep {
    pub p: usize,
    pub newline: bool,
    pub done: bool,
    pub nul: bool,
}

/// Start reading a line: the buffer is emptied.
pub fn readline_begin(ebuf: &mut EBuffer) -> (r: LineRead)
    requires
        old(ebuf).size > 0,
        old(ebuf).bufstart@.len() == old(ebuf).size,
    ensures
        r.p == 0,
        r.nlines == 0,
        final(ebuf).bufstart@ == old(ebuf).bufstart@.update(0, 0),
        final(ebuf).size == old(ebuf).size,
        final(ebuf).buffer == old(ebuf).buffer,
        final(ebuf).bufnext == old(ebuf).bufnext,
        final(ebuf).floc == old(ebuf).floc,
{
    ebuf.bufstart.set(0, 0);
    LineRead { p: 0, nlines: 0 }
}

/// The room the next read may fill (its terminator included).
pub fn readline_room(ebuf: &EBuffer, st: &LineRead) -> (r: usize)
    requires
        st.p <= ebuf.size,
    ensures
        r == ebuf.size - st.p,
{
    ebuf.size - st.p
}

/// The buffer after the read `chunk` was stored at `p`, NUL-terminated.
pub open spec fn chunk_written(buf: Seq<u8>, p: int, chunk: Seq<u8>) -> Seq<u8> {
    buf.subrange(0, p) + chunk + seq![0u8] + buf.subrange(p + chunk.len() + 1, buf.len() as int)
}

/// `w` with the bytes from `from + 1` through `to` moved one place left.
pub open spec fn shifted_left(w: Seq<u8>, from: int, to: int) -> Seq<u8> {
    Seq::new(w.len(), |k: int| if from <= k < to { w[k + 1] } else { w[k] })
}

/// What storing the read `chunk` at `p` does: the read counts up to its
/// first NUL (a NUL right at the start is warned about and taken as a
/// newline); a read that ends in a newline ends a physical line, and a
/// carriage return before that newline is dropped; the logical line ends
/// unless an odd run of backslashes precedes the newline, which then becomes
/// the terminator. Gives the buffer, the new end, and the [`ChunkStep`] flags.
pub open spec fn absorb(buf: Seq<u8>, p: int, chunk: Seq<u8>) -> (Seq<u8>, int, bool, bool, bool) {
    let w = chunk_written(buf, p, chunk);
    let z = zero_from(w, p) - p;
    let nul = z == 0;
    let w1 = if nul {
        w.update(p, '\n' as u8)
    } else {
        w
    };
    let q = p + if nul {
        1
    } else {
        z
    };
    if w1[q - 1] != '\n' as u8 {
        (w1, q, false, false, nul)
    } else {
        let cr = q > 1 && w1[q - 2] == '\r' as u8;
        let w2 = if cr {
            shifted_left(w1, q - 2, zero_from(w1, q - 1))
        } else {
            w1
        };
        let q2 = if cr {
            q - 1
        } else {
            q
        };
        let done = backslash_run(w2, 0, q2 - 1) % 2 == 0;
        let w3 = if done {
            w2.update(q2 - 1, 0)
        } else {
            w2
        };
        (w3, q2, true, done, nul)
    }
}

/// Store `chunk` in `buf` at `p` and NUL-terminate it.
fn write_chunk(buf: &mut Vec<u8>, p: usize, chunk: &[u8])
    requires
        p + chunk@.len() < old(buf)@.len(),
    ensures
        final(buf)@ == chunk_written(old(buf)@, p as int, chunk@),
{
    let n = buf.len();
    let mut k: usize = 0;
    while k < chunk.len()
        invariant
            k <= chunk@.len(),
            p + chunk@.len() < old(buf)@.len(),
            n == old(buf)@.len(),
            buf@.len() == old(buf)@.len(),
            forall|i: int| 0 <= i < buf@.len() && !(p <= i < p + k) ==> buf@[i] == old(buf)@[i],
            forall|i: int| p <= i < p + k ==> buf@[i] == chunk@[i - p],
        decreases chunk@.len() - k,
    {
        buf.set(p + k, chunk[k]);
        k += 1;
    }
    buf.set(p + chunk.len(), 0);
    assert(buf@ =~= chunk_written(old(buf)@, p as int, chunk@));
}

/// The index of the first NUL in `buf` from `i` on (the length if none).
fn nul_from(buf: &Vec<u8>, i: usize) -> (r: usize)
    requires
        i <= buf@.len(),
    ensures
        r == zero_from(buf@, i as int),
        i <= r <= buf@.len(),
{
    let mut k = i;
    while k < buf.len() && buf[k] != 0
        invariant
            i <= k <= buf@.len(),
            zero_from(buf@, k as int) == zero_from(buf@, i as int),
        decreases buf@.len() - k,
    {
        k += 1;
    }
    k
}

/// Store one read of the file at the end `p` of the line buffer and say
/// what it did ([`absorb`]).
pub fn absorb_chunk(buf: &mut Vec<u8>, p: usize, chunk: &[u8]) -> (r: ChunkStep)
    requires
        p + chunk@.len() < old(buf)@.len(),
        chunk@.len() > 0,
    ensures
        (final(buf)@, r.p as int, r.newline, r.done, r.nul) == absorb(old(buf)@, p as int, chunk@),
        p <= r.p <= p + chunk@.len(),
        final(buf)@.len() == old(buf)@.len(),
{
    let n = buf.len();
    write_chunk(buf, p, chunk);
    let ghost w = buf@;
    let ghost end = p + chunk@.len();
    assert(w[end as int] == 0);
    proof {
        lemma_zero_from(w, p as int);
    }
    let e = nul_from(buf, p);
    let nul = e == p;
    if nul {
        buf.set(p, '\n' as u8);
    }
    let q = if nul {
        p + 1
    } else {
        e
    };
    let ghost w1 = buf@;
    assert(q <= end);
    if buf[q - 1] != '\n' as u8 {
        return ChunkStep { p: q, newline: false, done: false, nul };
    }
    let cr = q > 1 && buf[q - 2] == '\r' as u8;
    let mut q2 = q;
    if cr {
        assert(w1[end as int] == 0);
        assert(q - 1 <= end);
        proof {
            lemma_zero_from(w1, q - 1);
        }
        let z = nul_from(buf, q - 1);
        assert(z <= end);
        assert(z < w1.len());
        let mut k = q - 2;
        while k < z
            invariant
                q >= 2,
                q - 2 <= k <= z <= buf@.len(),
                z == zero_from(w1, q - 1),
                z < w1.len(),
                buf@.len() == w1.len(),
                forall|i: int| 0 <= i < w1.len() && !(q - 2 <= i < k) ==> buf@[i] == w1[i],
                forall|i: int| q - 2 <= i < k ==> #[trigger] buf@[i] == w1[i + 1],
            decreases z - k,
        {
            let v = buf[k + 1];
            assert(!(q - 2 <= k + 1 < k));
            assert(v == w1[k + 1]);
            let ghost before = buf@;
            buf.set(k, v);
            assert forall|i: int| q - 2 <= i < k + 1 implies #[trigger] buf@[i] == w1[i + 1] by {
                if i < k {
                    assert(buf@[i] == before[i]);
                }
            }
            k += 1;
        }
        assert(buf@ =~= shifted_left(w1, q - 2, zero_from(w1, q - 1)));
        q2 = q - 1;
    }
    let odd = odd_backslashes(buf, 0, q2 - 1);
    let done = !odd;
    if done {
        buf.set(q2 - 1, 0);
    }
    ChunkStep { p: q2, newline: true, done, nul }
}

/// The buffer `w` grown to twice its `size`: its bytes, zeros after them,
/// and a NUL at the end `q` of the line so far.
pub open spec fn grown(w: Seq<u8>, size: int, q: int) -> Seq<u8> {
    (w + Seq::new(size as nat, |i: int| 0u8)).update(q, 0)
}

/// Take in one read of the file (`chunk`, what the reader gave for the room
/// [`readline_room`] said): store it ([`absorb_chunk`]); count a physical
/// line when it ended one; a NUL at its start is warned about. Gives true
/// when the logical line is complete. Otherwise reading goes on, in the same
/// buffer when the line was continued and at least 80 bytes of room are
/// left, else after the buffer has doubled (which fails when its size
/// cannot double).
pub fn readline_chunk(
    ebuf: &mut EBuffer,
    st: &mut LineRead,
    chunk: &[u8],
    diags: &mut Vec<Diagnostic>,
) -> (r: Result<bool, BuildError>)
    requires
        old(ebuf).bufstart@.len() == old(ebuf).size,
        old(st).p + chunk@.len() < old(ebuf).size,
        chunk@.len() > 0,
        old(st).nlines < i64::MAX,
    ensures
        ({
            let (w, q, newline, done, nul) = absorb(old(ebuf).bufstart@, old(st).p as int, chunk@);
            &&& final(st).nlines == old(st).nlines + (if newline { 1int } else { 0 })
            &&& final(st).p == q
            &&& (nul ==> final(diags)@.len() == old(diags)@.len() + 1 && final(diags)@.last().message@
                == "warning: NUL character seen; rest of line ignored".spec_bytes())
            &&& (!nul ==> final(diags)@ == old(diags)@)
            &&& old(diags)@.is_prefix_of(final(diags)@)
            &&& final(ebuf).floc == old(ebuf).floc
            &&& final(ebuf).bufnext == old(ebuf).bufnext
            &&& final(ebuf).bufstart@.len() == final(ebuf).size
            &&& if done || (newline && old(ebuf).size - q >= 80) {
                &&& r == Ok::<bool, BuildError>(done)
                &&& final(ebuf).bufstart@ == w
                &&& final(ebuf).size == old(ebuf).size
                &&& final(ebuf).buffer == old(ebuf).buffer
            } else if old(ebuf).size * 2 <= usize::MAX {
                &&& r == Ok::<bool, BuildError>(false)
                &&& final(ebuf).size == old(ebuf).size * 2
                &&& final(ebuf).bufstart@ == grown(w, old(ebuf).size as int, q)
                &&& final(ebuf).buffer == 0
            } else {
                r is Err
            }
        }),
{
    let step = absorb_chunk(&mut ebuf.bufstart, st.p, chunk);
    if step.nul {
        super::report(diags, &ebuf.floc, copy_slice("warning: NUL character seen; rest of line ignored".as_bytes()));
    }
    assert(old(diags)@.is_prefix_of(diags@));
    st.p = step.p;
    if step.newline {
        st.nlines = st.nlines + 1;
    }
    if step.done || (step.newline && ebuf.size - step.p >= 80) {
        return Ok(step.done);
    }
    if ebuf.size > usize::MAX / 2 {
        return Err(BuildError::Failure);
    }
    let old_size = ebuf.size;
    let ghost w = ebuf.bufstart@;
    let mut k: usize = 0;
    while k < old_size
        invariant
            k <= old_size,
            ebuf.bufstart@ == w + Seq::new(k as nat, |i: int| 0u8),
            ebuf.floc == old(ebuf).floc,
            ebuf.bufnext == old(ebuf).bufnext,
            ebuf.size == old_size,
        decreases old_size - k,
    {
        ebuf.bufstart.push(0);
        k += 1;
        assert(ebuf.bufstart@ =~= w + Seq::new(k as nat, |i: int| 0u8));
    }
    ebuf.size = old_size * 2;
    ebuf.buffer = 0;
    ebuf.bufstart.set(step.p, 0);
    Ok(false)
}

/// What reading a line gives once the reads ended: the number of physical
/// lines read; when none ended, 1 if some text was read, else -1 (the file
/// is used up).
pub fn readline_end(st: &LineRead) -> (r: i64)
    ensures
        r == (if st.nlines != 0 {
            st.nlines
        } else if st.p == 0 {
            -1i64
        } else {
            1i64
        }),
{
    if st.nlines != 0 {
        st.nlines
    } else if st.p == 0 {
        -1
    } else {
        1
    }
}

// ─── Laws ────────────────────────────────────────────────────────────────

/// A logical line read from memory ends at a newline of the text, at or
/// after where it starts.
pub proof fn law_line_ends_at_a_newline(s: Seq<u8>, bol: int)
    requires
        0 <= bol,
    ensures
        logical_line_end(s, bol) matches Some(e) ==> bol <= e < s.len() && s[e] == '\n' as u8,
    decreases s.len() - bol,
{
    lemma_newline_or_nul(s, bol);
    let e = newline_or_nul(s, bol);
    if !(e >= s.len() || s[e] != '\n' as u8) && backslash_run(s, bol, e) % 2 == 1 {
        law_line_ends_at_a_newline(s, e + 1);
    }
}

proof fn lemma_newline_or_nul(s: Seq<u8>, i: int)
    requires
        0 <= i,
    ensures
        i <= newline_or_nul(s, i),
    decreases s.len() - i,
{
    if !(i >= s.len() || s[i] == '\n' as u8 || s[i] == 0) {
        lemma_newline_or_nul(s, i + 1);
    }
}

} // verus!
