//! The include search path and `~` expansion: which directories the `-I`
//! options and the default directories contribute, in order, and how a
//! leading `~` or `~user` joins a home directory.
//!
//! Whether a candidate exists as a directory, and where a home directory is,
//! is asked of the system by the caller; everything here is on bytes.

use vstd::prelude::*;
use crate::rule::push_slice;

verus! {

/// The length of `d` without its trailing `/`s, keeping at least one byte.
pub open spec fn trimmed_len(d: Seq<u8>) -> nat
    decreases d.len(),
{
    if d.len() > 1 && d.last() == 0x2fu8 {
        trimmed_len(d.drop_last())
    } else {
        d.len()
    }
}

/// `d` without its trailing `/`s, keeping at least one byte.
pub open spec fn trimmed_dir(d: Seq<u8>) -> Seq<u8> {
    d.subrange(0, trimmed_len(d) as int)
}

proof fn lemma_trimmed_len_bound(d: Seq<u8>)
    ensures
        trimmed_len(d) <= d.len(),
        d.len() > 0 ==> trimmed_len(d) > 0,
    decreases d.len(),
{
    if d.len() > 1 && d.last() == 0x2fu8 {
        lemma_trimmed_len_bound(d.drop_last());
    }
}

proof fn lemma_trimmed_len_prefix(d: Seq<u8>, n: int)
    requires
        0 <= n <= d.len(),
        forall|i: int| n <= i < d.len() ==> d[i] == 0x2fu8,
        n > 1 ==> d[n - 1] != 0x2fu8,
        n <= 1 ==> d.len() > 0 ==> n == 1,
    ensures
        trimmed_len(d) == n,
    decreases d.len(),
{
    if d.len() > 1 && d.last() == 0x2fu8 && d.len() > n {
        assert(d.drop_last().len() == d.len() - 1);
        assert forall|i: int| n <= i < d.drop_last().len() implies d.drop_last()[i] == 0x2fu8 by {}
        lemma_trimmed_len_prefix(d.drop_last(), n);
    }
}

/// The length of `dir` without its trailing `/`s, keeping at least one byte.
pub fn trimmed_dir_len(dir: &[u8]) -> (r: usize)
    ensures
        r == trimmed_len(dir@),
{
    let mut len: usize = dir.len();
    while len > 1 && dir[len - 1] == 0x2fu8
        invariant
            len <= dir@.len(),
            dir@.len() > 0 ==> len > 0,
            forall|i: int| len <= i < dir@.len() ==> dir@[i] == 0x2fu8,
        decreases len,
    {
        len -= 1;
    }
    proof {
        lemma_trimmed_len_prefix(dir@, len as int);
    }
    len
}

/// `dir` whose leading `~` (alone or before a `/`) became `home`, when a
/// home directory is known and not empty; else `dir` as it is.
pub open spec fn tilde_dir(dir: Seq<u8>, home: Option<Seq<u8>>) -> Seq<u8> {
    if dir.len() > 0 && dir[0] == 0x7eu8 && (dir.len() == 1 || dir[1] == 0x2fu8) && home is Some
        && home->0.len() > 0 {
        home->0 + dir.subrange(1, dir.len() as int)
    } else {
        dir
    }
}

/// Expand a leading `~` or `~/` of a directory against the home directory
/// `home` (unknown: `None`). A `~user` form, or a `~` with no home directory
/// or an empty one, is left as it is.
pub fn expand_tilde_dir(dir: &[u8], home: Option<&[u8]>) -> (r: Vec<u8>)
    ensures
        r@ == tilde_dir(dir@, match home { Some(h) => Some(h@), None => None }),
{
    let mut out: Vec<u8> = Vec::new();
    if dir.len() > 0 && dir[0] == 0x7eu8 && (dir.len() == 1 || dir[1] == 0x2fu8) {
        match home {
            Some(h) => {
                if h.len() > 0 {
                    push_slice(&mut out, h);
                    push_slice(&mut out, slice_from(dir, 1));
                    return out;
                }
            },
            None => {},
        }
    }
    push_slice(&mut out, dir);
    out
}

/// The bytes of `s` from `k` on.
fn slice_from(s: &[u8], k: usize) -> (r: &[u8])
    requires
        k <= s@.len(),
    ensures
        r@ == s@.subrange(k as int, s@.len() as int),
{
    let r = slice_subrange(s, k, s.len());
    r
}

/// The bytes of `s` from `i` to `j`.
fn slice_subrange(s: &[u8], i: usize, j: usize) -> (r: &[u8])
    requires
        i <= j <= s@.len(),
    ensures
        r@ == s@.subrange(i as int, j as int),
{
    vstd::slice::slice_subrange(s, i, j)
}

/// The directory candidates the first `n` `-I` options leave: a `-` drops
/// those before it; each other option is `~`-expanded and trimmed.
pub open spec fn arg_candidates(args: Seq<Seq<u8>>, home: Option<Seq<u8>>, n: int) -> Seq<Seq<u8>>
    decreases n,
{
    if n <= 0 {
        Seq::empty()
    } else if args[n - 1] == seq![0x2du8] {
        Seq::empty()
    } else {
        arg_candidates(args, home, n - 1).push(trimmed_dir(tilde_dir(args[n - 1], home)))
    }
}

/// One of the first `n` `-I` options is `-`, which leaves out the default
/// directories.
pub open spec fn defaults_disabled(args: Seq<Seq<u8>>, n: int) -> bool
    decreases n,
{
    n > 0 && (args[n - 1] == seq![0x2du8] || defaults_disabled(args, n - 1))
}

/// The include directory candidates, in order: those of the `-I` options,
/// then, unless a `-` option disabled them, the default directories, each
/// trimmed. The caller keeps those that name an existing directory.
pub open spec fn include_candidates(args: Seq<Seq<u8>>, home: Option<Seq<u8>>, defaults: Seq<Seq<u8>>) -> Seq<Seq<u8>> {
    arg_candidates(args, home, args.len() as int) + if defaults_disabled(args, args.len() as int) {
        Seq::<Seq<u8>>::empty()
    } else {
        defaults.map_values(|d: Seq<u8>| trimmed_dir(d))
    }
}

/// The byte strings of a list, as values.
pub open spec fn bytes_list(v: Seq<Vec<u8>>) -> Seq<Seq<u8>> {
    v.map_values(|x: Vec<u8>| x@)
}

/// `d` trimmed of its trailing `/`s, as a new vector.
fn trimmed_copy(d: &[u8]) -> (r: Vec<u8>)
    ensures
        r@ == trimmed_dir(d@),
{
    let n = trimmed_dir_len(d);
    proof {
        lemma_trimmed_len_bound(d@);
    }
    let mut out: Vec<u8> = Vec::new();
    push_slice(&mut out, slice_subrange(d, 0, n));
    out
}

/// Whether `d` is the option `-`.
fn is_dash(d: &[u8]) -> (r: bool)
    ensures
        r == (d@ == seq![0x2du8]),
{
    if d.len() == 1 && d[0] == 0x2du8 {
        assert(d@ =~= seq![0x2du8]);
        true
    } else {
        false
    }
}

/// The include directory candidates of the `-I` options `arg_dirs` and the
/// default directories `defaults`, with `home` the home directory for `~`
/// (unknown: `None`); see [`include_candidates`].
pub fn include_dir_candidates(arg_dirs: &[Vec<u8>], home: Option<&[u8]>, defaults: &[Vec<u8>]) -> (r: Vec<Vec<u8>>)
    ensures
        bytes_list(r@) == include_candidates(
            bytes_list(arg_dirs@),
            match home { Some(h) => Some(h@), None => None },
            bytes_list(defaults@),
        ),
{
    let ghost args = bytes_list(arg_dirs@);
    let ghost hv = match home { Some(h) => Some(h@), None => None };
    let mut out: Vec<Vec<u8>> = Vec::new();
    let mut disabled = false;
    let mut k: usize = 0;
    while k < arg_dirs.len()
        invariant
            k <= arg_dirs@.len(),
            args == bytes_list(arg_dirs@),
            hv == match home { Some(h) => Some(h@), None => None::<Seq<u8>> },
            bytes_list(out@) == arg_candidates(args, hv, k as int),
            disabled == defaults_disabled(args, k as int),
        decreases arg_dirs@.len() - k,
    {
        let d = &arg_dirs[k];
        if is_dash(d.as_slice()) {
            disabled = true;
            out = Vec::new();
            assert(bytes_list(out@) =~= arg_candidates(args, hv, k + 1));
        } else {
            let e = expand_tilde_dir(d.as_slice(), home);
            let t = trimmed_copy(e.as_slice());
            out.push(t);
            assert(bytes_list(out@) =~= arg_candidates(args, hv, k + 1));
        }
        k += 1;
    }
    if !disabled {
        let ghost base = bytes_list(out@);
        let mut j: usize = 0;
        while j < defaults.len()
            invariant
                j <= defaults@.len(),
                bytes_list(out@) == base + bytes_list(defaults@).map_values(|d: Seq<u8>| trimmed_dir(d)).subrange(
                    0,
                    j as int,
                ),
            decreases defaults@.len() - j,
        {
            let t = trimmed_copy(defaults[j].as_slice());
            let ghost before = out@;
            out.push(t);
            proof {
                let tl = bytes_list(defaults@).map_values(|d: Seq<u8>| trimmed_dir(d));
                assert(bytes_list(defaults@)[j as int] == defaults@[j as int]@);
                assert(tl[j as int] == t@);
                assert(bytes_list(out@) =~= bytes_list(before).push(t@));
                assert(tl.subrange(0, j + 1) =~= tl.subrange(0, j as int).push(t@));
            }
            assert(bytes_list(out@) =~= base + bytes_list(defaults@).map_values(|d: Seq<u8>| trimmed_dir(d)).subrange(
                0,
                j + 1,
            ));
            j += 1;
        }
        assert(bytes_list(defaults@).map_values(|d: Seq<u8>| trimmed_dir(d)).subrange(0, defaults@.len() as int)
            =~= bytes_list(defaults@).map_values(|d: Seq<u8>| trimmed_dir(d)));
    } else {
        assert(bytes_list(out@) =~= bytes_list(out@) + Seq::<Seq<u8>>::empty());
    }
    out
}

/// Where the user part of a `~` name ends: at its first `/` after the `~`,
/// or at its end.
pub open spec fn user_end(name: Seq<u8>, k: int) -> int
    decreases name.len() - k,
{
    if k >= name.len() || name[k] == 0x2fu8 {
        k
    } else {
        user_end(name, k + 1)
    }
}

proof fn lemma_user_end(name: Seq<u8>, k: int)
    requires
        0 <= k <= name.len(),
    ensures
        k <= user_end(name, k) <= name.len(),
        forall|i: int| k <= i < user_end(name, k) ==> name[i] != 0x2fu8,
        user_end(name, k) < name.len() ==> name[user_end(name, k)] == 0x2fu8,
    decreases name.len() - k,
{
    if k < name.len() && name[k] != 0x2fu8 {
        lemma_user_end(name, k + 1);
    }
}

/// The user a `~` name names (`~user` or `~user/...`); empty for a bare `~`
/// or `~/...`, which names the user running make.
pub open spec fn tilde_user_spec(name: Seq<u8>) -> Seq<u8> {
    name.subrange(1, user_end(name, 1))
}

/// Where the user part of the `~` name `name` ends.
fn tilde_user_end(name: &[u8]) -> (r: usize)
    requires
        name@.len() >= 1,
    ensures
        r == user_end(name@, 1),
{
    let mut k: usize = 1;
    while k < name.len() && name[k] != 0x2fu8
        invariant
            1 <= k <= name@.len(),
            user_end(name@, k as int) == user_end(name@, 1),
        decreases name@.len() - k,
    {
        k += 1;
    }
    k
}

/// The user the `~` name `name` names; empty for a bare `~` or `~/...`, whose
/// home directory is that of the user running make.
pub fn tilde_user(name: &[u8]) -> (r: Vec<u8>)
    requires
        name@.len() >= 1,
    ensures
        r@ == tilde_user_spec(name@),
{
    let e = tilde_user_end(name);
    proof {
        lemma_user_end(name@, 1);
    }
    let mut out: Vec<u8> = Vec::new();
    push_slice(&mut out, slice_subrange(name, 1, e));
    out
}

/// `~` expansion of `name` (which starts with `~`) against `home_dir`, the
/// home directory of the user it names (for a bare `~`: of the user running
/// make): that directory followed by the rest of the name after the user
/// part; `None` when no home directory was found.
pub fn tilde_expand(name: &[u8], home_dir: Option<&[u8]>) -> (r: Option<Vec<u8>>)
    requires
        name@.len() >= 1,
    ensures
        match home_dir {
            Some(h) => r matches Some(v) && v@ == h@ + name@.subrange(user_end(name@, 1), name@.len() as int),
            None => r is None,
        },
{
    match home_dir {
        Some(h) => {
            let e = tilde_user_end(name);
            proof {
                lemma_user_end(name@, 1);
            }
            let mut out: Vec<u8> = Vec::new();
            push_slice(&mut out, h);
            push_slice(&mut out, slice_from(name, e));
            Some(out)
        },
        None => None,
    }
}

/// The home directory of the user running make, as `~` finds it: the `HOME`
/// variable's value when not empty, else the `HOME` environment variable
/// when set and not empty; `None` leaves the password database to ask.
pub fn home_from_sources<'a>(var_home: &'a [u8], env_home: Option<&'a [u8]>) -> (r: Option<&'a [u8]>)
    ensures
        var_home@.len() > 0 ==> r == Some(var_home),
        var_home@.len() == 0 ==> r == match env_home {
            Some(h) => if h@.len() > 0 { Some(h) } else { None },
            None => None,
        },
{
    if var_home.len() > 0 {
        Some(var_home)
    } else {
        match env_home {
            Some(h) => if h.len() > 0 { Some(h) } else { None },
            None => None,
        }
    }
}

} // verus!
