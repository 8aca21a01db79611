//! Considering one target: whether an entry needs no look at all, walking
//! its prerequisites (each checked in turn, circular ones dropped), and the
//! decision whether its recipe must run.

use vstd::prelude::*;
use crate::dep::{DepNode, FileId};
use crate::execctx::{BuildError, Diagnostic, ExecContext, Floc, WarningAction};
use crate::file::{
    us_rank, valid_entry, CommandState, FileNode, UpdateStatus, NONEXISTENT_MTIME,
    ORDINARY_MTIME_MIN, UNKNOWN_MTIME,
};
use crate::remake::{
    cname, dep_chain_running, entry_at, referred_files, entry_node_mut, entry_ref, follow_renamed_bounded,
    node_name, notice_finished_file, ordinary_mtime_max, remake_file,
    set_command_state_id, trace_name, update_file, UpdaterWork,
};
use crate::rule::push_slice;
use vstd::string::StringSliceAdditionalSpecFns;

verus! {

// ─── Decisions ───────────────────────────────────────────────────────────

/// The worse of two statuses.
pub open spec fn worse(a: UpdateStatus, b: UpdateStatus) -> UpdateStatus {
    if us_rank(b) > us_rank(a) {
        b
    } else {
        a
    }
}

/// The worse of two statuses.
pub fn worse_status(a: UpdateStatus, b: UpdateStatus) -> (r: UpdateStatus)
    ensures
        r == worse(a, b),
{
    if b.rank() > a.rank() {
        b
    } else {
        a
    }
}

/// The status a target whose prerequisites failed gets: a prerequisite with
/// no status counts as failed.
pub open spec fn given_up_status(dep_status: UpdateStatus) -> UpdateStatus {
    if dep_status == UpdateStatus::NoStatus {
        UpdateStatus::Failed
    } else {
        dep_status
    }
}

/// The status a target whose prerequisites failed gets.
pub fn given_up(dep_status: UpdateStatus) -> (r: UpdateStatus)
    ensures
        r == given_up_status(dep_status),
{
    match dep_status {
        UpdateStatus::NoStatus => UpdateStatus::Failed,
        s => s,
    }
}

/// The nanoseconds of an ordinary timestamp.
pub open spec fn mtime_ns(mtime: u64) -> u64 {
    ((mtime - ORDINARY_MTIME_MIN) as u64) & 0x3fff_ffffu64
}

/// A file whose time stamps are only good to the second (`.LOW_RESOLUTION_TIME`)
/// counts as made at the end of its second: the time stamp `mtime` moves to
/// the last nanosecond, and whether it had nanoseconds (which deserves a
/// warning) is told.
pub fn low_resolution_adjust(mtime: u64) -> (r: (u64, bool))
    requires
        ORDINARY_MTIME_MIN <= mtime,
    ensures
        r.1 == (mtime_ns(mtime) != 0),
        r.0 as int == (mtime as int + 999_999_999 - mtime_ns(mtime) as int) % 0x1_0000_0000_0000_0000int,
{
    let ns: u64 = (mtime - ORDINARY_MTIME_MIN) & 0x3fff_ffff;
    assert(ns <= 0x3fff_ffff) by (bit_vector)
        requires
            ns == (mtime - ORDINARY_MTIME_MIN) as u64 & 0x3fff_ffffu64,
    ;
    let add: u64 = if ns <= 999_999_999 {
        999_999_999 - ns
    } else {
        (999_999_999u64).wrapping_sub(ns)
    };
    (mtime.wrapping_add(add), ns != 0)
}

/// Whether the recipe of a target must run, once its prerequisites were
/// checked: a double-colon target without prerequisites always runs; a
/// target that exists, has no recipe, and none of whose prerequisites
/// changed never does (unless `-B`); `-B` makes any target with a recipe
/// run; otherwise the prerequisites decided.
pub open spec fn remake_needed(
    is_double_colon: bool,
    deps_empty: bool,
    noexist: bool,
    is_target: bool,
    deps_changed: bool,
    has_recipe: bool,
    always_make: bool,
    must_make: bool,
) -> bool {
    if is_double_colon && deps_empty {
        true
    } else if !noexist && is_target && !deps_changed && !has_recipe && !always_make {
        false
    } else if !must_make && has_recipe && always_make {
        true
    } else {
        must_make
    }
}

/// Why [`remake_decision`] decided as it did, for the trace.
#[derive(Debug, Clone, Copy, PartialEq, Eq, Structural)]
pub enum RemakeReason {
    /// A double-colon target without prerequisites.
    DoubleColonNoDeps,
    /// No recipe, and no prerequisite changed.
    NothingChanged,
    /// `-B` with a recipe.
    AlwaysMake,
    /// The prerequisites decided.
    Prerequisites,
}

/// Decide whether the recipe must run ([`remake_needed`]) and why.
pub fn remake_decision(
    is_double_colon: bool,
    deps_empty: bool,
    noexist: bool,
    is_target: bool,
    deps_changed: bool,
    has_recipe: bool,
    always_make: bool,
    must_make: bool,
) -> (r: (bool, RemakeReason))
    ensures
        r.0 == remake_needed(is_double_colon, deps_empty, noexist, is_target, deps_changed, has_recipe, always_make, must_make),
{
    if is_double_colon && deps_empty {
        (true, RemakeReason::DoubleColonNoDeps)
    } else if !noexist && is_target && !deps_changed && !has_recipe && !always_make {
        (false, RemakeReason::NothingChanged)
    } else if !must_make && has_recipe && always_make {
        (true, RemakeReason::AlwaysMake)
    } else {
        (must_make, RemakeReason::Prerequisites)
    }
}

// ─── Reading and writing an entry ────────────────────────────────────────

/// Whether `file` is in the table and has an entry `entry`.
pub fn entry_exists(ctx: &ExecContext, file: FileId, entry: usize) -> (r: bool)
    ensures
        r == (file < ctx.files@.len() && valid_entry(ctx.files@[file as int], entry as int)),
{
    file < ctx.files.len() && entry <= ctx.files[file].double_colon.len()
}

/// The answer for an entry that needs no further look, if it is one: an
/// entry that was already updated gives its failure (status beyond "none")
/// or success; one whose recipe is running gives success, a finished one its
/// status.
pub open spec fn settled_answer(e: FileNode) -> Option<UpdateStatus> {
    if e.updated {
        if us_rank(e.update_status) > us_rank(UpdateStatus::NoStatus) {
            Some(e.update_status)
        } else {
            Some(UpdateStatus::Success)
        }
    } else if e.command_state == CommandState::Running {
        Some(UpdateStatus::Success)
    } else if e.command_state == CommandState::Finished {
        Some(e.update_status)
    } else {
        None
    }
}

/// The entry failed and its diagnostics were held back: answering for it
/// complains now.
pub open spec fn complains(e: FileNode) -> bool {
    e.updated && us_rank(e.update_status) > us_rank(UpdateStatus::NoStatus) && e.no_diag && !e.dontcare
}

/// Answer at once for an entry that needs no further look (tracing why); a
/// failed entry whose diagnostics were held back is complained about now.
fn settled_entry_answer<W: UpdaterWork>(
    ctx: &mut ExecContext,
    file: FileId,
    entry: usize,
    depth: u32,
    cn: &[u8],
    work: &mut W,
) -> (r: Result<Option<UpdateStatus>, BuildError>)
    requires
        file < old(ctx).files@.len(),
        valid_entry(old(ctx).files@[file as int], entry as int),
    ensures
        r matches Ok(a) ==> a == settled_answer(entry_at(old(ctx).files@, file, entry as int)),
        r is Err ==> complains(entry_at(old(ctx).files@, file, entry as int)),
        !complains(entry_at(old(ctx).files@, file, entry as int)) ==> *final(ctx) == *old(ctx),
{
    let (updated, status, cs, complain_now) = {
        let e = entry_ref(&ctx.files[file], entry);
        (e.updated, e.update_status, e.command_state, e.updated && e.update_status.rank()
            > UpdateStatus::NoStatus.rank() && e.no_diag && !e.dontcare)
    };
    let traced = ctx.db_level & 2 != 0;
    if updated {
        if status.rank() > UpdateStatus::NoStatus.rank() {
            if traced {
                work.trace(ctx, depth, trace_name("Recently tried and failed to update file '".as_bytes(), cn, "'.\n".as_bytes()).as_slice());
            }
            if complain_now {
                work.complain(ctx, file)?;
            }
            return Ok(Some(status));
        }
        if traced {
            work.trace(ctx, depth, trace_name("File '".as_bytes(), cn, "' was considered already.\n".as_bytes()).as_slice());
        }
        return Ok(Some(UpdateStatus::Success));
    }
    match cs {
        CommandState::Running => {
            if traced {
                work.trace(ctx, depth, trace_name("Still updating file '".as_bytes(), cn, "'.\n".as_bytes()).as_slice());
            }
            Ok(Some(UpdateStatus::Success))
        },
        CommandState::Finished => {
            if traced {
                work.trace(ctx, depth, trace_name("Finished updating file '".as_bytes(), cn, "'.\n".as_bytes()).as_slice());
            }
            Ok(Some(status))
        },
        _ => Ok(None),
    }
}

/// A copy of a prerequisite list.
fn clone_deps(v: &Vec<DepNode>) -> (r: Vec<DepNode>)
    ensures
        r@.len() == v@.len(),
        forall|i: int| 0 <= i < v@.len() ==> crate::dep::same_dep(#[trigger] r@[i], v@[i]),
{
    let mut out: Vec<DepNode> = Vec::new();
    let mut k: usize = 0;
    while k < v.len()
        invariant
            k <= v@.len(),
            out@.len() == k,
            forall|i: int| 0 <= i < k ==> crate::dep::same_dep(#[trigger] out@[i], v@[i]),
        decreases v@.len() - k,
    {
        out.push(v[k].clone());
        k += 1;
    }
    out
}

/// `deps` with the entries at the positions `drop[k..]` removed, the last
/// position first (a position past the end removes nothing).
pub open spec fn dropped_from(deps: Seq<DepNode>, drop: Seq<usize>, k: int) -> Seq<DepNode>
    decreases drop.len() - k,
{
    if k < 0 || k >= drop.len() {
        deps
    } else {
        let s = dropped_from(deps, drop, k + 1);
        if drop[k] < s.len() {
            s.remove(drop[k] as int)
        } else {
            s
        }
    }
}

/// `deps` without the entries at the (ascending) positions `drop`.
fn drop_positions(deps: &mut Vec<DepNode>, drop: &Vec<usize>)
    ensures
        final(deps)@ == dropped_from(old(deps)@, drop@, 0),
        final(deps)@.len() <= old(deps)@.len(),
{
    let mut k = drop.len();
    while k > 0
        invariant
            k <= drop@.len(),
            deps@ == dropped_from(old(deps)@, drop@, k as int),
            deps@.len() <= old(deps)@.len(),
        decreases k,
    {
        k -= 1;
        let idx = drop[k];
        if idx < deps.len() {
            deps.remove(idx);
        }
    }
}

/// The last known time of node `id`, or the unknown time outside the table.
pub open spec fn known_mtime_of(ctx: ExecContext, id: FileId) -> u64 {
    if id < ctx.files@.len() {
        ctx.files@[id as int].last_mtime
    } else {
        UNKNOWN_MTIME
    }
}

/// The last known time of node `id`, or the unknown time outside the table.
fn known_mtime(ctx: &ExecContext, id: FileId) -> (r: u64)
    ensures
        r == known_mtime_of(*ctx, id),
{
    if id < ctx.files.len() {
        ctx.files[id].last_mtime
    } else {
        UNKNOWN_MTIME
    }
}

/// The time of node `id`: the known one, else read now.
fn current_mtime<W: UpdaterWork>(ctx: &mut ExecContext, id: FileId, work: &mut W) -> (r: Result<u64, BuildError>)
    ensures
        known_mtime_of(*old(ctx), id) != UNKNOWN_MTIME ==> r == Ok::<u64, BuildError>(known_mtime_of(*old(ctx), id))
            && *final(ctx) == *old(ctx),
{
    let t = known_mtime(ctx, id);
    if t == UNKNOWN_MTIME {
        work.f_mtime(ctx, id, true)
    } else {
        Ok(t)
    }
}

/// Give the warning `message`, with no location.
fn warn(ctx: &mut ExecContext, message: Vec<u8>)
    ensures
        final(ctx).diagnostics@.len() == old(ctx).diagnostics@.len() + 1,
        final(ctx).diagnostics@.last().message@ == message@,
        *final(ctx) == (ExecContext { diagnostics: final(ctx).diagnostics, ..*old(ctx) }),
{
    ctx.diagnostics.push(Diagnostic { floc: Floc { filenm: None, lineno: 0, offset: 0 }, message });
}

/// `circular <a> <- <b> dependency <how>`.
fn circular_message(a: &[u8], b: &[u8], how: &[u8]) -> (r: Vec<u8>)
    ensures
        r@ == "circular ".spec_bytes() + a@ + " <- ".spec_bytes() + b@ + " dependency ".spec_bytes() + how@,
{
    let mut m: Vec<u8> = Vec::new();
    push_slice(&mut m, "circular ".as_bytes());
    push_slice(&mut m, a);
    push_slice(&mut m, " <- ".as_bytes());
    push_slice(&mut m, b);
    push_slice(&mut m, " dependency ".as_bytes());
    push_slice(&mut m, how);
    m
}

/// Where a prerequisite walk stands: whether the target must be remade, the
/// worst status of a prerequisite, and whether one is still being made.
pub struct WalkState {
    pub must_make: bool,
    pub dep_status: UpdateStatus,
    pub running: bool,
}

/// Only an ordinary prerequisite can make the target be remade: the walk
/// that took `must_make` from `before` to `after` over the prerequisites
/// `deps` turned it on only if one of them is not order-only.
pub open spec fn must_make_from_normal(before: bool, after: bool, deps: Seq<DepNode>) -> bool {
    after ==> before || exists|i: int| 0 <= i < deps.len() && !(#[trigger] deps[i]).ignore_mtime
}

/// Some ordinary (not order-only) prerequisite among `deps` was judged by
/// [`check_dep`] to force a remake (`verdicts[i]` is what it said of
/// prerequisite `i`; false where it was not asked).
pub open spec fn normal_verdict(deps: Seq<DepNode>, verdicts: Seq<bool>) -> bool {
    exists|j: int| 0 <= j < deps.len() && !deps[j].ignore_mtime && #[trigger] verdicts[j]
}

/// The prerequisite walk decides `must_make` from the ordinary
/// prerequisites alone: it ends as it began OR'd with the verdicts of the
/// prerequisites that are not order-only, so two walks whose verdicts
/// differ only on order-only prerequisites end alike.
pub proof fn law_only_normal_verdicts_count(
    before: bool,
    after1: bool,
    after2: bool,
    deps: Seq<DepNode>,
    v1: Seq<bool>,
    v2: Seq<bool>,
)
    requires
        v1.len() == deps.len(),
        v2.len() == deps.len(),
        after1 == (before || normal_verdict(deps, v1)),
        after2 == (before || normal_verdict(deps, v2)),
        forall|i: int| 0 <= i < deps.len() && !(#[trigger] deps[i]).ignore_mtime ==> v1[i] == v2[i],
    ensures
        after1 == after2,
{
    if normal_verdict(deps, v1) {
        let j = choose|j: int| 0 <= j < deps.len() && !deps[j].ignore_mtime && #[trigger] v1[j];
        assert(!deps[j].ignore_mtime);
        assert(v2[j]);
    }
    if normal_verdict(deps, v2) {
        let j = choose|j: int| 0 <= j < deps.len() && !deps[j].ignore_mtime && #[trigger] v2[j];
        assert(!deps[j].ignore_mtime);
        assert(v1[j]);
    }
}

/// An order-only prerequisite never forces a remake: when every
/// prerequisite of the walk is order-only, the walk leaves `must_make` as it
/// found it (whatever the prerequisites' times).
pub proof fn law_order_only_never_forces(before: bool, after: bool, deps: Seq<DepNode>)
    requires
        must_make_from_normal(before, after, deps),
        forall|i: int| 0 <= i < deps.len() ==> (#[trigger] deps[i]).ignore_mtime,
        !before,
    ensures
        !after,
{
}

/// Check the prerequisites of target `amid` (the target considered, or one
/// of its grouped peers), whose head is `live`: each is brought up to date
/// in turn and tells whether the target must be remade; a prerequisite that
/// is itself being updated is circular and dropped. Gives true when a
/// failure stops the whole walk (without `-k`); the list is then left as it
/// was. Beside the result stands (as ghost) what [`check_dep`] said of each
/// prerequisite: `must_make` ends as it began OR'd with the verdicts of the
/// ordinary prerequisites only.
#[verifier::rlimit(60)]
#[verifier::spinoff_prover]
fn walk_prereqs<W: UpdaterWork>(
    ctx: &mut ExecContext,
    amid: FileId,
    live: FileId,
    orig: FileId,
    entry: usize,
    depth: u32,
    this_mtime: u64,
    name: &[u8],
    st: &mut WalkState,
    work: &mut W,
) -> (out: (Result<bool, BuildError>, Ghost<Seq<bool>>))
    ensures
        out.0 matches Ok(stop) ==> (stop ==> final(st).dep_status != UpdateStatus::Success && !final(ctx).opt_keep_going),
        us_rank(final(st).dep_status) >= us_rank(old(st).dep_status),
        old(st).running ==> final(st).running,
        !old(ctx).run.second_expansion && (amid >= old(ctx).files@.len() || forall|i: int|
            0 <= i < old(ctx).files@[amid as int].deps@.len() ==> (#[trigger] old(ctx).files@[amid as int].deps@[i]).file is None)
            ==> out.0 == Ok::<bool, BuildError>(false) && *final(st) == *old(st),
        !old(ctx).run.second_expansion && amid < old(ctx).files@.len() ==> must_make_from_normal(
            old(st).must_make,
            final(st).must_make,
            old(ctx).files@[amid as int].deps@,
        ),
        !old(ctx).run.second_expansion && amid < old(ctx).files@.len() && out.0 is Ok ==> {
            let deps0 = old(ctx).files@[amid as int].deps@;
            &&& out.1@.len() == deps0.len()
            &&& final(st).must_make == (old(st).must_make || normal_verdict(deps0, out.1@))
        },
    decreases u32::MAX - depth, 3int,
{
    if ctx.run.second_expansion {
        match work.expand_deps(ctx, amid) {
            Ok(()) => {},
            Err(e) => {
                return (Err(e), Ghost(Seq::empty()));
            },
        }
    }
    let mut deps: Vec<DepNode> = if amid < ctx.files.len() {
        clone_deps(&ctx.files[amid].deps)
    } else {
        Vec::new()
    };
    let ghost mut verdicts: Seq<bool> = Seq::new(deps@.len(), |i: int| false);
    let ghost nofiles = !old(ctx).run.second_expansion && (amid >= old(ctx).files@.len() || forall|i: int|
        0 <= i < old(ctx).files@[amid as int].deps@.len() ==> (#[trigger] old(ctx).files@[amid as int].deps@[i]).file is None);
    assert(nofiles ==> forall|i: int| 0 <= i < deps@.len() ==> (#[trigger] deps@[i]).file is None);
    let ghost plain = !old(ctx).run.second_expansion && amid < old(ctx).files@.len();
    let ghost deps0 = if plain { old(ctx).files@[amid as int].deps@ } else { deps@ };
    proof {
        if plain {
            assert forall|i: int| 0 <= i < deps@.len() implies (#[trigger] deps@[i]).ignore_mtime == deps0[i].ignore_mtime by {
                assert(crate::dep::same_dep(deps@[i], deps0[i]));
            }
        }
    }
    let mut dropped: Vec<usize> = Vec::new();
    let mut di: usize = 0;
    while di < deps.len()
        invariant
            plain == (!old(ctx).run.second_expansion && amid < old(ctx).files@.len()),
            plain ==> deps0 == old(ctx).files@[amid as int].deps@,
            deps@.len() == deps0.len(),
            plain ==> forall|i: int| 0 <= i < deps@.len() ==> (#[trigger] deps@[i]).ignore_mtime == deps0[i].ignore_mtime,
            plain ==> must_make_from_normal(old(st).must_make, st.must_make, deps0),
            verdicts.len() == deps0.len(),
            plain ==> st.must_make == (old(st).must_make || normal_verdict(deps0, verdicts)),
            nofiles ==> (forall|i: int| 0 <= i < deps@.len() ==> (#[trigger] deps@[i]).file is None) && *st == *old(st),
            nofiles == (!old(ctx).run.second_expansion && (amid >= old(ctx).files@.len() || forall|i: int|
                0 <= i < old(ctx).files@[amid as int].deps@.len() ==> (#[trigger] old(ctx).files@[amid as int].deps@[i]).file is None)),
            di <= deps@.len(),
            us_rank(st.dep_status) >= us_rank(old(st).dep_status),
            old(st).running ==> st.running,
        decreases deps@.len() - di,
    {
        if deps[di].wait_here && st.running {
            break;
        }
        let first = match deps[di].file {
            Some(f) => f,
            None => {
                di += 1;
                continue;
            },
        };
        let dfile = follow_renamed_bounded(ctx, first);
        deps.set(di, DepNode { file: Some(dfile), ..deps[di].clone() });
        let mtime = match current_mtime(ctx, dfile, work) {
            Ok(m) => m,
            Err(e) => {
                return (Err(e), Ghost(verdicts));
            },
        };
        let dfile = follow_renamed_bounded(ctx, dfile);
        deps.set(di, DepNode { file: Some(dfile), ..deps[di].clone() });
        let dep_updating = dfile < ctx.files.len() && ctx.files[dfile].marks.updating;
        if dep_updating {
            let dep_name = node_name(ctx, dfile);
            if ctx.run.circular_dep == WarningAction::Error {
                let m = circular_message(name, dep_name.as_slice(), "detected".as_bytes());
                warn(ctx, m);
                return (Err(BuildError::Failure), Ghost(verdicts));
            }
            if ctx.run.circular_dep != WarningAction::Ignore {
                let m = circular_message(name, dep_name.as_slice(), "dropped".as_bytes());
                warn(ctx, m);
            }
            dropped.push(di);
            di += 1;
        } else {
            let rebuilding = ctx.opt_rebuilding_makefiles;
            let mut dontcare = false;
            if dfile < ctx.files.len() {
                ctx.files[dfile].marks.parent = Some(live);
                if rebuilding {
                    dontcare = ctx.files[dfile].dontcare;
                }
            }
            if rebuilding {
                let file_dontcare = entry_exists(ctx, orig, entry) && entry_ref(&ctx.files[orig], entry).dontcare;
                if dfile < ctx.files.len() {
                    ctx.files[dfile].dontcare = file_dontcare;
                }
            }
            let mut maybe_make = st.must_make;
            let new = match check_dep(ctx, dfile, depth, this_mtime, &mut maybe_make, work) {
                Ok(n) => n,
                Err(e) => {
                    return (Err(e), Ghost(verdicts));
                },
            };
            st.dep_status = worse_status(st.dep_status, new);
            if rebuilding && dfile < ctx.files.len() {
                ctx.files[dfile].dontcare = dontcare;
            }
            let ghost before_dep = verdicts;
            proof {
                verdicts = verdicts.update(di as int, maybe_make);
                if plain {
                    if normal_verdict(deps0, before_dep) {
                        let j = choose|j: int| 0 <= j < deps0.len() && !deps0[j].ignore_mtime && #[trigger] before_dep[j];
                        if j != di {
                            assert(verdicts[j]);
                        }
                    }
                    if !deps0[di as int].ignore_mtime && maybe_make {
                        assert(verdicts[di as int]);
                    }
                    if normal_verdict(deps0, verdicts) {
                        let j = choose|j: int| 0 <= j < deps0.len() && !deps0[j].ignore_mtime && #[trigger] verdicts[j];
                        if j != di {
                            assert(before_dep[j]);
                        }
                    }
                }
            }
            if !deps[di].ignore_mtime {
                st.must_make = maybe_make;
            }
            let dfile2 = follow_renamed_bounded(ctx, dfile);
            deps.set(di, DepNode { file: Some(dfile2), ..deps[di].clone() });
            st.running = st.running || dep_chain_running(ctx, dfile2);
            if st.dep_status != UpdateStatus::Success && !ctx.opt_keep_going {
                return (Ok(true), Ghost(verdicts));
            }
            if !st.running {
                let cur = match current_mtime(ctx, dfile2, work) {
                    Ok(c) => c,
                    Err(e) => {
                        return (Err(e), Ghost(verdicts));
                    },
                };
                let changed = cur != mtime || mtime == NONEXISTENT_MTIME;
                deps.set(di, DepNode { changed, ..deps[di].clone() });
            }
            di += 1;
        }
    }
    drop_positions(&mut deps, &dropped);
    if amid < ctx.files.len() {
        ctx.files[amid].deps = deps;
    }
    (Ok(false), Ghost(verdicts))
}

/// Decide whether prerequisite `file` forces its parent (whose time is
/// `this_mtime`) to be remade, bringing it up to date first: an ordinary
/// prerequisite is updated and then compared; an intermediate one that is
/// missing is only made when one of its own prerequisites calls for it, so
/// those are checked instead, one level down. The prerequisite is marked as
/// being updated meanwhile, which makes a dependency back on it circular.
pub fn check_dep<W: UpdaterWork>(
    ctx: &mut ExecContext,
    file: FileId,
    depth: u32,
    this_mtime: u64,
    must_make: &mut bool,
    work: &mut W,
) -> (r: Result<UpdateStatus, BuildError>)
    ensures
        r is Ok && file < final(ctx).files@.len() ==> !final(ctx).files@[file as int].marks.updating,
        (file >= old(ctx).files@.len() || old(ctx).files@[file as int].phony || !old(ctx).files@[
            file as int
        ].marks.intermediate) && *old(must_make) ==> *final(must_make),
        *old(must_make) ==> *final(must_make),
        file < old(ctx).files@.len() && ({
            let n = old(ctx).files@[file as int];
            &&& n.phony || !n.marks.intermediate
            &&& crate::remake::pruned(n, old(ctx).considered)
            &&& n.renamed is None
            &&& n.last_mtime != UNKNOWN_MTIME
        }) ==> ({
            let n = old(ctx).files@[file as int];
            &&& r == Ok::<UpdateStatus, BuildError>(crate::remake::pruned_status(n))
            &&& *final(must_make) == (*old(must_make) || n.last_mtime == NONEXISTENT_MTIME || n.last_mtime > this_mtime)
        }),
    decreases u32::MAX - depth, 2int,
{
    let mut dep_status = UpdateStatus::Success;
    let ghost ordinary = file >= old(ctx).files@.len() || old(ctx).files@[file as int].phony
        || !old(ctx).files@[file as int].marks.intermediate;
    if file < ctx.files.len() {
        ctx.files[file].marks.updating = true;
    }
    let (phony, intermediate) = if file < ctx.files.len() {
        (ctx.files[file].phony, ctx.files[file].marks.intermediate)
    } else {
        (false, false)
    };
    if phony || !intermediate {
        dep_status = update_file(ctx, file, depth, work)?;
        let live = follow_renamed_bounded(ctx, file);
        let mtime = current_mtime(ctx, live, work)?;
        if mtime == NONEXISTENT_MTIME || mtime > this_mtime {
            *must_make = true;
        }
    } else {
        let need_implicit = file < ctx.files.len() && !ctx.files[file].phony && ctx.files[file].recipe.is_none()
            && !ctx.files[file].tried_implicit;
        if need_implicit {
            work.try_implicit_rule(ctx, file, depth)?;
            if file < ctx.files.len() {
                ctx.files[file].tried_implicit = true;
            }
        }
        let live = follow_renamed_bounded(ctx, file);
        let mtime = current_mtime(ctx, live, work)?;
        if mtime != NONEXISTENT_MTIME && mtime > this_mtime {
            *must_make = true;
        } else {
            let mut deps_running = false;
            if file < ctx.files.len() && ctx.files[file].command_state == CommandState::DepsRunning {
                ctx.files[file].considered = 0;
            }
            let cs = if file < ctx.files.len() {
                ctx.files[file].command_state
            } else {
                CommandState::Finished
            };
            if cs != CommandState::Running {
                set_command_state_id(ctx, file, CommandState::NotStarted);
            }
            if ctx.run.second_expansion {
                work.expand_deps(ctx, file)?;
            }
            let mut deps: Vec<DepNode> = if file < ctx.files.len() {
                clone_deps(&ctx.files[file].deps)
            } else {
                Vec::new()
            };
            let name = node_name(ctx, file);
            let mut dropped: Vec<usize> = Vec::new();
            let mut di: usize = 0;
            let ghost m0 = *must_make;
            let ghost deps_in = deps@;
            let ghost mut verdicts: Seq<bool> = Seq::new(deps@.len(), |i: int| false);
            while di < deps.len()
                invariant
                    di <= deps@.len(),
                    deps@.len() == deps_in.len(),
                    verdicts.len() == deps_in.len(),
                    *must_make == (m0 || normal_verdict(deps_in, verdicts)),
                    forall|i: int| 0 <= i < deps@.len() ==> (#[trigger] deps@[i]).ignore_mtime == deps_in[i].ignore_mtime,
                    must_make_from_normal(m0, *must_make, deps_in),
                    m0 ==> *must_make,
                    m0 == *old(must_make),
                    !ordinary,
                    ordinary == (file >= old(ctx).files@.len() || old(ctx).files@[file as int].phony
                        || !old(ctx).files@[file as int].marks.intermediate),
                decreases deps@.len() - di,
            {
                let dep_file = match deps[di].file {
                    Some(f) => f,
                    None => {
                        di += 1;
                        continue;
                    },
                };
                let dep_updating = dep_file < ctx.files.len() && ctx.files[dep_file].marks.updating;
                if dep_updating {
                    let dep_name = node_name(ctx, dep_file);
                    let m = circular_message(name.as_slice(), dep_name.as_slice(), "dropped".as_bytes());
                    warn(ctx, m);
                    dropped.push(di);
                    di += 1;
                } else {
                    if dep_file < ctx.files.len() {
                        ctx.files[dep_file].marks.parent = Some(file);
                    }
                    let mut maybe_make = *must_make;
                    if depth == u32::MAX {
                        return Err(BuildError::Failure);
                    }
                    let new = check_dep(ctx, dep_file, depth + 1, this_mtime, &mut maybe_make, work)?;
                    dep_status = worse_status(dep_status, new);
                    let ghost before_dep = verdicts;
                    proof {
                        verdicts = verdicts.update(di as int, maybe_make);
                        if normal_verdict(deps_in, before_dep) {
                            let j = choose|j: int| 0 <= j < deps_in.len() && !deps_in[j].ignore_mtime && #[trigger] before_dep[j];
                            if j != di {
                                assert(verdicts[j]);
                            }
                        }
                        if !deps_in[di as int].ignore_mtime && maybe_make {
                            assert(verdicts[di as int]);
                        }
                        if normal_verdict(deps_in, verdicts) {
                            let j = choose|j: int| 0 <= j < deps_in.len() && !deps_in[j].ignore_mtime && #[trigger] verdicts[j];
                            if j != di {
                                assert(before_dep[j]);
                            }
                        }
                    }
                    if !deps[di].ignore_mtime {
                        *must_make = maybe_make;
                    }
                    let dfile2 = follow_renamed_bounded(ctx, dep_file);
                    deps.set(di, DepNode { file: Some(dfile2), ..deps[di].clone() });
                    if dep_status != UpdateStatus::Success && !ctx.opt_keep_going {
                        break;
                    }
                    if dep_chain_running(ctx, dfile2) {
                        deps_running = true;
                    }
                    di += 1;
                }
            }
            drop_positions(&mut deps, &dropped);
            if file < ctx.files.len() {
                ctx.files[file].deps = deps;
            }
            if deps_running {
                set_command_state_id(ctx, file, CommandState::DepsRunning);
            }
        }
    }
    if file < ctx.files.len() {
        ctx.files[file].marks.updating = false;
    }
    Ok(dep_status)
}

/// The files of the grouped-target peers of entry `entry` of `file`.
fn entry_peers(ctx: &ExecContext, file: FileId, entry: usize) -> (r: Vec<FileId>)
    requires
        file < ctx.files@.len(),
        valid_entry(ctx.files@[file as int], entry as int),
    ensures
        r@ == referred_files(entry_at(ctx.files@, file, entry as int).also_make@),
{
    let e = entry_ref(&ctx.files[file], entry);
    let mut v: Vec<FileId> = Vec::new();
    let mut k: usize = 0;
    while k < e.also_make.len()
        invariant
            k <= e.also_make@.len(),
            v@ == referred_files(e.also_make@.subrange(0, k as int)),
        decreases e.also_make@.len() - k,
    {
        assert(e.also_make@.subrange(0, k + 1).drop_last() =~= e.also_make@.subrange(0, k as int));
        match e.also_make[k].file {
            Some(f) => {
                v.push(f);
            },
            None => {},
        }
        k += 1;
    }
    assert(e.also_make@.subrange(0, e.also_make@.len() as int) =~= e.also_make@);
    v
}

/// What [`peers_mtime`] gives when every peer it reads has a known time:
/// from peer `i` on, with the time `t` so far and `missing` so far; `None`
/// when a time would have to be read.
pub open spec fn peers_fold(ctx: ExecContext, peers: Seq<FileId>, t: u64, missing: bool, i: int) -> Option<(u64, bool)>
    decreases peers.len() - i,
{
    if missing || i < 0 || i >= peers.len() {
        Some((t, missing))
    } else {
        let m = known_mtime_of(ctx, peers[i]);
        if m == UNKNOWN_MTIME {
            None
        } else if m == NONEXISTENT_MTIME {
            peers_fold(ctx, peers, t, true, i + 1)
        } else {
            peers_fold(ctx, peers, if m < t { m } else { t }, false, i + 1)
        }
    }
}

/// The time a target counts as having, and whether it (or a grouped peer) is
/// missing: the earliest time over the target and its peers, the peers read
/// only while none is missing.
fn peers_mtime<W: UpdaterWork>(
    ctx: &mut ExecContext,
    peers: &Vec<FileId>,
    this_mtime: u64,
    noexist: bool,
    depth: u32,
    cn: &[u8],
    work: &mut W,
) -> (r: Result<(u64, bool), BuildError>)
    ensures
        r matches Ok((t, missing)) ==> t <= this_mtime && (noexist ==> missing && t == this_mtime),
        peers_fold(*old(ctx), peers@, this_mtime, noexist, 0) matches Some(res) ==> r == Ok::<(u64, bool), BuildError>(res),
{
    let mut t = this_mtime;
    let mut missing = noexist;
    let mut pi: usize = 0;
    let ghost full = peers_fold(*old(ctx), peers@, this_mtime, noexist, 0);
    while pi < peers.len() && !missing
        invariant
            pi <= peers@.len(),
            t <= this_mtime,
            noexist ==> missing && t == this_mtime,
            full == peers_fold(*old(ctx), peers@, this_mtime, noexist, 0),
            full is Some ==> *ctx == *old(ctx) && peers_fold(*old(ctx), peers@, t, missing, pi as int) == full,
        decreases peers@.len() - pi,
    {
        let adfile = peers[pi];
        let fmtime = current_mtime(ctx, adfile, work)?;
        missing = fmtime == NONEXISTENT_MTIME;
        if missing {
            if ctx.db_level & 1 != 0 {
                let adfile = follow_renamed_bounded(ctx, adfile);
                let (ad_phony, ad_name) = if adfile < ctx.files.len() {
                    (ctx.files[adfile].phony, crate::recipe::copy_bytes(&ctx.files[adfile].name))
                } else {
                    (false, Vec::new())
                };
                let mut line: Vec<u8> = Vec::new();
                push_slice(&mut line, "Grouped target peer '".as_bytes());
                push_slice(&mut line, ad_name.as_slice());
                let of_file = trace_name("' of file '".as_bytes(), cn, "".as_bytes());
                push_slice(&mut line, of_file.as_slice());
                if ad_phony {
                    push_slice(&mut line, "' is phony.\n".as_bytes());
                } else {
                    push_slice(&mut line, "' does not exist.\n".as_bytes());
                }
                work.trace(ctx, depth, line.as_slice());
            }
        } else if fmtime < t {
            t = fmtime;
        }
        pi += 1;
    }
    Ok((t, missing))
}

/// No prerequisite in `deps` has a node marked intermediate.
pub open spec fn no_intermediate_deps(ctx: ExecContext, deps: Seq<DepNode>) -> bool {
    forall|i: int| 0 <= i < deps.len() ==> ((#[trigger] deps[i]).file matches Some(f) ==> !(f
        < ctx.files@.len() && ctx.files@[f as int].marks.intermediate))
}

/// Bring the intermediate prerequisites of entry `entry` of `orig` up to
/// date when the target is to be remade anyway (they were only checked so
/// far), updating `st`.
fn update_intermediates<W: UpdaterWork>(
    ctx: &mut ExecContext,
    orig: FileId,
    entry: usize,
    live: FileId,
    depth: u32,
    st: &mut WalkState,
    work: &mut W,
) -> (r: Result<(), BuildError>)
    ensures
        us_rank(final(st).dep_status) >= us_rank(old(st).dep_status),
        old(st).running ==> final(st).running,
        final(st).must_make == old(st).must_make,
        !(orig < old(ctx).files@.len() && valid_entry(old(ctx).files@[orig as int], entry as int)) ==> r
            is Ok && *final(ctx) == *old(ctx) && *final(st) == *old(st),
        no_intermediate_deps(*old(ctx), entry_at(old(ctx).files@, orig, entry as int).deps@) ==> r is Ok
            && *final(st) == *old(st),
    decreases u32::MAX - depth, 2int,
{
    if !entry_exists(ctx, orig, entry) {
        return Ok(());
    }
    let ghost ctx0 = *ctx;
    let ghost deps0 = entry_at(ctx0.files@, orig, entry as int).deps@;
    let (mut new_deps, file_phony, file_has_recipe) = {
        let e = entry_ref(&ctx.files[orig], entry);
        (clone_deps(&e.deps), e.phony, e.recipe.is_some())
    };
    let mut di: usize = 0;
    while di < new_deps.len()
        invariant_except_break
            forall|i: int| di <= i < deps0.len() ==> crate::dep::same_dep(#[trigger] new_deps@[i], deps0[i]),
        invariant
            di <= new_deps@.len(),
            new_deps@.len() == deps0.len(),
            ctx0 == *old(ctx),
            orig < ctx0.files@.len() && valid_entry(ctx0.files@[orig as int], entry as int),
            deps0 == entry_at(ctx0.files@, orig, entry as int).deps@,
            us_rank(st.dep_status) >= us_rank(old(st).dep_status),
            old(st).running ==> st.running,
            st.must_make == old(st).must_make,
            no_intermediate_deps(ctx0, deps0) ==> *ctx == ctx0 && *st == *old(st),
        decreases new_deps@.len() - di,
    {
        proof {
            if no_intermediate_deps(ctx0, deps0) {
                assert(crate::dep::same_dep(new_deps@[di as int], deps0[di as int]));
            }
        }
        if new_deps[di].wait_here && st.running {
            break;
        }
        let dfile = match new_deps[di].file {
            Some(f) => f,
            None => {
                di += 1;
                continue;
            },
        };
        let is_intermediate = dfile < ctx.files.len() && ctx.files[dfile].marks.intermediate;
        if is_intermediate {
            let mtime_0 = current_mtime(ctx, dfile, work)?;
            let dfile = follow_renamed_bounded(ctx, dfile);
            new_deps.set(di, DepNode { file: Some(dfile), ..new_deps[di].clone() });
            let rebuilding = ctx.opt_rebuilding_makefiles;
            let mut dontcare_0 = false;
            if dfile < ctx.files.len() {
                ctx.files[dfile].marks.parent = Some(live);
                ctx.files[dfile].considered = 0;
                if rebuilding {
                    dontcare_0 = ctx.files[dfile].dontcare;
                }
            }
            if rebuilding {
                let file_dontcare = entry_exists(ctx, orig, entry) && entry_ref(&ctx.files[orig], entry).dontcare;
                if dfile < ctx.files.len() {
                    ctx.files[dfile].dontcare = file_dontcare;
                }
            }
            let new_0 = update_file(ctx, dfile, depth, work)?;
            st.dep_status = worse_status(st.dep_status, new_0);
            if rebuilding && dfile < ctx.files.len() {
                ctx.files[dfile].dontcare = dontcare_0;
            }
            let dfile2 = follow_renamed_bounded(ctx, dfile);
            new_deps.set(di, DepNode { file: Some(dfile2), ..new_deps[di].clone() });
            st.running = st.running || dep_chain_running(ctx, dfile2);
            if st.dep_status != UpdateStatus::Success && !ctx.opt_keep_going {
                break;
            }
            if !st.running {
                let cur = current_mtime(ctx, dfile2, work)?;
                let changed = (file_phony && file_has_recipe) || cur != mtime_0;
                new_deps.set(di, DepNode { changed, ..new_deps[di].clone() });
            }
        }
        di += 1;
    }
    if entry_exists(ctx, orig, entry) {
        let e = entry_node_mut(&mut ctx.files[orig], entry);
        e.deps = new_deps;
    }
    Ok(())
}

/// A prerequisite whose node, if it has one, has a known time and was not
/// renamed.
pub open spec fn dep_settled(ctx: ExecContext, d: DepNode) -> bool {
    d.file matches Some(f) ==> {
        &&& known_mtime_of(ctx, f) != UNKNOWN_MTIME
        &&& (f < ctx.files@.len() ==> ctx.files@[f as int].renamed is None)
    }
}

/// Every prerequisite in `deps` is settled.
pub open spec fn deps_settled(ctx: ExecContext, deps: Seq<DepNode>) -> bool {
    forall|i: int| 0 <= i < deps.len() ==> #[trigger] dep_settled(ctx, deps[i])
}

/// Over the first `n` prerequisites of `deps`, the ordinary (not
/// order-only) ones with a node: whether one of them does not exist and is
/// not intermediate, and whether one of them is already marked changed.
pub open spec fn changed_deps_fold(ctx: ExecContext, deps: Seq<DepNode>, n: int) -> (bool, bool)
    decreases n,
{
    if n <= 0 {
        (false, false)
    } else {
        let prev = changed_deps_fold(ctx, deps, n - 1);
        let d = deps[n - 1];
        if d.file is Some && !d.ignore_mtime {
            let f = d.file->0;
            let gone = known_mtime_of(ctx, f) == NONEXISTENT_MTIME
                && !(f < ctx.files@.len() && ctx.files@[f as int].marks.intermediate);
            (prev.0 || gone, prev.1 || d.changed)
        } else {
            prev
        }
    }
}

/// Whether the last pass marks prerequisite `d` changed: it already was,
/// the target does not exist, or the prerequisite's node is newer than
/// `this_mtime`.
pub open spec fn dep_marked(ctx: ExecContext, d: DepNode, this_mtime: u64, noexist: bool) -> bool {
    match d.file {
        Some(f) => d.changed || noexist || known_mtime_of(ctx, f) > this_mtime,
        None => d.changed,
    }
}

/// The last pass over the prerequisites of entry `entry` of `orig`, once
/// none is running or failed: mark those that changed (newer than the
/// target's time `this_mtime`, or the target is missing), and tell whether
/// a missing non-intermediate prerequisite forces the target to be remade
/// and whether any (ordinary) prerequisite changed.
fn mark_changed_deps<W: UpdaterWork>(
    ctx: &mut ExecContext,
    orig: FileId,
    entry: usize,
    this_mtime: u64,
    noexist: bool,
    work: &mut W,
) -> (r: Result<(bool, bool), BuildError>)
    ensures
        !(orig < old(ctx).files@.len() && valid_entry(old(ctx).files@[orig as int], entry as int))
            ==> r == Ok::<(bool, bool), BuildError>((false, false)) && *final(ctx) == *old(ctx),
        ({
            let deps0 = entry_at(old(ctx).files@, orig, entry as int).deps@;
            orig < old(ctx).files@.len() && valid_entry(old(ctx).files@[orig as int], entry as int)
                && deps_settled(*old(ctx), deps0) ==> r == Ok::<(bool, bool), BuildError>(
                changed_deps_fold(*old(ctx), deps0, deps0.len() as int),
            )
        }),
        ({
            let deps0 = entry_at(old(ctx).files@, orig, entry as int).deps@;
            let deps1 = entry_at(final(ctx).files@, orig, entry as int).deps@;
            orig < old(ctx).files@.len() && valid_entry(old(ctx).files@[orig as int], entry as int)
                && deps_settled(*old(ctx), deps0) ==> {
                &&& deps1.len() == deps0.len()
                &&& forall|i: int| 0 <= i < deps0.len() ==> (#[trigger] deps1[i]).file == deps0[i].file
                    && deps1[i].changed == dep_marked(*old(ctx), deps0[i], this_mtime, noexist)
            }
        }),
{
    if !entry_exists(ctx, orig, entry) {
        return Ok((false, false));
    }
    let ghost ctx0 = *ctx;
    let ghost deps0 = entry_at(ctx0.files@, orig, entry as int).deps@;
    let mut deps2 = clone_deps(&entry_ref(&ctx.files[orig], entry).deps);
    let mut missing_dep = false;
    let mut deps_changed = false;
    let mut di: usize = 0;
    while di < deps2.len()
        invariant
            di <= deps2@.len(),
            deps2@.len() == deps0.len(),
            ctx0 == *old(ctx),
            orig < ctx0.files@.len() && valid_entry(ctx0.files@[orig as int], entry as int),
            deps0 == entry_at(ctx0.files@, orig, entry as int).deps@,
            forall|i: int| di <= i < deps0.len() ==> crate::dep::same_dep(#[trigger] deps2@[i], deps0[i]),
            deps_settled(ctx0, deps0) ==> *ctx == ctx0 && (missing_dep, deps_changed)
                == changed_deps_fold(ctx0, deps0, di as int),
            deps_settled(ctx0, deps0) ==> forall|i: int| 0 <= i < di ==> (#[trigger] deps2@[i]).file
                == deps0[i].file && deps2@[i].changed == dep_marked(ctx0, deps0[i], this_mtime, noexist),
        decreases deps2@.len() - di,
    {
        proof {
            if deps_settled(ctx0, deps0) {
                assert(dep_settled(ctx0, deps0[di as int]));
            }
        }
        let dfile = match deps2[di].file {
            Some(f) => f,
            None => {
                di += 1;
                continue;
            },
        };
        let d_mtime = current_mtime(ctx, dfile, work)?;
        let dfile = follow_renamed_bounded(ctx, dfile);
        let d_intermediate = dfile < ctx.files.len() && ctx.files[dfile].marks.intermediate;
        let changed_before = deps2[di].changed;
        if !deps2[di].ignore_mtime {
            if d_mtime == NONEXISTENT_MTIME && !d_intermediate {
                missing_dep = true;
            }
            deps_changed = deps_changed || changed_before;
        }
        let changed = changed_before || noexist || d_mtime > this_mtime;
        deps2.set(di, DepNode { file: Some(dfile), changed, ..deps2[di].clone() });
        di += 1;
    }
    if entry_exists(ctx, orig, entry) {
        let e = entry_node_mut(&mut ctx.files[orig], entry);
        e.deps = deps2;
    }
    Ok((missing_dep, deps_changed))
}

/// Consider entry `entry` of target `file` (the head is entry 0): answer at
/// once for an entry that needs no look ([`settled_answer`]); otherwise find
/// its time (the earliest over its grouped peers; a `.LOW_RESOLUTION_TIME`
/// file counts to the end of its second), search an implicit rule if it has
/// no recipe, check its prerequisites and those of its peers, and then
/// either wait for running prerequisites, give up on failed ones, finish it
/// when nothing calls for its recipe ([`remake_needed`]), or remake it.
#[verifier::rlimit(40)]
pub fn update_file_1<W: UpdaterWork>(
    ctx: &mut ExecContext,
    file: FileId,
    depth: u32,
    entry: usize,
    work: &mut W,
) -> (r: Result<UpdateStatus, BuildError>)
    requires
        file < old(ctx).files@.len(),
        valid_entry(old(ctx).files@[file as int], entry as int),
    ensures
        settled_answer(entry_at(old(ctx).files@, file, entry as int)) matches Some(s) ==> {
            &&& (!complains(entry_at(old(ctx).files@, file, entry as int)) ==> *final(ctx) == *old(ctx)
                && r == Ok::<UpdateStatus, BuildError>(s))
            &&& (r is Ok ==> r == Ok::<UpdateStatus, BuildError>(s))
        },
    decreases u32::MAX - depth, 0int,
{
    let name = crate::recipe::copy_bytes(&entry_ref(&ctx.files[file], entry).name);
    let cn = cname(name.as_slice());
    if ctx.db_level & 2 != 0 {
        work.trace(ctx, depth, trace_name("Considering target file '".as_bytes(), cn.as_slice(), "'.\n".as_bytes()).as_slice());
    }
    match settled_entry_answer(ctx, file, entry, depth, cn.as_slice(), work)? {
        Some(s) => {
            return Ok(s);
        },
        None => {},
    }
    let orig = file;
    let (last_mtime, is_phony) = {
        let e = entry_node_mut(&mut ctx.files[orig], entry);
        e.no_diag = e.dontcare;
        e.marks.updating = true;
        (e.last_mtime, e.phony)
    };
    if depth == u32::MAX {
        return Err(BuildError::Failure);
    }
    let depth1 = depth + 1;
    let mut this_mtime = if last_mtime == UNKNOWN_MTIME {
        work.f_mtime(ctx, orig, true)?
    } else {
        last_mtime
    };
    let live = follow_renamed_bounded(ctx, orig);
    let mut noexist = this_mtime == NONEXISTENT_MTIME;
    if noexist {
        if ctx.db_level & 1 != 0 {
            let line = if is_phony {
                trace_name("Target '".as_bytes(), cn.as_slice(), "' is phony.\n".as_bytes())
            } else {
                trace_name("File '".as_bytes(), cn.as_slice(), "' does not exist.\n".as_bytes())
            };
            work.trace(ctx, depth1, line.as_slice());
        }
    } else if ORDINARY_MTIME_MIN <= this_mtime && this_mtime <= ordinary_mtime_max() && entry_exists(ctx, orig, entry)
        && entry_ref(&ctx.files[orig], entry).marks.low_resolution_time {
        let (adjusted, warn_ns) = low_resolution_adjust(this_mtime);
        if warn_ns {
            let mut m: Vec<u8> = Vec::new();
            push_slice(&mut m, "*** warning: .LOW_RESOLUTION_TIME file '".as_bytes());
            push_slice(&mut m, name.as_slice());
            push_slice(&mut m, "' has a high resolution time stamp".as_bytes());
            warn(ctx, m);
        }
        this_mtime = adjusted;
    }
    let peers = if entry_exists(ctx, orig, entry) {
        entry_peers(ctx, orig, entry)
    } else {
        Vec::new()
    };
    let (t, missing) = peers_mtime(ctx, &peers, this_mtime, noexist, depth1, cn.as_slice(), work)?;
    this_mtime = t;
    noexist = missing;
    let mut st = WalkState { must_make: noexist, dep_status: UpdateStatus::Success, running: false };
    let (need_implicit, has_recipe, is_target) = if entry_exists(ctx, orig, entry) {
        let e = entry_ref(&ctx.files[orig], entry);
        (!e.phony && e.recipe.is_none() && !e.tried_implicit, e.recipe.is_some(), e.is_target)
    } else {
        (false, false, false)
    };
    if need_implicit {
        work.try_implicit_rule(ctx, live, depth1)?;
        if entry_exists(ctx, orig, entry) {
            let e = entry_node_mut(&mut ctx.files[orig], entry);
            e.tried_implicit = true;
        }
    }
    if !has_recipe && !is_target && ctx.db_level & 8 != 0 {
        work.trace(ctx, depth1, trace_name("Using default recipe for '".as_bytes(), cn.as_slice(), "'.\n".as_bytes()).as_slice());
    }
    let (walked, Ghost(_verdicts)) = walk_prereqs(ctx, live, live, orig, entry, depth1, this_mtime, name.as_slice(), &mut st, work);
    let stop = walked?;
    if !stop {
        let mut pi: usize = 0;
        while pi < peers.len()
            invariant
                pi <= peers@.len(),
                file < old(ctx).files@.len(),
                valid_entry(old(ctx).files@[file as int], entry as int),
                settled_answer(entry_at(old(ctx).files@, file, entry as int)) is None,
                depth1 == depth + 1,
            decreases peers@.len() - pi,
        {
            let amid = peers[pi];
            let (walked_peer, Ghost(_peer_verdicts)) = walk_prereqs(ctx, amid, live, orig, entry, depth1, this_mtime, name.as_slice(), &mut st, work);
            let stop_here = walked_peer?;
            if stop_here {
                break;
            }
            pi += 1;
        }
    }
    if st.must_make || ctx.run.always_make {
        update_intermediates(ctx, orig, entry, live, depth1, &mut st, work)?;
    }
    if entry_exists(ctx, orig, entry) {
        let e = entry_node_mut(&mut ctx.files[orig], entry);
        e.marks.updating = false;
    }
    if st.running {
        set_command_state_id(ctx, live, CommandState::DepsRunning);
        if ctx.db_level & 2 != 0 {
            work.trace(ctx, depth, trace_name("The prerequisites of '".as_bytes(), cn.as_slice(), "' are being made.\n".as_bytes()).as_slice());
        }
        return Ok(UpdateStatus::Success);
    }
    if ctx.db_level & 2 != 0 {
        work.trace(ctx, depth, trace_name("Finished prerequisites of target file '".as_bytes(), cn.as_slice(), "'.\n".as_bytes()).as_slice());
    }
    if st.dep_status != UpdateStatus::Success {
        if entry_exists(ctx, orig, entry) {
            let e = entry_node_mut(&mut ctx.files[orig], entry);
            e.update_status = given_up(st.dep_status);
        }
        if live >= ctx.files.len() || entry_exists(ctx, live, entry) {
            notice_finished_file(ctx, live, entry, work)?;
        }
        if ctx.db_level & 2 != 0 {
            work.trace(ctx, depth, trace_name("Giving up on target file '".as_bytes(), cn.as_slice(), "'.\n".as_bytes()).as_slice());
        }
        if depth == 0 && ctx.opt_keep_going && !ctx.opt_just_print && !ctx.opt_question {
            let mut m: Vec<u8> = Vec::new();
            push_slice(&mut m, "Target '".as_bytes());
            push_slice(&mut m, name.as_slice());
            push_slice(&mut m, "' not remade because of errors.".as_bytes());
            warn(ctx, m);
        }
        return Ok(st.dep_status);
    }
    if entry_exists(ctx, orig, entry) && entry_ref(&ctx.files[orig], entry).command_state == CommandState::DepsRunning {
        set_command_state_id(ctx, live, CommandState::NotStarted);
    }
    let (missing_dep, deps_changed) = mark_changed_deps(ctx, orig, entry, this_mtime, noexist, work)?;
    if missing_dep {
        st.must_make = true;
    }
    let (is_dc, deps_empty, file_is_target, file_has_recipe, file_notintermediate) = if entry_exists(ctx, orig, entry) {
        let e = entry_ref(&ctx.files[orig], entry);
        (e.is_double_colon, e.deps.len() == 0, e.is_target, e.recipe.is_some(), e.marks.notintermediate)
    } else {
        (false, true, false, false, false)
    };
    let (must_make, reason) = remake_decision(
        is_dc,
        deps_empty,
        noexist,
        file_is_target,
        deps_changed,
        file_has_recipe,
        ctx.run.always_make,
        st.must_make,
    );
    match reason {
        RemakeReason::DoubleColonNoDeps => {
            if ctx.db_level & 1 != 0 {
                work.trace(ctx, depth, trace_name("Target '".as_bytes(), cn.as_slice(), "' is double-colon and has no prerequisites.\n".as_bytes()).as_slice());
            }
        },
        RemakeReason::NothingChanged => {
            if ctx.db_level & 2 != 0 {
                work.trace(ctx, depth, trace_name("No recipe for '".as_bytes(), cn.as_slice(), "' and no prerequisites actually changed.\n".as_bytes()).as_slice());
            }
        },
        RemakeReason::AlwaysMake => {
            if ctx.db_level & 2 != 0 {
                work.trace(ctx, depth, trace_name("Making '".as_bytes(), cn.as_slice(), "' due to always-make flag.\n".as_bytes()).as_slice());
            }
        },
        RemakeReason::Prerequisites => {},
    }
    if !must_make {
        if ctx.db_level & 2 != 0 {
            work.trace(ctx, depth, trace_name("No need to remake target '".as_bytes(), cn.as_slice(), "'.\n".as_bytes()).as_slice());
        }
        if !file_notintermediate && !ctx.run.no_intermediates && entry_exists(ctx, orig, entry) {
            let e = entry_node_mut(&mut ctx.files[orig], entry);
            e.marks.secondary = true;
        }
        if live >= ctx.files.len() || entry_exists(ctx, live, entry) {
            notice_finished_file(ctx, live, entry, work)?;
        }
        if entry_exists(ctx, orig, entry) {
            let e = entry_node_mut(&mut ctx.files[orig], entry);
            e.name = crate::recipe::copy_bytes(&e.hname);
        }
        return Ok(UpdateStatus::Success);
    }
    if ctx.db_level & 1 != 0 {
        work.trace(ctx, depth, trace_name("Must remake target '".as_bytes(), cn.as_slice(), "'.\n".as_bytes()).as_slice());
    }
    if entry_exists(ctx, orig, entry) {
        let differs = {
            let e = entry_ref(&ctx.files[orig], entry);
            !crate::parser::bytes_eq(e.name.as_slice(), e.hname.as_slice())
        };
        if differs {
            if ctx.db_level & 1 != 0 {
                let hn = cname(entry_ref(&ctx.files[orig], entry).hname.as_slice());
                work.trace(ctx, depth, trace_name("  Ignoring VPATH name '".as_bytes(), hn.as_slice(), "'.\n".as_bytes()).as_slice());
            }
            if entry_exists(ctx, orig, entry) {
                let e = entry_node_mut(&mut ctx.files[orig], entry);
                e.marks.ignore_vpath = true;
            }
        }
    }
    if live >= ctx.files.len() || entry_exists(ctx, live, entry) {
        remake_file(ctx, live, entry, work)?;
    }
    let (cstate2, ustatus2) = if entry_exists(ctx, orig, entry) {
        let e = entry_ref(&ctx.files[orig], entry);
        (e.command_state, e.update_status)
    } else {
        (CommandState::Finished, UpdateStatus::Success)
    };
    if cstate2 != CommandState::Finished {
        if ctx.db_level & 2 != 0 {
            work.trace(ctx, depth, trace_name("Recipe of '".as_bytes(), cn.as_slice(), "' is being run.\n".as_bytes()).as_slice());
        }
        return Ok(UpdateStatus::Success);
    }
    if ctx.db_level & 1 != 0 {
        match ustatus2 {
            UpdateStatus::Failed => {
                work.trace(ctx, depth, trace_name("Failed to remake target file '".as_bytes(), cn.as_slice(), "'.\n".as_bytes()).as_slice());
            },
            UpdateStatus::Success => {
                work.trace(ctx, depth, trace_name("Successfully remade target file '".as_bytes(), cn.as_slice(), "'.\n".as_bytes()).as_slice());
            },
            UpdateStatus::Question => {
                work.trace(ctx, depth, trace_name("Target file '".as_bytes(), cn.as_slice(), "' needs to be remade under -q.\n".as_bytes()).as_slice());
            },
            UpdateStatus::NoStatus => {},
        }
    }
    if entry_exists(ctx, orig, entry) {
        let e = entry_node_mut(&mut ctx.files[orig], entry);
        e.updated = true;
    }
    Ok(ustatus2)
}

// ─── Laws ────────────────────────────────────────────────────────────────

/// `-B` remakes every target that has a recipe, whatever its prerequisites
/// said.
pub proof fn law_always_make_remakes_targets_with_recipes(
    is_double_colon: bool,
    deps_empty: bool,
    noexist: bool,
    is_target: bool,
    deps_changed: bool,
    must_make: bool,
)
    ensures
        remake_needed(is_double_colon, deps_empty, noexist, is_target, deps_changed, true, true, must_make),
{
}

/// A target that exists, is named in the makefiles, has no recipe and none
/// of whose prerequisites changed is not remade (unless it is a double-colon
/// target without prerequisites, or `-B` is given).
pub proof fn law_unchanged_target_without_recipe_stays(
    is_double_colon: bool,
    deps_empty: bool,
    must_make: bool,
)
    requires
        !(is_double_colon && deps_empty),
    ensures
        !remake_needed(is_double_colon, deps_empty, false, true, false, false, false, must_make),
{
}

} // verus!
