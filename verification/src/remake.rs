//! The updater's decisions over the file table: following renames, command
//! states across grouped targets, the timestamp sentinels, the prune test
//! and per-entry outcome of `update_file`, finishing a target
//! (`notice_finished_file`) and remaking one (`remake_file`).
//!
//! The work these decisions wait on — running an entry's update, touching a
//! file, reading a modification time, running a recipe, complaining about a
//! missing rule — happens between the steps; each step says what it needs
//! next.

use vstd::prelude::*;
use crate::dep::{DepNode, FileId, GoalDepNode, RM_DONTCARE, RM_INCLUDED};
use crate::execctx::{BuildError, Diagnostic, ExecContext, Floc};
use crate::file::{
    cs_rank, entry_of, entry_replaced, us_rank, valid_entry, CommandState, FileNode, UpdateStatus,
    NONEXISTENT_MTIME, ORDINARY_MTIME_MIN, UNKNOWN_MTIME,
};
use crate::recipe::{recurses, Recipe};
use crate::rule::push_slice;
use vstd::string::StringSliceAdditionalSpecFns;

pub mod consider;

verus! {

/// File timestamps carry nanoseconds.
pub const FILE_TIMESTAMP_HI_RES: i32 = 1;

// ─── Renames ─────────────────────────────────────────────────────────────

/// Following renames from `id` reaches a node that was not renamed (or an id
/// outside the table) within `n` steps.
pub open spec fn rename_chain_ends(files: Seq<FileNode>, id: FileId, n: nat) -> bool
    decreases n,
{
    if id >= files.len() || files[id as int].renamed is None {
        true
    } else if n == 0 {
        false
    } else {
        rename_chain_ends(files, files[id as int].renamed->0, (n - 1) as nat)
    }
}

/// Where following renames from `id` for at most `n` steps ends.
pub open spec fn rename_chain_end(files: Seq<FileNode>, id: FileId, n: nat) -> FileId
    decreases n,
{
    if id >= files.len() || files[id as int].renamed is None || n == 0 {
        id
    } else {
        rename_chain_end(files, files[id as int].renamed->0, (n - 1) as nat)
    }
}

/// Any number of steps that ends the chain ends it at the same node.
pub proof fn lemma_rename_chain_end(files: Seq<FileNode>, id: FileId, n: nat, m: nat)
    requires
        rename_chain_ends(files, id, n),
        rename_chain_ends(files, id, m),
    ensures
        rename_chain_end(files, id, n) == rename_chain_end(files, id, m),
    decreases n,
{
    if id < files.len() && files[id as int].renamed is Some {
        lemma_rename_chain_end(files, files[id as int].renamed->0, (n - 1) as nat, (m - 1) as nat);
    }
}

/// Follow the `renamed` links from `id` to the live node: the first node that
/// was not renamed, or an id outside the table.
pub fn follow_renamed(ctx: &ExecContext, id: FileId) -> (r: FileId)
    requires
        exists|n: nat| rename_chain_ends(ctx.files@, id, n),
    ensures
        forall|n: nat| rename_chain_ends(ctx.files@, id, n) ==> r == rename_chain_end(ctx.files@, id, n),
        r >= ctx.files@.len() || ctx.files@[r as int].renamed is None,
{
    let ghost n0 = choose|n: nat| rename_chain_ends(ctx.files@, id, n);
    let ghost mut fuel: nat = n0;
    let mut cur = id;
    while cur < ctx.files.len() && ctx.files[cur].renamed.is_some()
        invariant
            rename_chain_ends(ctx.files@, cur, fuel),
            rename_chain_ends(ctx.files@, id, n0),
            rename_chain_end(ctx.files@, cur, fuel) == rename_chain_end(ctx.files@, id, n0),
        decreases fuel,
    {
        cur = ctx.files[cur].renamed.unwrap();
        proof {
            fuel = (fuel - 1) as nat;
        }
    }
    proof {
        assert forall|n: nat| rename_chain_ends(ctx.files@, id, n) implies cur == rename_chain_end(
            ctx.files@,
            id,
            n,
        ) by {
            lemma_rename_chain_end(ctx.files@, id, n, n0);
        }
    }
    cur
}

// ─── Command states ──────────────────────────────────────────────────────

/// One of the first `k` grouped-target peers of `n` is `id`.
pub open spec fn peer_within(n: FileNode, j: int, k: int) -> bool {
    exists|m: int| 0 <= m < k && m < n.also_make@.len() && #[trigger] dep_refers(n.also_make@[m], j)
}

/// The prerequisite refers to file `j`.
pub open spec fn dep_refers(d: DepNode, j: int) -> bool {
    d.file matches Some(p) && p == j
}

/// The command state of node `j` once `id` took `state` and its first `k`
/// peers were raised to it.
pub open spec fn raised_state(old: Seq<FileNode>, id: FileId, state: CommandState, j: int, k: int) -> CommandState {
    if j == id {
        state
    } else if peer_within(old[id as int], j, k) && cs_rank(state) > cs_rank(old[j].command_state) {
        state
    } else {
        old[j].command_state
    }
}

/// `new` is `old` with each node's command state as [`raised_state`] says.
pub open spec fn states_raised(old: Seq<FileNode>, new: Seq<FileNode>, id: FileId, state: CommandState, k: int) -> bool {
    &&& new.len() == old.len()
    &&& forall|j: int|
        0 <= j < old.len() ==> #[trigger] new[j] == (FileNode {
            command_state: raised_state(old, id, state, j, k),
            ..old[j]
        })
}

proof fn lemma_raise_step(
    old: Seq<FileNode>,
    before: Seq<FileNode>,
    after: Seq<FileNode>,
    id: FileId,
    state: CommandState,
    k: int,
)
    requires
        id < old.len(),
        0 <= k < old[id as int].also_make@.len(),
        states_raised(old, before, id, state, k),
        ({
            match old[id as int].also_make@[k].file {
                Some(pid) => if pid < before.len() && cs_rank(state) > cs_rank(before[pid as int].command_state) {
                    after == before.update(pid as int, FileNode { command_state: state, ..before[pid as int] })
                } else {
                    after == before
                },
                None => after == before,
            }
        }),
    ensures
        states_raised(old, after, id, state, k + 1),
{
    let f = old[id as int].also_make@[k].file;
    assert forall|j: int| 0 <= j < old.len() implies #[trigger] after[j] == (FileNode {
        command_state: raised_state(old, id, state, j, k + 1),
        ..old[j]
    }) by {
        assert(before[j] == (FileNode { command_state: raised_state(old, id, state, j, k), ..old[j] }));
        let hit = f matches Some(p) && p == j;
        if hit {
            assert(dep_refers(old[id as int].also_make@[k], j));
            assert(peer_within(old[id as int], j, k + 1));
        }
        if peer_within(old[id as int], j, k + 1) && !hit {
            let m = choose|m: int|
                0 <= m < k + 1 && m < old[id as int].also_make@.len() && #[trigger] dep_refers(old[id as int].also_make@[m], j);
            assert(m != k);
            assert(peer_within(old[id as int], j, k));
        }
        if peer_within(old[id as int], j, k) {
            let m = choose|m: int|
                0 <= m < k && m < old[id as int].also_make@.len() && #[trigger] dep_refers(old[id as int].also_make@[m], j);
            assert(peer_within(old[id as int], j, k + 1));
        }
    }
}

/// Set `state` on node `id` and raise each grouped-target peer whose state
/// ranks below `state` to it. Nothing happens for an id outside the table.
pub fn set_command_state_id(ctx: &mut ExecContext, id: FileId, state: CommandState)
    ensures
        id >= old(ctx).files@.len() ==> *final(ctx) == *old(ctx),
        id < old(ctx).files@.len() ==> states_raised(
            old(ctx).files@,
            final(ctx).files@,
            id,
            state,
            old(ctx).files@[id as int].also_make@.len() as int,
        ),
        *final(ctx) == (ExecContext { files: final(ctx).files, ..*old(ctx) }),
{
    if id >= ctx.files.len() {
        return;
    }
    let ghost old_files = ctx.files@;
    ctx.files[id].command_state = state;
    assert(states_raised(old_files, ctx.files@, id, state, 0)) by {
        assert forall|j: int| 0 <= j < old_files.len() implies #[trigger] ctx.files@[j] == (FileNode {
            command_state: raised_state(old_files, id, state, j, 0),
            ..old_files[j]
        }) by {
            assert(!peer_within(old_files[id as int], j, 0));
        }
    }
    let n_peers = ctx.files[id].also_make.len();
    let mut k: usize = 0;
    while k < n_peers
        invariant
            k <= n_peers,
            id < old_files.len(),
            n_peers == old_files[id as int].also_make@.len(),
            states_raised(old_files, ctx.files@, id, state, k as int),
            *ctx == (ExecContext { files: ctx.files, ..*old(ctx) }),
        decreases n_peers - k,
    {
        assert(ctx.files@[id as int].also_make == old_files[id as int].also_make);
        let f = ctx.files[id].also_make[k].file;
        let ghost before = ctx.files@;
        match f {
            Some(pid) => {
                if pid < ctx.files.len() && state.rank() > ctx.files[pid].command_state.rank() {
                    ctx.files[pid].command_state = state;
                }
            },
            None => {},
        }
        proof {
            lemma_raise_step(old_files, before, ctx.files@, id, state, k as int);
        }
        k += 1;
    }
}

// ─── Names and sentinels ─────────────────────────────────────────────────

/// `name` with a NUL terminator, as NUL-terminated readers expect it.
pub fn cname(name: &[u8]) -> (r: Vec<u8>)
    ensures
        r@ == name@.push(0),
{
    let mut v: Vec<u8> = Vec::new();
    push_slice(&mut v, name);
    v.push(0);
    v
}

/// The name of node `id`, or nothing for an id outside the table.
pub fn node_name(ctx: &ExecContext, id: FileId) -> (r: Vec<u8>)
    ensures
        id < ctx.files@.len() ==> r@ == ctx.files@[id as int].name@,
        id >= ctx.files@.len() ==> r@.len() == 0,
{
    if id < ctx.files.len() {
        crate::recipe::copy_bytes(&ctx.files[id].name)
    } else {
        Vec::new()
    }
}

/// The largest ordinary timestamp: the seconds range below the sign bit,
/// shifted into the high bits, with the nanoseconds all set.
pub open spec fn ordinary_mtime_max_value() -> u64 {
    0xffff_ffff_fb9a_ca02
}

/// The largest ordinary (existent, in-range) timestamp.
pub fn ordinary_mtime_max() -> (r: u64)
    ensures
        r == ordinary_mtime_max_value(),
        r == ((u64::MAX - ORDINARY_MTIME_MIN) / 0x4000_0000) * 0x4000_0000 + ORDINARY_MTIME_MIN + 1_000_000_000 - 1,
{
    let top: u64 = u64::MAX - ORDINARY_MTIME_MIN;
    let shifted: u64 = (top >> 30u64) << 30u64;
    assert(shifted == 0xffff_ffff_c000_0000u64) by (bit_vector)
        requires
            top == 0xffff_ffff_ffff_fffcu64,
            shifted == (top >> 30u64) << 30u64,
    ;
    shifted + ORDINARY_MTIME_MIN + 1_000_000_000 - 1
}

/// The "freshly built" timestamp written for targets just remade.
pub fn new_mtime() -> (r: u64)
    ensures
        r == u64::MAX,
{
    u64::MAX
}

/// The `-d` trace line `<pre><name><post>` for a NUL-terminated name (the
/// terminator is dropped).
pub fn trace_name(pre: &[u8], name: &[u8], post: &[u8]) -> (r: Vec<u8>)
    ensures
        r@ == pre@ + name@.subrange(0, if name@.len() > 0 { name@.len() - 1 } else { 0 }) + post@,
{
    let mut v: Vec<u8> = Vec::new();
    push_slice(&mut v, pre);
    let end = if name.len() > 0 {
        name.len() - 1
    } else {
        0
    };
    push_slice(&mut v, &name[0..end]);
    push_slice(&mut v, post);
    v
}

/// The `-d` debug level.
pub fn dbg(ctx: &ExecContext) -> (r: i32)
    ensures
        r == ctx.db_level,
{
    ctx.db_level
}

/// The state is running or waiting on running prerequisites.
pub open spec fn is_running(s: CommandState) -> bool {
    s == CommandState::Running || s == CommandState::DepsRunning
}

/// Whether node `id` or any of its double-colon entries is running or
/// waiting on running prerequisites.
pub fn dep_chain_running(ctx: &ExecContext, id: FileId) -> (r: bool)
    ensures
        r == (id < ctx.files@.len() && (is_running(ctx.files@[id as int].command_state) || exists|k: int|
            0 <= k < ctx.files@[id as int].double_colon@.len() && #[trigger] is_running(
                ctx.files@[id as int].double_colon@[k].command_state,
            ))),
{
    if id >= ctx.files.len() {
        return false;
    }
    let n = &ctx.files[id];
    if n.command_state == CommandState::Running || n.command_state == CommandState::DepsRunning {
        return true;
    }
    let mut k: usize = 0;
    while k < n.double_colon.len()
        invariant
            id < ctx.files@.len(),
            *n == ctx.files@[id as int],
            k <= n.double_colon@.len(),
            forall|j: int| 0 <= j < k ==> !#[trigger] is_running(n.double_colon@[j].command_state),
        decreases n.double_colon@.len() - k,
    {
        let s = n.double_colon[k].command_state;
        if s == CommandState::Running || s == CommandState::DepsRunning {
            assert(ctx.files@[id as int].double_colon@[k as int].command_state == s);
            assert(is_running(ctx.files@[id as int].double_colon@[k as int].command_state));
            return true;
        }
        k += 1;
    }
    false
}

/// The clock sample advanced by the timestamp resolution's slack
/// (`resolution - 1`), modulo 2^64.
pub open spec fn adjusted_now(now: u64, resolution: i32) -> u64 {
    ((now + resolution - 1) % 0x1_0000_0000_0000_0000) as u64
}

/// The "adjusted now" a freshly sampled clock gives: `now` plus
/// `resolution - 1`, wrapping, so that a file at most one clock tick ahead of
/// `now` does not count as being in the future.
pub fn adjusted_now_from_clock(now: u64, resolution: i32) -> (r: u64)
    requires
        resolution > i32::MIN,
    ensures
        r == adjusted_now(now, resolution),
{
    if resolution >= 1 {
        let d: u64 = (resolution - 1) as u64;
        now.wrapping_add(d)
    } else {
        let d: u64 = (1i64 - resolution as i64) as u64;
        now.wrapping_sub(d)
    }
}

// ─── Double-colon entries ────────────────────────────────────────────────

/// Entry `entry` of the double-colon chain headed by `guard`: `0` is the head
/// itself, `i >= 1` is its `i`-th further entry.
pub fn entry_node_mut(guard: &mut FileNode, entry: usize) -> (r: &mut FileNode)
    requires
        valid_entry(*old(guard), entry as int),
    ensures
        *r == entry_of(*old(guard), entry as int),
        entry == 0 ==> *final(guard) == *final(r),
        entry > 0 ==> *final(guard) == (FileNode { double_colon: final(guard).double_colon, ..*old(guard) }),
        entry > 0 ==> final(guard).double_colon@ == old(guard).double_colon@.update(entry - 1, *final(r)),
{
    if entry == 0 {
        guard
    } else {
        &mut guard.double_colon[entry - 1]
    }
}

// ─── update_file ─────────────────────────────────────────────────────────

/// The work the updater's decisions wait on, performed by the caller's
/// machinery (file system, recipe execution, diagnostics).
pub trait UpdaterWork {
    /// Touch the file of a target instead of running its recipe.
    fn touch_file(&mut self, ctx: &ExecContext, file: FileId) -> Result<UpdateStatus, BuildError>;

    /// Read (and cache) a file's modification time.
    fn f_mtime(&mut self, ctx: &mut ExecContext, file: FileId, search: bool) -> Result<u64, BuildError>;

    /// The modification time of the file named `name` on disk.
    fn name_mtime(&mut self, ctx: &ExecContext, name: &[u8]) -> u64;

    /// Print an informational message (`make: <text>`).
    fn message(&mut self, ctx: &ExecContext, text: &[u8]);

    /// Print a `-d` trace line indented to `depth`.
    fn trace(&mut self, ctx: &ExecContext, depth: u32, text: &[u8]);

    /// The text describing the system error `errnum`.
    fn strerror(&mut self, errnum: i32) -> Vec<u8>;

    /// Report that there is no rule to make a target (`complain` again, for
    /// the failed prerequisite it blames).
    fn complain(&mut self, ctx: &mut ExecContext, file: FileId) -> Result<(), BuildError>;

    /// Split a recipe into its lines.
    fn chop_commands(&mut self, ctx: &ExecContext, recipe: &mut crate::recipe::Recipe);

    /// Start running a target's recipe.
    fn execute_file_commands(&mut self, ctx: &mut ExecContext, file: FileId, entry: usize) -> Result<(), BuildError>;

    /// Search the implicit rules for a recipe for a target.
    fn try_implicit_rule(&mut self, ctx: &mut ExecContext, file: FileId, depth: u32) -> Result<(), BuildError>;

    /// Expand a target's prerequisite list a second time (`.SECONDEXPANSION`).
    fn expand_deps(&mut self, ctx: &mut ExecContext, file: FileId) -> Result<(), BuildError>;

}

/// The target was already considered in this pass and needs no second look.
pub open spec fn pruned(n: FileNode, considered: u32) -> bool {
    &&& n.considered == considered
    &&& !(n.updated && us_rank(n.update_status) > us_rank(UpdateStatus::NoStatus) && !n.dontcare
        && n.no_diag)
    &&& !(n.is_double_colon && n.command_state == CommandState::Finished && n.double_colon@.len() > 0)
}

/// What a pruned target reports: its status once finished, else success.
pub open spec fn pruned_status(n: FileNode) -> UpdateStatus {
    if n.command_state == CommandState::Finished {
        n.update_status
    } else {
        UpdateStatus::Success
    }
}

/// The prune test of `update_file`: `Some(status)` when the target is
/// answered at once (it is not in the table, or it was pruned), `None` when
/// its entries must be updated.
pub fn update_file_pruned(ctx: &ExecContext, file: FileId) -> (r: Option<UpdateStatus>)
    ensures
        file >= ctx.files@.len() ==> r == Some(UpdateStatus::Success),
        file < ctx.files@.len() ==> (r is Some <==> pruned(ctx.files@[file as int], ctx.considered)),
        file < ctx.files@.len() && r is Some ==> r == Some(pruned_status(ctx.files@[file as int])),
{
    if file >= ctx.files.len() {
        return Some(UpdateStatus::Success);
    }
    let n = &ctx.files[file];
    let is_pruned = n.considered == ctx.considered && !(n.updated && n.update_status.rank()
        > UpdateStatus::NoStatus.rank() && !n.dontcare && n.no_diag) && !(n.is_double_colon
        && n.command_state == CommandState::Finished && n.double_colon.len() > 0);
    if is_pruned {
        if n.command_state == CommandState::Finished {
            Some(n.update_status)
        } else {
            Some(UpdateStatus::Success)
        }
    } else {
        None
    }
}

/// The last entry `update_file` goes through: the end of the chain of a
/// double-colon target, else the head.
pub fn update_file_last_entry(ctx: &ExecContext, file: FileId) -> (r: usize)
    requires
        file < ctx.files@.len(),
    ensures
        r == if ctx.files@[file as int].is_double_colon {
            ctx.files@[file as int].double_colon@.len()
        } else {
            0
        },
{
    let n = &ctx.files[file];
    if n.is_double_colon {
        n.double_colon.len()
    } else {
        0
    }
}

/// Mark the head of `file` as considered in the current pass.
pub fn update_file_consider(ctx: &mut ExecContext, file: FileId)
    ensures
        file >= old(ctx).files@.len() ==> *final(ctx) == *old(ctx),
        file < old(ctx).files@.len() ==> final(ctx).files@ == old(ctx).files@.update(
            file as int,
            FileNode { considered: old(ctx).considered, ..old(ctx).files@[file as int] },
        ),
        *final(ctx) == (ExecContext { files: final(ctx).files, ..*old(ctx) }),
{
    if file < ctx.files.len() {
        let c = ctx.considered;
        ctx.files[file].considered = c;
    }
}

/// What `update_file` does after one entry was updated.
#[derive(Debug, Clone, Copy, PartialEq, Eq, Structural)]
pub enum EntryOutcome {
    /// Return this status now.
    Stop(UpdateStatus),
    /// Go on with the next entry, carrying this status.
    Continue(UpdateStatus),
}

/// The decision after updating entry `entry` of the live node `live` to
/// `new`, with `status` the status gathered so far: a failure stops the
/// walk unless `-k`; a running entry stops it with success; otherwise the
/// worse of the two statuses is carried on.
pub open spec fn entry_outcome(ctx: ExecContext, live: FileId, entry: int, new: UpdateStatus, status: UpdateStatus) -> EntryOutcome {
    if new != UpdateStatus::Success && !ctx.opt_keep_going {
        EntryOutcome::Stop(new)
    } else {
        let cs = if live < ctx.files.len() {
            entry_of(ctx.files@[live as int], entry).command_state
        } else {
            CommandState::Finished
        };
        if is_running(cs) {
            EntryOutcome::Stop(UpdateStatus::Success)
        } else if us_rank(new) > us_rank(status) {
            EntryOutcome::Continue(new)
        } else {
            EntryOutcome::Continue(status)
        }
    }
}

/// Decide how `update_file` goes on after an entry was updated.
pub fn update_file_entry_outcome(
    ctx: &ExecContext,
    live: FileId,
    entry: usize,
    new: UpdateStatus,
    status: UpdateStatus,
) -> (r: EntryOutcome)
    requires
        live < ctx.files@.len() ==> valid_entry(ctx.files@[live as int], entry as int),
    ensures
        r == entry_outcome(*ctx, live, entry as int, new, status),
{
    if new != UpdateStatus::Success && !ctx.opt_keep_going {
        return EntryOutcome::Stop(new);
    }
    let cs = if live < ctx.files.len() {
        let n = &ctx.files[live];
        if entry == 0 {
            n.command_state
        } else {
            n.double_colon[entry - 1].command_state
        }
    } else {
        CommandState::Finished
    };
    if cs == CommandState::Running || cs == CommandState::DepsRunning {
        EntryOutcome::Stop(UpdateStatus::Success)
    } else if new.rank() > status.rank() {
        EntryOutcome::Continue(new)
    } else {
        EntryOutcome::Continue(status)
    }
}

/// Follow renames from `id` for at most as many steps as the table has
/// nodes.
pub fn follow_renamed_bounded(ctx: &ExecContext, id: FileId) -> (r: FileId)
    ensures
        rename_chain_ends(ctx.files@, id, ctx.files@.len() as nat) ==> r == rename_chain_end(
            ctx.files@,
            id,
            ctx.files@.len() as nat,
        ),
{
    let mut cur = id;
    let mut fuel = ctx.files.len();
    let ghost n0 = ctx.files@.len() as nat;
    while fuel > 0 && cur < ctx.files.len() && ctx.files[cur].renamed.is_some()
        invariant
            fuel <= n0,
            rename_chain_ends(ctx.files@, id, n0) ==> rename_chain_ends(ctx.files@, cur, fuel as nat),
            rename_chain_end(ctx.files@, cur, fuel as nat) == rename_chain_end(ctx.files@, id, n0),
        decreases fuel,
    {
        cur = ctx.files[cur].renamed.unwrap();
        fuel -= 1;
    }
    cur
}

/// Update `file`: answer at once for a pruned target, else update each of
/// its entries (the whole chain of a double-colon target) in turn, stopping
/// at a failure unless `-k` or at an entry whose recipe is running, and
/// return the worst status seen.
pub fn update_file<W: UpdaterWork>(ctx: &mut ExecContext, file: FileId, depth: u32, work: &mut W) -> (r: Result<UpdateStatus, BuildError>)
    ensures
        file >= old(ctx).files@.len() ==> r == Ok::<UpdateStatus, BuildError>(UpdateStatus::Success) && *final(ctx) == *old(ctx),
        file < old(ctx).files@.len() && pruned(old(ctx).files@[file as int], old(ctx).considered) ==> r
            == Ok::<UpdateStatus, BuildError>(pruned_status(old(ctx).files@[file as int])) && *final(ctx) == *old(ctx),
    decreases u32::MAX - depth, 1int,
{
    match update_file_pruned(ctx, file) {
        Some(s) => {
            return Ok(s);
        },
        None => {},
    }
    let last = update_file_last_entry(ctx, file);
    let mut status = UpdateStatus::Success;
    let mut entry: usize = 0;
    loop
        invariant
            entry <= last,
            file < old(ctx).files@.len(),
            !pruned(old(ctx).files@[file as int], old(ctx).considered),
        decreases last - entry,
    {
        update_file_consider(ctx, file);
        if !crate::remake::consider::entry_exists(ctx, file, entry) {
            return Ok(status);
        }
        let new = match crate::remake::consider::update_file_1(ctx, file, depth, entry, work) {
            Ok(s) => s,
            Err(e) => {
                return Err(e);
            },
        };
        let live = follow_renamed_bounded(ctx, file);
        if live < ctx.files.len() && entry > ctx.files[live].double_colon.len() {
            // the entry is gone from the live node
            return Ok(status);
        }
        match update_file_entry_outcome(ctx, live, entry, new, status) {
            EntryOutcome::Stop(s) => {
                return Ok(s);
            },
            EntryOutcome::Continue(s) => {
                status = s;
            },
        }
        if entry == last {
            return Ok(status);
        }
        entry += 1;
    }
}

// ─── notice_finished_file ────────────────────────────────────────────────

/// Whether touching a target with this entry is called for: not when every
/// line of a recipe that recurses is a recursive one.
pub open spec fn should_touch(e: FileNode) -> bool {
    match e.recipe {
        Some(rc) => !rc.any_recurse || exists|k: int|
            0 <= k < rc.lines@.len() && !#[trigger] recurses(rc.lines@[k].flags),
        None => true,
    }
}

/// Finishing entry `e` under `-t` touches its file: it succeeded, is no
/// phony, and has a recipe that is not all recursion.
pub open spec fn touch_due(ctx: ExecContext, e: FileNode) -> bool {
    ctx.opt_touch && e.update_status == UpdateStatus::Success && should_touch(e) && !e.phony && e.recipe is Some
}

/// What [`notice_finished_begin`] found.
#[derive(Debug, Clone, Copy, PartialEq, Eq)]
pub struct NoticeBegin {
    /// The entry's recipe was running.
    pub ran: bool,
    /// The entry's update status on entry.
    pub ustatus: UpdateStatus,
    /// The file must be touched now (`-t`).
    pub wants_touch: bool,
}

/// Replacing an entry keeps it an entry, with the new value, and keeps the
/// rest of the node (the entry itself, for the head).
pub proof fn lemma_table_entry_set(old: Seq<FileNode>, new: Seq<FileNode>, file: FileId, entry: int, e: FileNode)
    requires
        table_entry_set(old, new, file, entry, e),
        valid_entry(old[file as int], entry),
    ensures
        valid_entry(new[file as int], entry),
        entry_at(new, file, entry) == e,
        entry > 0 ==> new[file as int].also_make == old[file as int].also_make,
        entry == 0 ==> new[file as int] == e,
{
}

/// The time before the update that finishing entry `e` remembers: its
/// own, or its last time when that was unknown.
pub open spec fn settled_before(e: FileNode) -> u64 {
    if e.mtime_before_update == UNKNOWN_MTIME {
        e.last_mtime
    } else {
        e.mtime_before_update
    }
}

/// The last time of entry `e` once finished without a touch: after its
/// recipe ran (a non-phony target), the fresh mark or unknown; else kept.
pub open spec fn settled_last(ctx: ExecContext, e: FileNode) -> u64 {
    if e.command_state == CommandState::Running && !e.phony {
        if marks_new(ctx, e) {
            u64::MAX
        } else {
            UNKNOWN_MTIME
        }
    } else {
        e.last_mtime
    }
}

/// Finishing entry `entry` of the double-colon chain headed by `h`
/// completes it: every other entry is already updated.
pub open spec fn chain_complete_after(h: FileNode, entry: int) -> bool {
    &&& h.is_double_colon
    &&& h.double_colon@.len() > 0
    &&& (entry == 0 || h.updated)
    &&& forall|k: int| 0 <= k < h.double_colon@.len() && k + 1 != entry ==> #[trigger] h.double_colon@[k].updated
}

/// The further entries of the chain headed by `h` once entry `entry` is
/// finished without a touch (only their times matter here).
pub open spec fn entries_after(ctx: ExecContext, h: FileNode, entry: int) -> Seq<FileNode> {
    if entry == 0 {
        h.double_colon@
    } else {
        h.double_colon@.update(
            entry - 1,
            FileNode { last_mtime: settled_last(ctx, h.double_colon@[entry - 1]), ..h.double_colon@[entry - 1] },
        )
    }
}

/// The chain's time once entry `entry` finishes it: the latest of all its
/// entries' times, or unknown when one of them is unknown.
#[verifier::opaque]
pub open spec fn chain_time(ctx: ExecContext, h: FileNode, entry: int) -> u64 {
    dc_max(
        if entry == 0 {
            settled_last(ctx, h)
        } else {
            h.last_mtime
        },
        entries_after(ctx, h, entry),
        h.double_colon@.len() as int,
    )
}

/// The last time entry `entry` of the node `h` ends with once finished
/// without a touch: the chain's time when it completes a double-colon
/// chain, else its own settled time.
#[verifier::opaque]
pub open spec fn finished_last(ctx: ExecContext, h: FileNode, entry: int) -> u64 {
    if chain_complete_after(h, entry) {
        chain_time(ctx, h, entry)
    } else {
        settled_last(ctx, entry_of(h, entry))
    }
}

/// Every entry of the chain headed by `h` has the time `m`.
#[verifier::opaque]
pub open spec fn chain_all_at(h: FileNode, m: u64) -> bool {
    &&& h.last_mtime == m
    &&& forall|k: int| 0 <= k < h.double_colon@.len() ==> #[trigger] h.double_colon@[k].last_mtime == m
}

/// The fold over the entries' times depends on their times alone.
proof fn lemma_dc_max_times(m: u64, a: Seq<FileNode>, b: Seq<FileNode>, k: int)
    requires
        a.len() == b.len(),
        0 <= k <= a.len(),
        forall|i: int| 0 <= i < a.len() ==> #[trigger] a[i].last_mtime == b[i].last_mtime,
    ensures
        dc_max(m, a, k) == dc_max(m, b, k),
    decreases k,
{
    if k > 0 {
        lemma_dc_max_times(m, a, b, k - 1);
    }
}

/// After entry `entry` of `file` is finished and settled (no touch), the
/// head says whether the chain is complete, and its fold is the chain's
/// time.
proof fn lemma_finish_chain_times(c0: ExecContext, f0: Seq<FileNode>, f3: Seq<FileNode>, file: FileId, entry: int, ran: bool)
    requires
        file < f0.len(),
        valid_entry(f0[file as int], entry),
        ran == (entry_at(f0, file, entry).command_state == CommandState::Running),
        table_entry_set(f0, f3, file, entry, settled_entry(
            c0,
            FileNode { command_state: CommandState::Finished, updated: true, ..entry_at(f0, file, entry) },
            ran,
            false,
        )),
    ensures
        ({
            let h0 = f0[file as int];
            let h3 = f3[file as int];
            &&& (h3.is_double_colon && h3.double_colon@.len() > 0 && all_entries_updated(h3)) == chain_complete_after(h0, entry)
            &&& dc_max(h3.last_mtime, h3.double_colon@, h3.double_colon@.len() as int) == chain_time(c0, h0, entry)
            &&& h3.double_colon@.len() == h0.double_colon@.len()
            &&& entry_at(f3, file, entry).last_mtime == settled_last(c0, entry_at(f0, file, entry))
        }),
{
    reveal(chain_time);
    let h0 = f0[file as int];
    let h3 = f3[file as int];
    let e0 = entry_at(f0, file, entry);
    let e = settled_entry(c0, FileNode { command_state: CommandState::Finished, updated: true, ..e0 }, ran, false);
    assert(marks_new(c0, FileNode { command_state: CommandState::Finished, updated: true, ..e0 }) == marks_new(c0, e0));
    lemma_table_entry_set(f0, f3, file, entry, e);
    assert(e.last_mtime == settled_last(c0, e0));
    assert(e.updated);
    if entry == 0 {
        assert(h3 == e);
        assert(entries_after(c0, h0, entry) == h3.double_colon@);
        if chain_complete_after(h0, entry) {
            assert forall|k: int| 0 <= k < h3.double_colon@.len() implies #[trigger] h3.double_colon@[k].updated by {
                assert(k + 1 != entry);
            }
        }
        if h3.is_double_colon && h3.double_colon@.len() > 0 && all_entries_updated(h3) {
            assert forall|k: int| 0 <= k < h0.double_colon@.len() && k + 1 != entry implies #[trigger] h0.double_colon@[k].updated by {
                assert(h3.double_colon@[k].updated);
            }
        }
    } else {
        assert(h3 == (FileNode { double_colon: h3.double_colon, ..h0 }));
        assert(h3.double_colon@ == h0.double_colon@.update(entry - 1, e));
        let ea = entries_after(c0, h0, entry);
        assert forall|i: int| 0 <= i < ea.len() implies #[trigger] ea[i].last_mtime == h3.double_colon@[i].last_mtime by {}
        lemma_dc_max_times(h0.last_mtime, ea, h3.double_colon@, h0.double_colon@.len() as int);
        if chain_complete_after(h0, entry) {
            assert forall|k: int| 0 <= k < h3.double_colon@.len() implies #[trigger] h3.double_colon@[k].updated by {
                if k + 1 != entry {
                    assert(h3.double_colon@[k] == h0.double_colon@[k]);
                }
            }
        }
        if h3.is_double_colon && h3.double_colon@.len() > 0 && all_entries_updated(h3) {
            assert forall|k: int| 0 <= k < h0.double_colon@.len() && k + 1 != entry implies #[trigger] h0.double_colon@[k].updated by {
                assert(h3.double_colon@[k].updated);
                assert(h3.double_colon@[k] == h0.double_colon@[k]);
            }
        }
    }
}

/// What the entry and the head end with once the chain's times are
/// propagated after finishing the entry without a touch.
proof fn lemma_propagate_result(
    c0: ExecContext,
    f0: Seq<FileNode>,
    f3: Seq<FileNode>,
    f4: Seq<FileNode>,
    file: FileId,
    entry: int,
    ran: bool,
)
    requires
        file < f0.len(),
        valid_entry(f0[file as int], entry),
        ran == (entry_at(f0, file, entry).command_state == CommandState::Running),
        table_entry_set(f0, f3, file, entry, settled_entry(
            c0,
            FileNode { command_state: CommandState::Finished, updated: true, ..entry_at(f0, file, entry) },
            ran,
            false,
        )),
        f4.len() == f3.len(),
        forall|j: int| 0 <= j < f3.len() && j != file ==> #[trigger] f4[j] == f3[j],
        propagated(f3[file as int], f4[file as int]),
    ensures
        valid_entry(f4[file as int], entry),
        entry_at(f4, file, entry).last_mtime == finished_last(c0, f0[file as int], entry),
        entry_at(f4, file, entry).mtime_before_update == entry_at(f3, file, entry).mtime_before_update,
        entry_at(f4, file, entry).update_status == entry_at(f3, file, entry).update_status,
        entry_at(f4, file, entry).command_state == entry_at(f3, file, entry).command_state,
        entry_at(f4, file, entry).updated == entry_at(f3, file, entry).updated,
        f4[file as int].also_make == f3[file as int].also_make,
        chain_complete_after(f0[file as int], entry) ==> chain_all_at(f4[file as int], chain_time(c0, f0[file as int], entry)),
{
    reveal(finished_last);
    reveal(chain_all_at);
    lemma_finish_chain_times(c0, f0, f3, file, entry, ran);
    let e = settled_entry(c0, FileNode { command_state: CommandState::Finished, updated: true, ..entry_at(f0, file, entry) }, ran, false);
    lemma_table_entry_set(f0, f3, file, entry, e);
    let h3 = f3[file as int];
    let h4 = f4[file as int];
    if entry > 0 {
        assert(h4.double_colon@[entry - 1] == entry_at(f4, file, entry));
        assert(h3.double_colon@[entry - 1] == entry_at(f3, file, entry));
    }
}

/// The target finishes without grouped peers to finish along: its recipe
/// did not run to a status, or it names no peer file.
pub open spec fn finishes_alone(n: FileNode, e: FileNode) -> bool {
    !(e.command_state == CommandState::Running && e.update_status != UpdateStatus::NoStatus)
        || referred_files(n.also_make@).len() == 0
}

/// The file table with entry `entry` of node `file` replaced by `e`.
pub open spec fn table_entry_set(old: Seq<FileNode>, new: Seq<FileNode>, file: FileId, entry: int, e: FileNode) -> bool {
    &&& new.len() == old.len()
    &&& file < old.len()
    &&& forall|j: int| 0 <= j < old.len() && j != file ==> #[trigger] new[j] == old[j]
    &&& entry_replaced(old[file as int], new[file as int], entry, e)
}

/// The state of entry `entry` of node `file`.
pub open spec fn entry_at(files: Seq<FileNode>, file: FileId, entry: int) -> FileNode {
    entry_of(files[file as int], entry)
}

/// Mark entry `entry` of `file` finished and updated, and say whether its
/// recipe was running, its status, and whether `-t` calls for touching the
/// file now (a successful, non-phony target with a recipe, unless all its
/// lines recurse).
pub fn notice_finished_begin(ctx: &mut ExecContext, file: FileId, entry: usize) -> (r: NoticeBegin)
    requires
        file < old(ctx).files@.len(),
        valid_entry(old(ctx).files@[file as int], entry as int),
    ensures
        ({
            let e = entry_at(old(ctx).files@, file, entry as int);
            &&& r.ran == (e.command_state == CommandState::Running)
            &&& r.ustatus == e.update_status
            &&& r.wants_touch == (old(ctx).opt_touch && e.update_status == UpdateStatus::Success
                && should_touch(e) && !e.phony && e.recipe is Some)
            &&& table_entry_set(
                old(ctx).files@,
                final(ctx).files@,
                file,
                entry as int,
                FileNode { command_state: CommandState::Finished, updated: true, ..e },
            )
        }),
        *final(ctx) == (ExecContext { files: final(ctx).files, ..*old(ctx) }),
{
    let e = entry_ref(&ctx.files[file], entry);
    let ran = e.command_state == CommandState::Running;
    let ustatus = e.update_status;
    let wants_touch = ctx.opt_touch && ustatus == UpdateStatus::Success && should_touch_entry(e)
        && !e.phony && e.recipe.is_some();
    let n = entry_node_mut(&mut ctx.files[file], entry);
    n.command_state = CommandState::Finished;
    n.updated = true;
    NoticeBegin { ran, ustatus, wants_touch }
}

/// Entry `entry` of the chain headed by `n`.
pub fn entry_ref(n: &FileNode, entry: usize) -> (r: &FileNode)
    requires
        valid_entry(*n, entry as int),
    ensures
        *r == entry_of(*n, entry as int),
{
    if entry == 0 {
        n
    } else {
        &n.double_colon[entry - 1]
    }
}

/// Whether touching is called for with this entry.
fn should_touch_entry(e: &FileNode) -> (r: bool)
    ensures
        r == should_touch(*e),
{
    match &e.recipe {
        Some(rc) => {
            if !rc.any_recurse {
                return true;
            }
            let mut k: usize = 0;
            while k < rc.lines.len()
                invariant
                    e.recipe == Some(*rc),
                    rc.any_recurse,
                    k <= rc.lines@.len(),
                    forall|j: int| 0 <= j < k ==> #[trigger] recurses(rc.lines@[j].flags),
                decreases rc.lines@.len() - k,
            {
                if !rc.lines[k].flags.is_recurse() {
                    assert(!recurses(rc.lines@[k as int].flags));
                    return true;
                }
                k += 1;
            }
            false
        },
        None => true,
    }
}

/// Whether some line of the recipe does not recurse.
fn has_nonrecursive_line(rc: &crate::recipe::Recipe) -> (r: bool)
    ensures
        r == exists|k: int| 0 <= k < rc.lines@.len() && !#[trigger] recurses(rc.lines@[k].flags),
{
    let mut i = rc.lines.len();
    while i > 0
        invariant
            i <= rc.lines@.len(),
            forall|j: int| i <= j < rc.lines@.len() ==> #[trigger] recurses(rc.lines@[j].flags),
        decreases i,
    {
        if !rc.lines[i - 1].flags.is_recurse() {
            return true;
        }
        i -= 1;
    }
    false
}

/// Whether the settled entry's timestamp is marked fresh.
fn marks_new_entry(ctx: &ExecContext, e: &FileNode) -> (r: bool)
    ensures
        r == marks_new(*ctx, *e),
{
    match &e.recipe {
        Some(rc) => {
            if ctx.opt_question || ctx.opt_just_print || ctx.opt_touch {
                has_nonrecursive_line(rc)
            } else {
                false
            }
        },
        None => e.is_target,
    }
}

/// Record the status that touching entry `entry` of `file` gave, and count
/// the touch as a started command.
pub fn notice_finished_touched(ctx: &mut ExecContext, file: FileId, entry: usize, ts: UpdateStatus)
    requires
        file < old(ctx).files@.len(),
        valid_entry(old(ctx).files@[file as int], entry as int),
    ensures
        table_entry_set(
            old(ctx).files@,
            final(ctx).files@,
            file,
            entry as int,
            FileNode { update_status: ts, ..entry_at(old(ctx).files@, file, entry as int) },
        ),
        final(ctx).commands_started == old(ctx).commands_started.wrapping_add(1),
        *final(ctx) == (ExecContext { files: final(ctx).files, commands_started: final(ctx).commands_started, ..*old(ctx) }),
{
    let n = entry_node_mut(&mut ctx.files[file], entry);
    n.update_status = ts;
    ctx.commands_started = ctx.commands_started.wrapping_add(1);
}

/// After a run, the entry's timestamp is marked fresh: under `-q`/`-n`/`-t`
/// when some line of its recipe does not recurse, otherwise when it is a
/// target without a recipe.
pub open spec fn marks_new(ctx: ExecContext, e: FileNode) -> bool {
    if (ctx.opt_question || ctx.opt_just_print || ctx.opt_touch) && e.recipe is Some {
        exists|k: int|
            0 <= k < e.recipe->0.lines@.len() && !#[trigger] recurses(e.recipe->0.lines@[k].flags)
    } else {
        e.is_target && e.recipe is None
    }
}

/// The entry once its timestamps are settled: the time before the update
/// is remembered if unknown; after a run of a non-phony target's recipe, or
/// a touch, the last time becomes the fresh mark or unknown.
pub open spec fn settled_entry(ctx: ExecContext, e: FileNode, ran: bool, touched: bool) -> FileNode {
    let e1 = if e.mtime_before_update == UNKNOWN_MTIME {
        FileNode { mtime_before_update: e.last_mtime, ..e }
    } else {
        e
    };
    if (ran && !e1.phony) || touched {
        FileNode {
            last_mtime: if marks_new(ctx, e1) {
                u64::MAX
            } else {
                UNKNOWN_MTIME
            },
            ..e1
        }
    } else {
        e1
    }
}

/// Settle the timestamps of entry `entry` of `file` after its recipe ran
/// (`ran`) or it was touched (`touched`).
pub fn notice_settle_mtimes(ctx: &mut ExecContext, file: FileId, entry: usize, ran: bool, touched: bool)
    requires
        file < old(ctx).files@.len(),
        valid_entry(old(ctx).files@[file as int], entry as int),
    ensures
        table_entry_set(
            old(ctx).files@,
            final(ctx).files@,
            file,
            entry as int,
            settled_entry(*old(ctx), entry_at(old(ctx).files@, file, entry as int), ran, touched),
        ),
        *final(ctx) == (ExecContext { files: final(ctx).files, ..*old(ctx) }),
{
    let e = entry_ref(&ctx.files[file], entry);
    let (before, last) = settle_values(ctx, e, ran, touched);
    let n = entry_node_mut(&mut ctx.files[file], entry);
    n.mtime_before_update = before;
    n.last_mtime = last;
}

/// The settled `mtime_before_update` and `last_mtime` of entry `e`.
fn settle_values(ctx: &ExecContext, e: &FileNode, ran: bool, touched: bool) -> (r: (u64, u64))
    ensures
        (FileNode { mtime_before_update: r.0, last_mtime: r.1, ..*e }) == settled_entry(*ctx, *e, ran, touched),
{
    let before = if e.mtime_before_update == UNKNOWN_MTIME {
        e.last_mtime
    } else {
        e.mtime_before_update
    };
    let stamp = (ran && !e.phony) || touched;
    let fresh = marks_new_entry(ctx, e);
    let last = if stamp {
        if fresh {
            u64::MAX
        } else {
            UNKNOWN_MTIME
        }
    } else {
        e.last_mtime
    };
    proof {
        lemma_settled(*ctx, *e, ran, touched, before, last, fresh);
    }
    (before, last)
}

proof fn lemma_settled(ctx: ExecContext, e0: FileNode, ran: bool, touched: bool, before: u64, last: u64, fresh: bool)
    requires
        before == if e0.mtime_before_update == UNKNOWN_MTIME {
            e0.last_mtime
        } else {
            e0.mtime_before_update
        },
        fresh == marks_new(ctx, e0),
        last == if (ran && !e0.phony) || touched {
            if fresh {
                u64::MAX
            } else {
                UNKNOWN_MTIME
            }
        } else {
            e0.last_mtime
        },
    ensures
        (FileNode { mtime_before_update: before, last_mtime: last, ..e0 }) == settled_entry(ctx, e0, ran, touched),
{
    let e1 = if e0.mtime_before_update == UNKNOWN_MTIME {
        FileNode { mtime_before_update: e0.last_mtime, ..e0 }
    } else {
        e0
    };
    assert(marks_new(ctx, e1) == marks_new(ctx, e0));
}

/// Fold the timestamps of the further entries into `m`: once unknown it
/// stays unknown; otherwise an unknown or later entry time replaces it.
pub open spec fn dc_max(m: u64, es: Seq<FileNode>, k: int) -> u64
    decreases k,
{
    if k <= 0 {
        m
    } else {
        let prev = dc_max(m, es, k - 1);
        let t = es[k - 1].last_mtime;
        if prev != UNKNOWN_MTIME && (t == UNKNOWN_MTIME || t > prev) {
            t
        } else {
            prev
        }
    }
}

/// Every entry of the double-colon chain headed by `h` is updated.
pub open spec fn all_entries_updated(h: FileNode) -> bool {
    h.updated && forall|k: int| 0 <= k < h.double_colon@.len() ==> #[trigger] h.double_colon@[k].updated
}

/// The head once the chain's timestamps are propagated: when every entry of
/// a double-colon chain is updated, the head and each entry take the folded
/// timestamp.
pub open spec fn propagated(old: FileNode, new: FileNode) -> bool {
    if old.is_double_colon && old.double_colon@.len() > 0 && all_entries_updated(old) {
        let m = dc_max(old.last_mtime, old.double_colon@, old.double_colon@.len() as int);
        &&& new == (FileNode { last_mtime: m, double_colon: new.double_colon, ..old })
        &&& new.double_colon@.len() == old.double_colon@.len()
        &&& forall|k: int|
            0 <= k < old.double_colon@.len() ==> #[trigger] new.double_colon@[k] == (FileNode {
                last_mtime: m,
                ..old.double_colon@[k]
            })
    } else {
        new == old
    }
}

/// Propagate the timestamps across the double-colon chain of `file`.
pub fn notice_propagate_double_colon(ctx: &mut ExecContext, file: FileId)
    requires
        file < old(ctx).files@.len(),
    ensures
        final(ctx).files@.len() == old(ctx).files@.len(),
        forall|j: int| 0 <= j < old(ctx).files@.len() && j != file ==> #[trigger] final(ctx).files@[j] == old(ctx).files@[j],
        propagated(old(ctx).files@[file as int], final(ctx).files@[file as int]),
        *final(ctx) == (ExecContext { files: final(ctx).files, ..*old(ctx) }),
{
    let ghost h0 = ctx.files@[file as int];
    let folded = double_colon_fold(&ctx.files[file]);
    let max_mtime = match folded {
        Some(m) => m,
        None => {
            return;
        },
    };
    let len = ctx.files[file].double_colon.len();
    ctx.files[file].last_mtime = max_mtime;
    let mut k: usize = 0;
    while k < len
        invariant
            file < ctx.files@.len(),
            ctx.files@.len() == old(ctx).files@.len(),
            len == h0.double_colon@.len(),
            forall|j: int| 0 <= j < old(ctx).files@.len() && j != file ==> #[trigger] ctx.files@[j] == old(ctx).files@[j],
            ctx.files@[file as int] == (FileNode {
                last_mtime: max_mtime,
                double_colon: ctx.files@[file as int].double_colon,
                ..h0
            }),
            ctx.files@[file as int].double_colon@.len() == len,
            forall|j: int| 0 <= j < k ==> #[trigger] ctx.files@[file as int].double_colon@[j] == (FileNode {
                last_mtime: max_mtime,
                ..h0.double_colon@[j]
            }),
            forall|j: int| k <= j < len ==> #[trigger] ctx.files@[file as int].double_colon@[j] == h0.double_colon@[j],
            *ctx == (ExecContext { files: ctx.files, ..*old(ctx) }),
        decreases len - k,
    {
        ctx.files[file].double_colon[k].last_mtime = max_mtime;
        k += 1;
    }
}

/// The folded timestamp of a double-colon chain whose entries are all
/// updated, or `None` when the chain is not one or not all updated.
fn double_colon_fold(h: &FileNode) -> (r: Option<u64>)
    ensures
        (h.is_double_colon && h.double_colon@.len() > 0 && all_entries_updated(*h)) ==> r == Some(
            dc_max(h.last_mtime, h.double_colon@, h.double_colon@.len() as int),
        ),
        !(h.is_double_colon && h.double_colon@.len() > 0 && all_entries_updated(*h)) ==> r is None,
{
    if !(h.is_double_colon && h.double_colon.len() > 0 && h.updated) {
        return None;
    }
    let mut max_mtime = h.last_mtime;
    let mut k: usize = 0;
    while k < h.double_colon.len()
        invariant
            h.updated,
            k <= h.double_colon@.len(),
            forall|j: int| 0 <= j < k ==> #[trigger] h.double_colon@[j].updated,
            max_mtime == dc_max(h.last_mtime, h.double_colon@, k as int),
        decreases h.double_colon@.len() - k,
    {
        let e = &h.double_colon[k];
        if !e.updated {
            return None;
        }
        if max_mtime != UNKNOWN_MTIME && (e.last_mtime == UNKNOWN_MTIME || e.last_mtime > max_mtime) {
            max_mtime = e.last_mtime;
        }
        k += 1;
    }
    Some(max_mtime)
}

/// Finish a grouped-target peer of a target whose recipe ran: it is
/// finished, updated, and takes the target's status. Says whether its
/// modification time must be read again (it is in the table and not phony).
pub fn notice_peer_finished(ctx: &mut ExecContext, peer: FileId, ustatus: UpdateStatus) -> (r: bool)
    ensures
        peer >= old(ctx).files@.len() ==> *final(ctx) == *old(ctx) && !r,
        peer < old(ctx).files@.len() ==> final(ctx).files@ == old(ctx).files@.update(
            peer as int,
            FileNode {
                command_state: CommandState::Finished,
                updated: true,
                update_status: ustatus,
                ..old(ctx).files@[peer as int]
            },
        ) && r == !old(ctx).files@[peer as int].phony,
        *final(ctx) == (ExecContext { files: final(ctx).files, ..*old(ctx) }),
{
    if peer >= ctx.files.len() {
        return false;
    }
    ctx.files[peer].command_state = CommandState::Finished;
    ctx.files[peer].updated = true;
    ctx.files[peer].update_status = ustatus;
    !ctx.files[peer].phony
}

/// After a peer's time was read again: under `-n` it is marked fresh.
pub fn notice_peer_after_mtime(ctx: &mut ExecContext, peer: FileId)
    ensures
        peer < old(ctx).files@.len() && old(ctx).opt_just_print ==> final(ctx).files@ == old(ctx).files@.update(
            peer as int,
            FileNode { last_mtime: u64::MAX, ..old(ctx).files@[peer as int] },
        ),
        !(peer < old(ctx).files@.len() && old(ctx).opt_just_print) ==> *final(ctx) == *old(ctx),
        *final(ctx) == (ExecContext { files: final(ctx).files, ..*old(ctx) }),
{
    if peer < ctx.files.len() && ctx.opt_just_print {
        ctx.files[peer].last_mtime = new_mtime();
    }
}

/// A target whose recipe ran with no status yet counts as a success.
pub fn notice_status_reset(ctx: &mut ExecContext, file: FileId, entry: usize)
    requires
        file < old(ctx).files@.len(),
        valid_entry(old(ctx).files@[file as int], entry as int),
    ensures
        table_entry_set(
            old(ctx).files@,
            final(ctx).files@,
            file,
            entry as int,
            FileNode { update_status: UpdateStatus::Success, ..entry_at(old(ctx).files@, file, entry as int) },
        ),
        *final(ctx) == (ExecContext { files: final(ctx).files, ..*old(ctx) }),
{
    let n = entry_node_mut(&mut ctx.files[file], entry);
    n.update_status = UpdateStatus::Success;
}

/// The file ids the prerequisites refer to, in order.
pub open spec fn referred_files(deps: Seq<DepNode>) -> Seq<FileId>
    decreases deps.len(),
{
    if deps.len() == 0 {
        Seq::empty()
    } else {
        let rest = referred_files(deps.drop_last());
        match deps.last().file {
            Some(f) => rest.push(f),
            None => rest,
        }
    }
}

/// The grouped-target peers of `file`, in order.
pub fn peer_files(ctx: &ExecContext, file: FileId) -> (r: Vec<FileId>)
    requires
        file < ctx.files@.len(),
    ensures
        r@ == referred_files(ctx.files@[file as int].also_make@),
{
    let am = &ctx.files[file].also_make;
    let mut out: Vec<FileId> = Vec::new();
    let mut k: usize = 0;
    while k < am.len()
        invariant
            k <= am@.len(),
            out@ == referred_files(am@.subrange(0, k as int)),
        decreases am@.len() - k,
    {
        assert(am@.subrange(0, k + 1).drop_last() =~= am@.subrange(0, k as int));
        match am[k].file {
            Some(f) => {
                out.push(f);
            },
            None => {},
        }
        k += 1;
    }
    assert(am@.subrange(0, am@.len() as int) =~= am@);
    out
}

/// The first part of finishing entry `entry` of `file`: it is marked
/// finished and updated, touched under `-t` when that is called for, its
/// timestamps settled and, when it completes a double-colon chain, the
/// chain's time propagated to every entry.
#[verifier::rlimit(80)]
fn notice_finish_entry<W: UpdaterWork>(ctx: &mut ExecContext, file: FileId, entry: usize, work: &mut W) -> (r: Result<NoticeBegin, BuildError>)
    requires
        file < old(ctx).files@.len(),
        valid_entry(old(ctx).files@[file as int], entry as int),
    ensures
        !touch_due(*old(ctx), entry_at(old(ctx).files@, file, entry as int)) ==> r is Ok,
        r matches Ok(b) ==> {
            &&& file < final(ctx).files@.len()
            &&& valid_entry(final(ctx).files@[file as int], entry as int)
            &&& entry_at(final(ctx).files@, file, entry as int).command_state == CommandState::Finished
            &&& entry_at(final(ctx).files@, file, entry as int).updated
            &&& final(ctx).files@[file as int].also_make == old(ctx).files@[file as int].also_make
            &&& b.ran == (entry_at(old(ctx).files@, file, entry as int).command_state == CommandState::Running)
            &&& b.ustatus == entry_at(old(ctx).files@, file, entry as int).update_status
        },
        !touch_due(*old(ctx), entry_at(old(ctx).files@, file, entry as int)) ==> {
            let e0 = entry_at(old(ctx).files@, file, entry as int);
            let e = entry_at(final(ctx).files@, file, entry as int);
            &&& r matches Ok(b) && !b.wants_touch
            &&& e.update_status == e0.update_status
            &&& e.mtime_before_update == settled_before(e0)
            &&& e.last_mtime == finished_last(*old(ctx), old(ctx).files@[file as int], entry as int)
            &&& chain_complete_after(old(ctx).files@[file as int], entry as int) ==> chain_all_at(
                final(ctx).files@[file as int],
                chain_time(*old(ctx), old(ctx).files@[file as int], entry as int),
            )
        },
{
    let ghost f0 = ctx.files@;
    let ghost c0 = *ctx;
    let b = notice_finished_begin(ctx, file, entry);
    let ghost fb = ctx.files@;
    proof {
        lemma_table_entry_set(f0, ctx.files@, file, entry as int, FileNode {
            command_state: CommandState::Finished,
            updated: true,
            ..entry_at(f0, file, entry as int)
        });
    }
    let mut touched = false;
    if b.wants_touch {
        let ts = match work.touch_file(ctx, file) {
            Ok(s) => s,
            Err(e) => {
                return Err(e);
            },
        };
        let ghost f1 = ctx.files@;
        notice_finished_touched(ctx, file, entry, ts);
        proof {
            lemma_table_entry_set(f1, ctx.files@, file, entry as int, FileNode {
                update_status: ts,
                ..entry_at(f1, file, entry as int)
            });
        }
        touched = true;
    }
    let ghost f2 = ctx.files@;
    let ghost c2 = *ctx;
    notice_settle_mtimes(ctx, file, entry, b.ran, touched);
    proof {
        lemma_table_entry_set(f2, ctx.files@, file, entry as int, settled_entry(c2, entry_at(f2, file, entry as int), b.ran, touched));
    }
    let ghost f3 = ctx.files@;
    proof {
        if !b.wants_touch {
            let e0 = entry_at(f0, file, entry as int);
            let e3 = entry_at(f3, file, entry as int);
            assert(marks_new(c2, FileNode { command_state: CommandState::Finished, updated: true, ..e0 }) == marks_new(c0, e0));
            assert(e3.mtime_before_update == settled_before(e0));
            assert(e3.last_mtime == settled_last(c0, e0));
            assert(e3.update_status == e0.update_status);
        }
    }
    proof {
        if !b.wants_touch {
            let e1 = FileNode { command_state: CommandState::Finished, updated: true, ..entry_at(f0, file, entry as int) };
            assert(f2 == fb);
            assert(settled_entry(c2, e1, b.ran, touched) == settled_entry(c0, e1, b.ran, false));
            lemma_table_entry_set_twice(f0, f2, f3, file, entry as int, e1, settled_entry(c0, e1, b.ran, false));
        }
    }
    notice_propagate_double_colon(ctx, file);
    proof {
        if !b.wants_touch {
            lemma_propagate_result(c0, f0, f3, ctx.files@, file, entry as int, b.ran);
        }
    }
    assert(ctx.files@[file as int].also_make == f0[file as int].also_make);
    assert(entry_at(ctx.files@, file, entry as int).command_state == CommandState::Finished);
    assert(entry_at(ctx.files@, file, entry as int).updated);
    Ok(b)
}

/// The recipe of entry `e` of `n` ran to a status, so its grouped peers are
/// finished along with it.
pub open spec fn peers_share_status(n: FileNode, e: FileNode) -> bool {
    e.command_state == CommandState::Running && e.update_status != UpdateStatus::NoStatus
}

/// Every peer in `peers` that is in the table `files` is finished and
/// updated, with the status `st`.
pub open spec fn peers_finished_with(files: Seq<FileNode>, peers: Seq<FileId>, st: UpdateStatus) -> bool {
    forall|j: int|
        0 <= j < peers.len() && peers[j] < files.len() ==> {
            let p = #[trigger] files[peers[j] as int];
            &&& p.command_state == CommandState::Finished
            &&& p.updated
            &&& p.update_status == st
        }
}

/// Grouped targets share the fate of the recipe that makes them: once it
/// ran to a status, each peer is finished and updated with that same
/// status, so a failed recipe never leaves a peer that counts as made.
pub proof fn law_peers_take_the_recipe_status(files: Seq<FileNode>, peers: Seq<FileId>, st: UpdateStatus, j: int)
    requires
        peers_finished_with(files, peers, st),
        0 <= j < peers.len(),
        peers[j] < files.len(),
    ensures
        files[peers[j] as int].update_status == st,
        files[peers[j] as int].command_state == CommandState::Finished,
        st == UpdateStatus::Failed ==> files[peers[j] as int].update_status != UpdateStatus::Success,
{
}

/// Finish entry `entry` of `file` after its recipe ran (or was found
/// unneeded): mark it finished, touch it under `-t`, settle its timestamps,
/// propagate the double-colon chain's time, and finish its grouped-target
/// peers (reading their times again) when its recipe ran.
pub fn notice_finished_file<W: UpdaterWork>(ctx: &mut ExecContext, file: FileId, entry: usize, work: &mut W) -> (r: Result<(), BuildError>)
    requires
        file < old(ctx).files@.len() ==> valid_entry(old(ctx).files@[file as int], entry as int),
    ensures
        file >= old(ctx).files@.len() ==> r == Ok::<(), BuildError>(()) && *final(ctx) == *old(ctx),
        r is Ok && file < old(ctx).files@.len() && peers_share_status(
            old(ctx).files@[file as int],
            entry_at(old(ctx).files@, file, entry as int),
        ) ==> peers_finished_with(
            final(ctx).files@,
            referred_files(old(ctx).files@[file as int].also_make@),
            entry_at(old(ctx).files@, file, entry as int).update_status,
        ),
        r is Ok && file < old(ctx).files@.len() && finishes_alone(
            old(ctx).files@[file as int],
            entry_at(old(ctx).files@, file, entry as int),
        ) ==> {
            &&& file < final(ctx).files@.len()
            &&& valid_entry(final(ctx).files@[file as int], entry as int)
            &&& entry_at(final(ctx).files@, file, entry as int).command_state == CommandState::Finished
            &&& entry_at(final(ctx).files@, file, entry as int).updated
        },
        file < old(ctx).files@.len() && !touch_due(*old(ctx), entry_at(old(ctx).files@, file, entry as int))
            && finishes_alone(old(ctx).files@[file as int], entry_at(old(ctx).files@, file, entry as int)) ==> r is Ok,
        file < old(ctx).files@.len() && !touch_due(*old(ctx), entry_at(old(ctx).files@, file, entry as int))
            && finishes_alone(old(ctx).files@[file as int], entry_at(old(ctx).files@, file, entry as int)) ==> {
            let e0 = entry_at(old(ctx).files@, file, entry as int);
            let e = entry_at(final(ctx).files@, file, entry as int);
            &&& e.update_status == if e0.update_status == UpdateStatus::NoStatus {
                UpdateStatus::Success
            } else {
                e0.update_status
            }
            &&& e.mtime_before_update == settled_before(e0)
            &&& e.last_mtime == finished_last(*old(ctx), old(ctx).files@[file as int], entry as int)
            &&& chain_complete_after(old(ctx).files@[file as int], entry as int) ==> chain_all_at(
                final(ctx).files@[file as int],
                chain_time(*old(ctx), old(ctx).files@[file as int], entry as int),
            )
        },
{
    if file >= ctx.files.len() {
        return Ok(());
    }
    let b = match notice_finish_entry(ctx, file, entry, work) {
        Ok(b) => b,
        Err(e) => {
            return Err(e);
        },
    };
    let tried_implicit = ctx.files[file].tried_implicit;
    let peers = peer_files(ctx, file);
    if b.ran && b.ustatus != UpdateStatus::NoStatus && peers.len() > 0 {
        assert(!finishes_alone(old(ctx).files@[file as int], entry_at(old(ctx).files@, file, entry as int)));
        let mut k: usize = 0;
        while k < peers.len()
            invariant
                file < old(ctx).files@.len(),
                !finishes_alone(old(ctx).files@[file as int], entry_at(old(ctx).files@, file, entry as int)),
            decreases peers@.len() - k,
        {
            let pid = peers[k];
            if pid < ctx.files.len() && !ctx.files[pid].phony {
                match work.f_mtime(ctx, pid, false) {
                    Ok(_) => {},
                    Err(e) => {
                        return Err(e);
                    },
                }
            }
            k += 1;
        }
        let mut k: usize = 0;
        while k < peers.len()
            invariant
                k <= peers@.len(),
                peers_finished_with(ctx.files@, peers@.subrange(0, k as int), b.ustatus),
            decreases peers@.len() - k,
        {
            let pid = peers[k];
            let ghost f0 = ctx.files@;
            if notice_peer_finished(ctx, pid, b.ustatus) {
                notice_peer_after_mtime(ctx, pid);
            }
            proof {
                let sub = peers@.subrange(0, k as int + 1);
                assert forall|j: int| 0 <= j < sub.len() && sub[j] < ctx.files@.len() implies {
                    let p = #[trigger] ctx.files@[sub[j] as int];
                    &&& p.command_state == CommandState::Finished
                    &&& p.updated
                    &&& p.update_status == b.ustatus
                } by {
                    if sub[j] != pid {
                        assert(peers@.subrange(0, k as int)[j] == sub[j]);
                        assert(ctx.files@[sub[j] as int] == f0[sub[j] as int]);
                    }
                }
            }
            k += 1;
        }
        assert(peers@.subrange(0, peers@.len() as int) =~= peers@);
        if tried_implicit && peers.len() > 0 {
            check_also_make(ctx, file, work);
        }
    } else if b.ustatus == UpdateStatus::NoStatus {
        let ghost f3 = ctx.files@;
        notice_status_reset(ctx, file, entry);
        proof {
            lemma_table_entry_set(f3, ctx.files@, file, entry as int, FileNode {
                update_status: UpdateStatus::Success,
                ..entry_at(f3, file, entry as int)
            });
            reveal(chain_all_at);
            if entry > 0 {
                assert(ctx.files@[file as int] == (FileNode { double_colon: ctx.files@[file as int].double_colon, ..f3[file as int] }));
                assert forall|k: int| 0 <= k < f3[file as int].double_colon@.len() implies #[trigger] ctx.files@[file as int].double_colon@[k].last_mtime
                    == f3[file as int].double_colon@[k].last_mtime by {}
            }
        }
    }
    Ok(())
}

// ─── remake_file ─────────────────────────────────────────────────────────

/// Set the update status of entry `entry` of `file` (nothing happens for a
/// file outside the table).
pub fn set_entry_status(ctx: &mut ExecContext, file: FileId, entry: usize, st: UpdateStatus)
    requires
        file < old(ctx).files@.len() ==> valid_entry(old(ctx).files@[file as int], entry as int),
    ensures
        file < old(ctx).files@.len() ==> table_entry_set(
            old(ctx).files@,
            final(ctx).files@,
            file,
            entry as int,
            FileNode { update_status: st, ..entry_at(old(ctx).files@, file, entry as int) },
        ),
        file >= old(ctx).files@.len() ==> *final(ctx) == *old(ctx),
        *final(ctx) == (ExecContext { files: final(ctx).files, ..*old(ctx) }),
{
    if file < ctx.files.len() {
        let n = entry_node_mut(&mut ctx.files[file], entry);
        n.update_status = st;
    }
}

/// A target without a recipe is complained about: it is no target and not
/// phony, and it is not a file we may do without while remaking the
/// makefiles.
pub open spec fn complains_here(ctx: ExecContext, phony: bool, is_target: bool, dontcare: bool) -> bool {
    !(phony || is_target) && (!ctx.opt_rebuilding_makefiles || !dontcare)
}

/// A target without a recipe: a phony or explicit target succeeds; any
/// other fails, after a "no rule" complaint unless the makefiles are being
/// remade and the file may be missing. A complaint that fails ends the
/// build with its error.
pub fn remake_no_recipe<W: UpdaterWork>(
    ctx: &mut ExecContext,
    file: FileId,
    entry: usize,
    phony: bool,
    is_target: bool,
    dontcare: bool,
    work: &mut W,
) -> (r: Result<(), BuildError>)
    requires
        file < old(ctx).files@.len() ==> valid_entry(old(ctx).files@[file as int], entry as int),
    ensures
        !complains_here(*old(ctx), phony, is_target, dontcare) ==> {
            &&& r is Ok
            &&& (file < old(ctx).files@.len() ==> table_entry_set(
                old(ctx).files@,
                final(ctx).files@,
                file,
                entry as int,
                FileNode {
                    update_status: if phony || is_target {
                        UpdateStatus::Success
                    } else {
                        UpdateStatus::Failed
                    },
                    ..entry_at(old(ctx).files@, file, entry as int)
                },
            ))
            &&& (file >= old(ctx).files@.len() ==> *final(ctx) == *old(ctx))
            &&& *final(ctx) == (ExecContext { files: final(ctx).files, ..*old(ctx) })
        },
        complains_here(*old(ctx), phony, is_target, dontcare) && r is Ok ==> (file < final(ctx).files@.len()
            && valid_entry(final(ctx).files@[file as int], entry as int) ==> entry_at(final(ctx).files@, file, entry as int).update_status
            == UpdateStatus::Failed),
{
    if phony || is_target {
        set_entry_status(ctx, file, entry, UpdateStatus::Success);
    } else {
        if !ctx.opt_rebuilding_makefiles || !dontcare {
            match work.complain(ctx, file) {
                Ok(()) => {},
                Err(e) => {
                    return Err(e);
                },
            }
        }
        if file >= ctx.files.len() || entry <= ctx.files[file].double_colon.len() {
            let ghost before = ctx.files@;
            set_entry_status(ctx, file, entry, UpdateStatus::Failed);
            if file < ctx.files.len() {
                assert(entry_at(ctx.files@, file, entry as int).update_status == UpdateStatus::Failed) by {
                    if entry > 0 {
                        assert(ctx.files@[file as int].double_colon@ == before[file as int].double_colon@.update(
                            entry - 1,
                            FileNode { update_status: UpdateStatus::Failed, ..entry_at(before, file, entry as int) },
                        ));
                    }
                }
            }
        }
    }
    Ok(())
}

/// Two replacements of one entry amount to the second one.
proof fn lemma_table_entry_set_twice(
    f0: Seq<FileNode>,
    f1: Seq<FileNode>,
    f2: Seq<FileNode>,
    file: FileId,
    entry: int,
    e1: FileNode,
    e2: FileNode,
)
    requires
        table_entry_set(f0, f1, file, entry, e1),
        table_entry_set(f1, f2, file, entry, e2),
        valid_entry(f0[file as int], entry),
    ensures
        table_entry_set(f0, f2, file, entry, e2),
{
    if entry > 0 {
        assert(f2[file as int].double_colon@ =~= f0[file as int].double_colon@.update(entry - 1, e2));
    }
}

/// Entry `e` of node `n` is finished by [`remake_file`] without running its
/// recipe: it has none and is phony or a target, or it has one, `-t` is on
/// and no line was known to recurse; and no grouped-target peer waits on it.
pub open spec fn remade_without_running(n: FileNode, e: FileNode, touch: bool) -> bool {
    &&& match e.recipe {
        None => e.phony || e.is_target,
        Some(rc) => touch && !rc.any_recurse,
    }
    &&& (e.command_state != CommandState::Running || referred_files(n.also_make@).len() == 0)
}

/// Set the recipe of entry `entry` of node `file` to `rc`, and give back the
/// one it had.
fn swap_entry_recipe(files: &mut Vec<FileNode>, file: FileId, entry: usize, rc: Option<Recipe>) -> (r: Option<Recipe>)
    requires
        file < old(files)@.len(),
        valid_entry(old(files)@[file as int], entry as int),
    ensures
        r == entry_at(old(files)@, file, entry as int).recipe,
        table_entry_set(old(files)@, final(files)@, file, entry as int, FileNode { recipe: rc, ..entry_at(old(files)@, file, entry as int) }),
{
    let n = entry_node_mut(&mut files[file], entry);
    let mut t = rc;
    std::mem::swap(&mut t, &mut n.recipe);
    t
}

/// Chop the recipe of entry `entry` of `file` into lines, in place.
#[verifier::rlimit(80)]
fn chop_entry_recipe<W: UpdaterWork>(ctx: &mut ExecContext, file: FileId, entry: usize, work: &mut W)
    requires
        file < old(ctx).files@.len(),
        valid_entry(old(ctx).files@[file as int], entry as int),
    ensures
        table_entry_set(
            old(ctx).files@,
            final(ctx).files@,
            file,
            entry as int,
            FileNode { recipe: entry_at(final(ctx).files@, file, entry as int).recipe, ..entry_at(old(ctx).files@, file, entry as int) },
        ),
        *final(ctx) == (ExecContext { files: final(ctx).files, ..*old(ctx) }),
{
    let ghost f0 = ctx.files@;
    let taken = swap_entry_recipe(&mut ctx.files, file, entry, None);
    let ghost e1 = FileNode { recipe: None, ..entry_at(f0, file, entry as int) };
    proof {
        lemma_table_entry_set(f0, ctx.files@, file, entry as int, e1);
    }
    match taken {
        Some(mut rc) => {
            work.chop_commands(ctx, &mut rc);
            let ghost f1 = ctx.files@;
            let ghost e2 = FileNode { recipe: Some(rc), ..e1 };
            let _ = swap_entry_recipe(&mut ctx.files, file, entry, Some(rc));
            proof {
                lemma_table_entry_set_twice(f0, f1, ctx.files@, file, entry as int, e1, e2);
                lemma_table_entry_set(f0, ctx.files@, file, entry as int, e2);
            }
        },
        None => {},
    }
}

/// Run the recipe of entry `entry` of `file` (under `-t`, unless a line
/// recurses, mark it a success instead and finish it); without a recipe, see
/// [`remake_no_recipe`] and finish it.
#[verifier::rlimit(100)]
#[verifier::spinoff_prover]
pub fn remake_file<W: UpdaterWork>(ctx: &mut ExecContext, file: FileId, entry: usize, work: &mut W) -> (r: Result<(), BuildError>)
    requires
        file < old(ctx).files@.len() ==> valid_entry(old(ctx).files@[file as int], entry as int),
    ensures
        r is Ok && file < old(ctx).files@.len() && remade_without_running(
            old(ctx).files@[file as int],
            entry_at(old(ctx).files@, file, entry as int),
            old(ctx).opt_touch,
        ) ==> {
            &&& file < final(ctx).files@.len()
            &&& valid_entry(final(ctx).files@[file as int], entry as int)
            &&& entry_at(final(ctx).files@, file, entry as int).command_state == CommandState::Finished
            &&& entry_at(final(ctx).files@, file, entry as int).updated
        },
        file < old(ctx).files@.len() && ({
            let e = entry_at(old(ctx).files@, file, entry as int);
            &&& e.recipe is None
            &&& e.phony || e.is_target
            &&& (e.command_state != CommandState::Running || referred_files(old(ctx).files@[file as int].also_make@).len() == 0)
        }) ==> r is Ok,
        file < old(ctx).files@.len() && ({
            let e = entry_at(old(ctx).files@, file, entry as int);
            &&& e.recipe is None
            &&& !complains_here(*old(ctx), e.phony, e.is_target, e.dontcare)
            &&& (e.command_state != CommandState::Running || referred_files(old(ctx).files@[file as int].also_make@).len() == 0)
        }) ==> {
            let e = entry_at(old(ctx).files@, file, entry as int);
            let e1 = entry_at(final(ctx).files@, file, entry as int);
            &&& r is Ok
            &&& file < final(ctx).files@.len()
            &&& valid_entry(final(ctx).files@[file as int], entry as int)
            &&& e1.update_status == if e.phony || e.is_target {
                UpdateStatus::Success
            } else {
                UpdateStatus::Failed
            }
            &&& e1.command_state == CommandState::Finished
            &&& e1.updated
            &&& e1.mtime_before_update == settled_before(e)
        },
{
    let (has_recipe, phony, is_target, dontcare, any_recurse) = if file < ctx.files.len() {
        let e = entry_ref(&ctx.files[file], entry);
        let any_recurse = match &e.recipe {
            Some(rc) => rc.any_recurse,
            None => false,
        };
        (e.recipe.is_some(), e.phony, e.is_target, e.dontcare, any_recurse)
    } else {
        (false, false, false, false, false)
    };
    if !has_recipe {
        let ghost f0 = ctx.files@;
        match remake_no_recipe(ctx, file, entry, phony, is_target, dontcare, work) {
            Ok(()) => {},
            Err(e) => {
                return Err(e);
            },
        }
        proof {
            if file < f0.len() && !complains_here(*old(ctx), phony, is_target, dontcare) {
                lemma_table_entry_set(f0, ctx.files@, file, entry as int, FileNode {
                    update_status: if phony || is_target {
                        UpdateStatus::Success
                    } else {
                        UpdateStatus::Failed
                    },
                    ..entry_at(f0, file, entry as int)
                });
                assert(!touch_due(*ctx, entry_at(ctx.files@, file, entry as int)));
                assert(ctx.files@[file as int].also_make == f0[file as int].also_make);
            }
        }
    } else {
        let ghost f0 = ctx.files@;
        chop_entry_recipe(ctx, file, entry, work);
        proof {
            lemma_table_entry_set(f0, ctx.files@, file, entry as int, FileNode {
                recipe: entry_at(ctx.files@, file, entry as int).recipe,
                ..entry_at(f0, file, entry as int)
            });
        }
        if !ctx.opt_touch || any_recurse {
            return work.execute_file_commands(ctx, file, entry);
        }
        let ghost f1 = ctx.files@;
        set_entry_status(ctx, file, entry, UpdateStatus::Success);
        proof {
            lemma_table_entry_set(f1, ctx.files@, file, entry as int, FileNode {
                update_status: UpdateStatus::Success,
                ..entry_at(f1, file, entry as int)
            });
        }
    }
    if file < ctx.files.len() && entry > ctx.files[file].double_colon.len() {
        return Ok(());
    }
    notice_finished_file(ctx, file, entry, work)
}

// ─── Grouped targets a recipe missed ─────────────────────────────────────

/// The warning for a grouped-target peer the recipe did not make.
pub open spec fn peer_warning(peer_name: Seq<u8>) -> Seq<u8> {
    "warning: pattern recipe did not update peer target '".spec_bytes() + peer_name + "'".spec_bytes()
}

/// A warning as values: its line and its text (the file is never known).
pub open spec fn diag_view(d: Diagnostic) -> (Option<Seq<u8>>, u64, u64, Seq<u8>) {
    (
        match d.floc.filenm {
            Some(f) => Some(f@),
            None => None,
        },
        d.floc.lineno,
        d.floc.offset,
        d.message@,
    )
}

/// The warnings as values.
pub open spec fn diags_view(ds: Seq<Diagnostic>) -> Seq<(Option<Seq<u8>>, u64, u64, Seq<u8>)> {
    ds.map_values(|d: Diagnostic| diag_view(d))
}

/// The line a warning about node `n` is located at: that of its recipe.
pub open spec fn recipe_line(n: FileNode) -> u64 {
    match n.recipe {
        Some(rc) => rc.defined_lineno,
        None => 0,
    }
}

/// The warnings for the first `k` grouped-target peers of node `file`: one
/// for each peer in the table whose file does not exist.
pub open spec fn peer_warnings(files: Seq<FileNode>, file: FileId, k: int) -> Seq<(Option<Seq<u8>>, u64, u64, Seq<u8>)>
    decreases k,
{
    if k <= 0 {
        Seq::empty()
    } else {
        let rest = peer_warnings(files, file, k - 1);
        let d = files[file as int].also_make@[k - 1];
        match d.file {
            Some(pid) => if pid < files.len() && files[pid as int].last_mtime == NONEXISTENT_MTIME {
                rest.push((None, recipe_line(files[file as int]), 0u64, peer_warning(d.name@)))
            } else {
                rest
            },
            None => rest,
        }
    }
}

/// The recipe of `file`, whose time is `mtime` now, updated it: the time is
/// an ordinary one, later than the time before the update.
pub open spec fn recipe_updated(n: FileNode, mtime: u64) -> bool {
    ORDINARY_MTIME_MIN <= mtime <= ordinary_mtime_max_value() && mtime > n.mtime_before_update
}

/// Warn, for a target whose recipe updated it (its time is now `mtime`),
/// about each grouped-target peer the recipe left missing.
pub fn also_make_warnings(ctx: &mut ExecContext, file: FileId, mtime: u64)
    requires
        file < old(ctx).files@.len(),
    ensures
        recipe_updated(old(ctx).files@[file as int], mtime) ==> diags_view(final(ctx).diagnostics@)
            == diags_view(old(ctx).diagnostics@) + peer_warnings(
            old(ctx).files@,
            file,
            old(ctx).files@[file as int].also_make@.len() as int,
        ),
        !recipe_updated(old(ctx).files@[file as int], mtime) ==> *final(ctx) == *old(ctx),
        *final(ctx) == (ExecContext { diagnostics: final(ctx).diagnostics, ..*old(ctx) }),
{
    let max = ordinary_mtime_max();
    if !(ORDINARY_MTIME_MIN <= mtime && mtime <= max && mtime > ctx.files[file].mtime_before_update) {
        return;
    }
    let n_peers = ctx.files[file].also_make.len();
    let lineno = match &ctx.files[file].recipe {
        Some(rc) => rc.defined_lineno,
        None => 0,
    };
    let mut k: usize = 0;
    while k < n_peers
        invariant
            k <= n_peers,
            file < ctx.files@.len(),
            n_peers == ctx.files@[file as int].also_make@.len(),
            lineno == recipe_line(ctx.files@[file as int]),
            ctx.files == old(ctx).files,
            *ctx == (ExecContext { diagnostics: ctx.diagnostics, ..*old(ctx) }),
            diags_view(ctx.diagnostics@) == diags_view(old(ctx).diagnostics@) + peer_warnings(ctx.files@, file, k as int),
        decreases n_peers - k,
    {
        let ghost before = ctx.diagnostics@;
        match ctx.files[file].also_make[k].file {
            Some(pid) => {
                if pid < ctx.files.len() && ctx.files[pid].last_mtime == NONEXISTENT_MTIME {
                    let mut msg: Vec<u8> = Vec::new();
                    push_slice(&mut msg, "warning: pattern recipe did not update peer target '".as_bytes());
                    push_slice(&mut msg, ctx.files[file].also_make[k].name.as_slice());
                    push_slice(&mut msg, "'".as_bytes());
                    ctx.diagnostics.push(Diagnostic { floc: Floc { filenm: None, lineno, offset: 0 }, message: msg });
                    assert(diags_view(ctx.diagnostics@) =~= diags_view(before).push(diag_view(ctx.diagnostics@.last())));
                }
            },
            None => {},
        }
        k += 1;
    }
}

/// After a pattern recipe ran: when it updated `file` (reading the time
/// from disk if it is not known), warn about each grouped-target peer it
/// left missing.
pub fn check_also_make<W: UpdaterWork>(ctx: &mut ExecContext, file: FileId, work: &mut W)
    ensures
        file >= old(ctx).files@.len() ==> *final(ctx) == *old(ctx),
        *final(ctx) == (ExecContext { diagnostics: final(ctx).diagnostics, ..*old(ctx) }),
        file < old(ctx).files@.len() && old(ctx).files@[file as int].last_mtime != UNKNOWN_MTIME ==> (
        if recipe_updated(old(ctx).files@[file as int], old(ctx).files@[file as int].last_mtime) {
            diags_view(final(ctx).diagnostics@) == diags_view(old(ctx).diagnostics@) + peer_warnings(
                old(ctx).files@,
                file,
                old(ctx).files@[file as int].also_make@.len() as int,
            )
        } else {
            *final(ctx) == *old(ctx)
        }),
{
    if file >= ctx.files.len() {
        return;
    }
    let mut mtime = ctx.files[file].last_mtime;
    if mtime == UNKNOWN_MTIME {
        let name = cname(ctx.files[file].name.as_slice());
        mtime = work.name_mtime(ctx, name.as_slice());
    }
    also_make_warnings(ctx, file, mtime);
}

// ─── The goal chain ──────────────────────────────────────────────────────

/// `-t`, `-q` and `-n` as given on the command line; while the makefiles
/// are remade, the ones in effect are switched off except for goals named
/// on the command line.
#[derive(Debug, Clone, Copy, PartialEq, Eq, Structural)]
pub struct GoalOptions {
    pub touch: bool,
    pub question: bool,
    pub just_print: bool,
}

/// The message for a goal that needed nothing: `Nothing to be done for
/// '<name>'.` for a phony goal or one without a recipe, else `'<name>' is up
/// to date.`
fn up_to_date_message(name: &[u8], nothing_to_do: bool) -> (r: Vec<u8>)
    ensures
        nothing_to_do ==> r@ == "Nothing to be done for '".spec_bytes() + name@ + "'.".spec_bytes(),
        !nothing_to_do ==> r@ == "'".spec_bytes() + name@ + "' is up to date.".spec_bytes(),
{
    let mut v: Vec<u8> = Vec::new();
    if nothing_to_do {
        push_slice(&mut v, "Nothing to be done for '".as_bytes());
        push_slice(&mut v, name);
        push_slice(&mut v, "'.".as_bytes());
    } else {
        push_slice(&mut v, "'".as_bytes());
        push_slice(&mut v, name);
        push_slice(&mut v, "' is up to date.".as_bytes());
    }
    v
}

/// The status of a goal pass after a goal that succeeded: it becomes
/// success when the goal's file was updated and its time changed (unless
/// makefiles are remade under `-n` or `-q`); a makefile that may be
/// missing then stops the pass. Otherwise the pass keeps `status`.
pub open spec fn goal_remade(
    status: UpdateStatus,
    updated: bool,
    mtime: u64,
    mtime_before_update: u64,
    rebuilding: bool,
    just_print: bool,
    question: bool,
    dontcare: bool,
) -> (UpdateStatus, bool) {
    if updated && mtime != mtime_before_update {
        (
            if !rebuilding || (!just_print && !question) {
                UpdateStatus::Success
            } else {
                status
            },
            rebuilding && dontcare,
        )
    } else {
        (status, false)
    }
}

/// A goal pass reports that something was remade only for a goal whose
/// file was updated and whose time changed: a goal that is up to date
/// (not updated, or its time the same as before) leaves the status as it
/// was and does not stop the pass.
pub proof fn law_unchanged_goal_keeps_status(
    status: UpdateStatus,
    updated: bool,
    mtime: u64,
    mtime_before_update: u64,
    rebuilding: bool,
    just_print: bool,
    question: bool,
    dontcare: bool,
)
    ensures
        ({
            let (s, stop) = goal_remade(status, updated, mtime, mtime_before_update, rebuilding, just_print, question, dontcare);
            &&& s != status ==> updated && mtime != mtime_before_update && s == UpdateStatus::Success
            &&& !(updated && mtime != mtime_before_update) ==> s == status && !stop
            &&& updated && mtime != mtime_before_update && !rebuilding ==> s == UpdateStatus::Success
        }),
{
}

/// [`goal_remade`].
fn remade_goal_status(
    status: UpdateStatus,
    updated: bool,
    mtime: u64,
    mtime_before_update: u64,
    rebuilding: bool,
    just_print: bool,
    question: bool,
    dontcare: bool,
) -> (r: (UpdateStatus, bool))
    ensures
        r == goal_remade(status, updated, mtime, mtime_before_update, rebuilding, just_print, question, dontcare),
        r.0 != status ==> updated && mtime != mtime_before_update && r.0 == UpdateStatus::Success,
        !(updated && mtime != mtime_before_update) ==> r == (status, false),
{
    let mut s = status;
    let mut stop = false;
    if updated && mtime != mtime_before_update {
        if !rebuilding || (!just_print && !question) {
            s = UpdateStatus::Success;
        }
        if rebuilding && dontcare {
            stop = true;
        }
    }
    (s, stop)
}

/// A goal whose target is already up to date in the current pass: made
/// earlier in the pass, finished with success, and with the time it had
/// before it was updated.
pub open spec fn goal_up_to_date(ctx: ExecContext, g: GoalDepNode) -> bool {
    match g.dep.file {
        None => true,
        Some(f) => f < ctx.files@.len() && {
            let n = ctx.files@[f as int];
            &&& n.renamed is None
            &&& n.considered == ctx.considered
            &&& !n.is_double_colon
            &&& n.updated
            &&& n.command_state == CommandState::Finished
            &&& n.update_status == UpdateStatus::Success
            &&& n.last_mtime != UNKNOWN_MTIME
            &&& n.last_mtime == n.mtime_before_update
        },
    }
}

/// One pass over the remaining goals: update each goal's target in turn
/// (a `.WAIT` goal waits while an earlier one is running), record the
/// status of the run, and drop the goals that are done (announcing those
/// that needed nothing). A question (`-q`) that finds work stops the pass.
/// A status of `Question` or worse, once reached, is kept, and a pass over
/// goals that are all up to date already ([`goal_up_to_date`]) leaves the
/// status as it was: nothing was remade.
pub fn update_goals_pass<W: UpdaterWork>(
    ctx: &mut ExecContext,
    goals: &mut Vec<GoalDepNode>,
    status_in: UpdateStatus,
    opts: GoalOptions,
    depth: u32,
    work: &mut W,
) -> (r: Result<UpdateStatus, BuildError>)
    ensures
        r matches Ok(s) ==> (us_rank(status_in) >= us_rank(UpdateStatus::Question) ==> s == status_in),
        final(goals)@.len() <= old(goals)@.len(),
        (forall|i: int| 0 <= i < old(goals)@.len() ==> (#[trigger] old(goals)@[i]).dep.file is None) ==> r
            == Ok::<UpdateStatus, BuildError>(status_in) && final(goals)@.len() == 0,
        (forall|i: int| 0 <= i < old(goals)@.len() ==> goal_up_to_date(*old(ctx), #[trigger] old(goals)@[i])) ==> r
            == Ok::<UpdateStatus, BuildError>(status_in),
{
    let mut status = status_in;
    let ghost status0 = status_in;
    let ghost all_up = forall|i: int| 0 <= i < old(goals)@.len() ==> goal_up_to_date(*old(ctx), #[trigger] old(goals)@[i]);
    let ghost considered0 = old(ctx).considered;
    let ghost nofiles = forall|i: int| 0 <= i < old(goals)@.len() ==> (#[trigger] old(goals)@[i]).dep.file is None;
    let mut running = false;
    let mut wait = false;
    let mut gi: usize = 0;
    while gi < goals.len()
        invariant
            nofiles == (forall|i: int| 0 <= i < old(goals)@.len() ==> (#[trigger] old(goals)@[i]).dep.file is None),
            nofiles ==> gi == 0 && status == status_in && !wait && forall|i: int| 0 <= i < goals@.len() ==> (#[trigger] goals@[i]).dep.file is None,
            gi <= goals@.len() <= old(goals)@.len(),
            status0 == status_in,
            us_rank(status0) >= us_rank(UpdateStatus::Question) ==> status == status0,
            all_up == (forall|i: int| 0 <= i < old(goals)@.len() ==> goal_up_to_date(*old(ctx), #[trigger] old(goals)@[i])),
            all_up ==> status == status_in && !running && ctx.considered == considered0 && forall|i: int|
                0 <= i < goals@.len() ==> goal_up_to_date(*ctx, #[trigger] goals@[i]),
        ensures
            nofiles ==> goals@.len() == 0 && status == status_in,
            all_up ==> status == status_in,
            gi <= goals@.len() <= old(goals)@.len(),
            us_rank(status0) >= us_rank(UpdateStatus::Question) ==> status == status0,
        decreases 2 * goals@.len() - gi,
    {
        let mut stop = false;
        let g_file = goals[gi].dep.file;
        let g_flags = goals[gi].dep.flags;
        let g_wait = goals[gi].dep.wait_here;
        ctx.goal_dep = Some((g_file, g_flags));
        let gf = match g_file {
            Some(f) => f,
            None => {
                goals.remove(gi);
                continue;
            },
        };
        let head = follow_renamed_bounded(ctx, gf);
        let mut cmd_target = false;
        if head < ctx.files.len() {
            ctx.files[head].dontcare = g_flags & RM_DONTCARE != 0;
            cmd_target = ctx.files[head].cmd_target;
        }
        if ctx.opt_rebuilding_makefiles {
            if cmd_target {
                ctx.opt_touch = opts.touch;
                ctx.opt_question = opts.question;
                ctx.opt_just_print = opts.just_print;
            } else {
                ctx.opt_just_print = false;
                ctx.opt_question = false;
                ctx.opt_touch = false;
            }
        }
        let ocommands_started = ctx.commands_started;
        wait = g_wait && running;
        if wait {
            if ctx.db_level & 2 != 0 {
                let name = node_name(ctx, head);
                let line = trace_name(".WAIT is blocking '".as_bytes(), cname(name.as_slice()).as_slice(), "'.\n".as_bytes());
                work.trace(ctx, depth, line.as_slice());
            }
            break;
        }
        let fail = match update_file(ctx, head, depth, work) {
            Ok(f) => f,
            Err(e) => {
                return Err(e);
            },
        };
        let head = follow_renamed_bounded(ctx, head);
        if head >= ctx.files.len() {
            goals.remove(gi);
            continue;
        }
        let cs = ctx.files[head].command_state;
        let updated = ctx.files[head].updated;
        let ustatus = ctx.files[head].update_status;
        let last_mtime = ctx.files[head].last_mtime;
        let mtime_before_update = ctx.files[head].mtime_before_update;
        let dontcare = ctx.files[head].dontcare;
        let phony = ctx.files[head].phony;
        let has_recipe = ctx.files[head].recipe.is_some();
        running = running || cs == CommandState::Running || cs == CommandState::DepsRunning;
        if ctx.commands_started > ocommands_started {
            goals[gi].dep.changed = true;
        }
        if (fail != UpdateStatus::Success || updated) && status.rank() < UpdateStatus::Question.rank() {
            if ustatus != UpdateStatus::Success {
                status = ustatus;
                stop = ctx.opt_question && !ctx.opt_keep_going && !ctx.opt_rebuilding_makefiles;
            } else {
                let mtime = if last_mtime == UNKNOWN_MTIME {
                    let search = !ctx.opt_rebuilding_makefiles;
                    match work.f_mtime(ctx, head, search) {
                        Ok(m) => m,
                        Err(e) => {
                            return Err(e);
                        },
                    }
                } else {
                    last_mtime
                };
                let (s2, stop2) = remade_goal_status(
                    status,
                    updated,
                    mtime,
                    mtime_before_update,
                    ctx.opt_rebuilding_makefiles,
                    ctx.opt_just_print,
                    ctx.opt_question,
                    dontcare,
                );
                status = s2;
                stop = stop2;
            }
        }
        if head < ctx.files.len() {
            ctx.files[head].dontcare = false;
        }
        let g_changed = goals[gi].dep.changed;
        if stop || updated {
            if !ctx.opt_rebuilding_makefiles && ustatus == UpdateStatus::Success && !g_changed
                && !ctx.opt_run_silent && !ctx.opt_question {
                let name = node_name(ctx, head);
                let text = up_to_date_message(name.as_slice(), phony || !has_recipe);
                work.message(ctx, text.as_slice());
            }
            goals.remove(gi);
            if stop {
                break;
            }
        } else {
            gi += 1;
        }
    }
    if gi >= goals.len() || wait {
        ctx.considered = ctx.considered.wrapping_add(1);
    }
    Ok(status)
}

/// A copy of a goal.
fn clone_goal(g: &GoalDepNode) -> (r: GoalDepNode)
    ensures
        crate::dep::same_dep(r.dep, g.dep),
        r.error == g.error,
        r.lineno == g.lineno,
        r.offset == g.offset,
        r.defined_in is Some <==> g.defined_in is Some,
{
    GoalDepNode {
        dep: g.dep.clone(),
        error: g.error,
        defined_in: match &g.defined_in {
            Some(d) => Some(crate::recipe::copy_bytes(d)),
            None => None,
        },
        lineno: g.lineno,
        offset: g.offset,
    }
}

/// A copy of a goal list.
fn clone_goals(v: &Vec<GoalDepNode>) -> (r: Vec<GoalDepNode>)
    ensures
        r@.len() == v@.len(),
        forall|i: int| 0 <= i < v@.len() ==> crate::dep::same_dep(#[trigger] r@[i].dep, v@[i].dep)
            && r@[i].error == v@[i].error,
{
    let mut out: Vec<GoalDepNode> = Vec::new();
    let mut k: usize = 0;
    while k < v.len()
        invariant
            k <= v@.len(),
            out@.len() == k,
            forall|i: int| 0 <= i < k ==> crate::dep::same_dep(#[trigger] out@[i].dep, v@[i].dep)
                && out@[i].error == v@[i].error,
        decreases v@.len() - k,
    {
        out.push(clone_goal(&v[k]));
        k += 1;
    }
    out
}

/// Begin updating the goals `goaldeps`: a new pass starts, the goals of a
/// makefile-remaking run are kept for [`show_goal_error`], and the working
/// list of goals, the `-t`/`-q`/`-n` options as given and the starting depth
/// (1 while remaking the makefiles) come back. The passes
/// ([`update_goals_pass`]) then run until no goal is left, jobs being started
/// and reaped between them.
pub fn goal_chain_begin(ctx: &mut ExecContext, goaldeps: &Vec<GoalDepNode>) -> (r: (Vec<GoalDepNode>, GoalOptions, u32))
    ensures
        r.0@.len() == goaldeps@.len(),
        forall|i: int| 0 <= i < goaldeps@.len() ==> crate::dep::same_dep(#[trigger] r.0@[i].dep, goaldeps@[i].dep),
        r.1 == (GoalOptions { touch: old(ctx).opt_touch, question: old(ctx).opt_question, just_print: old(ctx).opt_just_print }),
        r.2 == (if old(ctx).opt_rebuilding_makefiles { 1u32 } else { 0u32 }),
        final(ctx).considered == old(ctx).considered.wrapping_add(1),
        old(ctx).opt_rebuilding_makefiles ==> final(ctx).goal_list@.len() == goaldeps@.len(),
        !old(ctx).opt_rebuilding_makefiles ==> final(ctx).goal_list@.len() == 0,
        *final(ctx) == (ExecContext { considered: final(ctx).considered, goal_list: final(ctx).goal_list, ..*old(ctx) }),
{
    let opts = GoalOptions { touch: ctx.opt_touch, question: ctx.opt_question, just_print: ctx.opt_just_print };
    let depth: u32 = if ctx.opt_rebuilding_makefiles {
        1
    } else {
        0
    };
    let goals = clone_goals(goaldeps);
    ctx.goal_list = if ctx.opt_rebuilding_makefiles {
        clone_goals(goaldeps)
    } else {
        Vec::new()
    };
    ctx.considered = ctx.considered.wrapping_add(1);
    (goals, opts, depth)
}

/// End updating the goals: after remaking the makefiles, `-t`, `-q` and
/// `-n` are back as given.
pub fn goal_chain_end(ctx: &mut ExecContext, opts: GoalOptions)
    ensures
        old(ctx).opt_rebuilding_makefiles ==> *final(ctx) == (ExecContext {
            opt_touch: opts.touch,
            opt_question: opts.question,
            opt_just_print: opts.just_print,
            ..*old(ctx)
        }),
        !old(ctx).opt_rebuilding_makefiles ==> *final(ctx) == *old(ctx),
{
    if ctx.opt_rebuilding_makefiles {
        ctx.opt_touch = opts.touch;
        ctx.opt_question = opts.question;
        ctx.opt_just_print = opts.just_print;
    }
}

/// The remaking goal of `file` among the first `k` goals.
pub open spec fn goal_index(goals: Seq<GoalDepNode>, file: Option<FileId>, k: int) -> Option<int>
    decreases goals.len() - k,
{
    if !(0 <= k < goals.len()) {
        None
    } else if goals[k].dep.file == file {
        Some(k)
    } else {
        goal_index(goals, file, k + 1)
    }
}

/// Give the deferred error of reading the current goal, when it was an
/// included makefile that must exist: the error of its remaking goal, if
/// any, is reported once (`<name>: <error text>`, located where the goal
/// was named) and cleared.
pub fn show_goal_error<W: UpdaterWork>(ctx: &mut ExecContext, work: &mut W)
    ensures
        *final(ctx) == (ExecContext { goal_list: final(ctx).goal_list, diagnostics: final(ctx).diagnostics, ..*old(ctx) }),
        final(ctx).goal_list@.len() == old(ctx).goal_list@.len(),
        old(ctx).diagnostics@.is_prefix_of(final(ctx).diagnostics@),
        final(ctx).diagnostics@.len() <= old(ctx).diagnostics@.len() + 1,
        ({
            match old(ctx).goal_dep {
                None => *final(ctx) == *old(ctx),
                Some((cur_file, cur_flags)) => {
                    if cur_flags & (RM_INCLUDED | RM_DONTCARE) != RM_INCLUDED {
                        *final(ctx) == *old(ctx)
                    } else {
                        match goal_index(old(ctx).goal_list@, cur_file, 0) {
                            None => *final(ctx) == *old(ctx),
                            Some(k) => {
                                &&& final(ctx).goal_list@[k].error == 0
                                &&& (old(ctx).goal_list@[k].error == 0 ==> final(ctx).diagnostics@.len()
                                    == old(ctx).diagnostics@.len())
                                &&& (old(ctx).goal_list@[k].error != 0 ==> {
                                    &&& final(ctx).diagnostics@.len() == old(ctx).diagnostics@.len() + 1
                                    &&& (final(ctx).diagnostics@.last().floc.filenm is Some
                                        <==> old(ctx).goal_list@[k].defined_in is Some)
                                    &&& (old(ctx).goal_list@[k].defined_in is Some ==> {
                                        &&& final(ctx).diagnostics@.last().floc.lineno == old(ctx).goal_list@[k].lineno
                                        &&& final(ctx).diagnostics@.last().floc.offset == old(ctx).goal_list@[k].offset
                                    })
                                })
                            },
                        }
                    }
                },
            }
        }),
{
    let (cur_file, cur_flags) = match ctx.goal_dep {
        Some(g) => g,
        None => {
            assert(old(ctx).diagnostics@.is_prefix_of(ctx.diagnostics@));
            return;
        },
    };
    if cur_flags & (RM_INCLUDED | RM_DONTCARE) != RM_INCLUDED {
        assert(old(ctx).diagnostics@.is_prefix_of(ctx.diagnostics@));
        return;
    }
    let mut k: usize = 0;
    while k < ctx.goal_list.len()
        invariant
            k <= ctx.goal_list@.len(),
            *ctx == *old(ctx),
            old(ctx).goal_dep == Some((cur_file, cur_flags)),
            cur_flags & (RM_INCLUDED | RM_DONTCARE) == RM_INCLUDED,
            goal_index(ctx.goal_list@, cur_file, k as int) == goal_index(ctx.goal_list@, cur_file, 0),
        decreases ctx.goal_list@.len() - k,
    {
        if ctx.goal_list[k].dep.file == cur_file {
            let err = ctx.goal_list[k].error;
            if err != 0 {
                let name = match cur_file {
                    Some(f) => node_name(ctx, f),
                    None => Vec::new(),
                };
                let text = work.strerror(err);
                let mut msg: Vec<u8> = Vec::new();
                push_slice(&mut msg, name.as_slice());
                push_slice(&mut msg, ": ".as_bytes());
                push_slice(&mut msg, text.as_slice());
                let floc = match &ctx.goal_list[k].defined_in {
                    Some(d) => Floc {
                        filenm: Some(crate::recipe::copy_bytes(d)),
                        lineno: ctx.goal_list[k].lineno,
                        offset: ctx.goal_list[k].offset,
                    },
                    None => Floc { filenm: None, lineno: 0, offset: 0 },
                };
                ctx.diagnostics.push(Diagnostic { floc, message: msg });
                ctx.goal_list[k].error = 0;
                assert(old(ctx).diagnostics@.is_prefix_of(ctx.diagnostics@));
            }
            assert(old(ctx).diagnostics@.is_prefix_of(ctx.diagnostics@));
            return;
        }
        k += 1;
    }
    assert(old(ctx).diagnostics@.is_prefix_of(ctx.diagnostics@));
}


// ─── Complaining about a missing rule ────────────────────────────────────

/// The first prerequisite of node `file` that failed and whose diagnostics
/// were held back along with `file`'s (only while `file`'s are held back).
pub open spec fn blamed_dep(files: Seq<FileNode>, file: FileId, k: int) -> Option<FileId>
    decreases files[file as int].deps@.len() - k,
{
    let deps = files[file as int].deps@;
    if k < 0 || k >= deps.len() || !files[file as int].no_diag {
        None
    } else {
        match deps[k].file {
            Some(df) => if df < files.len() && files[df as int].updated && us_rank(files[df as int].update_status)
                > us_rank(UpdateStatus::NoStatus) {
                Some(df)
            } else {
                blamed_dep(files, file, k + 1)
            },
            None => blamed_dep(files, file, k + 1),
        }
    }
}

/// The name of node `id`, or nothing outside the table.
pub open spec fn name_of(files: Seq<FileNode>, id: FileId) -> Seq<u8> {
    if id < files.len() {
        files[id as int].name@
    } else {
        Seq::empty()
    }
}

/// The message that there is no rule to make the target `name` (needed by
/// `parent`, if known): plain when it ends the run, marked with `***` and a
/// full stop under `-k`.
pub open spec fn no_rule_message(name: Seq<u8>, parent: Option<Seq<u8>>, keep_going: bool) -> Seq<u8> {
    let lead = if keep_going {
        "*** ".spec_bytes()
    } else {
        Seq::empty()
    };
    let tail = if keep_going {
        ".".spec_bytes()
    } else {
        Seq::empty()
    };
    match parent {
        Some(p) => lead + "No rule to make target '".spec_bytes() + name + "', needed by '".spec_bytes() + p + "'".spec_bytes()
            + tail,
        None => lead + "No rule to make target '".spec_bytes() + name + "'".spec_bytes() + tail,
    }
}

/// Build [`no_rule_message`].
fn no_rule_text(name: &[u8], parent: Option<&[u8]>, keep_going: bool) -> (r: Vec<u8>)
    ensures
        r@ == no_rule_message(name@, match parent {
            Some(p) => Some(p@),
            None => None,
        }, keep_going),
{
    let mut m: Vec<u8> = Vec::new();
    if keep_going {
        push_slice(&mut m, "*** ".as_bytes());
    }
    push_slice(&mut m, "No rule to make target '".as_bytes());
    push_slice(&mut m, name);
    match parent {
        Some(p) => {
            push_slice(&mut m, "', needed by '".as_bytes());
            push_slice(&mut m, p);
            push_slice(&mut m, "'".as_bytes());
        },
        None => {
            push_slice(&mut m, "'".as_bytes());
        },
    }
    if keep_going {
        push_slice(&mut m, ".".as_bytes());
    }
    m
}

/// The first blamed prerequisite from position `k` on.
fn find_blamed_dep(ctx: &ExecContext, file: FileId) -> (r: Option<FileId>)
    requires
        file < ctx.files@.len(),
    ensures
        r == blamed_dep(ctx.files@, file, 0),
{
    let n = &ctx.files[file];
    if !n.no_diag {
        return None;
    }
    let mut k: usize = 0;
    while k < n.deps.len()
        invariant
            k <= n.deps@.len(),
            n == ctx.files@[file as int],
            n.no_diag,
            blamed_dep(ctx.files@, file, k as int) == blamed_dep(ctx.files@, file, 0),
        decreases n.deps@.len() - k,
    {
        match n.deps[k].file {
            Some(df) => {
                if df < ctx.files.len() && ctx.files[df].updated && ctx.files[df].update_status.rank()
                    > UpdateStatus::NoStatus.rank() {
                    return Some(df);
                }
            },
            None => {},
        }
        k += 1;
    }
    None
}

/// Report that there is no rule to make target `file`: when its diagnostics
/// were held back and a prerequisite of it failed, the blame goes to that
/// prerequisite (its own complaint); otherwise the deferred error of the
/// current goal is shown, then the message ([`no_rule_message`], naming the
/// target that needed it), which ends the run unless `-k`; then the target's
/// diagnostics are no longer held back.
pub fn complain<W: UpdaterWork>(ctx: &mut ExecContext, file: FileId, work: &mut W) -> (r: Result<(), BuildError>)
    ensures
        file >= old(ctx).files@.len() ==> r is Ok && *final(ctx) == *old(ctx),
        file < old(ctx).files@.len() && blamed_dep(old(ctx).files@, file, 0) is None ==> {
            &&& final(ctx).diagnostics@.len() > 0
            &&& final(ctx).diagnostics@.last().message@ == no_rule_message(
                old(ctx).files@[file as int].name@,
                match old(ctx).files@[file as int].marks.parent {
                    Some(p) => Some(name_of(old(ctx).files@, p)),
                    None => None,
                },
                old(ctx).opt_keep_going,
            )
            &&& (r is Err <==> !old(ctx).opt_keep_going)
            &&& final(ctx).files@ == (if old(ctx).opt_keep_going {
                old(ctx).files@.update(file as int, FileNode { no_diag: false, ..old(ctx).files@[file as int] })
            } else {
                old(ctx).files@
            })
        },
{
    if file >= ctx.files.len() {
        return Ok(());
    }
    match find_blamed_dep(ctx, file) {
        Some(df) => {
            return work.complain(ctx, df);
        },
        None => {},
    }
    let ghost files0 = ctx.files@;
    let ghost keep0 = ctx.opt_keep_going;
    show_goal_error(ctx, work);
    assert(ctx.files@ == files0);
    let name = crate::recipe::copy_bytes(&ctx.files[file].name);
    let keep_going = ctx.opt_keep_going;
    let m = match ctx.files[file].marks.parent {
        Some(p) => {
            let pname = node_name(ctx, p);
            no_rule_text(name.as_slice(), Some(pname.as_slice()), keep_going)
        },
        None => no_rule_text(name.as_slice(), None, keep_going),
    };
    ctx.diagnostics.push(Diagnostic { floc: Floc { filenm: None, lineno: 0, offset: 0 }, message: m });
    if !keep_going {
        return Err(BuildError::Failure);
    }
    ctx.files[file].no_diag = false;
    Ok(())
}

// ─── Laws ────────────────────────────────────────────────────────────────

/// Setting a command state never lowers the state of any other node, and
/// leaves every grouped-target peer at least at the new state.
pub proof fn law_command_state_never_lowers(old: Seq<FileNode>, new: Seq<FileNode>, id: FileId, state: CommandState)
    requires
        id < old.len(),
        states_raised(old, new, id, state, old[id as int].also_make@.len() as int),
    ensures
        new[id as int].command_state == state,
        forall|j: int| 0 <= j < old.len() && j != id ==> cs_rank(#[trigger] new[j].command_state) >= cs_rank(old[j].command_state),
        forall|j: int|
            0 <= j < old.len() && j != id && peer_within(old[id as int], j, old[id as int].also_make@.len() as int)
                ==> cs_rank(#[trigger] new[j].command_state) >= cs_rank(state),
{
    assert(new[id as int] == (FileNode { command_state: raised_state(old, id, state, id as int, old[id as int].also_make@.len() as int), ..old[id as int] }));
    assert forall|j: int| 0 <= j < old.len() && j != id implies cs_rank(#[trigger] new[j].command_state) >= cs_rank(old[j].command_state) by {
        assert(new[j] == (FileNode { command_state: raised_state(old, id, state, j, old[id as int].also_make@.len() as int), ..old[j] }));
    }
    assert forall|j: int|
        0 <= j < old.len() && j != id && peer_within(old[id as int], j, old[id as int].also_make@.len() as int)
            implies cs_rank(#[trigger] new[j].command_state) >= cs_rank(state) by {
        assert(new[j] == (FileNode { command_state: raised_state(old, id, state, j, old[id as int].also_make@.len() as int), ..old[j] }));
    }
}

/// Once the timestamps of a double-colon chain whose entries are all updated
/// are propagated, the head and every entry carry the same timestamp.
pub proof fn law_double_colon_uniform(old: FileNode, new: FileNode)
    requires
        propagated(old, new),
        old.is_double_colon,
        old.double_colon@.len() > 0,
        all_entries_updated(old),
    ensures
        forall|k: int| 0 <= k < new.double_colon@.len() ==> #[trigger] new.double_colon@[k].last_mtime == new.last_mtime,
{
    assert forall|k: int| 0 <= k < new.double_colon@.len() implies #[trigger] new.double_colon@[k].last_mtime == new.last_mtime by {
        assert(new.double_colon@[k] == (FileNode {
            last_mtime: dc_max(old.last_mtime, old.double_colon@, old.double_colon@.len() as int),
            ..old.double_colon@[k]
        }));
    }
}

/// Once any timestamp in the fold is unknown, the fold stays unknown: an
/// unknown time of the head propagates to the whole chain.
pub proof fn law_unknown_mtime_absorbs(es: Seq<FileNode>, k: int)
    requires
        0 <= k <= es.len(),
    ensures
        dc_max(UNKNOWN_MTIME, es, k) == UNKNOWN_MTIME,
    decreases k,
{
    if k > 0 {
        law_unknown_mtime_absorbs(es, k - 1);
    }
}

/// Updating the goals while the makefiles are remade gives `-t`, `-q` and
/// `-n` back as they were before, whatever the passes switched them to.
pub proof fn law_goal_chain_restores_options(before: ExecContext, opts: GoalOptions, during: ExecContext, after: ExecContext)
    requires
        opts == (GoalOptions { touch: before.opt_touch, question: before.opt_question, just_print: before.opt_just_print }),
        during.opt_rebuilding_makefiles,
        after == (ExecContext {
            opt_touch: opts.touch,
            opt_question: opts.question,
            opt_just_print: opts.just_print,
            ..during
        }),
    ensures
        after.opt_touch == before.opt_touch,
        after.opt_question == before.opt_question,
        after.opt_just_print == before.opt_just_print,
{
}

} // verus!
