//! Remote job execution: the backend interface a customs-style remote
//! executor implements, the stub backend that runs nothing remotely, and the
//! dispatchers the job runner calls.
//!
//! A backend hands its results back through `&mut` parameters; the `errno`
//! it reports is one of them.

use vstd::prelude::*;

verus! {

/// A process id.
#[allow(non_camel_case_types)]
pub type pid_t = i32;

/// The `errno` value "no child processes".
pub const ECHILD: i32 = 10;

/// A remote execution backend.
pub trait RemoteBackend {
    /// Whether the backend accepts a job now (`first` for the first job of a
    /// target).
    spec fn accepts_job(&self, first: bool) -> bool;

    /// What `kill` returns for the remote job `id` and signal `sig`.
    spec fn kill_result(&self, id: pid_t, sig: i32) -> i32;

    /// What `status` returns, and the `errno` it reports, when asked
    /// (waiting if `block`).
    spec fn status_answer(&self, block: bool) -> (i32, i32);

    /// Set the backend up before any job runs.
    fn setup(&self) {
    }

    /// Release the backend after the last job.
    fn cleanup(&self) {
    }

    /// The backend's description, printed by `-v`.
    fn description(&self) -> (r: Option<&'static str>)
        default_ensures
            r is None,
    {
        None
    }

    /// Whether a job may start remotely now.
    fn can_start_job(&self, first: bool) -> (r: bool)
        ensures
            r == self.accepts_job(first),
    ;

    /// Start a job remotely; `-1` when it did not start. On success the
    /// backend sets `is_remote`, `id_ptr` and `used_stdin`.
    fn start_job(
        &self,
        argv: &[Vec<u8>],
        envp: &[Vec<u8>],
        stdin_fd: i32,
        is_remote: &mut i32,
        id_ptr: &mut pid_t,
        used_stdin: &mut i32,
    ) -> i32;

    /// Collect the status of a finished remote job (waiting if `block`);
    /// `-1` with `errno` set when there is none.
    fn status(
        &self,
        exit_code: &mut i32,
        signal: &mut i32,
        coredump: &mut i32,
        block: bool,
        errno: &mut i32,
    ) -> (r: i32)
        ensures
            r == self.status_answer(block).0,
            *final(errno) == self.status_answer(block).1,
    ;

    /// Block the delivery of remote children's completion.
    fn block_children(&self) {
    }

    /// Unblock the delivery of remote children's completion.
    fn unblock_children(&self) {
    }

    /// Send `sig` to the remote job `id`.
    fn kill(&self, id: pid_t, sig: i32) -> (r: i32)
        ensures
            r == self.kill_result(id, sig),
    ;
}

/// The backend that runs no job remotely.
pub struct StubRemote;

impl RemoteBackend for StubRemote {
    open spec fn accepts_job(&self, first: bool) -> bool {
        false
    }

    open spec fn status_answer(&self, block: bool) -> (i32, i32) {
        (-1i32, ECHILD)
    }

    open spec fn kill_result(&self, id: pid_t, sig: i32) -> i32 {
        -1i32
    }

    fn can_start_job(&self, _first: bool) -> (r: bool) {
        false
    }

    fn start_job(
        &self,
        _argv: &[Vec<u8>],
        _envp: &[Vec<u8>],
        _stdin_fd: i32,
        _is_remote: &mut i32,
        _id_ptr: &mut pid_t,
        _used_stdin: &mut i32,
    ) -> (r: i32)
        ensures
            r == -1,
            *final(_is_remote) == *old(_is_remote),
            *final(_id_ptr) == *old(_id_ptr),
            *final(_used_stdin) == *old(_used_stdin),
    {
        -1
    }

    fn status(
        &self,
        _exit_code: &mut i32,
        _signal: &mut i32,
        _coredump: &mut i32,
        _block: bool,
        errno: &mut i32,
    ) -> (r: i32)
        ensures
            r == -1,
            *final(errno) == ECHILD,
            *final(_exit_code) == *old(_exit_code),
            *final(_signal) == *old(_signal),
            *final(_coredump) == *old(_coredump),
    {
        *errno = ECHILD;
        -1
    }

    fn kill(&self, _id: pid_t, _sig: i32) -> (r: i32) {
        -1
    }
}

/// The part of the execution context that holds the remote backend.
pub struct RemoteContext<B: RemoteBackend> {
    pub remote_backend: B,
}

/// Set the remote backend up.
pub fn remote_setup<B: RemoteBackend>(ctx: &RemoteContext<B>) {
    ctx.remote_backend.setup();
}

/// Release the remote backend.
pub fn remote_cleanup<B: RemoteBackend>(ctx: &RemoteContext<B>) {
    ctx.remote_backend.cleanup();
}

/// The remote backend's description.
pub fn remote_description<B: RemoteBackend>(ctx: &RemoteContext<B>) -> Option<&'static str> {
    ctx.remote_backend.description()
}

/// `1` when a job may start remotely now, else `0` (`first_p` nonzero for
/// the first job of a target).
pub fn start_remote_job_p<B: RemoteBackend>(ctx: &RemoteContext<B>, first_p: i32) -> (r: i32)
    ensures
        r == if ctx.remote_backend.accepts_job(first_p != 0) {
            1i32
        } else {
            0i32
        },
{
    if ctx.remote_backend.can_start_job(first_p != 0) {
        1
    } else {
        0
    }
}

/// Start a job remotely through the backend.
pub fn start_remote_job<B: RemoteBackend>(
    ctx: &RemoteContext<B>,
    argv: &[Vec<u8>],
    envp: &[Vec<u8>],
    stdin_fd: i32,
    is_remote: &mut i32,
    id_ptr: &mut pid_t,
    used_stdin: &mut i32,
) -> i32 {
    ctx.remote_backend.start_job(argv, envp, stdin_fd, is_remote, id_ptr, used_stdin)
}

/// Collect a remote job's status through the backend (`block` nonzero to
/// wait).
pub fn remote_status<B: RemoteBackend>(
    ctx: &RemoteContext<B>,
    exit_code: &mut i32,
    signal: &mut i32,
    coredump: &mut i32,
    block: i32,
    errno: &mut i32,
) -> (r: i32)
    ensures
        r == ctx.remote_backend.status_answer(block != 0).0,
        *final(errno) == ctx.remote_backend.status_answer(block != 0).1,
{
    ctx.remote_backend.status(exit_code, signal, coredump, block != 0, errno)
}

/// Block remote children's completion.
pub fn block_remote_children<B: RemoteBackend>(ctx: &RemoteContext<B>) {
    ctx.remote_backend.block_children();
}

/// Unblock remote children's completion.
pub fn unblock_remote_children<B: RemoteBackend>(ctx: &RemoteContext<B>) {
    ctx.remote_backend.unblock_children();
}

/// Send `sig` to the remote job `id` through the backend.
pub fn remote_kill<B: RemoteBackend>(ctx: &RemoteContext<B>, id: pid_t, sig: i32) -> (r: i32)
    ensures
        r == ctx.remote_backend.kill_result(id, sig),
{
    ctx.remote_backend.kill(id, sig)
}

} // verus!
