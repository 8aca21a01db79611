//! The jobserver state the job runner reads: its style and the private read
//! end of its pipe.

use vstd::prelude::*;
use crate::execctx::ExecContext;

verus! {

/// The jobserver style.
#[derive(Debug, Clone, Copy, PartialEq, Eq, Structural)]
pub enum JsType {
    /// No jobserver.
    NoJobserver,
    /// A pipe inherited or created.
    Pipe,
    /// A named fifo.
    Fifo,
}

/// The code a jobserver style is stored as.
pub open spec fn js_code(t: JsType) -> u8 {
    match t {
        JsType::NoJobserver => 0,
        JsType::Pipe => 1,
        JsType::Fifo => 2,
    }
}

/// The jobserver style a stored code stands for (an unknown code reads as
/// no jobserver).
pub open spec fn js_of_code(c: u8) -> JsType {
    if c == 1 {
        JsType::Pipe
    } else if c == 2 {
        JsType::Fifo
    } else {
        JsType::NoJobserver
    }
}

/// The jobserver style in use.
pub fn js_type_get(ctx: &ExecContext) -> (r: JsType)
    ensures
        r == js_of_code(ctx.js_type),
{
    if ctx.js_type == 1 {
        JsType::Pipe
    } else if ctx.js_type == 2 {
        JsType::Fifo
    } else {
        JsType::NoJobserver
    }
}

/// Record the jobserver style in use.
pub fn js_type_set(ctx: &mut ExecContext, t: JsType)
    ensures
        *final(ctx) == (ExecContext { js_type: js_code(t), ..*old(ctx) }),
        js_of_code(final(ctx).js_type) == t,
{
    ctx.js_type = match t {
        JsType::NoJobserver => 0,
        JsType::Pipe => 1,
        JsType::Fifo => 2,
    };
}

/// The private read end of the jobserver pipe (negative when none).
pub fn job_rfd(ctx: &ExecContext) -> (r: i32)
    ensures
        r == ctx.job_rfd,
{
    ctx.job_rfd
}

/// The read end used for blocking token reads: the pipe's own, since the
/// blocking read is interruptible already.
pub fn make_job_rfd() -> (r: i32)
    ensures
        r == 0,
{
    0
}

/// `1` when a jobserver is active, else `0`.
pub fn jobserver_enabled(ctx: &ExecContext) -> (r: u32)
    ensures
        r == if js_of_code(ctx.js_type) != JsType::NoJobserver { 1u32 } else { 0u32 },
{
    if js_type_get(ctx) != JsType::NoJobserver {
        1
    } else {
        0
    }
}

/// The auth value handed to non-recursive children so they detect the
/// jobserver used without a `+` prefix; a fifo-style jobserver has none.
pub fn jobserver_get_invalid_auth(ctx: &ExecContext) -> (r: Option<&'static str>)
    ensures
        js_of_code(ctx.js_type) == JsType::Fifo ==> r is None,
        js_of_code(ctx.js_type) != JsType::Fifo ==> (r matches Some(s) && s@ == " --jobserver-auth=-2,-2"@),
{
    if js_type_get(ctx) == JsType::Fifo {
        None
    } else {
        Some(" --jobserver-auth=-2,-2")
    }
}

/// `1` when the output-sync lock is available, else `0`.
pub fn osync_enabled(ctx: &ExecContext) -> (r: u32)
    ensures
        r == if ctx.osync_handle >= 0 { 1u32 } else { 0u32 },
{
    if ctx.osync_handle >= 0 {
        1
    } else {
        0
    }
}

/// The jobserver style read back is the one last recorded.
pub proof fn law_js_type_round_trip(t: JsType)
    ensures
        js_of_code(js_code(t)) == t,
{
}

} // verus!
