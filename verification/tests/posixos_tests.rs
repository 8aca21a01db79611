use lib::execctx::ExecContext;
use lib::posixos::{
    job_rfd, jobserver_enabled, jobserver_get_invalid_auth, js_type_get, js_type_set,
    osync_enabled, JsType,
};

#[test]
fn job_rfd_tracks_atomic() {
    let mut ctx = ExecContext::default();
    assert_eq!(job_rfd(&ctx), -1, "default is unset");

    ctx.job_rfd = 5;
    assert_eq!(job_rfd(&ctx), 5, "reflects the stored fd");
}

#[test]
fn osync_enabled_tracks_handle_sign() {
    let mut ctx = ExecContext::default();

    ctx.osync_handle = -1;
    assert_eq!(osync_enabled(&ctx), 0, "negative handle is disabled");

    ctx.osync_handle = 0;
    assert_eq!(osync_enabled(&ctx), 1, "fd 0 is enabled");

    ctx.osync_handle = 7;
    assert_eq!(osync_enabled(&ctx), 1, "positive fd is enabled");
}

#[test]
fn jobserver_enabled_tracks_js_type() {
    let mut ctx = ExecContext::default();

    js_type_set(&mut ctx, JsType::NoJobserver);
    assert!(js_type_get(&ctx) == JsType::NoJobserver);
    assert_eq!(jobserver_enabled(&ctx), 0, "None is disabled");

    js_type_set(&mut ctx, JsType::Pipe);
    assert!(js_type_get(&ctx) == JsType::Pipe);
    assert_eq!(jobserver_enabled(&ctx), 1, "Pipe is enabled");

    js_type_set(&mut ctx, JsType::Fifo);
    assert!(js_type_get(&ctx) == JsType::Fifo);
    assert_eq!(jobserver_enabled(&ctx), 1, "Fifo is enabled");
}

#[test]
fn invalid_auth_is_null_only_for_fifo() {
    let mut ctx = ExecContext::default();

    js_type_set(&mut ctx, JsType::Fifo);
    assert!(jobserver_get_invalid_auth(&ctx).is_none(), "fifo has no marker");

    for t in [JsType::NoJobserver, JsType::Pipe] {
        js_type_set(&mut ctx, t);
        let p = jobserver_get_invalid_auth(&ctx);
        assert!(p.is_some(), "non-fifo returns the sentinel auth");
        assert_eq!(p.unwrap().as_bytes(), b" --jobserver-auth=-2,-2");
    }
}
