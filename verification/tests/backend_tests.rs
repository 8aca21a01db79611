use lib::posixos::make_job_rfd;
use lib::remote_stub::{
    block_remote_children, remote_cleanup, remote_description, remote_kill, remote_setup,
    remote_status, start_remote_job, start_remote_job_p, unblock_remote_children, RemoteContext,
    StubRemote, ECHILD,
};

#[test]
fn the_stub_runs_nothing_remotely() {
    let ctx = RemoteContext { remote_backend: StubRemote };
    remote_setup(&ctx);
    assert!(remote_description(&ctx).is_none());
    assert_eq!(start_remote_job_p(&ctx, 1), 0);
    assert_eq!(start_remote_job_p(&ctx, 0), 0);
    let (mut is_remote, mut id, mut used) = (7, 8, 9);
    assert_eq!(start_remote_job(&ctx, &[b"sh".to_vec()], &[], 0, &mut is_remote, &mut id, &mut used), -1);
    assert_eq!((is_remote, id, used), (7, 8, 9));
    let (mut code, mut sig, mut core, mut errno) = (1, 2, 3, 0);
    assert_eq!(remote_status(&ctx, &mut code, &mut sig, &mut core, 1, &mut errno), -1);
    assert_eq!(errno, ECHILD);
    assert_eq!((code, sig, core), (1, 2, 3));
    assert_eq!(remote_kill(&ctx, 42, 15), -1);
    block_remote_children(&ctx);
    unblock_remote_children(&ctx);
    remote_cleanup(&ctx);
}

#[test]
fn blocking_reads_use_the_pipe_itself() {
    assert_eq!(make_job_rfd(), 0);
}
