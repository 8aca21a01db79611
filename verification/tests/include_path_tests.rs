use lib::read::include_path::{
    expand_tilde_dir, home_from_sources, include_dir_candidates, tilde_expand, tilde_user, trimmed_dir_len,
};

#[test]
fn expand_tilde_dir_passthrough_and_home() {
    let home: &[u8] = b"/home/me";
    // No leading tilde: returned unchanged.
    assert_eq!(expand_tilde_dir(b"/abs/dir", Some(home)), b"/abs/dir".to_vec());
    assert_eq!(expand_tilde_dir(b"rel", Some(home)), b"rel".to_vec());
    // `~user` form is not handled here: left literal.
    assert_eq!(expand_tilde_dir(b"~user/x", Some(home)), b"~user/x".to_vec());
    // `~`/`~/...` expands against the home directory when it is known and not empty.
    assert_eq!(expand_tilde_dir(b"~/sub", Some(home)), b"/home/me/sub".to_vec());
}

#[test]
fn tilde_without_home_stays_literal() {
    assert_eq!(expand_tilde_dir(b"~/sub", None), b"~/sub".to_vec());
    assert_eq!(expand_tilde_dir(b"~/sub", Some(b"")), b"~/sub".to_vec());
    assert_eq!(expand_tilde_dir(b"~", Some(b"/h")), b"/h".to_vec());
}

#[test]
fn trailing_slashes_are_trimmed_to_one_byte() {
    assert_eq!(trimmed_dir_len(b"/usr/include//"), 12);
    assert_eq!(trimmed_dir_len(b"///"), 1);
    assert_eq!(trimmed_dir_len(b"a"), 1);
    assert_eq!(trimmed_dir_len(b""), 0);
}

#[test]
fn include_candidates_follow_options_then_defaults() {
    let args = vec![b"inc/".to_vec(), b"~/x".to_vec()];
    let defaults = vec![b"/usr/local/include/".to_vec(), b"/usr/include".to_vec()];
    let r = include_dir_candidates(&args, Some(b"/h"), &defaults);
    assert_eq!(
        r,
        vec![b"inc".to_vec(), b"/h/x".to_vec(), b"/usr/local/include".to_vec(), b"/usr/include".to_vec()]
    );
}

#[test]
fn dash_option_drops_earlier_dirs_and_defaults() {
    let args = vec![b"a".to_vec(), b"-".to_vec(), b"b//".to_vec()];
    let defaults = vec![b"/usr/include".to_vec()];
    let r = include_dir_candidates(&args, None, &defaults);
    assert_eq!(r, vec![b"b".to_vec()]);
}

#[test]
fn tilde_user_names_the_user_part() {
    assert_eq!(tilde_user(b"~"), Vec::<u8>::new());
    assert_eq!(tilde_user(b"~/x"), Vec::<u8>::new());
    assert_eq!(tilde_user(b"~bob"), b"bob".to_vec());
    assert_eq!(tilde_user(b"~bob/src/x"), b"bob".to_vec());
}

#[test]
fn tilde_expand_joins_home_and_rest() {
    assert_eq!(tilde_expand(b"~", Some(b"/home/me")), Some(b"/home/me".to_vec()));
    assert_eq!(tilde_expand(b"~/a/b", Some(b"/home/me")), Some(b"/home/me/a/b".to_vec()));
    assert_eq!(tilde_expand(b"~bob", Some(b"/home/bob")), Some(b"/home/bob".to_vec()));
    assert_eq!(tilde_expand(b"~bob/src", Some(b"/home/bob")), Some(b"/home/bob/src".to_vec()));
    assert_eq!(tilde_expand(b"~nobody/x", None), None);
}

#[test]
fn home_prefers_the_variable_then_the_environment() {
    assert_eq!(home_from_sources(b"/var", Some(b"/env")), Some(&b"/var"[..]));
    assert_eq!(home_from_sources(b"", Some(b"/env")), Some(&b"/env"[..]));
    assert_eq!(home_from_sources(b"", Some(b"")), None);
    assert_eq!(home_from_sources(b"", None), None);
}
