use lib::execctx::BuildError;
use lib::read::file_seq::{
    ar_name, file_seq_step, parse_file_seq, prereqs_from_names, split_prereqs_vec, FileSeqEnv, GlobOutcome, SeqStep, PARSEFS_EXISTS, PARSEFS_NOAR, PARSEFS_NOGLOB,
    PARSEFS_NONE, PARSEFS_NOSTRIP, PARSEFS_WAIT,
};
use lib::read::ParsedName;
use lib::stopchar::{MAP_NUL, MAP_SEMI};

/// An environment whose home directory lookup is refused.
struct RejectHome;

impl FileSeqEnv for RejectHome {
    fn tilde_expand(&mut self, _name: &[u8]) -> Result<Option<Vec<u8>>, BuildError> {
        Err(BuildError::Failure)
    }
    fn glob(&mut self, _pattern: &[u8]) -> GlobOutcome {
        GlobOutcome::NoMatch
    }
    fn ar_glob(&mut self, _archive: &[u8], _member: &[u8]) -> Option<Vec<Vec<u8>>> {
        None
    }
    fn member_names(&mut self) -> bool {
        false
    }
}

/// An environment with a home directory and a few files; `0` says whether
/// archive wildcard matches are named by member.
struct Files(bool);

impl FileSeqEnv for Files {
    fn tilde_expand(&mut self, name: &[u8]) -> Result<Option<Vec<u8>>, BuildError> {
        let mut v = b"/home/me".to_vec();
        v.extend_from_slice(&name[1..]);
        Ok(Some(v))
    }
    fn glob(&mut self, pattern: &[u8]) -> GlobOutcome {
        if pattern == b"*.c" {
            GlobOutcome::Matches(vec![b"a.c".to_vec(), b"b.c".to_vec()])
        } else {
            GlobOutcome::NoMatch
        }
    }
    fn ar_glob(&mut self, _archive: &[u8], member: &[u8]) -> Option<Vec<Vec<u8>>> {
        if member == b"*.o" {
            Some(vec![b"x.o".to_vec(), b"y.o".to_vec()])
        } else {
            None
        }
    }
    fn member_names(&mut self) -> bool {
        self.0
    }
}

fn cstr(s: &str) -> Vec<u8> {
    let mut v = s.as_bytes().to_vec();
    v.push(0);
    v
}

fn names(r: &[ParsedName]) -> Vec<(Vec<u8>, bool)> {
    r.iter().map(|p| (p.name.clone(), p.wait)).collect()
}

fn n(s: &str, wait: bool) -> (Vec<u8>, bool) {
    (s.as_bytes().to_vec(), wait)
}

#[test]
fn rejected_home_expansion_propagates() {
    let r = parse_file_seq(&cstr("~/somefile"), MAP_NUL, None, PARSEFS_NONE, &mut RejectHome);
    assert!(matches!(r, Err(BuildError::Failure)));
}

#[test]
fn rejected_home_expansion_propagates_for_bare_tilde() {
    let r = parse_file_seq(&cstr("~"), MAP_NUL, None, PARSEFS_NONE, &mut RejectHome);
    assert!(matches!(r, Err(BuildError::Failure)));
}

#[test]
fn plain_names_still_parse() {
    let (parsed, _) = parse_file_seq(&cstr("alpha beta"), MAP_NUL, None, PARSEFS_NONE, &mut RejectHome)
        .expect("no `~`, so no home lookup");
    let got: Vec<&[u8]> = parsed.iter().map(|p| p.name.as_slice()).collect();
    assert_eq!(got, vec![&b"alpha"[..], &b"beta"[..]]);
}

#[test]
fn archive_group_is_spelled_out_member_by_member() {
    let (parsed, rest) = parse_file_seq(&cstr("lib(a b c) d"), 0, None, PARSEFS_NOGLOB, &mut RejectHome).unwrap();
    assert_eq!(names(&parsed), vec![n("lib(a)", false), n("lib(b)", false), n("lib(c)", false), n("d", false)]);
    assert_eq!(rest, vec![0u8]);
}

#[test]
fn lone_parens_of_a_group_name_nothing() {
    let (parsed, _) = parse_file_seq(&cstr("lib( a )"), 0, None, PARSEFS_NOGLOB, &mut RejectHome).unwrap();
    assert_eq!(names(&parsed), vec![n("lib(a)", false)]);
}

#[test]
fn unclosed_group_is_one_name() {
    let (parsed, _) = parse_file_seq(&cstr("lib(a b"), 0, None, PARSEFS_NOGLOB, &mut RejectHome).unwrap();
    assert_eq!(names(&parsed), vec![n("lib(a", false), n("b", false)]);
}

#[test]
fn wait_marks_the_next_name() {
    let (parsed, _) =
        parse_file_seq(&cstr("a .WAIT b c"), 0, None, PARSEFS_NOGLOB | PARSEFS_WAIT, &mut RejectHome).unwrap();
    assert_eq!(names(&parsed), vec![n("a", false), n("b", true), n("c", false)]);
    let (parsed, _) = parse_file_seq(&cstr("a .WAIT b"), 0, None, PARSEFS_NOGLOB, &mut RejectHome).unwrap();
    assert_eq!(names(&parsed), vec![n("a", false), n(".WAIT", false), n("b", false)]);
}

#[test]
fn dot_slash_prefixes_are_dropped() {
    let (parsed, _) = parse_file_seq(&cstr("./foo .//bar ./"), 0, None, PARSEFS_NOGLOB, &mut RejectHome).unwrap();
    assert_eq!(names(&parsed), vec![n("foo", false), n("bar", false), n("./", false)]);
    let (parsed, _) =
        parse_file_seq(&cstr("./foo"), 0, None, PARSEFS_NOGLOB | PARSEFS_NOSTRIP, &mut RejectHome).unwrap();
    assert_eq!(names(&parsed), vec![n("./foo", false)]);
}

#[test]
fn prefix_goes_before_each_name() {
    let (parsed, _) = parse_file_seq(&cstr("x y"), 0, Some(b"pre/"), PARSEFS_NOGLOB, &mut RejectHome).unwrap();
    assert_eq!(names(&parsed), vec![n("pre/x", false), n("pre/y", false)]);
}

#[test]
fn stop_byte_ends_the_sequence() {
    let (parsed, rest) = parse_file_seq(&cstr("a b; c"), MAP_SEMI, None, PARSEFS_NOGLOB, &mut RejectHome).unwrap();
    assert_eq!(names(&parsed), vec![n("a", false), n("b", false)]);
    assert_eq!(rest, cstr("; c"));
}

#[test]
fn escaped_blank_stays_in_the_name() {
    let (parsed, _) = parse_file_seq(&cstr("a\\ b c"), 0, None, PARSEFS_NOGLOB, &mut RejectHome).unwrap();
    assert_eq!(names(&parsed), vec![n("a b", false), n("c", false)]);
}

#[test]
fn tilde_and_wildcards_go_to_the_environment() {
    let (parsed, _) = parse_file_seq(&cstr("~/x *.c *.h"), 0, None, PARSEFS_NONE, &mut Files(false)).unwrap();
    assert_eq!(names(&parsed), vec![n("/home/me/x", false), n("a.c", false), n("b.c", false), n("*.h", false)]);
    let (parsed, _) = parse_file_seq(&cstr("*.c *.h"), 0, None, PARSEFS_EXISTS, &mut Files(false)).unwrap();
    assert_eq!(names(&parsed), vec![n("a.c", false), n("b.c", false)]);
}

#[test]
fn archive_member_wildcards_name_the_archive_or_the_members() {
    let (parsed, _) = parse_file_seq(&cstr("lib(*.o) lib(z.o)"), 0, None, PARSEFS_NONE, &mut Files(false)).unwrap();
    assert_eq!(names(&parsed), vec![n("x.o", false), n("y.o", false), n("lib(z.o)", false)]);
    let (parsed, _) = parse_file_seq(&cstr("lib(*.o)"), 0, Some(b"p/"), PARSEFS_NONE, &mut Files(false)).unwrap();
    assert_eq!(names(&parsed), vec![n("p/lib", false), n("p/lib", false)]);
    let (parsed, _) = parse_file_seq(&cstr("lib(*.o)"), 0, Some(b"p/"), PARSEFS_NONE, &mut Files(true)).unwrap();
    assert_eq!(names(&parsed), vec![n("p/x.o", false), n("p/y.o", false)]);
    let (parsed, _) = parse_file_seq(&cstr("lib(*.o)"), 0, None, PARSEFS_NOAR, &mut Files(false)).unwrap();
    assert_eq!(names(&parsed), vec![n("lib(*.o)", false)]);
}

#[test]
fn one_step_at_a_time() {
    let mut rest = cstr("  a b");
    let mut group = None;
    assert!(matches!(file_seq_step(&mut rest, &mut group, 0, PARSEFS_NONE), SeqStep::Name(ref v) if v == b"a"));
    assert_eq!(rest, cstr(" b"));
    assert!(matches!(file_seq_step(&mut rest, &mut group, 0, PARSEFS_NONE), SeqStep::Name(ref v) if v == b"b"));
    assert!(matches!(file_seq_step(&mut rest, &mut group, 0, PARSEFS_NONE), SeqStep::Stop));
}

#[test]
fn prerequisites_split_at_the_pipe() {
    let deps = split_prereqs_vec(&cstr("a b | c .WAIT d"), &mut RejectHome).unwrap();
    let got: Vec<(Vec<u8>, bool, bool)> = deps.iter().map(|d| (d.name.clone(), d.wait_here, d.ignore_mtime)).collect();
    assert_eq!(
        got,
        vec![
            (b"a".to_vec(), false, false),
            (b"b".to_vec(), false, false),
            (b"c".to_vec(), false, true),
            (b"d".to_vec(), true, true),
        ]
    );
    assert!(deps.iter().all(|d| d.file.is_none() && !d.is_explicit));
}

#[test]
fn prerequisites_without_pipe_are_all_normal() {
    let deps = split_prereqs_vec(&cstr(".WAIT x y"), &mut RejectHome).unwrap();
    let got: Vec<(Vec<u8>, bool, bool)> = deps.iter().map(|d| (d.name.clone(), d.wait_here, d.ignore_mtime)).collect();
    assert_eq!(got, vec![(b"x".to_vec(), true, false), (b"y".to_vec(), false, false)]);
}

#[test]
fn prerequisite_home_expansion_failure_propagates() {
    assert!(matches!(split_prereqs_vec(&cstr("a | ~/b"), &mut RejectHome), Err(BuildError::Failure)));
}

#[test]
fn names_become_prerequisites_in_order() {
    let normal = vec![ParsedName { name: b"n".to_vec(), wait: true }];
    let order_only = vec![ParsedName { name: b"o".to_vec(), wait: false }];
    let deps = prereqs_from_names(normal, order_only);
    assert_eq!(deps.len(), 2);
    assert_eq!((deps[0].name.clone(), deps[0].wait_here, deps[0].ignore_mtime), (b"n".to_vec(), true, false));
    assert_eq!((deps[1].name.clone(), deps[1].wait_here, deps[1].ignore_mtime), (b"o".to_vec(), false, true));
}

#[test]
fn archive_member_names_are_recognised() {
    assert_eq!(ar_name(b"lib.a(x.o)"), Ok(true));
    assert_eq!(ar_name(b"(x.o)"), Ok(false));
    assert_eq!(ar_name(b"lib.a()"), Ok(false));
    assert_eq!(ar_name(b"lib.a(x.o"), Ok(false));
    assert_eq!(ar_name(b"plain"), Ok(false));
    assert!(ar_name(b"lib.a((x.o))").is_err());
}

#[test]
fn plain_names_need_no_environment_with_archives_on() {
    let (parsed, _) = parse_file_seq(&cstr("alpha beta"), MAP_NUL, None, PARSEFS_NONE, &mut RejectHome).unwrap();
    assert_eq!(names(&parsed), vec![n("alpha", false), n("beta", false)]);
}
