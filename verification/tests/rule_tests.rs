use lib::dep::DepNode;
use lib::rule::{dep_with_name, percent_prefixed, streq, Rule};

#[test]
fn equal_and_unequal_strings() {
    assert!(streq(b"", b""));
    assert!(streq(b"%.o", b"%.o"));
    assert!(streq(b"target%pattern", b"target%pattern"));

    assert!(!streq(b"", b"x"));
    assert!(!streq(b"x", b""));
    assert!(!streq(b"%.o", b"%.c"));
    assert!(!streq(b"abc", b"abcd"));
    assert!(!streq(b"a", b"b"));
}

#[test]
fn prefixes_with_percent() {
    assert_eq!(percent_prefixed(b""), b"%");
    assert_eq!(percent_prefixed(b".c"), b"%.c");
    assert_eq!(percent_prefixed(b".o"), b"%.o");
    assert_eq!(percent_prefixed(b"foo.o"), b"%foo.o");
}

fn dep(name: &str, ignore_mtime: bool, wait_here: bool) -> DepNode {
    let mut d = dep_with_name(name.as_bytes().to_vec());
    d.ignore_mtime = ignore_mtime;
    d.wait_here = wait_here;
    d
}

#[test]
fn simple_rule() {
    let mut r = Rule::new();
    r.num = 1;
    r.targets.push(b"%.o".to_vec());
    r.deps.push(dep("%.c", false, false));
    assert_eq!(r.rule_defn(), b"%.o: %.c");
}

#[test]
fn order_only_after_pipe() {
    let mut r = Rule::new();
    r.num = 1;
    r.targets.push(b"%.o".to_vec());
    r.deps.push(dep("%.c", false, false));
    r.deps.push(dep("dir", true, false));
    assert_eq!(r.rule_defn(), b"%.o: %.c | dir");
}
