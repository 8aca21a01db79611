use lib::dep::DepNode;
use lib::execctx::{ExecContext, Floc};
use lib::file::lookup_file;
use lib::read::record::record_files;
use lib::read::ParsedName;

fn dep(name: &str) -> DepNode {
    DepNode {
        name: name.as_bytes().to_vec(),
        file: None,
        flags: 0,
        changed: false,
        ignore_mtime: false,
        static_pattern: false,
        needs_second_expansion: false,
        ignore_automatic_vars: false,
        is_explicit: false,
        wait_here: false,
    }
}

fn target(name: &str) -> Vec<ParsedName> {
    vec![ParsedName { name: name.as_bytes().to_vec(), wait: false }]
}

fn floc() -> Floc {
    Floc { filenm: None, lineno: 1, offset: 0 }
}

fn dep_names(ctx: &ExecContext, name: &str) -> Vec<Vec<u8>> {
    let id = lookup_file(ctx, name.as_bytes()).expect("recorded");
    ctx.files[id].deps.iter().map(|d| d.name.clone()).collect()
}

#[test]
fn prerequisites_of_a_rule_with_a_recipe_go_in_front() {
    let mut ctx = ExecContext::default();
    record_files(&mut ctx, target("all"), None, vec![dep("a")], b"", false, false, &floc()).unwrap();
    record_files(&mut ctx, target("all"), None, vec![dep("b")], b"echo", false, false, &floc()).unwrap();
    assert_eq!(dep_names(&ctx, "all"), vec![b"b".to_vec(), b"a".to_vec()]);
    let id = lookup_file(&ctx, b"all").unwrap();
    assert!(ctx.files[id].is_target);
    assert!(ctx.files[id].marks.is_explicit);
    assert_eq!(ctx.files[id].recipe.as_ref().unwrap().text, b"echo".to_vec());
}

#[test]
fn prerequisites_of_a_rule_without_a_recipe_go_behind() {
    let mut ctx = ExecContext::default();
    record_files(&mut ctx, target("all"), None, vec![dep("a")], b"", false, false, &floc()).unwrap();
    record_files(&mut ctx, target("all"), None, vec![dep("b")], b"", false, false, &floc()).unwrap();
    assert_eq!(dep_names(&ctx, "all"), vec![b"a".to_vec(), b"b".to_vec()]);
    let b = lookup_file(&ctx, b"b").expect("prerequisite entered");
    assert!(ctx.files[b].marks.is_explicit);
}

#[test]
fn single_and_double_colon_entries_do_not_mix() {
    let mut ctx = ExecContext::default();
    record_files(&mut ctx, target("t"), None, Vec::new(), b"x", true, false, &floc()).unwrap();
    assert!(record_files(&mut ctx, target("t"), None, Vec::new(), b"y", false, false, &floc()).is_err());
    let mut ctx2 = ExecContext::default();
    record_files(&mut ctx2, target("u"), None, Vec::new(), b"x", false, false, &floc()).unwrap();
    assert!(record_files(&mut ctx2, target("u"), None, Vec::new(), b"y", true, false, &floc()).is_err());
}

#[test]
fn a_second_double_colon_rule_makes_a_further_entry() {
    let mut ctx = ExecContext::default();
    record_files(&mut ctx, target("t"), None, vec![dep("a")], b"x", true, false, &floc()).unwrap();
    record_files(&mut ctx, target("t"), None, vec![dep("b")], b"y", true, false, &floc()).unwrap();
    let id = lookup_file(&ctx, b"t").unwrap();
    assert!(ctx.files[id].is_double_colon);
    assert_eq!(ctx.files[id].double_colon.len(), 1);
    assert_eq!(ctx.files[id].double_colon[0].deps[0].name, b"b".to_vec());
}

#[test]
fn grouped_targets_need_a_recipe() {
    let mut ctx = ExecContext::default();
    assert!(record_files(&mut ctx, target("g"), None, Vec::new(), b"", false, true, &floc()).is_err());
}

#[test]
fn a_static_pattern_fills_in_the_stem() {
    let mut ctx = ExecContext::default();
    record_files(&mut ctx, target("foo.o"), Some(b"%.o"), vec![dep("%.c")], b"cc", false, false, &floc()).unwrap();
    assert_eq!(dep_names(&ctx, "foo.o"), vec![b"foo.c".to_vec()]);
}
