use lib::dep::DepNode;
use lib::execctx::ExecContext;
use lib::file::{FileMarks, CommandState, FileNode, UpdateStatus};
use lib::recipe::Recipe;
use lib::rule::{
    convert_to_pattern, create_pattern_rule, dep_with_name, install_parsed_pattern_rule,
    new_pattern_rule, num_rules, percent_index, print_rule, suffix_rule_applies,
    suffix_rule_source_deps, suffix_rule_target, with_pattern_rules, null_floc, Rule,
};

fn rule_for(target: &[u8], deps: &[&str]) -> Rule {
    let mut r = Rule::new();
    r.num = 1;
    r.targets.push(target.to_vec());
    r.lens.push(target.len());
    r.suffixes.push(percent_index(target) + 1);
    for d in deps {
        r.deps.push(dep_with_name(d.as_bytes().to_vec()));
    }
    r
}

fn recipe(text: &str) -> Recipe {
    let mut r = Recipe::default();
    r.text = text.as_bytes().to_vec();
    r
}

fn node(name: &str) -> FileNode {
    FileNode {
        name: name.as_bytes().to_vec(),
        deps: Vec::new(),
        also_make: Vec::new(),
        recipe: None,
        renamed: None,
        double_colon: Vec::new(),
        is_double_colon: false,
        considered: 0,
        command_state: CommandState::NotStarted,
        update_status: UpdateStatus::Success,
        updated: false,
        phony: false,
        is_target: false,
        dontcare: false,
        no_diag: false,
        tried_implicit: false,
        suffix: false,
        cmd_target: false,
        last_mtime: 0,
        mtime_before_update: 0,
        marks: FileMarks {
            updating: false,
            low_resolution_time: false,
            intermediate: false,
            secondary: false,
            notintermediate: false,
            ignore_vpath: false,
            is_explicit: false,
            parent: None,
        },
        hname: name.as_bytes().to_vec(),
    }
}

#[test]
fn installing_a_new_rule_appends_it() {
    let mut ctx = ExecContext::default();
    assert!(new_pattern_rule(&mut ctx, rule_for(b"%.o", &["%.c"]), false));
    assert!(new_pattern_rule(&mut ctx, rule_for(b"%.a", &["%.o"]), false));
    assert_eq!(num_rules(&ctx), 2);
    assert_eq!(ctx.rules[1].targets[0], b"%.a".to_vec());
}

#[test]
fn duplicate_without_override_is_discarded() {
    let mut ctx = ExecContext::default();
    assert!(new_pattern_rule(&mut ctx, rule_for(b"%.o", &["%.c"]), false));
    let mut dup = rule_for(b"%.o", &["%.c"]);
    dup.cmds = Some(recipe("cc"));
    assert!(!new_pattern_rule(&mut ctx, dup, false));
    assert_eq!(num_rules(&ctx), 1);
    assert!(ctx.rules[0].cmds.is_none());
}

#[test]
fn duplicate_with_override_replaces_and_goes_last() {
    let mut ctx = ExecContext::default();
    assert!(new_pattern_rule(&mut ctx, rule_for(b"%.o", &["%.c"]), false));
    assert!(new_pattern_rule(&mut ctx, rule_for(b"%.a", &["%.o"]), false));
    let mut repl = rule_for(b"%.o", &["%.c"]);
    repl.cmds = Some(recipe("cc -c $<"));
    repl.terminal = true;
    repl.in_use = true;
    assert!(new_pattern_rule(&mut ctx, repl, true));
    assert_eq!(num_rules(&ctx), 2);
    assert_eq!(ctx.rules[0].targets[0], b"%.a".to_vec());
    assert_eq!(ctx.rules[1].targets[0], b"%.o".to_vec());
    assert_eq!(ctx.rules[1].cmds.as_ref().unwrap().text, b"cc -c $<".to_vec());
    assert!(!ctx.rules[1].terminal && !ctx.rules[1].in_use);
}

#[test]
fn different_prerequisites_are_no_duplicate() {
    let mut ctx = ExecContext::default();
    assert!(new_pattern_rule(&mut ctx, rule_for(b"%.o", &["%.c"]), false));
    assert!(new_pattern_rule(&mut ctx, rule_for(b"%.o", &["%.s"]), false));
    assert!(new_pattern_rule(&mut ctx, rule_for(b"%.o", &[]), false));
    assert_eq!(num_rules(&ctx), 3);
}

#[test]
fn create_pattern_rule_keeps_terminal_and_offsets() {
    let mut ctx = ExecContext::default();
    create_pattern_rule(
        &mut ctx,
        vec![b"lib%.a".to_vec(), b"%.so".to_vec()],
        vec![3, 0],
        2,
        true,
        vec![dep_with_name(b"%.o".to_vec())],
        None,
        false,
    );
    assert_eq!(num_rules(&ctx), 1);
    let r = &ctx.rules[0];
    assert!(r.terminal);
    assert_eq!(r.num, 2);
    assert_eq!(r.suffixes, vec![4, 1]);
    assert_eq!(r.lens, vec![6, 4]);
}

#[test]
fn builtin_rule_installed_twice_is_installed_once() {
    let mut ctx = ExecContext::default();
    install_parsed_pattern_rule(&mut ctx, b"%.o", vec![dep_with_name(b"%.c".to_vec())], b"$(COMPILE.c) $<", false);
    install_parsed_pattern_rule(&mut ctx, b"%.o", vec![dep_with_name(b"%.c".to_vec())], b"other", true);
    assert_eq!(num_rules(&ctx), 1);
    let r = &ctx.rules[0];
    assert_eq!(r.cmds.as_ref().unwrap().text, b"$(COMPILE.c) $<".to_vec());
    assert_eq!(r.cmds.as_ref().unwrap().recipe_prefix, b'\t');
    assert_eq!(r.suffixes, vec![1]);
    assert!(!r.terminal);
}

#[test]
fn with_pattern_rules_sees_the_database() {
    let mut ctx = ExecContext::default();
    install_parsed_pattern_rule(&mut ctx, b"%.o", Vec::new(), b"", true);
    let n = with_pattern_rules(&ctx, |rules| rules.len());
    assert_eq!(n, 1);
}

#[test]
fn rule_definition_with_terminal_waits_and_order_only() {
    let mut r = Rule::new();
    r.num = 2;
    r.targets.push(b"%.a".to_vec());
    r.targets.push(b"%.b".to_vec());
    r.terminal = true;
    let mut d1 = dep_with_name(b"%.c".to_vec());
    d1.wait_here = true;
    let mut d2 = dep_with_name(b"dir".to_vec());
    d2.ignore_mtime = true;
    d2.wait_here = true;
    let mut d3 = dep_with_name(b"d2".to_vec());
    d3.ignore_mtime = true;
    r.deps = vec![d1, d2, d3];
    assert_eq!(r.rule_defn(), b"%.a %.b:: .WAIT %.c | .WAIT dir d2");
    // The cached definition is returned again.
    r.targets[0] = b"changed".to_vec();
    assert_eq!(r.rule_defn(), b"%.a %.b:: .WAIT %.c | .WAIT dir d2");
}

#[test]
fn print_rule_indents_each_recipe_line() {
    let mut r = rule_for(b"%.o", &["%.c"]);
    r.cmds = Some(recipe("cc -c $<\necho done"));
    let mut buf = b"x".to_vec();
    print_rule(&mut buf, &mut r);
    assert_eq!(buf, b"x%.o: %.c\n\tcc -c $<\n\techo done\n".to_vec());
}

#[test]
fn print_rule_without_recipe() {
    let mut r = rule_for(b"%.o", &[]);
    let mut buf = Vec::new();
    print_rule(&mut buf, &mut r);
    assert_eq!(buf, b"%.o:\n".to_vec());
}

#[test]
fn suffix_rule_pieces() {
    assert_eq!(suffix_rule_target(None), (b"(%.o)".to_vec(), 1));
    assert_eq!(suffix_rule_target(Some(b".c")), (b"%.c".to_vec(), 0));
    assert!(suffix_rule_source_deps(None).is_empty());
    let d: Vec<DepNode> = suffix_rule_source_deps(Some(b".y"));
    assert_eq!(d.len(), 1);
    assert_eq!(d[0].name, b"%.y".to_vec());
    assert_eq!(percent_index(b"lib%.a"), 3);
}

#[test]
fn suffix_rule_with_prerequisites_warns_or_is_skipped() {
    let mut ctx = ExecContext::default();
    assert!(suffix_rule_applies(&mut ctx, null_floc(), false));
    assert!(ctx.diagnostics.is_empty());
    assert!(suffix_rule_applies(&mut ctx, null_floc(), true));
    assert_eq!(ctx.diagnostics.len(), 1);
    assert_eq!(
        ctx.diagnostics[0].message,
        b"warning: ignoring prerequisites on suffix rule definition".to_vec()
    );
    ctx.posix_pedantic = true;
    assert!(!suffix_rule_applies(&mut ctx, null_floc(), true));
    assert_eq!(ctx.diagnostics.len(), 1);
}

#[test]
fn suffix_rules_convert_to_pattern_rules() {
    let mut ctx = ExecContext::default();
    let mut suffixes = node(".SUFFIXES");
    suffixes.deps.push(dep_with_name(b".c".to_vec()));
    suffixes.deps.push(dep_with_name(b".o".to_vec()));
    ctx.files.push(suffixes);
    let mut co = node(".c.o");
    co.recipe = Some(recipe("$(COMPILE.c) $<"));
    ctx.files.push(co);
    convert_to_pattern(&mut ctx);
    let defs: Vec<Vec<u8>> = ctx.rules.iter_mut().map(|r| r.rule_defn().to_vec()).collect();
    assert_eq!(defs, vec![b"%.c:".to_vec(), b"%.o: %.c".to_vec(), b"%.o:".to_vec()]);
    assert_eq!(ctx.rules[1].cmds.as_ref().unwrap().text, b"$(COMPILE.c) $<".to_vec());
    assert!(ctx.files[1].suffix);
    assert!(!ctx.files[0].suffix);
}

#[test]
fn archive_suffix_rule_also_makes_member_rule() {
    let mut ctx = ExecContext::default();
    let mut suffixes = node(".SUFFIXES");
    suffixes.deps.push(dep_with_name(b".c".to_vec()));
    suffixes.deps.push(dep_with_name(b".a".to_vec()));
    ctx.files.push(suffixes);
    let mut ca = node(".c.a");
    ca.recipe = Some(recipe("ar"));
    ctx.files.push(ca);
    convert_to_pattern(&mut ctx);
    let defs: Vec<Vec<u8>> = ctx.rules.iter_mut().map(|r| r.rule_defn().to_vec()).collect();
    assert_eq!(
        defs,
        vec![b"%.c:".to_vec(), b"(%.o): %.c".to_vec(), b"%.a: %.c".to_vec(), b"%.a:".to_vec()]
    );
}

#[test]
fn a_suffix_with_its_own_recipe_makes_a_null_suffix_rule() {
    let mut ctx = ExecContext::default();
    let mut suffixes = node(".SUFFIXES");
    suffixes.deps.push(dep_with_name(b".c".to_vec()));
    ctx.files.push(suffixes);
    let mut c = node(".c");
    c.recipe = Some(recipe("cc -o $@ $<"));
    ctx.files.push(c);
    convert_to_pattern(&mut ctx);
    let defs: Vec<Vec<u8>> = ctx.rules.iter_mut().map(|r| r.rule_defn().to_vec()).collect();
    assert_eq!(defs, vec![b"%.c:".to_vec(), b"%: %.c".to_vec()]);
    assert_eq!(ctx.rules[1].cmds.as_ref().unwrap().text, b"cc -o $@ $<".to_vec());
    assert!(ctx.files[1].suffix);
}

#[test]
fn no_suffixes_file_converts_nothing() {
    let mut ctx = ExecContext::default();
    ctx.files.push(node("all"));
    convert_to_pattern(&mut ctx);
    assert_eq!(num_rules(&ctx), 0);
}

/// File-sequence answers for built-in rule prerequisites: no home
/// directory, no archives, wildcards match nothing.
struct NoFiles;

impl lib::read::file_seq::FileSeqEnv for NoFiles {
    fn tilde_expand(&mut self, _name: &[u8]) -> Result<Option<Vec<u8>>, lib::execctx::BuildError> {
        Err(lib::execctx::BuildError::Failure)
    }
    fn glob(&mut self, _pattern: &[u8]) -> lib::read::file_seq::GlobOutcome {
        lib::read::file_seq::GlobOutcome::NoMatch
    }
    fn ar_glob(&mut self, _archive: &[u8], _member: &[u8]) -> Option<Vec<Vec<u8>>> {
        None
    }
    fn member_names(&mut self) -> bool {
        false
    }
}

#[test]
fn builtin_rule_prerequisites_are_parsed() {
    let mut ctx = ExecContext::default();
    lib::rule::install_pattern_rule(&mut ctx, b"%.o", b"%.c %.h", b"$(CC) -c $<", false, &mut NoFiles).unwrap();
    assert_eq!(num_rules(&ctx), 1);
    let names: Vec<Vec<u8>> = ctx.rules[0].deps.iter().map(|d| d.name.clone()).collect();
    assert_eq!(names, vec![b"%.c".to_vec(), b"%.h".to_vec()]);
    assert_eq!(ctx.rules[0].cmds.as_ref().unwrap().text, b"$(CC) -c $<".to_vec());
}

#[test]
fn refused_prerequisite_parse_installs_nothing() {
    let mut ctx = ExecContext::default();
    assert!(lib::rule::install_pattern_rule(&mut ctx, b"%.o", b"~/x.c", b"", false, &mut NoFiles).is_err());
    assert_eq!(num_rules(&ctx), 0);
}

#[test]
fn empty_prerequisite_string_gives_no_prerequisites() {
    let deps = lib::rule::parse_dep_names(b"", &mut NoFiles).unwrap();
    assert!(deps.is_empty());
    let deps = lib::rule::parse_dep_names(b"a .WAIT b\0", &mut NoFiles).unwrap();
    let got: Vec<(Vec<u8>, bool)> = deps.iter().map(|d| (d.name.clone(), d.wait_here)).collect();
    assert_eq!(got, vec![(b"a".to_vec(), false), (b".WAIT".to_vec(), false), (b"b".to_vec(), false)]);
}

/// Directories that exist: only `src`.
struct OnlySrc;

impl lib::rule::DirCheck for OnlySrc {
    fn dir_file_exists(&mut self, dir: &[u8], _file: &[u8]) -> Result<bool, lib::execctx::BuildError> {
        Ok(dir == b"src")
    }
}

#[test]
fn snapping_takes_figures_and_marks_missing_pattern_dirs() {
    let mut ctx = ExecContext::default();
    install_parsed_pattern_rule(
        &mut ctx,
        b"%.o",
        vec![dep_with_name(b"src/%.c".to_vec()), dep_with_name(b"gen/%.h".to_vec()), dep_with_name(b"%.x".to_vec())],
        b"",
        false,
    );
    install_parsed_pattern_rule(&mut ctx, b"%.a", vec![dep_with_name(b"obj/lib.o".to_vec())], b"", false);
    lib::rule::snap_implicit_rules(&mut ctx, &mut OnlySrc).unwrap();
    let st = ctx.pattern_stats;
    assert_eq!(st.num_rules, 2);
    assert_eq!(st.max_targets, 1);
    assert_eq!(st.max_deps, 3);
    assert_eq!(st.max_dep_length, 9);
    let changed: Vec<bool> = ctx.rules[0].deps.iter().map(|d| d.changed).collect();
    assert_eq!(changed, vec![false, true, false]);
    assert!(!ctx.rules[1].deps[0].changed);
}

/// A directory lookup that is refused.
struct Refuse;

impl lib::rule::DirCheck for Refuse {
    fn dir_file_exists(&mut self, _dir: &[u8], _file: &[u8]) -> Result<bool, lib::execctx::BuildError> {
        Err(lib::execctx::BuildError::Failure)
    }
}

#[test]
fn refused_directory_lookup_stops_the_snap() {
    let mut ctx = ExecContext::default();
    install_parsed_pattern_rule(&mut ctx, b"%.o", vec![dep_with_name(b"d/%.c".to_vec())], b"", false);
    assert!(lib::rule::snap_implicit_rules(&mut ctx, &mut Refuse).is_err());
    let mut ctx = ExecContext::default();
    install_parsed_pattern_rule(&mut ctx, b"%.o", vec![dep_with_name(b"%.c".to_vec())], b"", false);
    assert!(lib::rule::snap_implicit_rules(&mut ctx, &mut Refuse).is_ok());
}
