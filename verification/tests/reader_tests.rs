use lib::execctx::{BuildError, ExecContext, Floc};
use lib::read::lines::{readline_begin, readline_chunk, readline_end, readline_room};
use lib::parser::{find_percent_cached, unescape_char, Directive, FindPercentCached};
use lib::read::{
    check_special_file, check_specials, conditional_line, is_suffix_rule_name, special_step, ParsedName,
    SpecialStep, VariableEnv, parse_var_assignment, v_default, v_export, v_ifset,
    v_noexport, VModifiers, dep_from_name, find_percent, readstring, remove_comments, EBuffer, dep_name_bytes, ifdef_ignores, ifeq_ignores, ConditionalEnv, directive_cmdtype, install_conditionals, is_default_file,
    is_suffix_file, restore_conditionals, vpath_pattern_token, c_else, c_endif, c_ifdef, c_ifeq,
    c_ifndef, c_ifneq,
};

#[test]
fn conditionals_frame_round_trips() {
    let mut ctx = ExecContext::default();
    ctx.conditionals.ignoring = vec![0, 1];
    ctx.conditionals.seen_else = vec![1, 0];
    let saved = install_conditionals(&mut ctx);
    assert!(ctx.conditionals.seen_else.is_empty());
    assert!(ctx.conditionals.ignoring.is_empty());
    ctx.conditionals.ignoring.push(1);
    restore_conditionals(&mut ctx, saved);
    assert_eq!(ctx.conditionals.ignoring, vec![0, 1]);
    assert_eq!(ctx.conditionals.seen_else, vec![1, 0]);
}

#[test]
fn vpath_token_stops_at_the_nul() {
    assert_eq!(vpath_pattern_token(b"%.c"), b"%.c\0".to_vec());
    assert_eq!(vpath_pattern_token(b"%.c\0junk"), b"%.c\0".to_vec());
    assert_eq!(vpath_pattern_token(b"\0x"), b"\0".to_vec());
    assert_eq!(vpath_pattern_token(b""), b"\0".to_vec());
}

#[test]
fn conditional_command_codes() {
    assert_eq!(directive_cmdtype(Directive::Ifdef), c_ifdef);
    assert_eq!(directive_cmdtype(Directive::Ifndef), c_ifndef);
    assert_eq!(directive_cmdtype(Directive::Ifeq), c_ifeq);
    assert_eq!(directive_cmdtype(Directive::Ifneq), c_ifneq);
    assert_eq!(directive_cmdtype(Directive::Else), c_else);
    assert_eq!(directive_cmdtype(Directive::Endif), c_endif);
    assert_eq!((c_ifdef, c_endif), (0, 5));
}

#[test]
fn prerequisite_records() {
    let d = dep_from_name(b"foo.o".to_vec(), true, false);
    assert_eq!(d.name, b"foo.o".to_vec());
    assert!(d.wait_here && !d.static_pattern && !d.ignore_mtime);
    assert_eq!(dep_name_bytes(&d), b"foo.o".to_vec());
}

#[test]
fn special_files() {
    assert!(is_suffix_file(b".SUFFIXES"));
    assert!(!is_suffix_file(b".SUFFIXE"));
    assert!(!is_suffix_file(b".suffixes"));
    assert!(is_default_file(b".DEFAULT"));
    assert!(!is_default_file(b".DEFAULTS"));
    assert!(!is_default_file(b""));
}

#[test]
fn unescaping_text_without_backslashes_changes_nothing() {
    assert_eq!(unescape_char(b"a:b;c", b':'), b"a:b;c".to_vec());
    assert_eq!(unescape_char(b"", b':'), Vec::<u8>::new());
}

#[test]
fn percent_after_escaped_percent_is_found_in_the_copy() {
    match find_percent_cached(b"x\\%y") {
        FindPercentCached::Collapsed { buf, idx } => {
            assert_eq!(idx, None);
            assert_eq!(&buf[..4], b"x%y\0");
        }
        other => panic!("expected a collapsed copy, got {other:?}"),
    }
}

/// Variables with fixed values; `$(NAME)` expands to the value of `NAME`.
struct Vars(Vec<(&'static str, &'static str)>);

impl ConditionalEnv for Vars {
    fn expand(&mut self, _ctx: &ExecContext, text: &[u8]) -> Result<Vec<u8>, BuildError> {
        if text.starts_with(b"$(") && text.ends_with(b")") {
            let name = &text[2..text.len() - 1];
            for (n, v) in &self.0 {
                if n.as_bytes() == name {
                    return Ok(v.as_bytes().to_vec());
                }
            }
            return Ok(Vec::new());
        }
        Ok(text.to_vec())
    }
    fn is_set(&mut self, _ctx: &ExecContext, name: &[u8]) -> Result<bool, BuildError> {
        Ok(self.0.iter().any(|(n, v)| n.as_bytes() == name && !v.is_empty()))
    }
}

fn here() -> Floc {
    Floc { filenm: Some(b"Makefile".to_vec()), lineno: 4, offset: 0 }
}

fn read_line(ctx: &mut ExecContext, env: &mut Vars, line: &str) -> Result<i32, BuildError> {
    let len = line.find(' ').unwrap_or(line.len());
    conditional_line(ctx, line.as_bytes(), len, &here(), false, env)
}

#[test]
fn ifdef_else_endif_switch_the_reading() {
    let mut ctx = ExecContext::default();
    let mut env = Vars(vec![("FOO", "1"), ("EMPTY", "")]);
    assert_eq!(read_line(&mut ctx, &mut env, "ifdef FOO"), Ok(0));
    assert_eq!(ctx.conditionals.ignoring, vec![0]);
    assert_eq!(read_line(&mut ctx, &mut env, "else"), Ok(1));
    assert_eq!(ctx.conditionals.ignoring, vec![2]);
    assert_eq!(ctx.conditionals.seen_else, vec![1]);
    assert_eq!(read_line(&mut ctx, &mut env, "endif"), Ok(0));
    assert!(ctx.conditionals.ignoring.is_empty() && ctx.conditionals.seen_else.is_empty());
    assert_eq!(read_line(&mut ctx, &mut env, "ifdef EMPTY"), Ok(1));
    assert_eq!(read_line(&mut ctx, &mut env, "else"), Ok(0));
    assert_eq!(read_line(&mut ctx, &mut env, "endif"), Ok(0));
    assert_eq!(read_line(&mut ctx, &mut env, "ifndef UNSET"), Ok(0));
    assert_eq!(read_line(&mut ctx, &mut env, "endif"), Ok(0));
    assert!(ctx.diagnostics.is_empty());
}

#[test]
fn ifeq_compares_the_expansions() {
    let mut ctx = ExecContext::default();
    let mut env = Vars(vec![("CC", "gcc")]);
    assert_eq!(read_line(&mut ctx, &mut env, "ifeq ($(CC),gcc)"), Ok(0));
    assert_eq!(read_line(&mut ctx, &mut env, "endif"), Ok(0));
    assert_eq!(read_line(&mut ctx, &mut env, "ifneq ($(CC),gcc)"), Ok(1));
    assert_eq!(read_line(&mut ctx, &mut env, "endif"), Ok(0));
    assert_eq!(read_line(&mut ctx, &mut env, "ifeq \"a\" \"b\""), Ok(1));
    assert_eq!(read_line(&mut ctx, &mut env, "endif"), Ok(0));
}

#[test]
fn nested_conditionals_inside_an_ignored_one_are_ignored() {
    let mut ctx = ExecContext::default();
    let mut env = Vars(vec![("FOO", "1")]);
    assert_eq!(read_line(&mut ctx, &mut env, "ifeq (a,b)"), Ok(1));
    assert_eq!(read_line(&mut ctx, &mut env, "ifdef FOO"), Ok(1));
    assert_eq!(ctx.conditionals.ignoring, vec![1, 1]);
    assert_eq!(read_line(&mut ctx, &mut env, "endif"), Ok(1));
    assert_eq!(read_line(&mut ctx, &mut env, "endif"), Ok(0));
}

#[test]
fn else_chains_a_new_condition() {
    let mut ctx = ExecContext::default();
    let mut env = Vars(vec![]);
    assert_eq!(read_line(&mut ctx, &mut env, "ifeq (a,b)"), Ok(1));
    assert_eq!(read_line(&mut ctx, &mut env, "else ifeq (a,a)"), Ok(0));
    assert_eq!(ctx.conditionals.ignoring, vec![0]);
    assert_eq!(ctx.conditionals.seen_else, vec![0]);
    // The branch was taken: a later `else` is ignored for good.
    assert_eq!(read_line(&mut ctx, &mut env, "else ifeq (c,c)"), Ok(1));
    assert_eq!(ctx.conditionals.ignoring, vec![2]);
    assert_eq!(read_line(&mut ctx, &mut env, "else"), Ok(1));
    assert_eq!(read_line(&mut ctx, &mut env, "endif"), Ok(0));
    assert!(ctx.diagnostics.is_empty());
}

#[test]
fn misplaced_else_and_endif_are_errors() {
    let mut ctx = ExecContext::default();
    let mut env = Vars(vec![]);
    assert_eq!(read_line(&mut ctx, &mut env, "endif"), Err(BuildError::Failure));
    assert_eq!(ctx.diagnostics[0].message, b"extraneous 'endif'".to_vec());
    assert_eq!(ctx.diagnostics[0].floc.lineno, 4);
    assert_eq!(read_line(&mut ctx, &mut env, "else"), Err(BuildError::Failure));
    assert_eq!(ctx.diagnostics[1].message, b"extraneous 'else'".to_vec());
    assert_eq!(read_line(&mut ctx, &mut env, "ifdef X"), Ok(1));
    assert_eq!(read_line(&mut ctx, &mut env, "else"), Ok(0));
    assert_eq!(read_line(&mut ctx, &mut env, "else"), Err(BuildError::Failure));
    assert_eq!(ctx.diagnostics[2].message, b"only one 'else' per conditional".to_vec());
    assert_eq!(ctx.conditionals.ignoring, vec![0]);
}

#[test]
fn stray_text_is_warned_about() {
    let mut ctx = ExecContext::default();
    let mut env = Vars(vec![]);
    assert_eq!(read_line(&mut ctx, &mut env, "ifeq (a,a) junk"), Ok(0));
    assert_eq!(ctx.diagnostics[0].message, b"extraneous text after 'ifeq' directive".to_vec());
    assert_eq!(read_line(&mut ctx, &mut env, "else junk"), Ok(1));
    assert_eq!(ctx.diagnostics[1].message, b"extraneous text after 'else' directive".to_vec());
    assert_eq!(ctx.conditionals.seen_else, vec![0]);
    assert_eq!(read_line(&mut ctx, &mut env, "endif junk"), Ok(0));
    assert_eq!(ctx.diagnostics[2].message, b"extraneous text after 'endif' directive".to_vec());
}

#[test]
fn other_lines_and_syntax_errors() {
    let mut ctx = ExecContext::default();
    let mut env = Vars(vec![]);
    assert_eq!(read_line(&mut ctx, &mut env, "all: foo"), Ok(-2));
    assert_eq!(read_line(&mut ctx, &mut env, "ifdef A B"), Ok(-1));
    assert_eq!(ctx.conditionals.ignoring, vec![0]);
    assert_eq!(read_line(&mut ctx, &mut env, "ifeq x"), Ok(-1));
    assert_eq!(conditional_line(&mut ctx, b"endif", 5, &here(), true, &mut env), Ok(0));
    assert_eq!(
        ctx.diagnostics[0].message,
        b"warning: conditional directive lines cannot start with TAB".to_vec()
    );
}

#[test]
fn condition_decisions() {
    assert_eq!(ifdef_ignores(false, true), 0);
    assert_eq!(ifdef_ignores(false, false), 1);
    assert_eq!(ifdef_ignores(true, true), 1);
    assert_eq!(ifeq_ignores(false, b"a", b"a"), 0);
    assert_eq!(ifeq_ignores(false, b"a", b"b"), 1);
    assert_eq!(ifeq_ignores(true, b"a", b"b"), 0);
}

fn text_buffer(text: &[u8]) -> EBuffer {
    let mut bytes = text.to_vec();
    bytes.push(0);
    EBuffer { buffer: 0, bufnext: 0, bufstart: bytes, size: text.len(), floc: here() }
}

fn current_line(eb: &EBuffer) -> Vec<u8> {
    let tail = &eb.bufstart[eb.buffer..];
    let end = tail.iter().position(|&b| b == 0).unwrap_or(tail.len());
    tail[..end].to_vec()
}

#[test]
fn string_lines_join_backslash_continuations() {
    let mut eb = text_buffer(b"a = 1\nb = 2 \\\n  3\nc = \\\\\nd");
    assert_eq!(readstring(&mut eb), 0);
    assert_eq!(current_line(&eb), b"a = 1".to_vec());
    assert_eq!(readstring(&mut eb), 0);
    assert_eq!(current_line(&eb), b"b = 2 \\\n  3".to_vec());
    // An even run of backslashes does not continue the line.
    assert_eq!(readstring(&mut eb), 0);
    assert_eq!(current_line(&eb), b"c = \\\\".to_vec());
    assert_eq!(readstring(&mut eb), 0);
    assert_eq!(current_line(&eb), b"d".to_vec());
    assert_eq!(eb.bufnext, eb.size + 1);
    assert_eq!(readstring(&mut eb), -1);
}

#[test]
fn an_empty_text_has_no_line() {
    let mut eb = text_buffer(b"");
    assert_eq!(readstring(&mut eb), -1);
    let mut eb = text_buffer(b"\n");
    assert_eq!(readstring(&mut eb), 0);
    assert_eq!(current_line(&eb), Vec::<u8>::new());
    assert_eq!(readstring(&mut eb), -1);
}

#[test]
fn comments_and_percents() {
    let mut line = b"x = a # comment\0".to_vec();
    remove_comments(&mut line);
    assert_eq!(&line[..6], b"x = a ");
    assert_eq!(line[6], 0);
    let mut line = b"x = $(a#b) \\# c\0".to_vec();
    remove_comments(&mut line);
    assert_eq!(line.iter().position(|&b| b == 0), Some(14));
    let mut pat = b"lib\\%%.a\0".to_vec();
    assert_eq!(find_percent(&mut pat), Some(4));
    assert_eq!(&pat[..7], b"lib%%.a");
    let mut none = b"abc\0".to_vec();
    assert_eq!(find_percent(&mut none), None);
}

#[test]
fn a_wait_target_with_prerequisites_and_recipe_is_warned_about_once() {
    let mut ctx = ExecContext::default();
    let mut w = lib::file::FileNode {
        name: b".WAIT".to_vec(),
        deps: vec![dep_from_name(b"x".to_vec(), false, false)],
        also_make: Vec::new(),
        recipe: Some(lib::recipe::Recipe::default()),
        renamed: None,
        double_colon: Vec::new(),
        is_double_colon: false,
        considered: 0,
        command_state: lib::file::CommandState::NotStarted,
        update_status: lib::file::UpdateStatus::Success,
        updated: false,
        phony: false,
        is_target: true,
        dontcare: false,
        no_diag: false,
        tried_implicit: false,
        suffix: false,
        cmd_target: false,
        last_mtime: 0,
        mtime_before_update: 0,
        marks: lib::file::FileMarks {
            updating: false,
            low_resolution_time: false,
            intermediate: false,
            secondary: false,
            notintermediate: false,
            ignore_vpath: false,
            is_explicit: false,
            parent: None,
        },
        hname: b".WAIT".to_vec(),
    };
    ctx.files.push(w);
    check_special_file(&mut ctx, 0, &here());
    assert_eq!(ctx.diagnostics.len(), 2);
    assert_eq!(ctx.diagnostics[0].message, b".WAIT should not have prerequisites".to_vec());
    assert_eq!(ctx.diagnostics[1].message, b".WAIT should not have commands".to_vec());
    assert!(ctx.run.wait_prereqs_warned && ctx.run.wait_recipe_warned);
    check_special_file(&mut ctx, 0, &here());
    assert_eq!(ctx.diagnostics.len(), 2);
    w = ctx.files.pop().unwrap();
    w.name = b"all".to_vec();
    ctx.files.push(w);
    ctx.run.wait_prereqs_warned = false;
    check_special_file(&mut ctx, 0, &here());
    assert_eq!(ctx.diagnostics.len(), 2);
}

#[test]
fn variable_modifiers_are_read_into_flags() {
    let mut ctx = ExecContext::default();
    let mut vmod = VModifiers {
        assign_v: false,
        define_v: false,
        undefine_v: false,
        override_v: false,
        private_v: false,
        export_v: v_default,
    };
    let line = b"export override FOO = bar";
    let rest = parse_var_assignment(&mut ctx, line, false, None, &mut vmod);
    assert_eq!(&line[rest..], b"FOO = bar");
    assert!(vmod.assign_v && vmod.override_v && !vmod.private_v);
    assert_eq!(vmod.export_v, v_export);
    assert!(ctx.diagnostics.is_empty());

    let rest = parse_var_assignment(&mut ctx, b"unexport X := 1", false, Some(&here()), &mut vmod);
    assert_eq!(rest, 9);
    assert_eq!(vmod.export_v, v_noexport);
    assert!(!vmod.override_v);
    assert_eq!(ctx.diagnostics[0].message, b"warning: directive lines cannot start with TAB".to_vec());

    let rest = parse_var_assignment(&mut ctx, b"  all: foo", false, Some(&here()), &mut vmod);
    assert_eq!(rest, 2);
    assert!(!vmod.assign_v);
    assert_eq!(vmod.export_v, v_default);
    assert_eq!(ctx.diagnostics.len(), 1);
    assert_eq!((v_default, v_export, v_noexport, v_ifset), (0, 1, 2, 3));
}

fn file_buffer(size: usize) -> EBuffer {
    EBuffer { buffer: 0, bufnext: 0, bufstart: vec![7u8; size], size, floc: here() }
}

#[test]
fn file_lines_join_continuations_across_reads() {
    let mut eb = file_buffer(200);
    let mut diags = Vec::new();
    let mut st = readline_begin(&mut eb);
    assert_eq!(readline_room(&eb, &st), 200);
    assert_eq!(readline_chunk(&mut eb, &mut st, b"ab \\\n", &mut diags), Ok(false));
    assert_eq!(readline_chunk(&mut eb, &mut st, b"cd\n", &mut diags), Ok(true));
    assert_eq!(st.nlines, 2);
    assert_eq!(&eb.bufstart[..9], b"ab \\\ncd\0\0");
    assert_eq!(readline_end(&st), 2);
    assert!(diags.is_empty());
}

#[test]
fn a_long_line_doubles_the_buffer() {
    let mut eb = file_buffer(8);
    let mut diags = Vec::new();
    let mut st = readline_begin(&mut eb);
    assert_eq!(readline_chunk(&mut eb, &mut st, b"abcdefg", &mut diags), Ok(false));
    assert_eq!(eb.size, 16);
    assert_eq!(eb.bufstart.len(), 16);
    assert_eq!(readline_room(&eb, &st), 9);
    assert_eq!(readline_chunk(&mut eb, &mut st, b"h\n", &mut diags), Ok(true));
    assert_eq!(&eb.bufstart[..9], b"abcdefgh\0");
    assert_eq!(readline_end(&st), 1);
}

#[test]
fn carriage_returns_and_nul_bytes() {
    let mut eb = file_buffer(100);
    let mut diags = Vec::new();
    let mut st = readline_begin(&mut eb);
    assert_eq!(readline_chunk(&mut eb, &mut st, b"x\r\n", &mut diags), Ok(true));
    assert_eq!(&eb.bufstart[..2], b"x\0");
    let mut st = readline_begin(&mut eb);
    assert_eq!(readline_chunk(&mut eb, &mut st, b"\0junk\n", &mut diags), Ok(true));
    assert_eq!(eb.bufstart[0], 0);
    assert_eq!(diags[0].message, b"warning: NUL character seen; rest of line ignored".to_vec());
    let st = readline_begin(&mut eb);
    assert_eq!(readline_end(&st), -1);
}

#[test]
fn matches_oracle() {
    let cases: &[(&[u8], &[u8])] = &[
        (b"", b""),
        (b"a", b"a"),
        (b"%.o", b"%.o"),
        (b"%.c", b"%.c"),
        (b"src/%", b"src/%"),
        (b"foo.bar", b"foo.bar"),
        (b"with-high\xff\x80\x01-bytes", b"with-high\xff\x80\x01-bytes"),
        (b"embedded\x00nul-truncates", b"embedded"),
        (b"\x00leading-nul", b""),
        (b"trailing-nul\x00", b"trailing-nul"),
    ];
    for &(token, copied) in cases {
        let safe = vpath_pattern_token(token);
        assert_eq!(safe.last().copied(), Some(0u8));
        assert_eq!(&safe[..safe.len() - 1], copied);
    }
}

/// The variable layer as the special targets use it, recorded.
#[derive(Default)]
struct Defaults {
    defined: Vec<(Vec<u8>, Vec<u8>)>,
    default_goal: Vec<u8>,
}

impl VariableEnv for Defaults {
    fn define_default(&mut self, _ctx: &ExecContext, name: &[u8], value: &[u8]) -> Result<(), BuildError> {
        self.defined.push((name.to_vec(), value.to_vec()));
        Ok(())
    }
    fn default_goal_is_empty(&mut self, _ctx: &ExecContext) -> bool {
        self.default_goal.is_empty()
    }
    fn set_default_goal(&mut self, _ctx: &ExecContext, name: &[u8]) -> Result<(), BuildError> {
        self.default_goal = name.to_vec();
        Ok(())
    }
}

fn names(list: &[&str]) -> Vec<ParsedName> {
    list.iter().map(|n| ParsedName { name: n.as_bytes().to_vec(), wait: false }).collect()
}

#[test]
fn special_targets_turn_modes_on() {
    let mut ctx = ExecContext::default();
    let mut env = Defaults::default();
    assert_eq!(check_specials(&mut ctx, &names(&[".POSIX", ".ONESHELL", ".SECONDEXPANSION"]), false, &mut env), Ok(()));
    assert!(ctx.posix_pedantic && ctx.run.one_shell && ctx.run.second_expansion);
    assert_eq!(env.defined.len(), 7);
    assert_eq!(env.defined[1], (b"CC".to_vec(), b"c99".to_vec()));
    // A second .POSIX changes nothing more.
    assert_eq!(check_specials(&mut ctx, &names(&[".POSIX"]), false, &mut env), Ok(()));
    assert_eq!(env.defined.len(), 7);
}

#[test]
fn the_first_plain_target_becomes_the_default_goal() {
    let mut ctx = ExecContext::default();
    let mut env = Defaults::default();
    assert_eq!(check_specials(&mut ctx, &names(&[".PHONY", "all", "other"]), true, &mut env), Ok(()));
    assert_eq!(env.default_goal, b"all".to_vec());
    let mut env = Defaults::default();
    assert_eq!(check_specials(&mut ctx, &names(&["%.o", "all"]), true, &mut env), Ok(()));
    assert!(env.default_goal.is_empty());
    let mut env = Defaults::default();
    assert_eq!(check_specials(&mut ctx, &names(&["./x"]), false, &mut env), Ok(()));
    assert!(env.default_goal.is_empty());
}

#[test]
fn suffix_rules_are_no_default_goal() {
    let sufs = vec![b".c".to_vec(), b".o".to_vec(), b"x".to_vec()];
    assert!(is_suffix_rule_name(b".c.o", &sufs));
    assert!(is_suffix_rule_name(b"x", &sufs));
    assert!(is_suffix_rule_name(b"x.c", &sufs));
    assert!(!is_suffix_rule_name(b".c", &sufs));
    assert!(!is_suffix_rule_name(b"all", &sufs));
    assert_eq!(special_step(false, false, false, b"x.c", true, &sufs), SpecialStep::Nothing);
    assert_eq!(special_step(false, false, false, b"prog", true, &sufs), SpecialStep::DefaultGoal);
    assert_eq!(special_step(false, false, false, b"a%b", true, &sufs), SpecialStep::Stop);
    assert_eq!(special_step(true, false, false, b".POSIX", false, &sufs), SpecialStep::Nothing);
}
