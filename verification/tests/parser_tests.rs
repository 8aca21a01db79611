use lib::parser::FindPercentCached::{AsIs, Collapsed};
use lib::parser::MWordType::{AmpColon, AmpDColon, Colon, DColon, Eol, Semicolon, Static, Variable};
use lib::stopchar::{MAP_SEMI, MAP_VARIABLE};
use lib::parser::{
    assignment_ast, closes_ignored_define, define_keyword, find_char_unquote_idx,
    find_map_unquote_idx, find_percent_cached, get_next_mword, ifeq_ifneq_without_separator,
    is_wait_token, lone_token, parse_assignment, parse_conditional_args,
    prereq_needs_second_expansion, rest_is_blank, rule_probe, scan_var_modifiers,
    starts_with_eight_spaces, strip_dot_slash_prefix, trimmed_token, unescape_char,
    AddprefixAddsuffix, Assignment, BasenameDir, ConditionalArgs, DefineKeyword, Directive,
    ExportMode, FileDirective, FindPercentCached, Flavor, LineClass, LineKind, LogFunction, MakeDb,
    NotdirSuffix, SpecialTarget, VarModScan, VarModifier, VarModifiers, classify_line,
};



fn parse(s: &str) -> Option<Assignment> {
    parse_assignment(s.as_bytes())
}

/// Helper: parse and return (name, flavor, conditional, value) as strings.
fn parts(s: &str) -> Option<(String, Flavor, bool, String)> {
    let a = parse(s)?;
    let b = s.as_bytes();
    Some((
        String::from_utf8(b[a.name()].to_vec()).unwrap(),
        a.flavor,
        a.conditional,
        String::from_utf8(b[a.value_start..].to_vec()).unwrap(),
    ))
}

#[test]
fn recursive_assignment() {
    assert_eq!(
        parts("FOO = bar"),
        Some(("FOO".into(), Flavor::Recursive, false, "bar".into()))
    );
}

#[test]
fn simple_assignment_colon_eq() {
    assert_eq!(
        parts("FOO := bar"),
        Some(("FOO".into(), Flavor::Simple, false, "bar".into()))
    );
}

#[test]
fn simple_assignment_double_colon_eq() {
    assert_eq!(
        parts("FOO ::= bar"),
        Some(("FOO".into(), Flavor::Simple, false, "bar".into()))
    );
}

#[test]
fn expand_assignment_triple_colon_eq() {
    assert_eq!(
        parts("FOO :::= bar"),
        Some(("FOO".into(), Flavor::Expand, false, "bar".into()))
    );
}

#[test]
fn conditional_assignment() {
    assert_eq!(
        parts("FOO ?= bar"),
        Some(("FOO".into(), Flavor::Recursive, true, "bar".into()))
    );
}

#[test]
fn append_assignment() {
    assert_eq!(
        parts("FOO += bar"),
        Some(("FOO".into(), Flavor::Append, false, "bar".into()))
    );
}

#[test]
fn shell_assignment() {
    assert_eq!(
        parts("FOO != echo bar"),
        Some(("FOO".into(), Flavor::Shell, false, "echo bar".into()))
    );
}

#[test]
fn no_whitespace_around_operator() {
    assert_eq!(
        parts("FOO:=bar"),
        Some(("FOO".into(), Flavor::Simple, false, "bar".into()))
    );
}

#[test]
fn name_with_variable_reference() {
    // The `$(X)` in the name is skipped as a single unit, not treated as a
    // word break, so this remains one definition.
    let a = parse("pre$(X)post = v").unwrap();
    assert_eq!(a.flavor, Flavor::Recursive);
    assert_eq!(&"pre$(X)post = v".as_bytes()[a.name()], b"pre$(X)post");
}

#[test]
fn comment_is_not_a_definition() {
    assert_eq!(parse("# just a comment"), None);
}

#[test]
fn empty_line_is_not_a_definition() {
    assert_eq!(parse(""), None);
    assert_eq!(parse("   "), None);
}

#[test]
fn bare_word_is_not_a_definition() {
    assert_eq!(parse("target"), None);
}

#[test]
fn two_words_before_operator_is_not_a_definition() {
    // A space-separated second word before any operator is a rule/other
    // construct, not an assignment.
    assert_eq!(parse("FOO BAR = baz"), None);
}

#[test]
fn empty_value_after_operator() {
    assert_eq!(
        parts("FOO ="),
        Some(("FOO".into(), Flavor::Recursive, false, "".into()))
    );
}

#[test]
fn salsa_query_matches_pure_parser() {
    let db = MakeDb::default();
    for line in ["A = 1", "B := 2", "C ?= 3", "not a def", "# x"] {
        assert_eq!(
            assignment_ast(&db, line.as_bytes()),
            parse_assignment(line.as_bytes()),
            "salsa query and pure parser disagree on {line:?}"
        );
    }
}

#[test]
fn conditional_directives_classify() {
    assert_eq!(Directive::from_word(b"ifdef"), Some(Directive::Ifdef));
    assert_eq!(Directive::from_word(b"ifndef"), Some(Directive::Ifndef));
    assert_eq!(Directive::from_word(b"ifeq"), Some(Directive::Ifeq));
    assert_eq!(Directive::from_word(b"ifneq"), Some(Directive::Ifneq));
    assert_eq!(Directive::from_word(b"else"), Some(Directive::Else));
    assert_eq!(Directive::from_word(b"endif"), Some(Directive::Endif));
}

#[test]
fn non_directives_are_rejected() {
    // Matching is exact: prefixes, suffixes, and unrelated words are not
    // directives.
    for w in [
        &b""[..],
        b"if",
        b"ifdefx",
        b"xifdef",
        b"IFDEF",
        b"endi",
        b"endiff",
        b"target",
    ] {
        assert_eq!(Directive::from_word(w), None, "{:?} must not classify", w);
    }
}

#[test]
fn directive_names_are_the_keywords() {
    assert_eq!(Directive::Ifdef.name().as_bytes(), b"ifdef");
    assert_eq!(Directive::Ifndef.name().as_bytes(), b"ifndef");
    assert_eq!(Directive::Ifeq.name().as_bytes(), b"ifeq");
    assert_eq!(Directive::Ifneq.name().as_bytes(), b"ifneq");
    assert_eq!(Directive::Else.name().as_bytes(), b"else");
    assert_eq!(Directive::Endif.name().as_bytes(), b"endif");
}

#[test]
fn var_modifiers_classify() {
    assert_eq!(VarModifier::from_word(b"export"), Some(VarModifier::Export));
    assert_eq!(
        VarModifier::from_word(b"unexport"),
        Some(VarModifier::Unexport)
    );
    assert_eq!(
        VarModifier::from_word(b"override"),
        Some(VarModifier::Override)
    );
    assert_eq!(
        VarModifier::from_word(b"private"),
        Some(VarModifier::Private)
    );
    assert_eq!(VarModifier::from_word(b"define"), Some(VarModifier::Define));
    assert_eq!(
        VarModifier::from_word(b"undefine"),
        Some(VarModifier::Undefine)
    );
}

#[test]
fn non_modifiers_are_rejected() {
    for w in [
        &b""[..],
        b"exp",
        b"exports",
        b"EXPORT",
        b"definex",
        b"ifdef",
        b"FOO",
    ] {
        assert_eq!(VarModifier::from_word(w), None, "{:?} must not classify", w);
    }
}

#[test]
fn file_directives_classify() {
    assert_eq!(
        FileDirective::from_word(b"vpath"),
        Some(FileDirective::Vpath)
    );
    assert_eq!(
        FileDirective::from_word(b"include"),
        Some(FileDirective::Include)
    );
    // `-include` and `sinclude` are the same error-tolerant include.
    assert_eq!(
        FileDirective::from_word(b"-include"),
        Some(FileDirective::IncludeOpt)
    );
    assert_eq!(
        FileDirective::from_word(b"sinclude"),
        Some(FileDirective::IncludeOpt)
    );
    assert_eq!(FileDirective::from_word(b"load"), Some(FileDirective::Load));
    assert_eq!(
        FileDirective::from_word(b"-load"),
        Some(FileDirective::LoadOpt)
    );
}

#[test]
fn non_file_directives_are_rejected() {
    for w in [
        &b""[..],
        b"vpaths",
        b"includ",
        b"includes",
        b"VPATH",
        b"loaded",
        b"export",
        b"FOO",
    ] {
        assert_eq!(
            FileDirective::from_word(w),
            None,
            "{:?} must not classify",
            w
        );
    }
}

#[test]
fn define_keywords_classify() {
    assert_eq!(
        DefineKeyword::from_word(b"define"),
        Some(DefineKeyword::Define)
    );
    assert_eq!(
        DefineKeyword::from_word(b"endef"),
        Some(DefineKeyword::Endef)
    );
}

#[test]
fn non_define_keywords_are_rejected() {
    // Prefixes, suffixes, case variants, and the trailing-NUL form (the
    // slice excludes the C string's NUL) must all fail to classify.
    for w in [
        &b""[..],
        b"defin",
        b"defines",
        b"Define",
        b"DEFINE",
        b"endefs",
        b"ende",
        b"Endef",
        b"define\0",
        b"undefine",
        b"export",
    ] {
        assert_eq!(
            DefineKeyword::from_word(w),
            None,
            "{:?} must not classify",
            w
        );
    }
}

#[test]
fn line_kind_classifies_leading_byte() {
    // With the default tab prefix: NUL is blank, a leading tab is a recipe,
    // anything else parses further.
    assert_eq!(LineKind::classify(0, b'\t'), LineKind::Blank);
    assert_eq!(LineKind::classify(b'\t', b'\t'), LineKind::Recipe);
    assert_eq!(LineKind::classify(b'a', b'\t'), LineKind::Other);
    assert_eq!(LineKind::classify(b' ', b'\t'), LineKind::Other);
    assert_eq!(LineKind::classify(b'#', b'\t'), LineKind::Other);
}

#[test]
fn line_kind_honors_recipe_prefix_override() {
    // `.RECIPEPREFIX` can change the recipe character: with `>` as the
    // prefix, a leading `>` is a recipe and a leading tab is just `Other`.
    assert_eq!(LineKind::classify(b'>', b'>'), LineKind::Recipe);
    assert_eq!(LineKind::classify(b'\t', b'>'), LineKind::Other);
    // The empty-line test still wins regardless of the prefix.
    assert_eq!(LineKind::classify(0, b'>'), LineKind::Blank);
}

#[test]
fn special_targets_classify() {
    assert_eq!(
        SpecialTarget::from_name(b".POSIX"),
        Some(SpecialTarget::Posix)
    );
    assert_eq!(
        SpecialTarget::from_name(b".SECONDEXPANSION"),
        Some(SpecialTarget::SecondExpansion)
    );
    assert_eq!(
        SpecialTarget::from_name(b".ONESHELL"),
        Some(SpecialTarget::OneShell)
    );
}

#[test]
fn log_functions_classify() {
    assert_eq!(
        LogFunction::from_funcname(b"error"),
        Some(LogFunction::Error)
    );
    assert_eq!(
        LogFunction::from_funcname(b"warning"),
        Some(LogFunction::Warning)
    );
    assert_eq!(LogFunction::from_funcname(b"info"), Some(LogFunction::Info));
}

#[test]
fn log_functions_reject_non_matches() {
    // Other built-in functions sharing a first byte must not classify
    // (the old wall switched on the first byte alone).
    for w in [
        b"eval".as_slice(),
        b"if".as_slice(),
        b"wildcard".as_slice(),
        b"intcmp".as_slice(),
        b"Error".as_slice(),
        b"errors".as_slice(),
        b"".as_slice(),
    ] {
        assert_eq!(
            LogFunction::from_funcname(w),
            None,
            "{:?} must not classify",
            w
        );
    }
}

#[test]
fn notdir_suffix_classify() {
    assert_eq!(
        NotdirSuffix::from_funcname(b"notdir"),
        Some(NotdirSuffix::Notdir)
    );
    assert_eq!(
        NotdirSuffix::from_funcname(b"suffix"),
        Some(NotdirSuffix::Suffix)
    );
}

#[test]
fn notdir_suffix_reject_non_matches() {
    // Other built-in functions sharing a first byte ('s' for suffix,
    // 'n' for notdir) must not classify — the old wall switched on the
    // first byte alone (`*funcname == 's'`).
    for w in [
        b"subst".as_slice(),
        b"sort".as_slice(),
        b"strip".as_slice(),
        b"shell".as_slice(),
        b"basename".as_slice(),
        b"dir".as_slice(),
        b"Suffix".as_slice(),
        b"notdirs".as_slice(),
        b"".as_slice(),
    ] {
        assert_eq!(
            NotdirSuffix::from_funcname(w),
            None,
            "{:?} must not classify",
            w
        );
    }
}

#[test]
fn basename_dir_classify() {
    assert_eq!(
        BasenameDir::from_funcname(b"basename"),
        Some(BasenameDir::Basename)
    );
    assert_eq!(BasenameDir::from_funcname(b"dir"), Some(BasenameDir::Dir));
}

#[test]
fn basename_dir_reject_non_matches() {
    // Other built-in functions sharing a first byte ('b' for basename,
    // 'd' for dir) must not classify — the old wall switched on the first
    // byte alone (`*funcname == 'b'`).
    for w in [
        b"basenam".as_slice(),
        b"basenames".as_slice(),
        b"Basename".as_slice(),
        b"d".as_slice(),
        b"directory".as_slice(),
        b"notdir".as_slice(),
        b"suffix".as_slice(),
        b"".as_slice(),
    ] {
        assert_eq!(
            BasenameDir::from_funcname(w),
            None,
            "{:?} must not classify",
            w
        );
    }
}

#[test]
fn addprefix_addsuffix_classify() {
    assert_eq!(
        AddprefixAddsuffix::from_funcname(b"addprefix"),
        Some(AddprefixAddsuffix::Addprefix)
    );
    assert_eq!(
        AddprefixAddsuffix::from_funcname(b"addsuffix"),
        Some(AddprefixAddsuffix::Addsuffix)
    );
}

#[test]
fn addprefix_addsuffix_reject_non_matches() {
    // The old wall switched on the fourth byte alone (`funcname[3] == 'p'`),
    // so any name with 'p'/'s' there would have been miscategorised; the
    // typed classifier matches the full name instead.
    for w in [
        b"addprefi".as_slice(),
        b"addprefixes".as_slice(),
        b"addp".as_slice(),
        b"addsuffi".as_slice(),
        b"Addprefix".as_slice(),
        b"subst".as_slice(),
        b"".as_slice(),
    ] {
        assert_eq!(
            AddprefixAddsuffix::from_funcname(w),
            None,
            "{:?} must not classify",
            w
        );
    }
}

fn scan(s: &str) -> VarModScan {
    scan_var_modifiers(s.as_bytes(), false)
}

#[test]
fn var_modifiers_plain_assignment() {
    // No modifiers; the whole line is a definition.
    let r = scan("FOO = 1");
    assert_eq!(r.mods, VarModifiers::default());
    assert!(!r.had_modifier);
    assert!(r.assign);
    assert_eq!(r.rest, 0);
}

#[test]
fn var_modifiers_export_is_a_name_when_assigned() {
    // `export = 1` assigns the variable named `export`; it is not a modifier.
    let r = scan("export = 1");
    assert_eq!(r.mods.export, None);
    assert!(!r.had_modifier);
    assert!(r.assign);
    assert_eq!(r.rest, 0);
}

#[test]
fn var_modifiers_single_and_stacked() {
    let r = scan("export FOO = 1");
    assert_eq!(r.mods.export, Some(ExportMode::Export));
    assert!(r.had_modifier);
    assert!(r.assign);
    assert_eq!(r.rest, "export ".len());

    let r = scan("override private BAR := 2");
    assert!(r.mods.over && r.mods.private);
    assert!(r.assign);
    assert_eq!(r.rest, "override private ".len());
}

#[test]
fn var_modifiers_define_and_undefine() {
    let r = scan("define X");
    assert!(r.mods.define && r.assign && r.had_modifier);
    assert_eq!(r.rest, "define ".len());

    let r = scan("undefine Y");
    assert!(r.mods.undefine && r.assign);
    assert_eq!(r.rest, "undefine ".len());
}

#[test]
fn var_modifiers_define_is_plain_name_in_targetvar() {
    // In a target-specific context, `define`/`undefine` are plain names.
    let r = scan_var_modifiers(b"define X", true);
    assert!(!r.mods.define);
    assert!(!r.assign);
    assert_eq!(r.rest, 0);
}

#[test]
fn var_modifiers_rule_line_is_not_assignment() {
    // A modifier followed by a non-definition (a rule) keeps the flag but is
    // not an assignment, and rewinds to the line start.
    let r = scan("override foo: bar");
    assert!(r.mods.over);
    assert!(!r.assign);
    assert_eq!(r.rest, 0);
}

fn classify(s: &str) -> LineClass {
    classify_line(&MakeDb::default(), s.as_bytes(), false)
}

#[test]
fn classify_conditional_directive() {
    assert_eq!(
        classify("ifdef FOO"),
        LineClass::Conditional(Directive::Ifdef)
    );
    assert_eq!(
        classify("ifeq (a,b)"),
        LineClass::Conditional(Directive::Ifeq)
    );
    assert_eq!(classify("endif"), LineClass::Conditional(Directive::Endif));
    assert_eq!(
        classify("  else  "),
        LineClass::Conditional(Directive::Else)
    );
}

#[test]
fn classify_file_directives() {
    assert_eq!(
        classify("vpath %.c src"),
        LineClass::File(FileDirective::Vpath)
    );
    assert_eq!(
        classify("include foo.mk"),
        LineClass::File(FileDirective::Include)
    );
    assert_eq!(
        classify("-include foo.mk"),
        LineClass::File(FileDirective::IncludeOpt)
    );
    assert_eq!(
        classify("sinclude foo.mk"),
        LineClass::File(FileDirective::IncludeOpt)
    );
    assert_eq!(
        classify("load plugin.so"),
        LineClass::File(FileDirective::Load)
    );
    assert_eq!(
        classify("-load plugin.so"),
        LineClass::File(FileDirective::LoadOpt)
    );
}

#[test]
fn classify_multiword_keyword_is_file_directive() {
    // `include FOO = 1` is an include of the file `FOO = 1`: the embedded
    // blank stops it from parsing as an assignment, so it falls through to
    // the file-directive arm — exactly make's behavior.
    assert_eq!(
        classify("include FOO = 1"),
        LineClass::File(FileDirective::Include)
    );
}

#[test]
fn classify_assignment_beats_keyword() {
    // make's `eval` probes for an assignment before the directive dispatch,
    // so a keyword used as a bare variable name is an assignment, not a
    // directive (`include = x`, `vpath = x`, `ifdef = x`).
    for line in ["include = x", "vpath = x", "ifdef = x"] {
        match classify(line) {
            LineClass::VarDef(vl) => {
                assert!(
                    vl.assign && !vl.had_modifier,
                    "{line:?} should be a plain assignment"
                )
            }
            other => panic!("{line:?} expected VarDef, got {other:?}"),
        }
    }
}

#[test]
fn classify_var_definitions() {
    match classify("FOO = 1") {
        LineClass::VarDef(vl) => {
            assert_eq!(vl.mods, VarModifiers::default());
            assert!(vl.assign && !vl.had_modifier);
            assert_eq!(vl.rest, 0);
        }
        other => panic!("expected VarDef, got {other:?}"),
    }
    match classify("export FOO = 1") {
        LineClass::VarDef(vl) => {
            assert_eq!(vl.mods.export, Some(ExportMode::Export));
            assert!(vl.assign && vl.had_modifier);
            assert_eq!(vl.rest, "export ".len());
        }
        other => panic!("expected VarDef, got {other:?}"),
    }
    // `export = 1` assigns the variable named `export`; still a VarDef, but
    // with no export modifier (the bare-word export arm in `eval` is what
    // treats `export` as a directive — `classify_line` leaves it to the scan).
    match classify("export = 1") {
        LineClass::VarDef(vl) => {
            assert_eq!(vl.mods.export, None);
            assert!(vl.assign && !vl.had_modifier);
        }
        other => panic!("expected VarDef, got {other:?}"),
    }
}

/// Parse a conditional argument line and return the two argument substrings
/// plus the trailing-text flag, or `None` for a syntax error.
/// Parse `s` and, for a [`ConditionalArgs::Both`] result, return the two
/// argument substrings and the trailing-text flag; `None` for the other
/// (error) variants.
fn cargs(s: &str) -> Option<(String, String, bool)> {
    let b = s.as_bytes();
    match parse_conditional_args(b) {
        ConditionalArgs::Both {
            arg1,
            arg2,
            trailing_text,
        } => {
            Some((
                String::from_utf8(b[arg1].to_vec()).unwrap(),
                String::from_utf8(b[arg2].to_vec()).unwrap(),
                trailing_text,
            ))
        }
        _ => None,
    }
}

#[test]
fn conditional_paren_form() {
    assert_eq!(cargs("(a,b)"), Some(("a".into(), "b".into(), false)));
    // Only the first argument's *trailing* blanks (before the comma) are
    // trimmed — its leading blank is kept; the second argument drops leading
    // blanks but keeps trailing ones (mirroring make's exact scan).
    assert_eq!(cargs("( a , b )"), Some((" a".into(), "b ".into(), false)));
    assert_eq!(cargs("(,)"), Some(("".into(), "".into(), false)));
}

#[test]
fn conditional_quoted_forms() {
    assert_eq!(cargs("\"a\" \"b\""), Some(("a".into(), "b".into(), false)));
    assert_eq!(cargs("'a' 'b'"), Some(("a".into(), "b".into(), false)));
    // A quoted argument keeps its inner blanks verbatim.
    assert_eq!(
        cargs("\"a b\" \"c\""),
        Some(("a b".into(), "c".into(), false))
    );
}

#[test]
fn conditional_references_and_balanced_parens() {
    // A `$(...)` reference inside an argument is skipped whole, so a comma
    // or paren inside it does not terminate the argument.
    assert_eq!(
        cargs("($(x,y),b)"),
        Some(("$(x,y)".into(), "b".into(), false))
    );
    // The second argument balances parentheses up to the matching close.
    assert_eq!(cargs("(a,b(c))"), Some(("a".into(), "b(c)".into(), false)));
}

#[test]
fn conditional_trailing_text() {
    assert_eq!(cargs("(a,b) x"), Some(("a".into(), "b".into(), true)));
    assert_eq!(
        cargs("\"a\" \"b\"  junk"),
        Some(("a".into(), "b".into(), true))
    );
}

#[test]
fn rest_is_blank_cases() {
    assert!(rest_is_blank(b""));
    assert!(rest_is_blank(b"   "));
    assert!(rest_is_blank(b" \t "));
    assert!(!rest_is_blank(b"x"));
    assert!(!rest_is_blank(b"   x"));
}

#[test]
fn define_keyword_cases() {
    assert_eq!(
        define_keyword(b"define X"),
        (Some(DefineKeyword::Define), 6)
    );
    assert_eq!(define_keyword(b"endef"), (Some(DefineKeyword::Endef), 5));
    assert_eq!(
        define_keyword(b"endef # c"),
        (Some(DefineKeyword::Endef), 5)
    );
    // Not a define keyword (word still measured up to the blank/NUL).
    assert_eq!(define_keyword(b"FOO = 1"), (None, 3));
    assert_eq!(define_keyword(b"definex"), (None, 7));
}

#[test]
fn closes_ignored_define_cases() {
    let c = |s: &str| closes_ignored_define(s.as_bytes());
    assert!(c("endef"));
    assert!(c("endef   "));
    assert!(c("endef # comment"));
    // Not a bare endef.
    assert!(!c("endef x"));
    assert!(!c("define X"));
    assert!(!c("endefx"));
    assert!(!c(""));
}

#[test]
fn rule_probe_cases() {
    let rp = |s: &str| rule_probe(s.as_bytes());
    // The separator must follow the first token's trailing blanks: a `:`
    // (or `&:` / `|:`) after at least one blank. (make's `end_of_token`
    // stops only at whitespace/NUL, so a colon attached to the token —
    // `all:` — is part of the word and is *not* detected by this probe; the
    // real rule parse handles that case later.)
    assert_eq!(rp("all : dep").is_rule, true);
    assert_eq!(rp("all &: x").is_rule, true);
    assert_eq!(rp("all |: x").is_rule, true);
    // Not detected here.
    assert_eq!(rp("all: dep").is_rule, false);
    assert_eq!(rp("FOO = 1").is_rule, false);
    assert_eq!(rp("all").is_rule, false);
    assert_eq!(rp("a b &: x").is_rule, false);
    // Word length and rest offset (blanks after the token skipped).
    let r = rp("all : x");
    assert_eq!(r.word_len, 3);
    assert_eq!(r.rest, 4); // the ':'
    assert!(r.is_rule);
}

#[test]
fn trimmed_token_cases() {
    fn tt(s: &str) -> Option<String> {
        let r = trimmed_token(s.as_bytes())?;
        Some(String::from_utf8(s.as_bytes()[r].to_vec()).unwrap())
    }
    assert_eq!(tt("FOO").as_deref(), Some("FOO"));
    assert_eq!(tt("  FOO  ").as_deref(), Some("FOO"));
    // A second word is kept (the name is everything up to the trailing
    // blanks); only leading and trailing blanks are stripped.
    assert_eq!(tt("FOO BAR").as_deref(), Some("FOO BAR"));
    // Empty or all-whitespace is "empty variable name" (None → fatal).
    assert_eq!(tt(""), None);
    assert_eq!(tt("   "), None);
}

#[test]
fn lone_token_cases() {
    let lone = |s: &str| lone_token(s.as_bytes());
    // A single token, with or without trailing blanks, yields its length.
    assert_eq!(lone("FOO"), Some(3));
    assert_eq!(lone("FOO   "), Some(3));
    assert_eq!(lone(""), Some(0));
    // A second token is a syntax error.
    assert_eq!(lone("FOO BAR"), None);
    assert_eq!(lone("FOO  BAR  "), None);
}

#[test]
fn conditional_error_before_first_arg() {
    // A bad opener or an unterminated/incomplete first argument expands
    // nothing — make reports the syntax error immediately.
    for s in ["x a b", "(a)", "(a", ""] {
        assert_eq!(
            parse_conditional_args(s.as_bytes()),
            ConditionalArgs::Error,
            "{s:?} should be Error"
        );
    }
}

#[test]
fn conditional_first_arg_only_on_second_arg_error() {
    // The first argument is well-formed but the second is malformed: make
    // still expands the first (for its side effects), so the parser reports
    // the first argument's range rather than a bare error.
    for (s, want_arg1) in [("(a,b", "a"), ("\"a\"", "a"), ("\"a\" b", "a")] {
        match parse_conditional_args(s.as_bytes()) {
            ConditionalArgs::FirstArgOnly { arg1 } => {
                assert_eq!(&s.as_bytes()[arg1], want_arg1.as_bytes(), "{s:?}")
            }
            other => panic!("{s:?} expected FirstArgOnly, got {other:?}"),
        }
    }
}

#[test]
fn classify_plain_lines() {
    assert_eq!(classify("foo: bar"), LineClass::Plain);
    assert_eq!(classify("\tnot reached here"), LineClass::Plain);
    assert_eq!(classify(""), LineClass::Plain);
}

#[test]
fn classify_modifier_led_rule_is_vardef() {
    // A modifier followed by a rule keeps the modifier flag (so the reader
    // still emits make's TAB warning) but is not an assignment.
    match classify("override foo: bar") {
        LineClass::VarDef(vl) => {
            assert!(vl.mods.over && vl.had_modifier && !vl.assign);
        }
        other => panic!("expected VarDef, got {other:?}"),
    }
}

#[test]
fn non_special_targets_are_rejected() {
    // Other targets (including other dotted specials handled elsewhere),
    // case variants, and the trailing-NUL form must all fail to classify.
    for w in [
        &b""[..],
        b".POSIXX",
        b".posix",
        b".POSIX\0",
        b".ONESHELLX",
        b".PHONY",
        b".SUFFIXES",
        b"all",
        b".",
    ] {
        assert_eq!(
            SpecialTarget::from_name(w),
            None,
            "{:?} must not classify",
            w
        );
    }
}

#[test]
fn ifeq_ifneq_separator_classifier() {
    // ifeq/ifneq with no separating whitespace → specific diagnostic.
    assert!(ifeq_ifneq_without_separator(b"ifeq(a,b)"));
    assert!(ifeq_ifneq_without_separator(b"ifneq(a,b)"));
    // No trailing byte at all (token ends right after the keyword): the
    // missing byte is treated as a NUL, which is non-blank → triggers.
    assert!(ifeq_ifneq_without_separator(b"ifeq"));
    assert!(ifeq_ifneq_without_separator(b"ifneq"));
    // Followed by a blank → properly separated, so the generic diagnostic
    // applies instead.
    assert!(!ifeq_ifneq_without_separator(b"ifeq (a,b)"));
    assert!(!ifeq_ifneq_without_separator(b"ifneq (a,b)"));
    assert!(!ifeq_ifneq_without_separator(b"ifeq\t(a,b)"));
    // Other tokens never match.
    assert!(!ifeq_ifneq_without_separator(b"ifdef X"));
    assert!(!ifeq_ifneq_without_separator(b"include x"));
    assert!(!ifeq_ifneq_without_separator(b""));
    assert!(!ifeq_ifneq_without_separator(b"if"));
    // `ifeqfoo` / `ifneqbar` (longer words) still count as unseparated.
    assert!(ifeq_ifneq_without_separator(b"ifeqfoo"));
    assert!(ifeq_ifneq_without_separator(b"ifneqbar"));
}

#[test]
fn eight_space_indent_classifier() {
    assert!(starts_with_eight_spaces(b"        @echo hi")); // 8 spaces
    assert!(starts_with_eight_spaces(b"        ")); // exactly 8
    assert!(!starts_with_eight_spaces(b"       x")); // 7 spaces
    assert!(!starts_with_eight_spaces(b"\t@echo hi")); // a tab
    assert!(!starts_with_eight_spaces(b"")); // empty
    assert!(!starts_with_eight_spaces(b"    ")); // 4 spaces, too short
}

#[test]
fn find_char_unquote_collapses_backslashes() {
    // Helper: run the unquote over an owned NUL-terminated buffer and return
    // (result index, resulting C string up to the new NUL).
    fn run(s: &[u8], stop: u8) -> (Option<usize>, Vec<u8>) {
        let mut buf = s.to_vec();
        buf.push(0);
        let r = find_char_unquote_idx(&mut buf, stop);
        let end = buf.iter().position(|&b| b == 0).unwrap();
        (r, buf[..end].to_vec())
    }

    // No backslash: the stop is found as-is, buffer unchanged.
    assert_eq!(run(b"abc%def", b'%'), (Some(3), b"abc%def".to_vec()));
    // No stop at all.
    assert_eq!(run(b"abcdef", b'%'), (None, b"abcdef".to_vec()));
    // Single backslash escapes the `%`: it is consumed (one backslash
    // removed) and no *unescaped* `%` remains.
    assert_eq!(run(b"a\\%b", b'%'), (None, b"a%b".to_vec()));
    // Two backslashes -> one literal backslash, `%` is unescaped at index 2.
    assert_eq!(run(b"a\\\\%b", b'%'), (Some(2), b"a\\%b".to_vec()));
    // Three backslashes -> one literal backslash then an escaped `%`: the
    // `%` is consumed, none remains; buffer keeps a single backslash + `%`.
    assert_eq!(run(b"a\\\\\\%b", b'%'), (None, b"a\\%b".to_vec()));
    // Backslash that does not precede the stop is left untouched.
    assert_eq!(run(b"a\\b%c", b'%'), (Some(3), b"a\\b%c".to_vec()));
}

#[test]
fn find_percent_cached_collapses_only_when_escaped() {
    
    // Reduce a result to (index, collapsed C string up to the NUL); the
    // `Collapsed` buffer may retain stale bytes past the NUL after the
    // in-place collapse, so compare only the live C string.
    fn norm(r: FindPercentCached) -> (Option<usize>, Option<Vec<u8>>) {
        match r {
            AsIs(idx) => (idx, None),
            Collapsed { buf, idx } => {
                let end = buf.iter().position(|&b| b == 0).unwrap();
                (idx, Some(buf[..end].to_vec()))
            }
        }
    }

    // No-copy cases: the `%` (if any) is returned as-is at its index.
    assert_eq!(norm(find_percent_cached(b"a%b")), (Some(1), None));
    assert_eq!(norm(find_percent_cached(b"%abc")), (Some(0), None));
    assert_eq!(norm(find_percent_cached(b"abc")), (None, None));
    assert_eq!(norm(find_percent_cached(b"ab%c")), (Some(2), None));

    // Escaped `%` (single backslash): collapsed, backslash removed, no
    // unquoted `%` remains.
    assert_eq!(
        norm(find_percent_cached(b"a\\%b")),
        (None, Some(b"a%b".to_vec()))
    );
    // Double backslash: one literal backslash kept, `%` unescaped at index 2.
    assert_eq!(
        norm(find_percent_cached(b"a\\\\%b")),
        (Some(2), Some(b"a\\%b".to_vec()))
    );
    // A later `%` becomes the unquoted match after the escaped one collapses.
    assert_eq!(
        norm(find_percent_cached(b"a\\%b%c")),
        (Some(3), Some(b"a%b%c".to_vec()))
    );
}

#[test]
fn get_next_mword_classifies_and_spans() {
        // (type, start, len) for the first word.
    // End-of-line spans the NUL terminator (length 1), matching the C scan.
    assert_eq!(get_next_mword(b""), (Eol, 0, 1));
    assert_eq!(get_next_mword(b"   "), (Eol, 3, 1));
    // Leading blanks skipped; a plain word spans to the next separator.
    assert_eq!(get_next_mword(b"  foo bar"), (Static, 2, 3));
    assert_eq!(get_next_mword(b";rest"), (Semicolon, 0, 1));
    assert_eq!(get_next_mword(b":x"), (Colon, 0, 1));
    assert_eq!(get_next_mword(b"::x"), (DColon, 0, 2));
    assert_eq!(get_next_mword(b"&:x"), (AmpColon, 0, 2));
    assert_eq!(get_next_mword(b"&::x"), (AmpDColon, 0, 3));
    // A bare `&` (not `&:`) is just a static word.
    assert_eq!(get_next_mword(b"&x y"), (Static, 0, 2));
    // A `$(...)` reference promotes the word to Variable and is spanned whole.
    assert_eq!(get_next_mword(b"a$(V)b c"), (Variable, 0, 6));
    // `\:` is escaped inside a static word, so the colon does not end it.
    assert_eq!(get_next_mword(b"a\\:b:c"), (Static, 0, 4));
    // A word ending exactly at end-of-string.
    assert_eq!(get_next_mword(b"word"), (Static, 0, 4));
}

#[test]
fn find_map_unquote_skips_refs_and_collapses() {
    
    // (result index, resulting C string up to the new NUL).
    fn run(s: &[u8], stopmap: i32) -> (Option<usize>, Vec<u8>) {
        let mut buf = s.to_vec();
        buf.push(0);
        let r = find_map_unquote_idx(&mut buf, stopmap);
        let end = buf.iter().position(|&b| b == 0).unwrap();
        (r, buf[..end].to_vec())
    }

    // Plain stop byte (`;`) found as-is.
    assert_eq!(run(b"abc;def", MAP_SEMI), (Some(3), b"abc;def".to_vec()));
    // No stop byte present.
    assert_eq!(run(b"abcdef", MAP_SEMI), (None, b"abcdef".to_vec()));
    // A `;` inside a `$(...)` reference is skipped; the later `;` matches.
    assert_eq!(
        run(b"a$(x;y)b;c", MAP_SEMI | MAP_VARIABLE),
        (Some(8), b"a$(x;y)b;c".to_vec())
    );
    // `\;` escapes the stop byte: collapsed, no unescaped `;` remains.
    assert_eq!(run(b"a\\;b", MAP_SEMI), (None, b"a;b".to_vec()));
    // `\\;` is an even run: `;` is unescaped at index 2 after collapsing.
    assert_eq!(run(b"a\\\\;b", MAP_SEMI), (Some(2), b"a\\;b".to_vec()));
}

#[test]
fn unescape_char_removes_one_escape_level() {
    let u = |s: &[u8]| unescape_char(s, b':');

    // No backslashes: unchanged.
    assert_eq!(u(b"a:b"), b"a:b".to_vec());
    // Single backslash before `:` escapes it; the `\` is dropped.
    assert_eq!(u(b"a\\:b"), b"a:b".to_vec());
    // Two backslashes = even run: `:` is not escaped, both `\` kept.
    assert_eq!(u(b"a\\\\:b"), b"a\\\\:b".to_vec());
    // Three backslashes (odd) before `:`: collapse to one, keep `:`.
    assert_eq!(u(b"a\\\\\\:b"), b"a\\:b".to_vec());
    // Backslashes before a non-`:` byte are copied verbatim.
    assert_eq!(u(b"a\\\\x"), b"a\\\\x".to_vec());
    assert_eq!(u(b"a\\xb"), b"a\\xb".to_vec());
    // Trailing backslash run not followed by `:` is preserved.
    assert_eq!(u(b"abc\\"), b"abc\\".to_vec());
    assert_eq!(u(b"abc\\\\"), b"abc\\\\".to_vec());
    // Only `:` escapes are touched; other chars' backslashes stay.
    assert_eq!(u(b"\\:\\;"), b":\\;".to_vec());
}

#[test]
fn second_expansion_prereq_classifier() {
    assert!(prereq_needs_second_expansion(b"$$(VAR)"));
    assert!(prereq_needs_second_expansion(b"a $(x) b"));
    assert!(prereq_needs_second_expansion(b"$"));
    assert!(!prereq_needs_second_expansion(b"plain dep1 dep2"));
    assert!(!prereq_needs_second_expansion(b""));
}

#[test]
fn wait_token_classifier() {
    assert!(is_wait_token(b".WAIT"));
    assert!(!is_wait_token(b".wait"));
    assert!(!is_wait_token(b".WAITX"));
    assert!(!is_wait_token(b".WAI"));
    assert!(!is_wait_token(b""));
}

#[test]
fn dot_slash_prefix_stripping() {
    // No prefix to strip.
    assert_eq!(strip_dot_slash_prefix(b"foo"), 0);
    assert_eq!(strip_dot_slash_prefix(b"./"), 0); // <= 2 bytes: untouched
    assert_eq!(strip_dot_slash_prefix(b".x"), 0);
    // A single `./` before a longer name.
    assert_eq!(strip_dot_slash_prefix(b"./foo"), 2);
    // Repeated `./` pairs.
    assert_eq!(strip_dot_slash_prefix(b"././foo"), 4);
    // `./` followed by a run of extra slashes.
    assert_eq!(strip_dot_slash_prefix(b".//foo"), 3);
    assert_eq!(strip_dot_slash_prefix(b".///foo"), 4);
    // `./a` is 3 bytes, so the first `> 2` check passes and the pair is
    // stripped; the next iteration sees only 1 byte left and stops.
    assert_eq!(strip_dot_slash_prefix(b"./a"), 2);
    // `./` alone (2 bytes) fails the `> 2` guard immediately.
    assert_eq!(strip_dot_slash_prefix(b"./"), 0);
    // A leading slash that is not part of `./` is left alone.
    assert_eq!(strip_dot_slash_prefix(b"/foo"), 0);
}
