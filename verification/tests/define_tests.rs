use lib::execctx::{Diagnostic, Floc};
use lib::read::define::{define_body_line, define_body_new, define_value};

fn cstr(s: &str) -> Vec<u8> {
    let mut v = s.as_bytes().to_vec();
    v.push(0);
    v
}

fn read_body(lines: &[&str]) -> (Vec<u8>, Vec<Diagnostic>, usize) {
    let mut body = define_body_new();
    let mut diags: Vec<Diagnostic> = Vec::new();
    let floc = Floc { filenm: None, lineno: 7, offset: 0 };
    let mut used = 0;
    for l in lines {
        used += 1;
        if define_body_line(&mut body, &cstr(l), b'\t', &floc, &mut diags) {
            break;
        }
    }
    (define_value(&body), diags, used)
}

#[test]
fn body_lines_are_joined_by_newlines() {
    let (v, d, used) = read_body(&["a = 1", "b = 2", "endef", "after"]);
    assert_eq!(v, b"a = 1\nb = 2".to_vec());
    assert!(d.is_empty());
    assert_eq!(used, 3);
}

#[test]
fn empty_body_defines_nothing() {
    let (v, _, _) = read_body(&["  endef"]);
    assert_eq!(v, Vec::<u8>::new());
}

#[test]
fn nested_define_needs_its_own_endef() {
    let (v, _, used) = read_body(&["define inner", "x", "endef", "y", "endef"]);
    assert_eq!(v, b"define inner\nx\nendef\ny".to_vec());
    assert_eq!(used, 5);
}

#[test]
fn text_after_endef_is_warned_about() {
    let (v, d, _) = read_body(&["x", "endef junk"]);
    assert_eq!(v, b"x".to_vec());
    assert_eq!(d.len(), 1);
    assert_eq!(d[0].message, b"extraneous text after 'endef' directive".to_vec());
    assert_eq!(d[0].floc.lineno, 7);
    let (_, d, _) = read_body(&["x", "endef # fine"]);
    assert!(d.is_empty());
}

#[test]
fn nested_endef_keeps_text_before_its_comment() {
    let (v, _, _) = read_body(&["define a", "endef # gone", "endef"]);
    assert_eq!(v, b"define a\nendef ".to_vec());
}

#[test]
fn recipe_lines_are_text_even_when_they_say_endef() {
    let (v, _, used) = read_body(&["\tendef", "endef"]);
    assert_eq!(v, b"\tendef".to_vec());
    assert_eq!(used, 2);
}

#[test]
fn endef_must_be_a_word_of_its_own() {
    let (v, _, _) = read_body(&["endefx", "endef"]);
    assert_eq!(v, b"endefx".to_vec());
}
