use libmal::builtins::binary_operation;
use libmal::printer::{pr_atom, pr_str, print};
use libmal::reader::read_str;
use libmal::types::{Atom, BuiltinOp, Heap};

#[test]
fn readable_mode_escapes() {
    let atom = Atom::String(String::from("a\"b"));
    assert_eq!(pr_atom(&atom, true), "\"a\\\"b\"");
}

#[test]
fn display_mode_leaves_text_raw() {
    let atom = Atom::String(String::from("a\"b"));
    assert_eq!(pr_atom(&atom, false), "\"a\"b\"");
}

#[test]
fn readable_mode_escapes_backslash_and_newline() {
    let atom = Atom::String(String::from("a\\b\nc"));
    assert_eq!(pr_atom(&atom, true), "\"a\\\\b\\nc\"");
    assert_eq!(pr_atom(&atom, false), "\"a\\b\nc\"");
}

#[test]
fn numbers_print_in_decimal() {
    assert_eq!(pr_atom(&Atom::Number(0), true), "0");
    assert_eq!(pr_atom(&Atom::Number(-5), true), "-5");
    assert_eq!(pr_atom(&Atom::Number(1234567890), true), "1234567890");
    assert_eq!(
        pr_atom(&Atom::Number(i64::MIN), true),
        "-9223372036854775808"
    );
    assert_eq!(pr_atom(&Atom::Number(i64::MAX), true), "9223372036854775807");
}

#[test]
fn keyword_prints_with_colon() {
    assert_eq!(pr_atom(&Atom::Keyword(String::from("kw")), true), ":kw");
}

#[test]
fn literals_print_as_their_tokens() {
    assert_eq!(pr_atom(&Atom::Nil, true), "nil");
    assert_eq!(pr_atom(&Atom::True, true), "true");
    assert_eq!(pr_atom(&Atom::False, false), "false");
}

#[test]
fn builtin_prints_as_placeholder() {
    let mut heap = Heap::new();
    let f = binary_operation(BuiltinOp::Add, &mut heap);
    assert_eq!(pr_str(&heap, f, true), "[built-in function]");
}

#[test]
fn empty_containers_print() {
    let mut heap = Heap::new();
    let o = read_str(&String::from("()"), &mut heap).unwrap();
    assert_eq!(pr_str(&heap, o, true), "()");
    let o = read_str(&String::from("[]"), &mut heap).unwrap();
    assert_eq!(pr_str(&heap, o, true), "[]");
    let o = read_str(&String::from("{}"), &mut heap).unwrap();
    assert_eq!(pr_str(&heap, o, true), "{}");
}

#[test]
fn print_uses_readable_mode() {
    let mut heap = Heap::new();
    let o = read_str(&String::from("\"x\\ny\""), &mut heap).unwrap();
    assert_eq!(print(&heap, o), "\"x\\ny\"");
    assert_eq!(pr_str(&heap, o, false), "\"x\ny\"");
}

#[test]
fn string_round_trip_through_readable_mode() {
    let mut heap = Heap::new();
    let o = read_str(&String::from("\"a\\\\n\""), &mut heap).unwrap();
    // the text holds a backslash then the letter n, not a newline
    let rendered = pr_str(&heap, o, true);
    assert_eq!(rendered, "\"a\\\\n\"");
    let o2 = read_str(&rendered, &mut heap).unwrap();
    assert_eq!(pr_str(&heap, o2, true), rendered);
}
