use libmal::errors::ParseError;
use libmal::printer::pr_str;
use libmal::reader::read_str;
use libmal::types::{Atom, Form, Heap, Object};

fn parse(input: &str) -> Result<(Heap, Object), ParseError> {
    let mut heap = Heap::new();
    let o = read_str(&String::from(input), &mut heap)?;
    Ok((heap, o))
}

fn reprint(input: &str) -> String {
    let (heap, o) = parse(input).expect("input should parse");
    pr_str(&heap, o, true)
}

fn parse_err(input: &str) -> ParseError {
    let mut heap = Heap::new();
    read_str(&String::from(input), &mut heap).expect_err("input should fail")
}

#[test]
fn unbalanced_parens() {
    assert_eq!(parse_err("(1 2"), ParseError::UnbalancedParens);
}

#[test]
fn unbalanced_square_brackets() {
    assert_eq!(parse_err("[1 2"), ParseError::UnbalancedSquareBrackets);
}

#[test]
fn unbalanced_curly_brackets() {
    assert_eq!(parse_err("{:a 1"), ParseError::UnbalancedCurlyBrackets);
}

#[test]
fn unbalanced_string() {
    assert_eq!(parse_err("\"abc"), ParseError::UnbalancedString);
}

#[test]
fn unexpected_close_paren() {
    assert_eq!(parse_err(")"), ParseError::UnexpectedCloseParen);
}

#[test]
fn unexpected_close_square_bracket() {
    assert_eq!(parse_err("]"), ParseError::UnexpectedCloseSquareBracket);
}

#[test]
fn unexpected_close_curly_bracket() {
    assert_eq!(parse_err("}"), ParseError::UnexpectedCloseCurlyBracket);
}

#[test]
fn map_key_without_value() {
    assert_eq!(parse_err("{:a}"), ParseError::KeyWithoutValue);
}

#[test]
fn map_compound_key() {
    assert_eq!(parse_err("{(1) 2}"), ParseError::UnexpectedCompound);
}

#[test]
fn map_two_entries() {
    assert_eq!(reprint("{:a 1 :b 2}"), "{:a 1 :b 2}");
}

#[test]
fn map_duplicate_key_keeps_last_value() {
    assert_eq!(reprint("{:a 1 :a 2}"), "{:a 2}");
}

#[test]
fn missing_form_on_empty_input() {
    assert_eq!(parse_err(""), ParseError::MissingForm);
}

#[test]
fn missing_form_after_quote() {
    assert_eq!(parse_err("'"), ParseError::MissingForm);
}

#[test]
fn quote_desugars() {
    assert_eq!(reprint("'x"), "(quote x)");
}

#[test]
fn quasiquote_desugars() {
    assert_eq!(reprint("`x"), "(quasiquote x)");
}

#[test]
fn unquote_desugars() {
    assert_eq!(reprint("~x"), "(unquote x)");
}

#[test]
fn splice_unquote_desugars() {
    assert_eq!(reprint("~@x"), "(splice-unquote x)");
}

#[test]
fn deref_desugars() {
    assert_eq!(reprint("@x"), "(deref x)");
}

#[test]
fn with_meta_swaps_arguments() {
    assert_eq!(reprint("^{:a 1} [1]"), "(with-meta [1] {:a 1})");
}

#[test]
fn classify_number() {
    let (heap, o) = parse("123").unwrap();
    assert!(matches!(heap.get(o), Form::Atom(Atom::Number(123))));
}

#[test]
fn classify_negative_number() {
    let (heap, o) = parse("-5").unwrap();
    assert!(matches!(heap.get(o), Form::Atom(Atom::Number(-5))));
}

#[test]
fn classify_literals() {
    let (heap, o) = parse("nil").unwrap();
    assert!(matches!(heap.get(o), Form::Atom(Atom::Nil)));
    let (heap, o) = parse("true").unwrap();
    assert!(matches!(heap.get(o), Form::Atom(Atom::True)));
    let (heap, o) = parse("false").unwrap();
    assert!(matches!(heap.get(o), Form::Atom(Atom::False)));
}

#[test]
fn classify_keyword() {
    let (heap, o) = parse(":foo").unwrap();
    match heap.get(o) {
        Form::Atom(Atom::Keyword(name)) => assert_eq!(name, "foo"),
        other => panic!("expected a keyword, got {:?}", other),
    }
}

#[test]
fn classify_symbol() {
    let (heap, o) = parse("foo-bar!").unwrap();
    match heap.get(o) {
        Form::Atom(Atom::Symbol(name)) => assert_eq!(name, "foo-bar!"),
        other => panic!("expected a symbol, got {:?}", other),
    }
}

#[test]
fn classify_overflowing_number_as_symbol() {
    let (heap, o) = parse("9223372036854775808").unwrap();
    assert!(matches!(heap.get(o), Form::Atom(Atom::Symbol(_))));
}

#[test]
fn classify_smallest_number() {
    let (heap, o) = parse("-9223372036854775808").unwrap();
    assert!(matches!(heap.get(o), Form::Atom(Atom::Number(i64::MIN))));
}

#[test]
fn classify_leading_zeros() {
    let (heap, o) = parse("007").unwrap();
    assert!(matches!(heap.get(o), Form::Atom(Atom::Number(7))));
}

#[test]
fn comment_is_skipped() {
    assert_eq!(reprint("; a note\n42"), "42");
}

#[test]
fn commas_are_separators() {
    assert_eq!(reprint("(1,,2, 3)"), "(1 2 3)");
}

#[test]
fn trailing_input_is_ignored_after_first_form() {
    assert_eq!(reprint("1 2 3"), "1");
}

#[test]
fn string_escapes_resolved() {
    let (heap, o) = parse("\"a\\nb\\\\c\\\"d\"").unwrap();
    match heap.get(o) {
        Form::Atom(Atom::String(text)) => assert_eq!(text, "a\nb\\c\"d"),
        other => panic!("expected a string, got {:?}", other),
    }
}

#[test]
fn nested_round_trip() {
    let text = "(1 2 \"a\\nb\" :kw [3 4])";
    assert_eq!(reprint(text), text);
}

#[test]
fn vector_round_trip() {
    assert_eq!(reprint("[1 [2 3] {:k v}]"), "[1 [2 3] {:k v}]");
}

#[test]
fn with_meta_needs_two_forms() {
    assert_eq!(parse_err("^{:a 1}"), ParseError::MissingForm);
}

#[test]
fn splice_unquote_needs_a_form() {
    assert_eq!(parse_err("~@"), ParseError::MissingForm);
}

#[test]
fn comment_inside_list() {
    assert_eq!(reprint("(; note\n1 2)"), "(1 2)");
}

#[test]
fn bare_colon_is_an_empty_keyword() {
    let (heap, o) = parse(":").unwrap();
    match heap.get(o) {
        Form::Atom(Atom::Keyword(name)) => assert_eq!(name, ""),
        other => panic!("expected a keyword, got {:?}", other),
    }
}

#[test]
fn nested_quote_desugars() {
    assert_eq!(reprint("''x"), "(quote (quote x))");
}
