use combinators::clterm::{CLTerm, CLTermError};
use std::str::FromStr;

fn atom(name: &str) -> Box<CLTerm> {
    Box::new(CLTerm::Atom(name.to_string()))
}

fn list(items: Vec<Box<CLTerm>>) -> Box<CLTerm> {
    Box::new(CLTerm::List(items))
}

#[test]
fn empty_text_is_the_empty_term() {
    assert_eq!(CLTerm::parse("").unwrap(), CLTerm::Empty);
    assert_eq!(CLTerm::parse("   ").unwrap(), CLTerm::Empty);
    assert_eq!(CLTerm::parse(" \t\n ").unwrap(), CLTerm::Empty);
}

#[test]
fn one_atom_is_not_a_list() {
    assert_eq!(CLTerm::parse("x").unwrap(), *atom("x"));
    assert_eq!(CLTerm::parse("  foo\t").unwrap(), *atom("foo"));
}

#[test]
fn parentheses_around_one_term_vanish() {
    assert_eq!(CLTerm::parse("(x)").unwrap(), *atom("x"));
    assert_eq!(CLTerm::parse("((x))").unwrap(), *atom("x"));
    assert_eq!(CLTerm::parse("((a b))").unwrap(), *list(vec![atom("a"), atom("b")]));
}

#[test]
fn application_is_a_flat_list() {
    assert_eq!(
        CLTerm::parse("a b c").unwrap(),
        *list(vec![atom("a"), atom("b"), atom("c")])
    );
}

#[test]
fn groups_nest() {
    let expected = list(vec![
        atom("S"),
        list(vec![atom("a"), atom("b")]),
        list(vec![atom("c"), list(vec![atom("d"), atom("e")])]),
    ]);
    assert_eq!(CLTerm::parse("S (a b)\t(c (d e))").unwrap(), *expected);
    assert_eq!(CLTerm::parse("S(a b)(c(d e))").unwrap(), *expected);
}

#[test]
fn atoms_may_hold_any_other_character() {
    assert_eq!(
        CLTerm::parse("λx.y é\r").unwrap(),
        *list(vec![atom("λx.y"), atom("é\r")])
    );
}

#[test]
fn from_str_is_parse() {
    assert_eq!(CLTerm::from_str("K (x y)").unwrap(), CLTerm::parse("K (x y)").unwrap());
}

#[test]
fn an_empty_group_is_an_error() {
    assert!(matches!(CLTerm::parse("()"), Err(CLTermError::EmptyTerm)));
    assert!(matches!(CLTerm::parse("((()))"), Err(CLTermError::EmptyTerm)));
    assert!(matches!(CLTerm::parse("x ( ) y"), Err(CLTermError::EmptyTerm)));
    assert!(matches!(CLTerm::parse("("), Err(CLTermError::EmptyTerm)));
    assert!(matches!(CLTerm::parse("())"), Err(CLTermError::EmptyTerm)));
}

#[test]
fn an_unmatched_close_is_an_error() {
    assert!(matches!(CLTerm::parse(")"), Err(CLTermError::TooManyCloseParens)));
    assert!(matches!(CLTerm::parse("(x y ( z )))"), Err(CLTermError::TooManyCloseParens)));
    assert!(matches!(CLTerm::parse("x) (y"), Err(CLTermError::TooManyCloseParens)));
    assert!(matches!(CLTerm::parse("(((((x))))))"), Err(CLTermError::TooManyCloseParens)));
}

#[test]
fn an_unmatched_open_is_an_error() {
    assert!(matches!(CLTerm::parse("(x"), Err(CLTermError::TooManyOpenParens)));
    assert!(matches!(CLTerm::parse("(x y ( z )"), Err(CLTermError::TooManyOpenParens)));
    assert!(matches!(CLTerm::parse("((((((x)))))"), Err(CLTermError::TooManyOpenParens)));
    assert!(matches!(
        CLTerm::parse("S (x) (y z) (a b c) (d"),
        Err(CLTermError::TooManyOpenParens)
    ));
}

#[test]
fn error_messages() {
    assert_eq!(CLTermError::TooManyOpenParens.to_string(), "Too many open parens");
    assert_eq!(CLTermError::TooManyCloseParens.to_string(), "Too many close parens");
    assert_eq!(CLTermError::EmptyTerm.to_string(), "Empty or incomplete empty subterm");
}

#[test]
fn printing_atoms_and_the_empty_term() {
    assert_eq!(CLTerm::Empty.to_string(), "");
    assert_eq!(atom("x").to_string(), "x");
}

#[test]
fn printing_parenthesizes_inner_lists_only() {
    let t = list(vec![
        atom("x"),
        atom("z"),
        list(vec![atom("y"), list(vec![atom("a"), atom("b")])]),
    ]);
    assert_eq!(t.to_string(), "x z (y (a b))");
    let head = list(vec![list(vec![atom("a"), atom("b")]), atom("c")]);
    assert_eq!(head.to_string(), "(a b) c");
}

#[test]
fn printing_short_lists() {
    assert_eq!(list(vec![]).to_string(), "");
    assert_eq!(list(vec![atom("x")]).to_string(), "x");
    assert_eq!(list(vec![atom("x"), list(vec![])]).to_string(), "x ()");
}

#[test]
fn printed_terms_parse_back() {
    for text in ["", "x", "a b c", "S (a b c) (S x y z) (d e f)", "(a b) c (d (e f) g)"] {
        let t = CLTerm::parse(text).unwrap();
        assert_eq!(t.to_string(), text);
        assert_eq!(CLTerm::parse(&t.to_string()).unwrap(), t);
    }
    let spaced = CLTerm::parse("  ( a   b )\t c ").unwrap();
    assert_eq!(spaced.to_string(), "(a b) c");
    assert_eq!(CLTerm::parse(&spaced.to_string()).unwrap(), spaced);
}

#[test]
fn clone_is_deep_and_equal() {
    let t = CLTerm::parse("S (a b) (c (d e))").unwrap();
    let c = t.clone();
    assert_eq!(t, c);
    assert_eq!(c.to_string(), "S (a b) (c (d e))");
}

#[test]
fn equality_is_structural() {
    assert_eq!(*list(vec![atom("a"), atom("b")]), *list(vec![atom("a"), atom("b")]));
    assert_ne!(*atom("a"), *atom("b"));
    assert_ne!(*atom("a"), CLTerm::Empty);
    assert_ne!(*atom("a"), *list(vec![atom("a")]));
    assert_ne!(*list(vec![atom("a"), atom("b")]), *list(vec![atom("a")]));
    assert_ne!(*list(vec![atom("a"), atom("b")]), *list(vec![atom("b"), atom("a")]));
    assert_ne!(
        *list(vec![atom("a"), list(vec![atom("b"), atom("c")])]),
        *list(vec![atom("a"), list(vec![atom("b"), atom("d")])])
    );
    assert_ne!(*list(vec![]), CLTerm::Empty);
}
