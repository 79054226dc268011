use combinators::clterm::CLTerm;
use std::str::FromStr;

#[test]
fn no_terms_0() {
    let input = CLTerm::from_str("()");
    assert!(input.is_err());
}

#[test]
fn no_terms_1() {
    let input = CLTerm::from_str("((()))");
    assert!(input.is_err());
}

#[test]
fn not_closed_0() {
    let input = CLTerm::from_str("(");
    assert!(input.is_err());
}

#[test]
fn not_closed_1() {
    let input = CLTerm::from_str("(x y ( z )");
    assert!(input.is_err());
}

#[test]
fn not_closed_2() {
    let input = CLTerm::from_str("((((((x)))))");
    assert!(input.is_err());
}

#[test]
fn not_opened_0() {
    let input = CLTerm::from_str(")");
    assert!(input.is_err());
}

#[test]
fn not_opened_1() {
    let input = CLTerm::from_str("(x y ( z )))");
    assert!(input.is_err());
}

#[test]
fn not_opened_2() {
    let input = CLTerm::from_str("(((((x))))))");
    assert!(input.is_err());
}

#[test]
fn complex_0() {
    let input = CLTerm::from_str("S (x) (y z) (a b c) (d");
    assert!(input.is_err());
}

#[test]
fn complex_1() {
    let input = CLTerm::from_str("S (x) (y z)) (a b c)");
    assert!(input.is_err());
}
