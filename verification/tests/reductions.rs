use combinators::clterm::{self, CLTerm};
use combinators::term::Term;
use std::str::FromStr;

#[test]
fn epsilon() {
    let input = CLTerm::from_str("").unwrap();
    let mut out = input.clone();
    out.reduce(clterm::env);
    assert!(!input.has_redex(clterm::env));
    assert_eq!(input, out);
}

#[test]
fn one_term() {
    let input = CLTerm::from_str("x").unwrap();
    let mut out = input.clone();
    out.reduce(clterm::env);
    assert!(!input.has_redex(clterm::env));
    assert_eq!(input, out);
}

#[test]
fn i_combinator() {
    let input = CLTerm::from_str("I x").unwrap();
    let output = CLTerm::from_str("x").unwrap();
    let mut res = input.clone();
    res.reduce(clterm::env);
    assert!(input.has_redex(clterm::env));
    assert_eq!(output, res);
}

#[test]
fn i_combinator_arity_0() {
    let input = CLTerm::from_str("I").unwrap();
    let mut out = input.clone();
    out.reduce(clterm::env);
    assert!(!input.has_redex(clterm::env));
    assert_eq!(input, out);
}

#[test]
fn i_combinator_arity_1() {
    let input = CLTerm::from_str("I x y z").unwrap();
    let output = CLTerm::from_str("x y z").unwrap();
    let mut res = input.clone();
    res.reduce(clterm::env);
    assert!(input.has_redex(clterm::env));
    assert_eq!(output, res);
}

#[test]
fn k_combinator() {
    let input = CLTerm::from_str("K x y").unwrap();
    let output = CLTerm::from_str("x").unwrap();
    let mut res = input.clone();
    res.reduce(clterm::env);
    assert!(input.has_redex(clterm::env));
    assert_eq!(output, res);
}

#[test]
fn k_combinator_arity_0() {
    let input = CLTerm::from_str("K").unwrap();
    let mut out = input.clone();
    out.reduce(clterm::env);
    assert!(!input.has_redex(clterm::env));
    assert_eq!(input, out);
}

#[test]
fn k_combinator_arity_1() {
    let input = CLTerm::from_str("K x").unwrap();
    let mut out = input.clone();
    out.reduce(clterm::env);
    assert!(!input.has_redex(clterm::env));
    assert_eq!(input, out);
}

#[test]
fn k_combinator_arity_2() {
    let input = CLTerm::from_str("K x y z a").unwrap();
    let output = CLTerm::from_str("x z a").unwrap();
    let mut res = input.clone();
    res.reduce(clterm::env);
    assert!(input.has_redex(clterm::env));
    assert_eq!(output, res);
}

#[test]
fn s_combinator_0() {
    let input = CLTerm::from_str("S x y z").unwrap();
    let output = CLTerm::from_str("x z (y z)").unwrap();
    let mut res = input.clone();
    res.reduce(clterm::env);
    assert!(input.has_redex(clterm::env));
    assert_eq!(output, res);
}

#[test]
fn s_combinator_1() {
    let input = CLTerm::from_str("S (a b c) (S x y z) (d e f)").unwrap();
    let output = CLTerm::from_str("(a b c) (d e f) ((S x y z) (d e f))").unwrap();
    let mut res = input.clone();
    res.reduce(clterm::env);
    assert!(input.has_redex(clterm::env));
    assert_eq!(output, res);
}

#[test]
fn s_combinator_arity_0() {
    let input = CLTerm::from_str("S").unwrap();
    let mut out = input.clone();
    out.reduce(clterm::env);
    assert!(!input.has_redex(clterm::env));
    assert_eq!(input, out);
}

#[test]
fn s_combinator_arity_1() {
    let input = CLTerm::from_str("S x").unwrap();
    let mut out = input.clone();
    out.reduce(clterm::env);
    assert!(!input.has_redex(clterm::env));
    assert_eq!(input, out);
}

#[test]
fn s_combinator_arity_2() {
    let input = CLTerm::from_str("S x y").unwrap();
    let mut out = input.clone();
    out.reduce(clterm::env);
    assert!(!input.has_redex(clterm::env));
    assert_eq!(input, out);
}

#[test]
fn s_combinator_arity_3() {
    let input = CLTerm::from_str("S x y z a b c").unwrap();
    let output = CLTerm::from_str("(x z (y z)) a b c").unwrap();
    let mut res = input.clone();
    res.reduce(clterm::env);
    assert!(input.has_redex(clterm::env));
    assert_eq!(output, res);
}
