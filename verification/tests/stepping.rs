use combinators::clterm::{self, CLFun, CLSub, CLTerm};
use combinators::term::Term;

fn term(text: &str) -> CLTerm {
    CLTerm::parse(text).unwrap()
}

fn step(text: &str) -> CLTerm {
    let mut t = term(text);
    t.reduce(clterm::env);
    t
}

#[test]
fn the_empty_term_is_inert() {
    assert!(!CLTerm::Empty.has_redex(clterm::env));
    assert_eq!(step(""), CLTerm::Empty);
    assert_eq!(step("   "), CLTerm::Empty);
}

#[test]
fn arity_gates_the_identity() {
    assert_eq!(step("I"), term("I"));
    assert_eq!(step("I x"), term("x"));
    assert_eq!(step("I x y z"), term("x y z"));
}

#[test]
fn k_drops_its_second_argument() {
    assert_eq!(step("K x y z a"), term("x z a"));
    assert_eq!(step("K x"), term("K x"));
    assert_eq!(step("K (a b) c"), term("a b"));
}

#[test]
fn s_distributes() {
    assert_eq!(step("S x y z"), term("x z (y z)"));
    assert_eq!(step("S x y z a b c"), term("(x z (y z)) a b c"));
}

#[test]
fn arguments_are_copied_whole() {
    assert_eq!(
        step("S (a b c) (S x y z) (d e f)"),
        term("(a b c) (d e f) ((S x y z) (d e f))")
    );
}

#[test]
fn a_nested_head_is_opened_up() {
    assert!(term("(K x) y").has_redex(clterm::env));
    assert_eq!(step("(K x) y"), term("x"));
    assert_eq!(step("((S a) b) c d"), term("(a c (b c)) d"));
}

#[test]
fn the_search_moves_along_the_spine() {
    assert!(term("a I x").has_redex(clterm::env));
    assert_eq!(step("a I x"), term("a x"));
    assert_eq!(step("a b K x y z"), term("a b x z"));
    assert_eq!(step("a S x y z"), term("a x z (y z)"));
    assert!(!term("a b I").has_redex(clterm::env));
}

#[test]
fn the_leftmost_redex_goes_first() {
    assert_eq!(step("I x (I y)"), term("x (I y)"));
    assert_eq!(step("K I x y"), term("I y"));
}

#[test]
fn arguments_are_not_searched_on_their_own() {
    assert!(term("a (I x)").has_redex(clterm::env));
    assert_eq!(step("a (I x)"), term("a x"));
}

#[test]
fn without_a_redex_a_flat_term_stays() {
    for text in ["x", "a b c", "K x", "S x y", "a b I"] {
        let t = term(text);
        assert!(!t.has_redex(clterm::env));
        assert_eq!(step(text), t);
    }
}

#[test]
fn unknown_atoms_are_inert() {
    assert!(!term("B x y z").has_redex(clterm::env));
    assert!(clterm::env("B").is_none());
    assert!(clterm::env("II").is_none());
    assert!(clterm::env("").is_none());
    assert!(clterm::env("I").is_some());
    assert!(clterm::env("K").is_some());
    assert!(clterm::env("S").is_some());
}

#[test]
fn substitute_fills_slots() {
    let args = vec![
        Box::new(term("x")),
        Box::new(term("y z")),
    ];
    let second = <CLTerm as Term>::substitute(&CLSub::Sub(1), &args);
    assert_eq!(second, term("y z"));
    let both = CLSub::List(vec![Box::new(CLSub::Sub(1)), Box::new(CLSub::Sub(0))]);
    assert_eq!(<CLTerm as Term>::substitute(&both, &args), term("(y z) x"));
}

#[test]
fn substitute_collapses_short_groups() {
    let args = vec![Box::new(term("x"))];
    let none = CLSub::List(vec![]);
    assert_eq!(<CLTerm as Term>::substitute(&none, &args), CLTerm::Empty);
    let one = CLSub::List(vec![Box::new(CLSub::Sub(0))]);
    assert_eq!(<CLTerm as Term>::substitute(&one, &args), term("x"));
}

fn no_combinators(_name: &str) -> Option<CLFun> {
    None
}

#[test]
fn the_environment_is_pluggable() {
    let t = term("I x");
    assert!(!t.has_redex(no_combinators));
    let mut u = t.clone();
    u.reduce(no_combinators);
    assert_eq!(u, t);
}

#[test]
fn reduce_n_stops_at_the_normal_form() {
    let mut t = term("S K K x");
    t.reduce_n(clterm::env, 0);
    assert_eq!(t, term("S K K x"));
    t.reduce_n(clterm::env, 1);
    assert_eq!(t, term("K x (K x)"));
    t.reduce_n(clterm::env, 10);
    assert_eq!(t, term("x"));
}

#[test]
fn reduce_n_caps_a_term_that_never_stops() {
    let mut t = term("S I I (S I I)");
    t.reduce_n(clterm::env, 3);
    let mut u = term("S I I (S I I)");
    u.reduce(clterm::env);
    u.reduce(clterm::env);
    u.reduce(clterm::env);
    assert_eq!(t, u);
    assert!(t.has_redex(clterm::env));
}

fn with_b(name: &str) -> Option<CLFun> {
    if name == "B" {
        let inner = CLSub::List(vec![Box::new(CLSub::Sub(1)), Box::new(CLSub::Sub(2))]);
        let body = CLSub::List(vec![Box::new(CLSub::Sub(0)), Box::new(inner)]);
        Some(CLFun::new(3, body))
    } else if name == "U" {
        Some(CLFun::new(0, CLSub::List(vec![])))
    } else {
        clterm::env(name)
    }
}

#[test]
fn a_new_combinator_needs_no_new_engine() {
    let mut t = term("B f g x y");
    assert!(t.has_redex(with_b));
    assert!(!t.has_redex(clterm::env));
    t.reduce(with_b);
    assert_eq!(t, term("(f (g x)) y"));
    let mut u = term("a B I K x");
    u.reduce_n(with_b, 5);
    assert_eq!(u, term("a K x"));
}

#[test]
fn a_tail_reduced_to_nothing_leaves_the_head() {
    let mut t = term("a U");
    assert!(t.has_redex(with_b));
    t.reduce(with_b);
    assert_eq!(t, term("a"));
}

#[test]
fn a_nested_argument_is_opened_up_even_without_a_redex() {
    let t = term("a (b c)");
    assert!(!t.has_redex(clterm::env));
    assert_eq!(step("a (b c)"), term("a b c"));
    assert_eq!(step("(a b) c"), term("a b c"));
}

#[test]
fn reduce_n_adds_up() {
    let mut once = term("S (K a) (S I I) (K b c)");
    once.reduce_n(clterm::env, 5);
    let mut twice = term("S (K a) (S I I) (K b c)");
    twice.reduce_n(clterm::env, 2);
    twice.reduce_n(clterm::env, 3);
    assert_eq!(once, twice);
}

#[test]
fn an_empty_child_ends_the_search() {
    let inner = CLTerm::List(vec![Box::new(term("I")), Box::new(term("x"))]);
    let t = CLTerm::List(vec![
        Box::new(term("a")),
        Box::new(CLTerm::Empty),
        Box::new(inner),
    ]);
    assert!(!t.has_redex(clterm::env));
    let mut u = t.clone();
    u.reduce(clterm::env);
    assert_eq!(u, t);
}
