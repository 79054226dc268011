//! What a term-rewriting calculus offers: redex detection, substitution
//! and single-step reduction under a pluggable environment.

use vstd::prelude::*;

verus! {

/// A term that can be rewritten one redex at a time. An environment is any
/// function value that maps a name to the definition of the combinator of
/// that name, if there is one.
pub trait Term: Sized {
    /// The template that a definition rewrites its arguments to.
    type Substitution;

    /// What an environment returns for a combinator's name.
    type Definition;

    /// The mathematical function that an environment computes.
    type Basis;

    /// The definition `d` is well-formed.
    spec fn def_valid(d: Self::Definition) -> bool;

    /// `given`, returned for `name`, is what `basis` holds for that name.
    spec fn agrees(name: &str, given: Option<Self::Definition>, basis: Self::Basis) -> bool;

    /// Whether `self` holds a redex under `basis`.
    spec fn redex_under(&self, basis: Self::Basis) -> bool;

    /// `sub` refers to no argument that `args` lacks.
    spec fn sub_fits(sub: &Self::Substitution, args: &[Box<Self>]) -> bool;

    /// `out` is the template `sub` filled in with `args`.
    spec fn sub_result(sub: &Self::Substitution, args: &[Box<Self>], out: &Self) -> bool;

    /// `out` is `self` after one reduction step under `basis`.
    spec fn steps_to(&self, basis: Self::Basis, out: &Self) -> bool;

    /// Whether some subterm is a combinator applied to enough arguments.
    /// The answer is that of every basis that `env` computes.
    fn has_redex<E: Fn(&str) -> Option<Self::Definition>>(&self, env: E) -> (found: bool)
        requires
            forall|s: &str| call_requires(env, (s,)),
        ensures
            forall|basis: Self::Basis|
                (forall|s: &str, o: Option<Self::Definition>| #[trigger]
                    call_ensures(env, (s,), o) ==> Self::agrees(s, o, basis)) ==> found
                    == #[trigger] self.redex_under(basis),
    ;

    /// Fills the template `sub` in with the arguments `args`.
    fn substitute(sub: &Self::Substitution, args: &[Box<Self>]) -> (out: Self)
        requires
            Self::sub_fits(sub, args),
        ensures
            Self::sub_result(sub, args, &out),
    ;

    /// Rewrites the leftmost-outermost redex, if there is one. The result
    /// is that of every basis that `env` computes.
    fn reduce<E: Fn(&str) -> Option<Self::Definition>>(&mut self, env: E)
        requires
            forall|s: &str| call_requires(env, (s,)),
            forall|s: &str, o: Option<Self::Definition>| #[trigger]
                call_ensures(env, (s,), o) && o is Some ==> Self::def_valid(o->0),
        ensures
            forall|basis: Self::Basis|
                (forall|s: &str, o: Option<Self::Definition>| #[trigger]
                    call_ensures(env, (s,), o) ==> Self::agrees(s, o, basis))
                    ==> #[trigger] old(self).steps_to(basis, final(self)),
    ;
}

} // verus!
