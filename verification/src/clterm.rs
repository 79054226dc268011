//! Terms of combinatory logic, the templates and definitions of
//! combinators, and reduction under an environment.

use vstd::prelude::*;
use vstd::slice::slice_subrange;
use crate::laws::{lemma_reduce_keeps_normal, lemma_reduce_n_keeps_normal, lemma_ski_proper};
use crate::model::{
    collapse, env_proper, has_redex_spec, instantiate_all, lemma_spine_size_concat,
    lemma_spine_size_first, reattach, reduce_n_spec, reduce_spec, ski, spine_has_redex,
    spine_reduce, spine_size, EnvView, FunView, SubView, TermView,
};
use crate::term::Term;

verus! {

/// A term: nothing, an atom, or the application of the first child of a
/// list to the others, from left to right.
#[derive(Debug)]
pub enum CLTerm {
    Empty,
    Atom(String),
    List(Vec<Box<CLTerm>>),
}

/// A substitution template: the argument at a position, or the
/// application of templates.
pub enum CLSub {
    Sub(usize),
    List(Vec<Box<CLSub>>),
}

/// The definition of a combinator: the number of arguments it takes, and
/// the template it rewrites them to.
pub struct CLFun {
    arity: usize,
    fun: CLSub,
}

impl CLFun {
    /// The combinator that rewrites `arity` arguments to `fun`.
    pub fn new(arity: usize, fun: CLSub) -> (d: CLFun)
        ensures
            d@ == (FunView { arity: arity as nat, body: fun@ }),
    {
        CLFun { arity, fun }
    }
}

/// The ways in which a text fails to be a term.
#[derive(Debug)]
pub enum CLTermError {
    TooManyOpenParens,
    TooManyCloseParens,
    EmptyTerm,
}

impl CLTerm {
    /// The tree that the term stands for.
    pub open spec fn model(&self) -> TermView
        decreases self,
    {
        match self {
            CLTerm::Empty => TermView::Empty,
            CLTerm::Atom(a) => TermView::Atom(a@),
            CLTerm::List(v) => TermView::List(term_views(v@)),
        }
    }
}

/// The trees of a sequence of boxed terms.
pub open spec fn term_views(v: Seq<Box<CLTerm>>) -> Seq<TermView>
    decreases v,
{
    Seq::new(v.len(), |i: int| if 0 <= i < v.len() { v[i].model() } else { TermView::Empty })
}

impl View for CLTerm {
    type V = TermView;

    open spec fn view(&self) -> TermView {
        self.model()
    }
}

impl CLSub {
    /// The tree that the template stands for.
    pub open spec fn model(&self) -> SubView
        decreases self,
    {
        match self {
            CLSub::Sub(n) => SubView::Slot(*n as nat),
            CLSub::List(v) => SubView::Group(sub_views(v@)),
        }
    }
}

/// The trees of a sequence of boxed templates.
pub open spec fn sub_views(v: Seq<Box<CLSub>>) -> Seq<SubView>
    decreases v,
{
    Seq::new(v.len(), |i: int| if 0 <= i < v.len() { v[i].model() } else { SubView::Slot(0) })
}

impl View for CLSub {
    type V = SubView;

    open spec fn view(&self) -> SubView {
        self.model()
    }
}

impl View for CLFun {
    type V = FunView;

    closed spec fn view(&self) -> FunView {
        FunView { arity: self.arity as nat, body: self.fun@ }
    }
}

impl Clone for CLTerm {
    #[verifier::loop_isolation(false)]
    fn clone(&self) -> (r: CLTerm)
        ensures
            r@ == self@,
        decreases self,
    {
        match self {
            CLTerm::Empty => CLTerm::Empty,
            CLTerm::Atom(a) => CLTerm::Atom(a.clone()),
            CLTerm::List(v) => {
                let mut out: Vec<Box<CLTerm>> = Vec::new();
                let mut i: usize = 0;
                while i < v.len()
                    invariant
                        i <= v.len(),
                        out@.len() == i,
                        forall|j: int| 0 <= j < i ==> out@[j]@ == v@[j]@,
                    decreases v.len() - i,
                {
                    let child: &CLTerm = &v[i];
                    proof {
                        vstd::std_specs::vec::axiom_vec_index_decreases(*v, i as int);
                    }
                    let c = child.clone();
                    out.push(Box::new(c));
                    i += 1;
                }
                assert(term_views(out@) =~= term_views(v@));
                CLTerm::List(out)
            },
        }
    }
}

/// The model of what an environment returned.
pub open spec fn def_view(o: Option<CLFun>) -> Option<FunView> {
    match o {
        Some(d) => Some(d@),
        None => None,
    }
}

/// `env` may be asked about every name.
pub open spec fn env_total<E: Fn(&str) -> Option<CLFun>>(env: E) -> bool {
    forall|s: &str| call_requires(env, (s,))
}

/// `env` may be asked about every name, and every definition it returns
/// is well-formed.
pub open spec fn env_valid<E: Fn(&str) -> Option<CLFun>>(env: E) -> bool {
    &&& env_total(env)
    &&& forall|s: &str, o: Option<CLFun>| #[trigger]
        call_ensures(env, (s,), o) && o is Some ==> o->0@.wf()
}

/// Whatever `env` returns for a name is what the function `m` gives for it.
pub open spec fn env_models<E: Fn(&str) -> Option<CLFun>>(env: E, m: EnvView) -> bool {
    forall|s: &str, o: Option<CLFun>| #[trigger]
        call_ensures(env, (s,), o) ==> def_view(o) == m(s@)
}

/// Appends deep copies of the terms of `more` to `out`.
fn extend_cloned(out: &mut Vec<Box<CLTerm>>, more: &[Box<CLTerm>])
    ensures
        term_views(final(out)@) == term_views(old(out)@) + term_views(more@),
{
    let mut i: usize = 0;
    while i < more.len()
        invariant
            i <= more.len(),
            term_views(out@) == term_views(old(out)@) + term_views(more@).take(i as int),
        decreases more.len() - i,
    {
        let item: &CLTerm = &more[i];
        let ghost before = out@;
        out.push(Box::new(item.clone()));
        i += 1;
        assert(term_views(out@) =~= term_views(before).push(more@[i - 1].model()));
        assert(term_views(more@).take(i as int) =~= term_views(more@).take(i - 1).push(
            more@[i - 1].model(),
        ));
    }
    assert(term_views(more@).take(i as int) =~= term_views(more@));
}

/// The term that a sequence of siblings stands for.
pub(crate) fn collapse_terms(parts: Vec<Box<CLTerm>>) -> (out: CLTerm)
    ensures
        out@ == collapse(term_views(parts@)),
{
    let mut parts = parts;
    if parts.len() == 0 {
        CLTerm::Empty
    } else if parts.len() == 1 {
        let only = parts.pop().unwrap();
        *only
    } else {
        CLTerm::List(parts)
    }
}

/// Puts the head back in front of a reduced tail.
fn reattach_term(head: &CLTerm, reduced: CLTerm) -> (out: CLTerm)
    ensures
        out@ == reattach(head@, reduced@),
{
    match reduced {
        CLTerm::Empty => head.clone(),
        CLTerm::List(v) => {
            let mut v = v;
            let ghost before = v@;
            v.insert(0, Box::new(head.clone()));
            assert(term_views(v@) =~= seq![head@] + term_views(before));
            CLTerm::List(v)
        },
        other => {
            let mut v: Vec<Box<CLTerm>> = Vec::new();
            let ghost second = other@;
            v.push(Box::new(head.clone()));
            v.push(Box::new(other));
            assert(term_views(v@) =~= seq![head@, second]);
            CLTerm::List(v)
        },
    }
}

/// Fills the template `sub` in with the arguments `args`.
#[verifier::loop_isolation(false)]
fn instantiate(sub: &CLSub, args: &[Box<CLTerm>]) -> (out: CLTerm)
    requires
        sub@.fits(args@.len()),
    ensures
        out@ == sub@.instantiate(term_views(args@)),
    decreases sub,
{
    match sub {
        CLSub::Sub(n) => {
            let arg: &CLTerm = &args[*n];
            arg.clone()
        },
        CLSub::List(v) => {
            let mut parts: Vec<Box<CLTerm>> = Vec::new();
            let mut i: usize = 0;
            while i < v.len()
                invariant
                    i <= v.len(),
                    parts@.len() == i,
                    forall|j: int|
                        0 <= j < i ==> (#[trigger] parts@[j]).model() == sub_views(
                            v@,
                        )[j].instantiate(term_views(args@)),
                decreases v.len() - i,
            {
                let child: &CLSub = &v[i];
                proof {
                    vstd::std_specs::vec::axiom_vec_index_decreases(*v, i as int);
                    assert(sub_views(v@)[i as int] == child@);
                }
                let part = instantiate(child, args);
                parts.push(Box::new(part));
                i += 1;
            }
            assert(term_views(parts@) =~= instantiate_all(sub_views(v@), term_views(args@)));
            collapse_terms(parts)
        },
    }
}

/// Redex detection on an application spine.
fn spine_redex<E: Fn(&str) -> Option<CLFun>>(spine: &[Box<CLTerm>], env: &E) -> (found: bool)
    requires
        env_total(*env),
    ensures
        forall|m: EnvView| #[trigger]
            env_models(*env, m) ==> found == spine_has_redex(term_views(spine@), m),
    decreases spine_size(term_views(spine@)),
{
    if spine.len() == 0 {
        return false;
    }
    let tail = slice_subrange(spine, 1, spine.len());
    proof {
        assert(term_views(tail@) =~= term_views(spine@).drop_first());
        lemma_spine_size_first(term_views(spine@));
    }
    let head: &CLTerm = &spine[0];
    match head {
        CLTerm::Empty => false,
        CLTerm::Atom(a) => {
            let comb = env(a.as_str());
            let fired = match &comb {
                Some(d) => d.arity <= tail.len(),
                None => false,
            };
            if fired {
                true
            } else {
                spine_redex(tail, env)
            }
        },
        CLTerm::List(h) => {
            let mut joined: Vec<Box<CLTerm>> = Vec::new();
            extend_cloned(&mut joined, h.as_slice());
            extend_cloned(&mut joined, tail);
            proof {
                assert(term_views(joined@) =~= term_views(h@) + term_views(tail@));
                lemma_spine_size_concat(term_views(h@), term_views(tail@));
            }
            spine_redex(joined.as_slice(), env)
        },
    }
}

/// One reduction step on an application spine.
fn spine_step<E: Fn(&str) -> Option<CLFun>>(spine: &[Box<CLTerm>], env: &E) -> (out: CLTerm)
    requires
        env_valid(*env),
    ensures
        forall|m: EnvView| #[trigger]
            env_models(*env, m) ==> out@ == spine_reduce(term_views(spine@), m),
    decreases spine_size(term_views(spine@)),
{
    if spine.len() == 0 {
        let none: Vec<Box<CLTerm>> = Vec::new();
        assert(term_views(none@) =~= term_views(spine@));
        return CLTerm::List(none);
    }
    let tail = slice_subrange(spine, 1, spine.len());
    proof {
        assert(term_views(tail@) =~= term_views(spine@).drop_first());
        lemma_spine_size_first(term_views(spine@));
    }
    let head: &CLTerm = &spine[0];
    match head {
        CLTerm::Empty => {
            let mut same: Vec<Box<CLTerm>> = Vec::new();
            extend_cloned(&mut same, spine);
            assert(term_views(same@) =~= term_views(spine@));
            CLTerm::List(same)
        },
        CLTerm::Atom(a) => {
            let comb = env(a.as_str());
            match comb {
                Some(d) if d.arity <= tail.len() => {
                    let n = d.arity;
                    let args = slice_subrange(tail, 0, n);
                    assert(term_views(args@) =~= term_views(tail@).take(n as int));
                    let made = instantiate(&d.fun, args);
                    if tail.len() > n {
                        let rest = slice_subrange(tail, n, tail.len());
                        assert(term_views(rest@) =~= term_views(tail@).skip(n as int));
                        let mut v: Vec<Box<CLTerm>> = Vec::new();
                        let ghost first = made@;
                        v.push(Box::new(made));
                        assert(term_views(v@) =~= seq![first]);
                        extend_cloned(&mut v, rest);
                        CLTerm::List(v)
                    } else {
                        made
                    }
                },
                _ => {
                    let reduced = spine_step(tail, env);
                    reattach_term(head, reduced)
                },
            }
        },
        CLTerm::List(h) => {
            let mut joined: Vec<Box<CLTerm>> = Vec::new();
            extend_cloned(&mut joined, h.as_slice());
            extend_cloned(&mut joined, tail);
            proof {
                assert(term_views(joined@) =~= term_views(h@) + term_views(tail@));
                lemma_spine_size_concat(term_views(h@), term_views(tail@));
            }
            spine_step(joined.as_slice(), env)
        },
    }
}

/// Redex detection on a term.
fn term_redex<E: Fn(&str) -> Option<CLFun>>(term: &CLTerm, env: &E) -> (found: bool)
    requires
        env_total(*env),
    ensures
        forall|m: EnvView| #[trigger] env_models(*env, m) ==> found == has_redex_spec(term@, m),
{
    match term {
        CLTerm::List(v) => spine_redex(v.as_slice(), env),
        _ => false,
    }
}

/// One reduction step on a term.
fn term_step<E: Fn(&str) -> Option<CLFun>>(term: &mut CLTerm, env: &E)
    requires
        env_valid(*env),
    ensures
        forall|m: EnvView| #[trigger]
            env_models(*env, m) ==> final(term)@ == reduce_spec(old(term)@, m),
{
    let stepped = match &*term {
        CLTerm::List(v) => Some(spine_step(v.as_slice(), env)),
        _ => None,
    };
    match stepped {
        Some(out) => {
            *term = out;
        },
        None => {},
    }
}

impl Term for CLTerm {
    type Substitution = CLSub;

    type Definition = CLFun;

    type Basis = EnvView;

    open spec fn def_valid(d: CLFun) -> bool {
        d@.wf()
    }

    open spec fn agrees(name: &str, given: Option<CLFun>, basis: EnvView) -> bool {
        def_view(given) == basis(name@)
    }

    open spec fn redex_under(&self, basis: EnvView) -> bool {
        has_redex_spec(self@, basis)
    }

    open spec fn sub_fits(sub: &CLSub, args: &[Box<CLTerm>]) -> bool {
        sub@.fits(args@.len())
    }

    open spec fn sub_result(sub: &CLSub, args: &[Box<CLTerm>], out: &CLTerm) -> bool {
        out@ == sub@.instantiate(term_views(args@))
    }

    open spec fn steps_to(&self, basis: EnvView, out: &CLTerm) -> bool {
        out@ == reduce_spec(self@, basis)
    }

    /// Whether the term holds a redex: the answer of `has_redex_spec`
    /// under every basis that `env` computes.
    fn has_redex<E: Fn(&str) -> Option<CLFun>>(&self, env: E) -> (found: bool) {
        let found = term_redex(self, &env);
        assert forall|basis: EnvView|
            (forall|s: &str, o: Option<CLFun>| #[trigger]
                call_ensures(env, (s,), o) ==> Self::agrees(s, o, basis)) implies found
            == #[trigger] self.redex_under(basis) by {
            assert(env_models(env, basis));
        }
        found
    }

    /// The term that `sub` yields on `args`: deep copies of the arguments
    /// in the places of the slots.
    fn substitute(sub: &CLSub, args: &[Box<CLTerm>]) -> (out: CLTerm) {
        instantiate(sub, args)
    }

    /// Rewrites the leftmost-outermost redex: the result of `reduce_spec`
    /// under every basis that `env` computes. Where no definition of the
    /// basis has an empty group, the term-model invariant is kept.
    fn reduce<E: Fn(&str) -> Option<CLFun>>(&mut self, env: E)
        ensures
            forall|basis: EnvView|
                env_models(env, basis) && #[trigger] env_proper(basis) && old(self)@.normal()
                    ==> final(self)@.normal(),
    {
        term_step(self, &env);
        assert forall|basis: EnvView|
            (forall|s: &str, o: Option<CLFun>| #[trigger]
                call_ensures(env, (s,), o) ==> Self::agrees(s, o, basis))
                implies #[trigger] old(self).steps_to(basis, self) by {
            assert(env_models(env, basis));
        }
        assert forall|basis: EnvView|
            env_models(env, basis) && #[trigger] env_proper(basis) && old(self)@.normal()
                implies self@.normal() by {
            lemma_reduce_keeps_normal(old(self)@, basis);
        }
    }
}

/// Whether `s` is the one-character name `c`.
fn is_name(s: &str, c: char) -> (b: bool)
    ensures
        b == (s@ == seq![c]),
{
    if s.unicode_len() == 1 {
        let first = s.get_char(0);
        assert(first == c ==> s@ =~= seq![c]);
        assert(s@ == seq![c] ==> s@[0] == c);
        first == c
    } else {
        assert(seq![c].len() == 1);
        false
    }
}

/// The classical environment of the combinators `I`, `K` and `S`.
pub fn env(s: &str) -> (r: Option<CLFun>)
    ensures
        def_view(r) == ski(s@),
{
    if is_name(s, 'I') {
        Some(CLFun { arity: 1, fun: CLSub::Sub(0) })
    } else if is_name(s, 'K') {
        Some(CLFun { arity: 2, fun: CLSub::Sub(0) })
    } else if is_name(s, 'S') {
        let mut v1: Vec<Box<CLSub>> = Vec::new();
        v1.push(Box::new(CLSub::Sub(0)));
        v1.push(Box::new(CLSub::Sub(2)));
        let mut v2: Vec<Box<CLSub>> = Vec::new();
        v2.push(Box::new(CLSub::Sub(1)));
        v2.push(Box::new(CLSub::Sub(2)));
        assert(sub_views(v2@) =~= seq![SubView::Slot(1), SubView::Slot(2)]);
        let inner = CLSub::List(v2);
        v1.push(Box::new(inner));
        assert(sub_views(v1@) =~= seq![
            SubView::Slot(0),
            SubView::Slot(2),
            SubView::Group(seq![SubView::Slot(1), SubView::Slot(2)]),
        ]);
        let outer = CLSub::List(v1);
        Some(CLFun { arity: 3, fun: outer })
    } else {
        None
    }
}

impl CLTerm {
    /// Reduces at most `times` times, and stops where no redex is left.
    /// Where no definition of the basis has an empty group, the term-model
    /// invariant is kept.
    pub fn reduce_n<E: Fn(&str) -> Option<CLFun>>(&mut self, env: E, times: u32)
        requires
            env_valid(env),
        ensures
            forall|m: EnvView| #[trigger]
                env_models(env, m) ==> final(self)@ == reduce_n_spec(old(self)@, m, times as nat),
            forall|m: EnvView|
                env_models(env, m) && #[trigger] env_proper(m) && old(self)@.normal()
                    ==> final(self)@.normal(),
    {
        let mut left: u32 = times;
        let mut going: bool = true;
        while going && left > 0
            invariant
                env_valid(env),
                forall|m: EnvView| #[trigger]
                    env_models(env, m) ==> reduce_n_spec(old(self)@, m, times as nat) == (if going {
                        reduce_n_spec(self@, m, left as nat)
                    } else {
                        self@
                    }),
            decreases (if going { 1int } else { 0int }) + left,
        {
            if term_redex(self, &env) {
                term_step(self, &env);
                left -= 1;
            } else {
                going = false;
            }
        }
        assert forall|m: EnvView|
            env_models(env, m) && #[trigger] env_proper(m) && old(self)@.normal()
                implies self@.normal() by {
            lemma_reduce_n_keeps_normal(old(self)@, m, times as nat);
        }
    }
}

/// The classical environment computes the classical basis, and every
/// definition it returns is well-formed: it may be handed to redex
/// detection and to reduction.
pub proof fn lemma_env_is_ski()
    ensures
        env_valid(env),
        env_models(env, |name: Seq<char>| ski(name)),
{
    let basis = |name: Seq<char>| ski(name);
    lemma_ski_proper();
    assert forall|s: &str, o: Option<CLFun>| #[trigger]
        call_ensures(env, (s,), o) && o is Some implies o->0@.wf() by {
        assert(def_view(o) == ski(s@));
        assert(basis(s@) is Some);
    }
}

} // verus!
