//! The mathematical model of combinatory-logic terms: what a term, a
//! substitution template and an environment are, and what redex detection
//! and one reduction step compute on them.

use vstd::prelude::*;

verus! {

/// A term as a mathematical tree.
pub enum TermView {
    Empty,
    Atom(Seq<char>),
    List(Seq<TermView>),
}

/// A substitution template as a mathematical tree.
pub enum SubView {
    Slot(nat),
    Group(Seq<SubView>),
}

/// A combinator definition: how many arguments it takes, and what it
/// rewrites them to.
pub struct FunView {
    pub arity: nat,
    pub body: SubView,
}

/// An environment: a total function from atom names to definitions.
pub type EnvView = spec_fn(Seq<char>) -> Option<FunView>;

impl TermView {
    /// The term-model invariant: every list, however deep, has at least
    /// two children, and none of them is `Empty`.
    pub open spec fn normal(self) -> bool
        decreases self,
    {
        match self {
            TermView::List(s) => s.len() >= 2 && forall|i: int|
                0 <= i < s.len() ==> !(#[trigger] s[i] is Empty) && s[i].normal(),
            _ => true,
        }
    }

    /// No child of a top-level list is itself a list, up to the first
    /// `Empty` child if there is one.
    pub open spec fn flat(self) -> bool {
        match self {
            TermView::List(s) => spine_flat(s),
            _ => true,
        }
    }

    /// The number of nodes of the tree.
    pub open spec fn size(self) -> nat
        decreases self,
    {
        match self {
            TermView::List(s) => 1 + spine_size(s),
            _ => 1,
        }
    }
}

/// The number of nodes in a sequence of trees.
pub open spec fn spine_size(s: Seq<TermView>) -> nat
    decreases s,
{
    if s.len() == 0 {
        0
    } else {
        spine_size(s.drop_last()) + s.last().size()
    }
}

/// No term of `s` is a list, up to the first `Empty` if there is one.
pub open spec fn spine_flat(s: Seq<TermView>) -> bool
    decreases s.len(),
{
    if s.len() == 0 {
        true
    } else {
        match s[0] {
            TermView::Empty => true,
            TermView::Atom(_) => spine_flat(s.drop_first()),
            TermView::List(_) => false,
        }
    }
}

/// The term that a sequence of siblings stands for: nothing, the sole
/// sibling, or their application.
pub open spec fn collapse(s: Seq<TermView>) -> TermView {
    if s.len() == 0 {
        TermView::Empty
    } else if s.len() == 1 {
        s[0]
    } else {
        TermView::List(s)
    }
}

impl SubView {
    /// Every slot of the template is below `n`.
    pub open spec fn fits(self, n: nat) -> bool
        decreases self,
    {
        match self {
            SubView::Slot(i) => i < n,
            SubView::Group(s) => forall|i: int| 0 <= i < s.len() ==> (#[trigger] s[i]).fits(n),
        }
    }

    /// No group of the template is empty.
    pub open spec fn proper(self) -> bool
        decreases self,
    {
        match self {
            SubView::Slot(_) => true,
            SubView::Group(s) => s.len() > 0 && forall|i: int|
                0 <= i < s.len() ==> (#[trigger] s[i]).proper(),
        }
    }

    /// The term that the template yields on the arguments `args`.
    pub open spec fn instantiate(self, args: Seq<TermView>) -> TermView
        recommends
            self.fits(args.len()),
        decreases self,
    {
        match self {
            SubView::Slot(i) => if i < args.len() {
                args[i as int]
            } else {
                TermView::Empty
            },
            SubView::Group(s) => collapse(instantiate_all(s, args)),
        }
    }
}

/// What each template of `s` yields on the arguments `args`.
pub open spec fn instantiate_all(s: Seq<SubView>, args: Seq<TermView>) -> Seq<TermView>
    decreases s,
{
    Seq::new(
        s.len(),
        |i: int|
            if 0 <= i < s.len() {
                s[i].instantiate(args)
            } else {
                TermView::Empty
            },
    )
}

impl FunView {
    /// The body refers to no argument beyond the arity.
    pub open spec fn wf(self) -> bool {
        self.body.fits(self.arity)
    }

    /// The body has no empty group: on non-empty arguments it yields a
    /// non-empty term.
    pub open spec fn proper(self) -> bool {
        self.body.proper()
    }
}

/// Every definition of `env` is well-formed and has no empty group.
pub open spec fn env_proper(env: EnvView) -> bool {
    forall|name: Seq<char>|
        (#[trigger] env(name)) is Some ==> env(name)->0.wf() && env(name)->0.proper()
}

/// The classical basis: `I x` rewrites to `x`, `K x y` to `x`, and
/// `S x y z` to `x z (y z)`; no other name is a combinator.
pub open spec fn ski(name: Seq<char>) -> Option<FunView> {
    if name == seq!['I'] {
        Some(FunView { arity: 1, body: SubView::Slot(0) })
    } else if name == seq!['K'] {
        Some(FunView { arity: 2, body: SubView::Slot(0) })
    } else if name == seq!['S'] {
        Some(
            FunView {
                arity: 3,
                body: SubView::Group(
                    seq![
                        SubView::Slot(0),
                        SubView::Slot(2),
                        SubView::Group(seq![SubView::Slot(1), SubView::Slot(2)]),
                    ],
                ),
            },
        )
    } else {
        None
    }
}

/// The term after at most `n` reduction steps, stopping early where no
/// redex is left.
pub open spec fn reduce_n_spec(t: TermView, env: EnvView, n: nat) -> TermView
    decreases n,
{
    if n == 0 || !has_redex_spec(t, env) {
        t
    } else {
        reduce_n_spec(reduce_spec(t, env), env, (n - 1) as nat)
    }
}

/// Whether the definition `d` fires when `n` arguments follow its name.
pub open spec fn fires(d: Option<FunView>, n: nat) -> bool {
    d is Some && d->0.arity <= n
}

/// The rewritten spine when the combinator `d` heads the arguments `tail`.
pub open spec fn fire(d: FunView, tail: Seq<TermView>) -> TermView
    recommends
        d.arity <= tail.len(),
{
    let made = d.body.instantiate(tail.take(d.arity as int));
    if tail.len() > d.arity {
        TermView::List(seq![made] + tail.skip(d.arity as int))
    } else {
        made
    }
}

/// The head `head` put back in front of a reduced tail: a reduced atom
/// becomes its one argument, the children of a reduced list follow it, and
/// where nothing is left the head stands alone.
pub open spec fn reattach(head: TermView, reduced: TermView) -> TermView {
    match reduced {
        TermView::Empty => head,
        TermView::Atom(_) => TermView::List(seq![head, reduced]),
        TermView::List(v) => TermView::List(seq![head] + v),
    }
}

/// Whether the application spine `s` holds a redex, searching leftmost
/// first: a combinator with enough arguments behind it fires; any other
/// atom is skipped; a nested application at the head is opened up; an
/// `Empty` at the head ends the search.
pub open spec fn spine_has_redex(s: Seq<TermView>, env: EnvView) -> bool
    decreases spine_size(s),
    via spine_has_redex_decreases
{
    if s.len() == 0 {
        false
    } else {
        let tail = s.drop_first();
        match s[0] {
            TermView::Empty => false,
            TermView::Atom(a) => fires(env(a), tail.len()) || spine_has_redex(tail, env),
            TermView::List(h) => spine_has_redex(h + tail, env),
        }
    }
}

/// One reduction step on the application spine `s`, at the redex that
/// `spine_has_redex` finds first. The atoms that were skipped stay in
/// front; the nested applications that were opened up stay open.
pub open spec fn spine_reduce(s: Seq<TermView>, env: EnvView) -> TermView
    decreases spine_size(s),
    via spine_reduce_decreases
{
    if s.len() == 0 {
        TermView::List(s)
    } else {
        let tail = s.drop_first();
        match s[0] {
            TermView::Empty => TermView::List(s),
            TermView::Atom(a) => if fires(env(a), tail.len()) {
                fire(env(a)->0, tail)
            } else {
                reattach(s[0], spine_reduce(tail, env))
            },
            TermView::List(h) => spine_reduce(h + tail, env),
        }
    }
}

/// Whether the term `t` holds a redex under `env`.
pub open spec fn has_redex_spec(t: TermView, env: EnvView) -> bool {
    match t {
        TermView::List(s) => spine_has_redex(s, env),
        _ => false,
    }
}

/// The term after one reduction step under `env`.
pub open spec fn reduce_spec(t: TermView, env: EnvView) -> TermView {
    match t {
        TermView::List(s) => spine_reduce(s, env),
        _ => t,
    }
}

/// The size of a concatenation is the sum of the sizes.
pub proof fn lemma_spine_size_concat(a: Seq<TermView>, b: Seq<TermView>)
    ensures
        spine_size(a + b) == spine_size(a) + spine_size(b),
    decreases b.len(),
{
    if b.len() == 0 {
        assert(a + b =~= a);
    } else {
        lemma_spine_size_concat(a, b.drop_last());
        assert((a + b).drop_last() =~= a + b.drop_last());
        assert((a + b).last() == b.last());
    }
}

/// Dropping the first term takes its size off.
pub proof fn lemma_spine_size_first(s: Seq<TermView>)
    requires
        s.len() > 0,
    ensures
        spine_size(s) == s[0].size() + spine_size(s.drop_first()),
{
    let one = seq![s[0]];
    assert(one + s.drop_first() =~= s);
    lemma_spine_size_concat(one, s.drop_first());
    assert(one.drop_last() =~= Seq::<TermView>::empty());
    assert(spine_size(one) == spine_size(one.drop_last()) + one.last().size());
}

#[via_fn]
proof fn spine_has_redex_decreases(s: Seq<TermView>, env: EnvView) {
    if s.len() > 0 {
        lemma_spine_size_first(s);
        if let TermView::List(h) = s[0] {
            lemma_spine_size_concat(h, s.drop_first());
        }
    }
}

#[via_fn]
proof fn spine_reduce_decreases(s: Seq<TermView>, env: EnvView) {
    if s.len() > 0 {
        lemma_spine_size_first(s);
        if let TermView::List(h) = s[0] {
            lemma_spine_size_concat(h, s.drop_first());
        }
    }
}

} // verus!
