//! What holds of parsing, printing and reduction, whatever the term.

use vstd::prelude::*;
use crate::clterm::CLTermError;
use crate::model::{
    collapse, env_proper, fires, has_redex_spec, instantiate_all, lemma_spine_size_concat,
    lemma_spine_size_first, reattach, reduce_n_spec, reduce_spec, ski, spine_flat,
    spine_has_redex, spine_reduce, spine_size, EnvView, SubView, TermView,
};
use crate::syntax::{
    atom_end, is_atom_char, is_space, lemma_atom_end, lemma_scan_next, parse_spec, scan, show,
    show_items, Scan,
};

verus! {

impl TermView {
    /// Every atom of the term is a non-empty run of atom characters.
    pub open spec fn printable(self) -> bool
        decreases self,
    {
        match self {
            TermView::Empty => true,
            TermView::Atom(a) => a.len() > 0 && forall|i: int|
                0 <= i < a.len() ==> is_atom_char(#[trigger] a[i]),
            TermView::List(s) => forall|i: int| 0 <= i < s.len() ==> (#[trigger] s[i]).printable(),
        }
    }
}

/// Every term of `s` is non-empty, normal and printable.
pub open spec fn spine_printable(s: Seq<TermView>) -> bool {
    forall|i: int|
        0 <= i < s.len() ==> !(#[trigger] s[i] is Empty) && s[i].normal() && s[i].printable()
}

/// A flat spine without a redex is left as it is by a reduction step.
proof fn lemma_spine_fixpoint(s: Seq<TermView>, env: EnvView)
    requires
        spine_flat(s),
        !spine_has_redex(s, env),
    ensures
        spine_reduce(s, env) == TermView::List(s),
    decreases s.len(),
{
    if s.len() > 0 && s[0] is Atom {
        let tail = s.drop_first();
        lemma_spine_fixpoint(tail, env);
        assert(seq![s[0]] + tail =~= s);
    }
}

/// A reduction step leaves a term without a redex exactly as it is,
/// provided that the term is flat: no child of it, up to the first empty
/// one, is itself a list.
pub proof fn lemma_no_redex_fixpoint(t: TermView, env: EnvView)
    requires
        t.flat(),
        !has_redex_spec(t, env),
    ensures
        reduce_spec(t, env) == t,
{
    if let TermView::List(s) = t {
        lemma_spine_fixpoint(s, env);
    }
}

/// A reduction step on a spine without a redex gives a list that is no
/// larger, and smaller where the spine is not flat.
proof fn lemma_spine_opened(s: Seq<TermView>, env: EnvView)
    requires
        !spine_has_redex(s, env),
    ensures
        spine_reduce(s, env) is List,
        spine_size(spine_reduce(s, env)->List_0) <= spine_size(s),
        !spine_flat(s) ==> spine_size(spine_reduce(s, env)->List_0) < spine_size(s),
    decreases spine_size(s),
{
    if s.len() > 0 {
        let tail = s.drop_first();
        lemma_spine_size_first(s);
        match s[0] {
            TermView::Empty => {},
            TermView::Atom(_) => {
                lemma_spine_opened(tail, env);
                let w = spine_reduce(tail, env)->List_0;
                let v = seq![s[0]] + w;
                lemma_spine_size_first(v);
                assert(v.drop_first() =~= w);
            },
            TermView::List(h) => {
                lemma_spine_size_concat(h, tail);
                lemma_spine_opened(h + tail, env);
            },
        }
    }
}

/// Where a term without a redex is not flat, a reduction step opens a
/// nested list up, and the term changes.
pub proof fn lemma_no_redex_opens(t: TermView, env: EnvView)
    requires
        !t.flat(),
        !has_redex_spec(t, env),
    ensures
        reduce_spec(t, env) != t,
{
    if let TermView::List(s) = t {
        lemma_spine_opened(s, env);
    }
}

/// The empty term holds no redex and reduces to itself.
pub proof fn lemma_empty_is_inert(env: EnvView)
    ensures
        !has_redex_spec(TermView::Empty, env),
        reduce_spec(TermView::Empty, env) == TermView::Empty,
{
}

/// Scanning a run of separators reads nothing.
proof fn lemma_scan_blank(s: Seq<char>, i: int)
    requires
        0 <= i <= s.len(),
        forall|k: int| 0 <= k < s.len() ==> is_space(#[trigger] s[k]),
    ensures
        scan(s, i, Seq::empty()) == (Scan {
            items: Seq::empty(),
            next: s.len() as int,
            closed: false,
            unclosed: false,
            empty: false,
        }),
    decreases s.len() - i,
{
    if i < s.len() {
        assert(is_space(s[i]));
        lemma_scan_blank(s, i + 1);
    }
}

/// A text of separators alone, the empty text among them, is the empty
/// term.
pub proof fn lemma_blank_parses_empty(s: Seq<char>)
    requires
        forall|k: int| 0 <= k < s.len() ==> is_space(#[trigger] s[k]),
    ensures
        parse_spec(s) == Ok::<TermView, CLTermError>(TermView::Empty),
{
    lemma_scan_blank(s, 0);
}

/// A run of `n` atom characters from `i` on, with none behind it, ends
/// at `i + n`.
proof fn lemma_atom_run(s: Seq<char>, i: int, n: int)
    requires
        0 <= i,
        0 <= n,
        i + n <= s.len(),
        forall|k: int| i <= k < i + n ==> is_atom_char(#[trigger] s[k]),
        i + n < s.len() ==> !is_atom_char(s[i + n]),
    ensures
        atom_end(s, i) == i + n,
    decreases n,
{
    if n > 0 {
        assert(is_atom_char(s[i]));
        lemma_atom_run(s, i + 1, n - 1);
    }
}

/// Scanning the text of one term, where a separator, a parenthesis or the
/// end of the text follows it, reads that term.
proof fn lemma_scan_item(s: Seq<char>, q: int, acc: Seq<TermView>, t: TermView)
    requires
        0 <= q,
        q + show(t, true).len() <= s.len(),
        s.subrange(q, q + show(t, true).len()) == show(t, true),
        q + show(t, true).len() < s.len() ==> !is_atom_char(s[q + show(t, true).len()]),
        !(t is Empty),
        t.normal(),
        t.printable(),
    ensures
        scan(s, q, acc) == scan(s, q + show(t, true).len(), acc.push(t)),
    decreases t,
{
    let text = show(t, true);
    assert forall|k: int| 0 <= k < text.len() implies s[q + k] == #[trigger] text[k] by {
        assert(s.subrange(q, q + text.len())[k] == s[q + k]);
    }
    match t {
        TermView::Empty => {},
        TermView::Atom(a) => {
            assert(s[q] == a[0]);
            assert forall|k: int| q <= k < q + a.len() implies is_atom_char(#[trigger] s[k]) by {
                assert(s[k] == a[k - q]);
            }
            lemma_atom_run(s, q, a.len() as int);
            assert(s.subrange(q, q + a.len()) =~= a);
        },
        TermView::List(c) => {
            let inner_text = show_items(c);
            let len = inner_text.len() as int;
            assert(text == seq!['('] + inner_text + seq![')']);
            assert(text.len() == len + 2);
            assert(s[q] == text[0]);
            assert(s[q] == '(');
            assert(s[q + len + 1] == text[len + 1]);
            assert(s[q + len + 1] == ')');
            assert(s.subrange(q + 1, q + 1 + len) =~= inner_text) by {
                assert forall|k: int| 0 <= k < len implies s[q + 1 + k] == inner_text[k] by {
                    assert(text[k + 1] == inner_text[k]);
                }
            }
            lemma_scan_items(s, q + 1, Seq::empty(), c);
            assert(Seq::<TermView>::empty() + c =~= c);
            let inner = scan(s, q + 1, Seq::empty());
            assert(inner == scan(s, q + 1 + len, c));
            assert(inner.items == c);
            assert(inner.closed);
            assert(inner.next == q + len + 2);
            assert(collapse(c) == t);
        },
    }
}

/// Scanning the text of a run of siblings, where a separator, a
/// parenthesis or the end of the text follows it, reads those siblings.
proof fn lemma_scan_items(s: Seq<char>, p: int, acc: Seq<TermView>, its: Seq<TermView>)
    requires
        0 <= p,
        p + show_items(its).len() <= s.len(),
        s.subrange(p, p + show_items(its).len()) == show_items(its),
        p + show_items(its).len() < s.len() ==> !is_atom_char(s[p + show_items(its).len()]),
        spine_printable(its),
    ensures
        scan(s, p, acc) == scan(s, p + show_items(its).len(), acc + its),
    decreases its,
{
    let text = show_items(its);
    assert forall|k: int| 0 <= k < text.len() implies s[p + k] == #[trigger] text[k] by {
        assert(s.subrange(p, p + text.len())[k] == s[p + k]);
    }
    if its.len() == 0 {
        assert(acc + its =~= acc);
    } else if its.len() == 1 {
        lemma_scan_item(s, p, acc, its[0]);
        assert(acc.push(its[0]) =~= acc + its);
    } else {
        let front = its.drop_last();
        let last = its.last();
        let front_text = show_items(front);
        let last_text = show(last, true);
        let n = front_text.len() as int;
        assert(text == front_text + seq![' '] + last_text);
        assert(text.len() == n + 1 + last_text.len());
        assert(s[p + n] == text[n]);
        assert(s[p + n] == ' ');
        assert(s.subrange(p, p + n) =~= front_text) by {
            assert forall|k: int| 0 <= k < n implies s[p + k] == front_text[k] by {
                assert(text[k] == front_text[k]);
            }
        }
        assert(spine_printable(front)) by {
            assert forall|i: int| 0 <= i < front.len() implies !(#[trigger] front[i] is Empty)
                && front[i].normal() && front[i].printable() by {
                assert(front[i] == its[i]);
            }
        }
        lemma_scan_items(s, p, acc, front);
        assert(is_space(s[p + n]));
        let q = p + n + 1;
        assert(s.subrange(q, q + last_text.len()) =~= last_text) by {
            assert forall|k: int| 0 <= k < last_text.len() implies s[q + k] == last_text[k] by {
                assert(text[n + 1 + k] == last_text[k]);
            }
        }
        lemma_scan_item(s, q, acc + front, last);
        assert((acc + front).push(last) =~= acc + its);
    }
}

/// Printing and parsing again gives the term back: for every term that
/// keeps the term-model invariant and whose atoms are non-empty runs of
/// atom characters, the text of the term parses to the term.
pub proof fn lemma_round_trip(t: TermView)
    requires
        t.normal(),
        t.printable(),
    ensures
        parse_spec(show(t, false)) == Ok::<TermView, CLTermError>(t),
{
    let s = show(t, false);
    let none = Seq::<TermView>::empty();
    match t {
        TermView::Empty => {},
        TermView::Atom(a) => {
            assert(s.subrange(0, s.len() as int) =~= s);
            lemma_scan_item(s, 0, none, t);
            assert(none.push(t).len() == 1);
        },
        TermView::List(c) => {
            assert(s.subrange(0, s.len() as int) =~= s);
            lemma_scan_items(s, 0, none, c);
            assert(none + c =~= c);
        },
    }
}

/// Every character of a run of atom characters is one.
proof fn lemma_atom_chars(s: Seq<char>, i: int)
    requires
        0 <= i <= s.len(),
    ensures
        forall|k: int| i <= k < atom_end(s, i) ==> is_atom_char(#[trigger] s[k]),
    decreases s.len() - i,
{
    if i < s.len() && is_atom_char(s[i]) {
        lemma_atom_chars(s, i + 1);
    }
}

/// Scanning adds only non-empty, normal, printable terms.
proof fn lemma_scan_printable(s: Seq<char>, i: int, acc: Seq<TermView>)
    requires
        0 <= i <= s.len(),
        spine_printable(acc),
    ensures
        spine_printable(scan(s, i, acc).items),
    decreases s.len() - i,
{
    if i >= s.len() {
    } else if is_space(s[i]) {
        lemma_scan_printable(s, i + 1, acc);
    } else if s[i] == ')' {
    } else if s[i] == '(' {
        let inner = scan(s, i + 1, Seq::empty());
        lemma_scan_next(s, i + 1, Seq::empty());
        lemma_scan_printable(s, i + 1, Seq::empty());
        if inner.empty || inner.items.len() == 0 {
        } else {
            let group = collapse(inner.items);
            assert(!(inner.items[0] is Empty));
            assert(!(group is Empty) && group.normal() && group.printable());
            if inner.closed {
                lemma_scan_printable(s, inner.next, acc.push(group));
            }
        }
    } else {
        let j = atom_end(s, i);
        lemma_atom_end(s, i);
        lemma_atom_chars(s, i);
        let name = s.subrange(i, j);
        assert forall|k: int| 0 <= k < name.len() implies is_atom_char(#[trigger] name[k]) by {
            assert(name[k] == s[i + k]);
        }
        lemma_scan_printable(s, j, acc.push(TermView::Atom(name)));
    }
}

/// Every term that a text parses to keeps the term-model invariant, and
/// its atoms are non-empty runs of atom characters: so it prints to a text
/// that parses to it again.
pub proof fn lemma_parse_normal(s: Seq<char>)
    requires
        parse_spec(s) is Ok,
    ensures
        parse_spec(s)->Ok_0.normal(),
        parse_spec(s)->Ok_0.printable(),
        parse_spec(show(parse_spec(s)->Ok_0, false)) == parse_spec(s),
{
    lemma_scan_printable(s, 0, Seq::empty());
    let items = scan(s, 0, Seq::empty()).items;
    if items.len() > 0 {
        assert(!(items[0] is Empty));
    }
    lemma_round_trip(parse_spec(s)->Ok_0);
}

/// Every term of `s` is non-empty and normal.
pub open spec fn spine_normal(s: Seq<TermView>) -> bool {
    forall|i: int| 0 <= i < s.len() ==> !(#[trigger] s[i] is Empty) && s[i].normal()
}

/// A template without empty groups yields a non-empty normal term on
/// non-empty normal arguments.
proof fn lemma_instantiate_normal(sub: SubView, args: Seq<TermView>)
    requires
        sub.fits(args.len()),
        sub.proper(),
        spine_normal(args),
    ensures
        !(sub.instantiate(args) is Empty),
        sub.instantiate(args).normal(),
    decreases sub,
{
    match sub {
        SubView::Slot(i) => {
            assert(!(args[i as int] is Empty));
        },
        SubView::Group(s) => {
            let parts = instantiate_all(s, args);
            assert forall|i: int| 0 <= i < parts.len() implies !(#[trigger] parts[i] is Empty)
                && parts[i].normal() by {
                assert(s[i].fits(args.len()));
                assert(s[i].proper());
                lemma_instantiate_normal(s[i], args);
            }
            assert(!(parts[0] is Empty));
        },
    }
}

/// One step on a spine of non-empty normal terms gives a non-empty term
/// whose lists, below the top, have two children or more; at the top the
/// list is no shorter than the spine was, up to two.
proof fn lemma_spine_reduce_normal(s: Seq<TermView>, env: EnvView)
    requires
        spine_normal(s),
        env_proper(env),
    ensures
        !(spine_reduce(s, env) is Empty),
        spine_reduce(s, env) is List ==> {
            &&& spine_normal(spine_reduce(s, env)->List_0)
            &&& s.len() >= 1 ==> spine_reduce(s, env)->List_0.len() >= 1
            &&& s.len() >= 2 ==> spine_reduce(s, env)->List_0.len() >= 2
        },
    decreases spine_size(s),
{
    if s.len() > 0 {
        let tail = s.drop_first();
        lemma_spine_size_first(s);
        assert(!(s[0] is Empty) && s[0].normal());
        assert(spine_normal(tail)) by {
            assert forall|i: int| 0 <= i < tail.len() implies !(#[trigger] tail[i] is Empty)
                && tail[i].normal() by {
                assert(tail[i] == s[i + 1]);
            }
        }
        match s[0] {
            TermView::Empty => {},
            TermView::Atom(a) => {
                if fires(env(a), tail.len()) {
                    let d = env(a)->0;
                    let args = tail.take(d.arity as int);
                    assert(spine_normal(args)) by {
                        assert forall|i: int| 0 <= i < args.len() implies !(
                        #[trigger] args[i] is Empty) && args[i].normal() by {
                            assert(args[i] == tail[i]);
                        }
                    }
                    assert(d.wf() && d.proper());
                    lemma_instantiate_normal(d.body, args);
                    let made = d.body.instantiate(args);
                    if tail.len() > d.arity {
                        let rest = tail.skip(d.arity as int);
                        let v = seq![made] + rest;
                        assert forall|i: int| 0 <= i < v.len() implies !(#[trigger] v[i] is Empty)
                            && v[i].normal() by {
                            if i > 0 {
                                assert(v[i] == tail[d.arity + i - 1]);
                            }
                        }
                    }
                } else {
                    lemma_spine_reduce_normal(tail, env);
                    let r = spine_reduce(tail, env);
                    match r {
                        TermView::Empty => {},
                        TermView::Atom(_) => {
                            let v = seq![s[0], r];
                            assert(reattach(s[0], r) == TermView::List(v));
                        },
                        TermView::List(w) => {
                            let v = seq![s[0]] + w;
                            assert forall|i: int| 0 <= i < v.len() implies !(
                            #[trigger] v[i] is Empty) && v[i].normal() by {
                                if i > 0 {
                                    assert(v[i] == w[i - 1]);
                                }
                            }
                        },
                    }
                }
            },
            TermView::List(h) => {
                lemma_spine_size_concat(h, tail);
                let joined = h + tail;
                assert(spine_normal(joined)) by {
                    assert forall|i: int| 0 <= i < joined.len() implies !(
                    #[trigger] joined[i] is Empty) && joined[i].normal() by {
                        if i < h.len() {
                            assert(joined[i] == h[i]);
                        } else {
                            assert(joined[i] == tail[i - h.len()]);
                        }
                    }
                }
                lemma_spine_reduce_normal(joined, env);
            },
        }
    }
}

/// A reduction step keeps the term-model invariant, where every
/// definition of the environment is well-formed and has no empty group.
pub proof fn lemma_reduce_keeps_normal(t: TermView, env: EnvView)
    requires
        t.normal(),
        env_proper(env),
    ensures
        reduce_spec(t, env).normal(),
{
    if let TermView::List(s) = t {
        lemma_spine_reduce_normal(s, env);
    }
}

/// Reducing at most `n` times keeps the term-model invariant, where
/// every definition of the environment is well-formed and has no empty
/// group.
pub proof fn lemma_reduce_n_keeps_normal(t: TermView, env: EnvView, n: nat)
    requires
        t.normal(),
        env_proper(env),
    ensures
        reduce_n_spec(t, env, n).normal(),
    decreases n,
{
    if n > 0 && has_redex_spec(t, env) {
        lemma_reduce_keeps_normal(t, env);
        lemma_reduce_n_keeps_normal(reduce_spec(t, env), env, (n - 1) as nat);
    }
}

/// Every definition of the classical basis is well-formed and has no
/// empty group.
pub proof fn lemma_ski_proper()
    ensures
        env_proper(|name: Seq<char>| ski(name)),
{
    let env = |name: Seq<char>| ski(name);
    assert forall|name: Seq<char>| (#[trigger] env(name)) is Some implies env(name)->0.wf()
        && env(name)->0.proper() by {
        if name == seq!['I'] {
        } else if name == seq!['K'] {
        } else if name == seq!['S'] {
            let inner = seq![SubView::Slot(1), SubView::Slot(2)];
            let outer = seq![SubView::Slot(0), SubView::Slot(2), SubView::Group(inner)];
            assert(ski(name)->0.body == SubView::Group(outer));
            assert forall|i: int| 0 <= i < inner.len() implies (#[trigger] inner[i]).fits(3)
                && inner[i].proper() by {
                if i == 0 {
                } else {
                    assert(i == 1);
                }
            }
            assert(SubView::Group(inner).fits(3) && SubView::Group(inner).proper());
            assert forall|i: int| 0 <= i < outer.len() implies (#[trigger] outer[i]).fits(3)
                && outer[i].proper() by {
                if i == 0 {
                } else if i == 1 {
                } else {
                    assert(i == 2);
                }
            }
        }
    }
}

/// Reducing at most `a + b` times is reducing at most `a` times and then
/// at most `b` times.
pub proof fn lemma_reduce_n_split(t: TermView, env: EnvView, a: nat, b: nat)
    ensures
        reduce_n_spec(t, env, a + b) == reduce_n_spec(reduce_n_spec(t, env, a), env, b),
    decreases a,
{
    if a > 0 && has_redex_spec(t, env) {
        lemma_reduce_n_split(reduce_spec(t, env), env, (a - 1) as nat, b);
        assert((a + b - 1) as nat == (a - 1) as nat + b);
    }
}

} // verus!
