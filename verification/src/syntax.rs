//! The textual form of terms: what a string parses to, and how a term
//! prints.

use vstd::prelude::*;
use crate::clterm::{collapse_terms, term_views, CLTerm, CLTermError};
use crate::laws::lemma_parse_normal;
use crate::model::{collapse, TermView};

verus! {

/// The characters that separate atoms.
pub open spec fn is_space(c: char) -> bool {
    c == ' ' || c == '\t' || c == '\n'
}

/// The characters that atoms are made of.
pub open spec fn is_atom_char(c: char) -> bool {
    !is_space(c) && c != '(' && c != ')'
}

/// Where the run of atom characters that starts at `i` ends.
pub open spec fn atom_end(s: Seq<char>, i: int) -> int
    decreases s.len() - i,
{
    if 0 <= i < s.len() && is_atom_char(s[i]) {
        atom_end(s, i + 1)
    } else {
        i
    }
}

/// What scanning a run of siblings gave.
pub struct Scan {
    /// The siblings read so far.
    pub items: Seq<TermView>,
    /// The position after what was read.
    pub next: int,
    /// The run ended at a closing parenthesis.
    pub closed: bool,
    /// The input ended inside a parenthesized group.
    pub unclosed: bool,
    /// A parenthesized group held no term.
    pub empty: bool,
}

/// Scans the siblings that follow position `i` of `s`, up to the closing
/// parenthesis of their group or the end of the input, and adds them to
/// `acc`. Scanning stops at the first empty group.
pub open spec fn scan(s: Seq<char>, i: int, acc: Seq<TermView>) -> Scan
    decreases s.len() - i,
{
    if i < 0 || i >= s.len() {
        Scan { items: acc, next: i, closed: false, unclosed: false, empty: false }
    } else if is_space(s[i]) {
        scan(s, i + 1, acc)
    } else if s[i] == ')' {
        Scan { items: acc, next: i + 1, closed: true, unclosed: false, empty: false }
    } else if s[i] == '(' {
        let inner = scan(s, i + 1, Seq::empty());
        if inner.empty || inner.items.len() == 0 {
            Scan { items: acc, next: inner.next, closed: false, unclosed: false, empty: true }
        } else if !inner.closed {
            Scan {
                items: acc.push(collapse(inner.items)),
                next: inner.next,
                closed: false,
                unclosed: true,
                empty: false,
            }
        } else if i < inner.next <= s.len() {
            scan(s, inner.next, acc.push(collapse(inner.items)))
        } else {
            Scan { items: acc, next: i, closed: false, unclosed: false, empty: false }
        }
    } else {
        let j = atom_end(s, i);
        if i < j <= s.len() {
            scan(s, j, acc.push(TermView::Atom(s.subrange(i, j))))
        } else {
            Scan { items: acc, next: i, closed: false, unclosed: false, empty: false }
        }
    }
}

/// The term that the text `s` denotes, or why it denotes none.
pub open spec fn parse_spec(s: Seq<char>) -> Result<TermView, CLTermError> {
    let r = scan(s, 0, Seq::empty());
    if r.empty {
        Err(CLTermError::EmptyTerm)
    } else if r.closed {
        Err(CLTermError::TooManyCloseParens)
    } else if r.unclosed {
        Err(CLTermError::TooManyOpenParens)
    } else {
        Ok(collapse(r.items))
    }
}

/// The text of a term: atoms verbatim, the children of a list separated by
/// one space, and a list in parentheses where it is `nested` in another.
pub open spec fn show(t: TermView, nested: bool) -> Seq<char>
    decreases t,
{
    match t {
        TermView::Empty => Seq::empty(),
        TermView::Atom(a) => a,
        TermView::List(s) => if nested {
            seq!['('] + show_items(s) + seq![')']
        } else {
            show_items(s)
        },
    }
}

/// The texts of the children of a list, separated by one space.
pub open spec fn show_items(s: Seq<TermView>) -> Seq<char>
    decreases s,
{
    if s.len() == 0 {
        Seq::empty()
    } else if s.len() == 1 {
        show(s[0], true)
    } else {
        show_items(s.drop_last()) + seq![' '] + show(s.last(), true)
    }
}

/// The message of a parse error.
pub open spec fn error_text(e: CLTermError) -> Seq<char> {
    match e {
        CLTermError::TooManyOpenParens => "Too many open parens"@,
        CLTermError::TooManyCloseParens => "Too many close parens"@,
        CLTermError::EmptyTerm => "Empty or incomplete empty subterm"@,
    }
}

/// Where a scan stops: after where it started, and within the text.
pub proof fn lemma_scan_next(s: Seq<char>, i: int, acc: Seq<TermView>)
    requires
        0 <= i <= s.len(),
    ensures
        i <= scan(s, i, acc).next <= s.len(),
        scan(s, i, acc).closed ==> i < scan(s, i, acc).next,
        !scan(s, i, acc).closed && !scan(s, i, acc).empty ==> scan(s, i, acc).next == s.len(),
    decreases s.len() - i,
{
    if i >= s.len() {
    } else if is_space(s[i]) {
        lemma_scan_next(s, i + 1, acc);
    } else if s[i] == ')' {
    } else if s[i] == '(' {
        let inner = scan(s, i + 1, Seq::empty());
        lemma_scan_next(s, i + 1, Seq::empty());
        if inner.empty || inner.items.len() == 0 {
        } else if !inner.closed {
        } else {
            lemma_scan_next(s, inner.next, acc.push(collapse(inner.items)));
        }
    } else {
        lemma_atom_end(s, i);
        lemma_scan_next(s, atom_end(s, i), acc.push(TermView::Atom(s.subrange(i, atom_end(s, i)))));
    }
}

/// A run of atom characters ends within the text, and after its start
/// where it starts at an atom character.
pub proof fn lemma_atom_end(s: Seq<char>, i: int)
    requires
        0 <= i <= s.len(),
    ensures
        i <= atom_end(s, i) <= s.len(),
        i < s.len() && is_atom_char(s[i]) ==> i < atom_end(s, i),
    decreases s.len() - i,
{
    if i < s.len() && is_atom_char(s[i]) {
        lemma_atom_end(s, i + 1);
    }
}

/// What scanning a run of siblings gave.
struct Scanned {
    items: Vec<Box<CLTerm>>,
    next: usize,
    closed: bool,
    unclosed: bool,
    empty: bool,
}

impl Scanned {
    spec fn model(&self) -> Scan {
        Scan {
            items: term_views(self.items@),
            next: self.next as int,
            closed: self.closed,
            unclosed: self.unclosed,
            empty: self.empty,
        }
    }
}

/// The characters of a text.
fn chars_of(text: &str) -> (chars: Vec<char>)
    ensures
        chars@ == text@,
{
    let mut chars: Vec<char> = Vec::new();
    for c in it: text.chars()
        invariant
            it.seq() == text@,
            chars@ == text@.take(it.index() as int),
    {
        chars.push(c);
        assert(text@.take(it.index() + 1) =~= text@.take(it.index() as int).push(c));
    }
    assert(text@.take(text@.len() as int) =~= text@);
    chars
}

/// Whether atoms are made of `c`.
fn atom_char(c: char) -> (b: bool)
    ensures
        b == is_atom_char(c),
{
    !(c == ' ' || c == '\t' || c == '\n' || c == '(' || c == ')')
}

/// Scans the siblings that follow position `start`.
#[verifier::loop_isolation(false)]
fn scan_group(text: &str, chars: &Vec<char>, start: usize) -> (r: Scanned)
    requires
        chars@ == text@,
        start <= chars.len(),
    ensures
        r.model() == scan(text@, start as int, Seq::empty()),
    decreases chars.len() - start,
{
    let mut items: Vec<Box<CLTerm>> = Vec::new();
    let mut i: usize = start;
    assert(term_views(items@) =~= Seq::empty());
    while i < chars.len()
        invariant
            start <= i <= chars.len(),
            scan(text@, start as int, Seq::empty()) == scan(text@, i as int, term_views(items@)),
        decreases chars.len() - i,
    {
        let c = chars[i];
        if c == ' ' || c == '\t' || c == '\n' {
            i += 1;
        } else if c == ')' {
            return Scanned { items, next: i + 1, closed: true, unclosed: false, empty: false };
        } else if c == '(' {
            let inner = scan_group(text, chars, i + 1);
            proof {
                lemma_scan_next(text@, i + 1, Seq::empty());
            }
            if inner.empty || inner.items.len() == 0 {
                return Scanned {
                    items,
                    next: inner.next,
                    closed: false,
                    unclosed: false,
                    empty: true,
                };
            }
            let next = inner.next;
            let closed = inner.closed;
            let ghost parts = term_views(inner.items@);
            let ghost before = term_views(items@);
            let group = collapse_terms(inner.items);
            items.push(Box::new(group));
            assert(term_views(items@) =~= before.push(collapse(parts)));
            if !closed {
                return Scanned { items, next, closed: false, unclosed: true, empty: false };
            }
            i = next;
        } else {
            let mut j: usize = i + 1;
            while j < chars.len() && atom_char(chars[j])
                invariant
                    i < j <= chars.len(),
                    atom_end(text@, i as int) == atom_end(text@, j as int),
                decreases chars.len() - j,
            {
                j += 1;
            }
            let ghost before = term_views(items@);
            let name = String::from_str(text.substring_char(i, j));
            items.push(Box::new(CLTerm::Atom(name)));
            assert(term_views(items@) =~= before.push(
                TermView::Atom(text@.subrange(i as int, j as int)),
            ));
            i = j;
        }
    }
    Scanned { items, next: i, closed: false, unclosed: false, empty: false }
}

/// Writes the text of `term` at the end of `out`.
#[verifier::loop_isolation(false)]
fn show_into(term: &CLTerm, nested: bool, out: &mut String)
    ensures
        final(out)@ == old(out)@ + show(term@, nested),
    decreases term,
{
    match term {
        CLTerm::Empty => {
            assert(out@ + show(term@, nested) =~= out@);
        },
        CLTerm::Atom(a) => {
            out.append(a.as_str());
        },
        CLTerm::List(v) => {
            proof {
                reveal_strlit("(");
                reveal_strlit(")");
                reveal_strlit(" ");
            }
            if nested {
                out.append("(");
            }
            let ghost opened = out@;
            let mut i: usize = 0;
            assert(opened + show_items(term_views(v@).take(0)) =~= opened);
            while i < v.len()
                invariant
                    i <= v.len(),
                    out@ == opened + show_items(term_views(v@).take(i as int)),
                decreases v.len() - i,
            {
                if i > 0 {
                    out.append(" ");
                }
                let child: &CLTerm = &v[i];
                proof {
                    vstd::std_specs::vec::axiom_vec_index_decreases(*v, i as int);
                }
                show_into(child, true, out);
                proof {
                    let now = term_views(v@).take(i + 1);
                    assert(now.drop_last() =~= term_views(v@).take(i as int));
                    assert(now.last() == child@);
                    if i > 0 {
                        assert(out@ =~= opened + show_items(now));
                    } else {
                        assert(now[0] == child@);
                        assert(show_items(term_views(v@).take(0)) =~= Seq::<char>::empty());
                        assert(out@ =~= opened + show_items(now));
                    }
                }
                i += 1;
            }
            assert(term_views(v@).take(v.len() as int) =~= term_views(v@));
            if nested {
                out.append(")");
                assert(out@ =~= old(out)@ + show(term@, nested));
            } else {
                assert(out@ =~= old(out)@ + show(term@, nested));
            }
        },
    }
}

impl CLTerm {
    /// Reads a term from its text. A term that was read keeps the
    /// term-model invariant.
    pub fn parse(s: &str) -> (r: Result<CLTerm, CLTermError>)
        ensures
            match r {
                Ok(t) => parse_spec(s@) == Ok::<TermView, CLTermError>(t@),
                Err(e) => parse_spec(s@) == Err::<TermView, CLTermError>(e),
            },
            r is Ok ==> r->Ok_0@.normal(),
    {
        let chars = chars_of(s);
        let top = scan_group(s, &chars, 0);
        if top.empty {
            Err(CLTermError::EmptyTerm)
        } else if top.closed {
            Err(CLTermError::TooManyCloseParens)
        } else if top.unclosed {
            Err(CLTermError::TooManyOpenParens)
        } else {
            proof {
                lemma_parse_normal(s@);
            }
            Ok(collapse_terms(top.items))
        }
    }

    /// The canonical text of the term.
    pub fn to_string(&self) -> (r: String)
        ensures
            r@ == show(self@, false),
    {
        let mut out = String::new();
        show_into(self, false, &mut out);
        assert(Seq::<char>::empty() + show(self@, false) =~= show(self@, false));
        out
    }
}

impl CLTermError {
    /// The message of the error.
    pub fn to_string(&self) -> (r: String)
        ensures
            r@ == error_text(*self),
    {
        match self {
            CLTermError::TooManyOpenParens => String::from_str("Too many open parens"),
            CLTermError::TooManyCloseParens => String::from_str("Too many close parens"),
            CLTermError::EmptyTerm => String::from_str("Empty or incomplete empty subterm"),
        }
    }
}

impl std::str::FromStr for CLTerm {
    type Err = CLTermError;

    /// Reads a term from its text, as `parse` does.
    fn from_str(s: &str) -> (r: Result<CLTerm, CLTermError>)
        ensures
            match r {
                Ok(t) => parse_spec(s@) == Ok::<TermView, CLTermError>(t@),
                Err(e) => parse_spec(s@) == Err::<TermView, CLTermError>(e),
            },
    {
        CLTerm::parse(s)
    }
}

} // verus!
