//! Structural equality of terms.

use vstd::prelude::*;
use vstd::std_specs::cmp::PartialEqSpecImpl;
use crate::clterm::{term_views, CLTerm};

verus! {

impl PartialEq for CLTerm {
    /// Whether the two terms are the same tree: the same variant, the same
    /// name, the same children in the same order.
    #[verifier::loop_isolation(false)]
    fn eq(&self, other: &CLTerm) -> (r: bool)
        decreases self,
    {
        match self {
            CLTerm::Empty => match other {
                CLTerm::Empty => true,
                _ => false,
            },
            CLTerm::Atom(a) => match other {
                CLTerm::Atom(b) => *a == *b,
                _ => false,
            },
            CLTerm::List(u) => match other {
                CLTerm::List(v) => {
                    if u.len() != v.len() {
                        assert(term_views(u@).len() != term_views(v@).len());
                        return false;
                    }
                    let mut i: usize = 0;
                    while i < u.len()
                        invariant
                            i <= u.len(),
                            forall|j: int| 0 <= j < i ==> u@[j].model() == v@[j].model(),
                        decreases u.len() - i,
                    {
                        let left: &CLTerm = &u[i];
                        let right: &CLTerm = &v[i];
                        proof {
                            vstd::std_specs::vec::axiom_vec_index_decreases(*u, i as int);
                        }
                        if !left.eq(right) {
                            assert(term_views(u@)[i as int] != term_views(v@)[i as int]);
                            return false;
                        }
                        i += 1;
                    }
                    assert(term_views(u@) =~= term_views(v@));
                    true
                },
                _ => false,
            },
        }
    }
}

impl PartialEqSpecImpl for CLTerm {
    open spec fn obeys_eq_spec() -> bool {
        true
    }

    open spec fn eq_spec(&self, other: &CLTerm) -> bool {
        self@ == other@
    }
}

} // verus!
