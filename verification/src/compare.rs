//! Structural equality and ordering between vectors: two vectors compare
//! as their flat element sequences, whatever the shapes of their trees,
//! so internal sharing or relaxation is never observable.

use crate::focus::Focus;
use crate::vector::Vector;
use vstd::prelude::*;

verus! {

/// Strict lexicographic order on element sequences.
pub open spec fn lex_less(a: Seq<u64>, b: Seq<u64>) -> bool
    decreases a.len(),
{
    if b.len() == 0 {
        false
    } else if a.len() == 0 {
        true
    } else if a[0] < b[0] {
        true
    } else if a[0] > b[0] {
        false
    } else {
        lex_less(a.drop_first(), b.drop_first())
    }
}

impl Vector<u64> {
    /// Element-wise equality: true exactly when the two vectors hold the
    /// same elements in the same order.
    pub fn eq_elems(&self, other: &Vector<u64>) -> (r: bool)
        requires
            self.wf(),
            other.wf(),
        ensures
            r == (self@ == other@),
    {
        let n = self.len();
        if n != other.len() {
            return false;
        }
        let mut fa = Focus::new(self);
        let mut fb = Focus::new(other);
        let mut i: usize = 0;
        while i < n
            invariant
                i <= n,
                n == self@.len() == other@.len(),
                fa.wf(),
                fa@ == self@,
                fb.wf(),
                fb@ == other@,
                forall|j: int| 0 <= j < i ==> self@[j] == #[trigger] other@[j],
            decreases n - i,
        {
            if fa.get(i) != fb.get(i) {
                return false;
            }
            i += 1;
        }
        proof {
            assert(self@ =~= other@);
        }
        true
    }

    /// Strict lexicographic comparison of the flat element sequences.
    pub fn lex_lt(&self, other: &Vector<u64>) -> (r: bool)
        requires
            self.wf(),
            other.wf(),
        ensures
            r == lex_less(self@, other@),
    {
        let na = self.len();
        let nb = other.len();
        let n = if na <= nb {
            na
        } else {
            nb
        };
        let mut fa = Focus::new(self);
        let mut fb = Focus::new(other);
        let mut i: usize = 0;
        proof {
            assert(self@.skip(0) =~= self@);
            assert(other@.skip(0) =~= other@);
        }
        while i < n
            invariant
                i <= n,
                na == self@.len(),
                nb == other@.len(),
                n == (if na <= nb {
                    na
                } else {
                    nb
                }),
                fa.wf(),
                fa@ == self@,
                fb.wf(),
                fb@ == other@,
                lex_less(self@, other@) == lex_less(
                    self@.skip(i as int),
                    other@.skip(i as int),
                ),
            decreases n - i,
        {
            let a = fa.get(i);
            let b = fb.get(i);
            proof {
                assert(self@.skip(i as int)[0] == self@[i as int]);
                assert(other@.skip(i as int)[0] == other@[i as int]);
                assert(self@.skip(i as int).drop_first() =~= self@.skip(i + 1));
                assert(other@.skip(i as int).drop_first() =~= other@.skip(i + 1));
            }
            if a < b {
                return true;
            }
            if a > b {
                return false;
            }
            i += 1;
        }
        proof {
            if na <= nb {
                assert(self@.skip(n as int) =~= Seq::<u64>::empty());
            } else {
                assert(other@.skip(n as int) =~= Seq::<u64>::empty());
            }
        }
        na < nb
    }
}

} // verus!
