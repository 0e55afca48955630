//! A stable whole-structure sort: elements are extracted into a flat
//! buffer, sorted there, and the vector is rebuilt by bulk construction.

use crate::vector::Vector;
use vstd::prelude::*;

verus! {

/// Non-decreasing order.
pub open spec fn sorted(s: Seq<u64>) -> bool {
    forall|i: int, j: int| 0 <= i <= j < s.len() ==> s[i] <= s[j]
}

/// Whether a run of elements is in non-decreasing order.
pub fn is_sorted(l: &Vec<u64>) -> (r: bool)
    ensures
        r == sorted(l@),
{
    if l.len() <= 1 {
        return true;
    }
    let mut k: usize = 0;
    while k < l.len() - 1
        invariant
            k < l@.len(),
            sorted(l@.take(k + 1)),
        decreases l@.len() - k,
    {
        if l[k] > l[k + 1] {
            return false;
        }
        proof {
            assert forall|a: int, b: int| 0 <= a <= b < k + 2 implies #[trigger] l@.take(k + 2)[a]
                <= #[trigger] l@.take(k + 2)[b] by {
                if b < k + 1 {
                    assert(l@.take(k + 1)[a] <= l@.take(k + 1)[b]);
                } else if a < k + 1 {
                    assert(l@.take(k + 1)[a] <= l@.take(k + 1)[k as int]);
                }
            }
        }
        k += 1;
    }
    proof {
        assert(l@.take(l@.len() as int) =~= l@);
    }
    true
}

/// Insert `x` into a sorted run, keeping it sorted; the insertion point is
/// the first position holding a strictly greater element, so equal
/// elements keep their arrival order.
fn insert_sorted(out: &mut Vec<u64>, x: u64)
    requires
        sorted(old(out)@),
        old(out)@.len() < usize::MAX,
    ensures
        sorted(final(out)@),
        final(out)@.to_multiset() == old(out)@.to_multiset().insert(x),
        final(out)@.len() == old(out)@.len() + 1,
{
    let n = out.len();
    let mut p: usize = 0;
    while p < n && out[p] <= x
        invariant
            p <= n,
            n == out@.len(),
            out@ == old(out)@,
            forall|j: int| 0 <= j < p ==> #[trigger] out@[j] <= x,
        decreases n - p,
    {
        p += 1;
    }
    let ghost before = out@;
    out.insert(p, x);
    proof {
        let s2 = out@;
        assert forall|a: int, b: int| 0 <= a <= b < s2.len() implies s2[a] <= s2[b] by {
            if a < p && b < p {
            } else if a == p || b == p {
                if a < p {
                } else if b > p {
                    assert(before[p as int] > x);
                    assert(before[b - 1] >= before[p as int]);
                }
            } else if a > p && b > p {
                assert(before[a - 1] <= before[b - 1]);
            }
        }
        broadcast use vstd::seq_lib::group_to_multiset_ensures;

        assert(s2.remove(p as int) =~= before);
        assert(s2[p as int] == x);
        assert(s2.to_multiset().contains(x)) by {
            assert(s2.contains(x));
        }
        assert(s2.remove(p as int).to_multiset() =~= s2.to_multiset().remove(x));
        assert(s2.to_multiset() =~= before.to_multiset().insert(x));
    }
}

/// Sort a flat run of elements into non-decreasing order with the same
/// multiset of elements.
pub fn sort_vec(v: &Vec<u64>) -> (r: Vec<u64>)
    ensures
        sorted(r@),
        r@.to_multiset() == v@.to_multiset(),
        r@.len() == v@.len(),
{
    let n = v.len();
    let mut out: Vec<u64> = Vec::new();
    let mut i: usize = 0;
    proof {
        broadcast use vstd::seq_lib::group_to_multiset_ensures;

        assert(v@.take(0) =~= Seq::<u64>::empty());
        assert(out@ =~= Seq::<u64>::empty());
    }
    while i < n
        invariant
            i <= n,
            n == v@.len(),
            sorted(out@),
            out@.len() == i,
            out@.to_multiset() == v@.take(i as int).to_multiset(),
        decreases n - i,
    {
        insert_sorted(&mut out, v[i]);
        proof {
            broadcast use vstd::seq_lib::group_to_multiset_ensures;

            assert(v@.take(i + 1) =~= v@.take(i as int).push(v@[i as int]));
        }
        i += 1;
    }
    proof {
        assert(v@.take(n as int) =~= v@);
    }
    out
}

impl Vector<u64> {
    /// The sorted version of the vector: non-decreasing under `<=`, with
    /// the same multiset of elements.  The underlying comparison sort is
    /// stable: equal elements keep their relative order.
    pub fn sort(&self) -> (r: Vector<u64>)
        requires
            self.wf(),
        ensures
            r.wf(),
            sorted(r@),
            r@.to_multiset() == self@.to_multiset(),
            r@.len() == self@.len(),
    {
        let flat = self.to_vec();
        let s = sort_vec(&flat);
        Vector::from_vec(&s)
    }
}

} // verus!
