//! Cursors over a vector: a read cursor (`Focus`) and an exclusive cursor
//! (`FocusMut`) that cache the most recently visited leaf, so sequential
//! access resolves against the cache instead of walking the tree from the
//! root on every step.
//!
//! A `FocusMut` takes the vector by value: moving it in is what guarantees
//! that no other view of the same version is alive while the cursor works.

use crate::node::Node;
use crate::node::copy_elems;
use crate::node::elems_of;
use crate::node::find_child;
use crate::node::lemma_kids_elems_decompose;
use crate::node::lemma_kids_elems_take_step;
use crate::node::lemma_kids_wf_index;
use crate::node::lemma_node_len_bound;
use crate::node::node_wf;
use crate::vector::Vector;
use crate::vector::copy_rev;
use vstd::prelude::*;

verus! {

/// Find the leaf covering index `i`: its elements and its starting index.
fn node_leaf_at<T: Copy>(n: &Node<T>, i: usize) -> (r: (Vec<T>, usize))
    requires
        node_wf(*n),
        i < elems_of(*n).len(),
    ensures
        r.1 <= i < r.1 + r.0@.len(),
        r.1 + r.0@.len() <= elems_of(*n).len(),
        r.0@ == elems_of(*n).subrange(r.1 as int, r.1 + r.0@.len()),
    decreases n.ht(),
{
    match n {
        Node::Leaf { elems } => {
            let v = copy_elems(elems);
            proof {
                assert(v@ =~= elems@.subrange(0, elems@.len() as int));
            }
            (v, 0)
        },
        Node::Internal { height, children, sizes } => {
            let ghost hn = (*height) as nat;
            proof {
                assert(children@.take(children@.len() as int) =~= children@);
                lemma_node_len_bound(n);
            }
            let k = find_child(sizes, i);
            let base = if k == 0 {
                0
            } else {
                sizes[k - 1]
            };
            proof {
                lemma_kids_wf_index(children@, hn, k as int);
                lemma_kids_elems_decompose(children@, hn, k as int);
                lemma_kids_elems_take_step(children@, hn, k as int);
            }
            let (lv, b2) = node_leaf_at(&*children[k], i - base);
            proof {
                assert(elems_of(*n).subrange(
                    base + b2,
                    base + b2 + lv@.len(),
                ) =~= elems_of(*children@[k as int]).subrange(b2 as int, b2 + lv@.len()));
            }
            (lv, base + b2)
        },
    }
}

/// Find the leaf-sized run of the vector covering index `i`: the run, its
/// start, and its end.  The overflow buffers count as runs of their own.
fn locate<T: Copy>(v: &Vector<T>, i: usize) -> (r: (Vec<T>, usize, usize))
    requires
        v.wf(),
        i < v@.len(),
    ensures
        r.1 <= i < r.2 <= v@.len(),
        r.0@.len() == r.2 - r.1,
        r.0@ == v@.subrange(r.1 as int, r.2 as int),
{
    let flen = v.front.len();
    let tlen = v.tree.len();
    if i < flen {
        let lv = copy_rev(&v.front);
        proof {
            assert(lv@ =~= v@.subrange(0, flen as int));
        }
        (lv, 0, flen)
    } else if i - flen < tlen {
        match &v.tree.root {
            Some(rc) => {
                let (lv, base) = node_leaf_at(&**rc, i - flen);
                let lo = flen + base;
                let hi = lo + lv.len();
                proof {
                    assert(lv@ =~= v@.subrange(lo as int, hi as int));
                }
                (lv, lo, hi)
            },
            None => vstd::pervasive::unreached(),
        }
    } else {
        let lv = copy_elems(&v.back);
        let lo = flen + tlen;
        proof {
            assert(lv@ =~= v@.subrange(lo as int, v@.len() as int));
        }
        (lv, lo, flen + tlen + v.back.len())
    }
}

/// A read cursor: a snapshot of the vector plus the cached run covering
/// the last visited index.
pub struct Focus<T> {
    pub v: Vector<T>,
    pub lo: usize,
    pub hi: usize,
    pub leaf: Vec<T>,
}

impl<T> View for Focus<T> {
    type V = Seq<T>;

    open spec fn view(&self) -> Seq<T> {
        self.v@
    }
}

impl<T: Copy> Focus<T> {
    /// The cursor invariant: the cached run is a faithful window of the
    /// snapshot.
    pub open spec fn wf(self) -> bool {
        &&& self.v.wf()
        &&& self.lo <= self.hi <= self.v@.len()
        &&& self.leaf@ == self.v@.subrange(self.lo as int, self.hi as int)
    }

    /// A fresh, unfocused cursor over the vector.
    pub fn new(v: &Vector<T>) -> (r: Focus<T>)
        requires
            v.wf(),
        ensures
            r.wf(),
            r@ == v@,
    {
        let r = Focus { v: v.duplicate(), lo: 0, hi: 0, leaf: Vec::new() };
        proof {
            assert(r.leaf@ =~= r.v@.subrange(0, 0));
        }
        r
    }

    /// Read the element at index `i`, refocusing only when the index falls
    /// outside the cached run.
    pub fn get(&mut self, i: usize) -> (r: T)
        requires
            old(self).wf(),
            i < old(self)@.len(),
        ensures
            final(self).wf(),
            final(self)@ == old(self)@,
            r == old(self)@[i as int],
    {
        if !(self.lo <= i && i < self.hi) {
            let (lv, lo, hi) = locate(&self.v, i);
            self.leaf = lv;
            self.lo = lo;
            self.hi = hi;
        }
        self.leaf[i - self.lo]
    }
}

/// An exclusive cursor: it owns the vector for its lifetime, so no other
/// view of this version can observe the writes as they happen.
pub struct FocusMut<T> {
    pub v: Vector<T>,
    pub lo: usize,
    pub hi: usize,
    pub leaf: Vec<T>,
}

impl<T> View for FocusMut<T> {
    type V = Seq<T>;

    open spec fn view(&self) -> Seq<T> {
        self.v@
    }
}

impl<T: Copy> FocusMut<T> {
    /// The cursor invariant: the cached run is a faithful window of the
    /// owned vector.
    pub open spec fn wf(self) -> bool {
        &&& self.v.wf()
        &&& self.lo <= self.hi <= self.v@.len()
        &&& self.leaf@ == self.v@.subrange(self.lo as int, self.hi as int)
    }

    /// Take the vector into an exclusive cursor.
    pub fn new(v: Vector<T>) -> (r: FocusMut<T>)
        requires
            v.wf(),
        ensures
            r.wf(),
            r@ == v@,
    {
        let r = FocusMut { v, lo: 0, hi: 0, leaf: Vec::new() };
        proof {
            assert(r.leaf@ =~= r.v@.subrange(0, 0));
        }
        r
    }

    /// Read the element at index `i` through the cache.
    pub fn get(&mut self, i: usize) -> (r: T)
        requires
            old(self).wf(),
            i < old(self)@.len(),
        ensures
            final(self).wf(),
            final(self)@ == old(self)@,
            r == old(self)@[i as int],
    {
        if !(self.lo <= i && i < self.hi) {
            let (lv, lo, hi) = locate(&self.v, i);
            self.leaf = lv;
            self.lo = lo;
            self.hi = hi;
        }
        self.leaf[i - self.lo]
    }

    /// Replace the element at index `i`, keeping the cache coherent.
    pub fn set(&mut self, i: usize, x: T)
        requires
            old(self).wf(),
            i < old(self)@.len(),
        ensures
            final(self).wf(),
            final(self)@ == old(self)@.update(i as int, x),
    {
        let v2 = match self.v.set(i, x) {
            Ok(v2) => v2,
            Err(_) => vstd::pervasive::unreached(),
        };
        self.v = v2;
        if self.lo <= i && i < self.hi {
            self.leaf.set(i - self.lo, x);
        }
        proof {
            assert(self.leaf@ =~= self.v@.subrange(self.lo as int, self.hi as int));
        }
    }

    /// Give the vector back, ending the exclusive access.
    pub fn unfocus(self) -> (r: Vector<T>)
        requires
            self.wf(),
        ensures
            r.wf(),
            r@ == self@,
    {
        self.v
    }
}

impl<T: Copy> Vector<T> {
    /// All elements in index order, produced through a read cursor so that
    /// each step after the first in a leaf is a cache hit.
    pub fn to_vec(&self) -> (r: Vec<T>)
        requires
            self.wf(),
        ensures
            r@ == self@,
    {
        let n = self.len();
        let mut f = Focus::new(self);
        let mut out: Vec<T> = Vec::new();
        let mut i: usize = 0;
        while i < n
            invariant
                i <= n,
                n == self@.len(),
                f.wf(),
                f@ == self@,
                out@ == self@.take(i as int),
            decreases n - i,
        {
            let x = f.get(i);
            out.push(x);
            proof {
                assert(self@.take(i + 1) =~= self@.take(i as int).push(self@[i as int]));
            }
            i += 1;
        }
        proof {
            assert(self@.take(n as int) =~= self@);
        }
        out
    }

    /// All elements in reverse index order, through a read cursor.
    pub fn to_vec_rev(&self) -> (r: Vec<T>)
        requires
            self.wf(),
        ensures
            r@ == self@.reverse(),
    {
        let n = self.len();
        let mut f = Focus::new(self);
        let mut out: Vec<T> = Vec::new();
        let mut i: usize = n;
        while i > 0
            invariant
                i <= n,
                n == self@.len(),
                f.wf(),
                f@ == self@,
                out@.len() == n - i,
                forall|j: int| 0 <= j < out@.len() ==> #[trigger] out@[j] == self@[n - 1 - j],
            decreases i,
        {
            i -= 1;
            let x = f.get(i);
            out.push(x);
        }
        proof {
            assert(out@ =~= self@.reverse());
        }
        out
    }
}

} // verus!
