//! The public persistent vector: a tree plus two small overflow buffers
//! that absorb single-element pushes and pops at either end, so that the
//! tree is touched only once per leaf's worth of work.

use crate::node::LEAF_CAP;
use crate::node::copy_elems;
use crate::node::copy_range;
use crate::tree::Tree;
use vstd::prelude::*;

verus! {

/// Errors reported by indexed operations.
#[derive(Clone, Copy, Debug, PartialEq, Eq, Structural)]
pub enum Error {
    /// An access, update or split point at an index past the end.
    IndexOutOfBounds,
}

/// A persistent sequence.  `front` holds the first elements in reverse
/// order, `back` the last elements in order, and the tree everything in
/// between; cloning a vector shares the whole tree.
pub struct Vector<T> {
    pub front: Vec<T>,
    pub tree: Tree<T>,
    pub back: Vec<T>,
}

impl<T> View for Vector<T> {
    type V = Seq<T>;

    open spec fn view(&self) -> Seq<T> {
        self.front@.reverse() + self.tree@ + self.back@
    }
}

/// Copy a run of elements in reverse order.
pub fn copy_rev<T: Copy>(v: &Vec<T>) -> (r: Vec<T>)
    ensures
        r@ == v@.reverse(),
{
    let mut r: Vec<T> = Vec::new();
    let mut i: usize = v.len();
    while i > 0
        invariant
            i <= v@.len(),
            r@.len() == v@.len() - i,
            forall|j: int| 0 <= j < r@.len() ==> #[trigger] r@[j] == v@[v@.len() - 1 - j],
        decreases i,
    {
        i -= 1;
        r.push(v[i]);
    }
    proof {
        assert(r@ =~= v@.reverse());
    }
    r
}

impl<T: Copy> Vector<T> {
    /// The vector invariant: the tree is well formed, both buffers fit in
    /// one leaf, and the total length fits the machine.
    pub open spec fn wf(self) -> bool {
        &&& self.tree.wf()
        &&& self.front@.len() <= LEAF_CAP
        &&& self.back@.len() <= LEAF_CAP
        &&& self@.len() <= usize::MAX
    }

    /// The empty vector.
    pub fn new() -> (r: Vector<T>)
        ensures
            r.wf(),
            r@ == Seq::<T>::empty(),
    {
        let r = Vector { front: Vec::new(), tree: Tree::new(), back: Vec::new() };
        proof {
            assert(r@ =~= Seq::<T>::empty());
        }
        r
    }

    /// Number of elements.
    pub fn len(&self) -> (r: usize)
        requires
            self.wf(),
        ensures
            r == self@.len(),
    {
        self.front.len() + self.tree.len() + self.back.len()
    }

    /// Whether the vector is empty.
    pub fn is_empty(&self) -> (r: bool)
        requires
            self.wf(),
        ensures
            r == (self@.len() == 0),
    {
        self.len() == 0
    }

    /// Levels of tree nodes above the leaves, for inspection of the
    /// structure; the overflow buffers do not count.
    pub fn depth(&self) -> (r: usize)
        requires
            self.wf(),
        ensures
            r as nat == self.tree.depth_of(),
    {
        self.tree.depth()
    }

    /// A new handle to the same elements; the tree is shared, only the
    /// small buffers are copied.
    pub fn duplicate(&self) -> (r: Vector<T>)
        requires
            self.wf(),
        ensures
            r.wf(),
            r@ == self@,
    {
        Vector {
            front: copy_elems(&self.front),
            tree: self.tree.dup(),
            back: copy_elems(&self.back),
        }
    }

    /// The vector with `x` appended at the back.
    pub fn push_back(&self, x: T) -> (r: Vector<T>)
        requires
            self.wf(),
            self@.len() < usize::MAX,
        ensures
            r.wf(),
            r@ == self@.push(x),
    {
        if self.back.len() < LEAF_CAP {
            let mut back2 = copy_elems(&self.back);
            back2.push(x);
            let r = Vector { front: copy_elems(&self.front), tree: self.tree.dup(), back: back2 };
            proof {
                assert(r@ =~= self@.push(x));
            }
            r
        } else {
            let tree2 = self.tree.push_leaf_back(copy_elems(&self.back));
            let mut back2: Vec<T> = Vec::new();
            back2.push(x);
            let r = Vector { front: copy_elems(&self.front), tree: tree2, back: back2 };
            proof {
                assert(r@ =~= self@.push(x));
            }
            r
        }
    }

    /// The vector with `x` prepended at the front.
    pub fn push_front(&self, x: T) -> (r: Vector<T>)
        requires
            self.wf(),
            self@.len() < usize::MAX,
        ensures
            r.wf(),
            r@ == seq![x] + self@,
    {
        if self.front.len() < LEAF_CAP {
            let mut front2 = copy_elems(&self.front);
            front2.push(x);
            let r = Vector { front: front2, tree: self.tree.dup(), back: copy_elems(&self.back) };
            proof {
                assert(r@ =~= seq![x] + self@);
            }
            r
        } else {
            let tree2 = self.tree.push_leaf_front(copy_rev(&self.front));
            let mut front2: Vec<T> = Vec::new();
            front2.push(x);
            let r = Vector { front: front2, tree: tree2, back: copy_elems(&self.back) };
            proof {
                assert(r@ =~= seq![x] + self@);
            }
            r
        }
    }

    /// The last element together with the vector shortened by one, or
    /// `None` when the vector is empty.
    pub fn pop_back(&self) -> (r: Option<(T, Vector<T>)>)
        requires
            self.wf(),
        ensures
            match r {
                None => self@.len() == 0,
                Some(p) => self@.len() >= 1 && p.0 == self@.last() && p.1.wf() && p.1@
                    == self@.drop_last(),
            },
    {
        if self.back.len() > 0 {
            let mut back2 = copy_elems(&self.back);
            let x = back2.pop().unwrap();
            let r = Vector { front: copy_elems(&self.front), tree: self.tree.dup(), back: back2 };
            proof {
                assert(r@ =~= self@.drop_last());
            }
            Some((x, r))
        } else if self.tree.len() > 0 {
            let (leaf, t2) = self.tree.pop_leaf_back();
            let x = leaf[leaf.len() - 1];
            let back2 = copy_range(&leaf, 0, leaf.len() - 1);
            let r = Vector { front: copy_elems(&self.front), tree: t2, back: back2 };
            proof {
                assert(self@.last() == x);
                assert(r@ =~= self@.drop_last());
            }
            Some((x, r))
        } else if self.front.len() > 0 {
            let mut front2 = copy_elems(&self.front);
            let x = front2.remove(0);
            let r = Vector { front: front2, tree: self.tree.dup(), back: Vec::new() };
            proof {
                assert(self@.last() == x);
                assert(r@ =~= self@.drop_last());
            }
            Some((x, r))
        } else {
            proof {
                assert(self@.len() == 0);
            }
            None
        }
    }

    /// The first element together with the vector shortened by one, or
    /// `None` when the vector is empty.
    pub fn pop_front(&self) -> (r: Option<(T, Vector<T>)>)
        requires
            self.wf(),
        ensures
            match r {
                None => self@.len() == 0,
                Some(p) => self@.len() >= 1 && p.0 == self@.first() && p.1.wf() && p.1@
                    == self@.drop_first(),
            },
    {
        if self.front.len() > 0 {
            let mut front2 = copy_elems(&self.front);
            let x = front2.pop().unwrap();
            let r = Vector { front: front2, tree: self.tree.dup(), back: copy_elems(&self.back) };
            proof {
                assert(self@.first() == x);
                assert(r@ =~= self@.drop_first());
            }
            Some((x, r))
        } else if self.tree.len() > 0 {
            let (leaf, t2) = self.tree.pop_leaf_front();
            let x = leaf[0];
            let rest = copy_range(&leaf, 1, leaf.len());
            let front2 = copy_rev(&rest);
            let r = Vector { front: front2, tree: t2, back: copy_elems(&self.back) };
            proof {
                assert(front2@.reverse() =~= leaf@.skip(1));
                assert(self@.first() == x);
                assert(r@ =~= self@.drop_first());
            }
            Some((x, r))
        } else if self.back.len() > 0 {
            let mut back2 = copy_elems(&self.back);
            let x = back2.remove(0);
            let r = Vector { front: Vec::new(), tree: self.tree.dup(), back: back2 };
            proof {
                assert(self@.first() == x);
                assert(r@ =~= self@.drop_first());
            }
            Some((x, r))
        } else {
            proof {
                assert(self@.len() == 0);
            }
            None
        }
    }

    /// Read the element at index `i`; out-of-range indices are rejected.
    pub fn get(&self, i: usize) -> (r: Result<T, Error>)
        requires
            self.wf(),
        ensures
            i < self@.len() ==> r == Ok::<T, Error>(self@[i as int]),
            i >= self@.len() ==> r == Err::<T, Error>(Error::IndexOutOfBounds),
    {
        let flen = self.front.len();
        let tlen = self.tree.len();
        if i < flen {
            Ok(self.front[flen - 1 - i])
        } else if i - flen < tlen {
            Ok(self.tree.get(i - flen))
        } else if i - flen - tlen < self.back.len() {
            Ok(self.back[i - flen - tlen])
        } else {
            Err(Error::IndexOutOfBounds)
        }
    }

    /// A version of the vector with the element at index `i` replaced by
    /// `x`; out-of-range indices are rejected and the vector is unchanged.
    pub fn set(&self, i: usize, x: T) -> (r: Result<Vector<T>, Error>)
        requires
            self.wf(),
        ensures
            match r {
                Ok(v2) => i < self@.len() && v2.wf() && v2@ == self@.update(i as int, x),
                Err(e) => i >= self@.len() && e == Error::IndexOutOfBounds,
            },
    {
        let flen = self.front.len();
        let tlen = self.tree.len();
        if i < flen {
            let mut front2 = copy_elems(&self.front);
            front2.set(flen - 1 - i, x);
            let r = Vector { front: front2, tree: self.tree.dup(), back: copy_elems(&self.back) };
            proof {
                assert(r@ =~= self@.update(i as int, x));
            }
            Ok(r)
        } else if i - flen < tlen {
            let tree2 = self.tree.set(i - flen, x);
            let r = Vector { front: copy_elems(&self.front), tree: tree2, back: copy_elems(
                &self.back,
            ) };
            proof {
                assert(r@ =~= self@.update(i as int, x));
            }
            Ok(r)
        } else if i - flen - tlen < self.back.len() {
            let mut back2 = copy_elems(&self.back);
            back2.set(i - flen - tlen, x);
            let r = Vector { front: copy_elems(&self.front), tree: self.tree.dup(), back: back2 };
            proof {
                assert(r@ =~= self@.update(i as int, x));
            }
            Ok(r)
        } else {
            Err(Error::IndexOutOfBounds)
        }
    }

    /// The whole vector as a single tree, buffers flushed.
    pub fn to_tree(&self) -> (t: Tree<T>)
        requires
            self.wf(),
        ensures
            t.wf(),
            t@ == self@,
    {
        let mut t = self.tree.dup();
        if self.front.len() > 0 {
            t = t.push_leaf_front(copy_rev(&self.front));
        }
        if self.back.len() > 0 {
            t = t.push_leaf_back(copy_elems(&self.back));
        }
        proof {
            assert(t@ =~= self@);
        }
        t
    }

    /// Split at index `i`: the elements before `i` and the elements from
    /// `i` on.  An index past the end is rejected; `i == len` yields an
    /// empty right part.
    pub fn split_at(&self, i: usize) -> (r: Result<(Vector<T>, Vector<T>), Error>)
        requires
            self.wf(),
        ensures
            match r {
                Ok(p) => i <= self@.len() && p.0.wf() && p.1.wf() && p.0@ == self@.take(i as int)
                    && p.1@ == self@.skip(i as int),
                Err(e) => i > self@.len() && e == Error::IndexOutOfBounds,
            },
    {
        if i > self.len() {
            return Err(Error::IndexOutOfBounds);
        }
        let t = self.to_tree();
        let (l, r) = t.split_at(i);
        let vl = Vector { front: Vec::new(), tree: l, back: Vec::new() };
        let vr = Vector { front: Vec::new(), tree: r, back: Vec::new() };
        proof {
            assert(vl@ =~= self@.take(i as int));
            assert(vr@ =~= self@.skip(i as int));
        }
        Ok((vl, vr))
    }

    /// The elements of `self` followed by the elements of `other`, sharing
    /// subtrees with both inputs.
    pub fn append(&self, other: &Vector<T>) -> (r: Vector<T>)
        requires
            self.wf(),
            other.wf(),
            self@.len() + other@.len() <= usize::MAX,
        ensures
            r.wf(),
            r@ == self@ + other@,
    {
        let ta = self.to_tree();
        let tb = other.to_tree();
        let t = ta.concat(&tb);
        let r = Vector { front: Vec::new(), tree: t, back: Vec::new() };
        proof {
            assert(r@ =~= self@ + other@);
        }
        r
    }

    /// Bulk construction: build the vector leaf by leaf rather than one
    /// element at a time.
    pub fn from_vec(v: &Vec<T>) -> (r: Vector<T>)
        ensures
            r.wf(),
            r@ == v@,
    {
        let n = v.len();
        let mut t = Tree::new();
        let mut i: usize = 0;
        while i < n
            invariant
                i <= n,
                n == v@.len(),
                t.wf(),
                t@ == v@.take(i as int),
            decreases n - i,
        {
            let j = if n - i < LEAF_CAP {
                n
            } else {
                i + LEAF_CAP
            };
            let leaf = copy_range(v, i, j);
            t = t.push_leaf_back(leaf);
            proof {
                assert(v@.take(i as int) + v@.subrange(i as int, j as int) =~= v@.take(j as int));
            }
            i = j;
        }
        let r = Vector { front: Vec::new(), tree: t, back: Vec::new() };
        proof {
            assert(v@.take(n as int) =~= v@);
            assert(r@ =~= v@);
        }
        r
    }
}

} // verus!
