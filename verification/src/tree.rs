//! The balanced tree: a shared root node plus its cached length.
//!
//! Every operation returns a new tree value; the new tree shares every node
//! with the old one except those on the rebuilt path.

use crate::node::BRANCH;
use crate::node::LEAF_CAP;
use crate::node::Node;
use crate::node::clone_kids;
use crate::node::concat_nodes;
use crate::node::copy_range;
use crate::node::elems_of;
use crate::node::find_child;
use crate::node::kids_elems;
use crate::node::kids_wf;
use crate::node::lemma_kids_elems_concat;
use crate::node::lemma_kids_elems_decompose;
use crate::node::lemma_kids_elems_take_step;
use crate::node::lemma_kids_single;
use crate::node::lemma_kids_wf_concat;
use crate::node::lemma_kids_wf_index;
use crate::node::lemma_kids_wf_skip;
use crate::node::lemma_kids_wf_take;
use crate::node::lemma_node_ht_le_len;
use crate::node::lemma_node_len_bound;
use crate::node::lemma_node_nonempty;
use crate::node::node_wf;
use crate::node::mk_internal;
use crate::node::node_get;
use crate::node::node_height;
use crate::node::node_len;
use crate::node::node_pop_back;
use crate::node::node_pop_front;
use crate::node::node_push_back;
use crate::node::node_push_front;
use crate::node::node_set;
use crate::node::rebuild_internal;
use std::rc::Rc;
use vstd::prelude::*;

verus! {

/// A persistent sequence tree.  `length` caches the element count of the
/// root, so that the length is available in constant time.
pub struct Tree<T> {
    pub root: Option<Rc<Node<T>>>,
    pub length: usize,
}

impl<T> View for Tree<T> {
    type V = Seq<T>;

    open spec fn view(&self) -> Seq<T> {
        match self.root {
            None => Seq::empty(),
            Some(r) => elems_of(*r),
        }
    }
}

impl<T> Tree<T> {
    /// The tree invariant: the root is well formed and the cached length
    /// matches the element count.
    pub open spec fn wf(self) -> bool {
        match self.root {
            None => self.length == 0,
            Some(r) => node_wf(*r) && self.length == elems_of(*r).len(),
        }
    }

    /// Number of node levels above the leaves, zero for an empty tree or a
    /// tree whose root is a single leaf.
    pub open spec fn depth_of(self) -> nat {
        match self.root {
            None => 0,
            Some(r) => r.ht(),
        }
    }

    /// The empty tree.
    pub fn new() -> (r: Tree<T>)
        ensures
            r.wf(),
            r@ == Seq::<T>::empty(),
            r.depth_of() == 0,
    {
        Tree { root: None, length: 0 }
    }

    /// Number of elements.
    pub fn len(&self) -> (r: usize)
        requires
            self.wf(),
        ensures
            r == self@.len(),
    {
        self.length
    }

    /// Number of node levels above the leaves.
    pub fn depth(&self) -> (r: usize)
        requires
            self.wf(),
        ensures
            r as nat == self.depth_of(),
    {
        match &self.root {
            None => 0,
            Some(rc) => node_height(&**rc),
        }
    }

    /// A new handle to the same tree: the whole structure is shared.
    pub fn dup(&self) -> (r: Tree<T>)
        ensures
            r == *self,
    {
        match &self.root {
            None => Tree { root: None, length: self.length },
            Some(rc) => Tree { root: Some(rc.clone()), length: self.length },
        }
    }
}

/// Build a root over exactly two well-formed subtrees of any heights.
fn pair_root<T>(r0: Rc<Node<T>>, r1: Rc<Node<T>>) -> (r: Node<T>)
    requires
        node_wf(*r0),
        node_wf(*r1),
        elems_of(*r0).len() + elems_of(*r1).len() <= usize::MAX,
    ensures
        node_wf(r),
        elems_of(r) == elems_of(*r0) + elems_of(*r1),
{
    proof {
        lemma_node_ht_le_len(&*r0);
        lemma_node_ht_le_len(&*r1);
        lemma_node_nonempty(&*r0);
        lemma_node_nonempty(&*r1);
    }
    let h0 = node_height(&*r0);
    let h1 = node_height(&*r1);
    let mh = if h0 >= h1 {
        h0
    } else {
        h1
    };
    let ghost g0 = r0;
    let ghost g1 = r1;
    let mut cs: Vec<Rc<Node<T>>> = Vec::new();
    cs.push(r0);
    cs.push(r1);
    proof {
        lemma_kids_single(g0, (mh + 1) as nat);
        lemma_kids_single(g1, (mh + 1) as nat);
        lemma_kids_wf_concat(seq![g0], seq![g1], (mh + 1) as nat);
        lemma_kids_elems_concat(seq![g0], seq![g1], (mh + 1) as nat);
        assert(cs@ =~= seq![g0] + seq![g1]);
    }
    mk_internal(mh + 1, cs)
}

impl<T: Copy> Tree<T> {
    /// Read the element at index `i`.
    pub fn get(&self, i: usize) -> (r: T)
        requires
            self.wf(),
            i < self@.len(),
        ensures
            r == self@[i as int],
    {
        match &self.root {
            Some(rc) => node_get(&**rc, i),
            None => vstd::pervasive::unreached(),
        }
    }

    /// A version of the tree with the element at index `i` replaced by `x`.
    pub fn set(&self, i: usize, x: T) -> (r: Tree<T>)
        requires
            self.wf(),
            i < self@.len(),
        ensures
            r.wf(),
            r@ == self@.update(i as int, x),
    {
        match &self.root {
            Some(rc) => {
                let n2 = node_set(&**rc, i, x);
                Tree { root: Some(Rc::new(n2)), length: self.length }
            },
            None => vstd::pervasive::unreached(),
        }
    }

    /// Append a full or partial leaf's worth of elements at the back.
    pub fn push_leaf_back(&self, leaf: Vec<T>) -> (r: Tree<T>)
        requires
            self.wf(),
            1 <= leaf@.len() <= LEAF_CAP,
            self@.len() + leaf@.len() <= usize::MAX,
        ensures
            r.wf(),
            r@ == self@ + leaf@,
    {
        let ghost gl = leaf@;
        let llen = leaf.len();
        match &self.root {
            None => {
                let nd = Node::Leaf { elems: leaf };
                proof {
                    assert(Seq::<T>::empty() + gl =~= gl);
                }
                Tree { root: Some(Rc::new(nd)), length: llen }
            },
            Some(rc) => {
                let sub = Rc::new(Node::Leaf { elems: leaf });
                let rh = node_height(&**rc);
                if rh == 0 {
                    let nd = pair_root(rc.clone(), sub);
                    Tree { root: Some(Rc::new(nd)), length: self.length + llen }
                } else {
                    match node_push_back(&**rc, sub) {
                        Ok(m) => Tree { root: Some(Rc::new(m)), length: self.length + llen },
                        Err(s) => {
                            let nd = pair_root(rc.clone(), s);
                            Tree { root: Some(Rc::new(nd)), length: self.length + llen }
                        },
                    }
                }
            },
        }
    }

    /// Append a full or partial leaf's worth of elements at the front.
    pub fn push_leaf_front(&self, leaf: Vec<T>) -> (r: Tree<T>)
        requires
            self.wf(),
            1 <= leaf@.len() <= LEAF_CAP,
            self@.len() + leaf@.len() <= usize::MAX,
        ensures
            r.wf(),
            r@ == leaf@ + self@,
    {
        let ghost gl = leaf@;
        let llen = leaf.len();
        match &self.root {
            None => {
                let nd = Node::Leaf { elems: leaf };
                proof {
                    assert(gl + Seq::<T>::empty() =~= gl);
                }
                Tree { root: Some(Rc::new(nd)), length: llen }
            },
            Some(rc) => {
                let sub = Rc::new(Node::Leaf { elems: leaf });
                let rh = node_height(&**rc);
                if rh == 0 {
                    let nd = pair_root(sub, rc.clone());
                    Tree { root: Some(Rc::new(nd)), length: self.length + llen }
                } else {
                    match node_push_front(&**rc, sub) {
                        Ok(m) => Tree { root: Some(Rc::new(m)), length: self.length + llen },
                        Err(s) => {
                            let nd = pair_root(s, rc.clone());
                            Tree { root: Some(Rc::new(nd)), length: self.length + llen }
                        },
                    }
                }
            },
        }
    }

    /// Detach the rightmost leaf; the second component is the remaining
    /// tree.
    pub fn pop_leaf_back(&self) -> (r: (Vec<T>, Tree<T>))
        requires
            self.wf(),
            self@.len() >= 1,
        ensures
            1 <= r.0@.len() <= LEAF_CAP,
            r.1.wf(),
            self@ == r.1@ + r.0@,
    {
        match &self.root {
            Some(rc) => {
                let (leaf, rest) = node_pop_back(&**rc);
                let llen = leaf.len();
                match rest {
                    Some(m) => {
                        let t = Tree { root: Some(Rc::new(m)), length: self.length - llen };
                        (leaf, t)
                    },
                    None => {
                        proof {
                            assert(Seq::<T>::empty() + leaf@ =~= leaf@);
                        }
                        (leaf, Tree { root: None, length: 0 })
                    },
                }
            },
            None => vstd::pervasive::unreached(),
        }
    }

    /// Detach the leftmost leaf; the second component is the remaining
    /// tree.
    pub fn pop_leaf_front(&self) -> (r: (Vec<T>, Tree<T>))
        requires
            self.wf(),
            self@.len() >= 1,
        ensures
            1 <= r.0@.len() <= LEAF_CAP,
            r.1.wf(),
            self@ == r.0@ + r.1@,
    {
        match &self.root {
            Some(rc) => {
                let (leaf, rest) = node_pop_front(&**rc);
                let llen = leaf.len();
                match rest {
                    Some(m) => {
                        let t = Tree { root: Some(Rc::new(m)), length: self.length - llen };
                        (leaf, t)
                    },
                    None => {
                        proof {
                            assert(leaf@ + Seq::<T>::empty() =~= leaf@);
                        }
                        (leaf, Tree { root: None, length: 0 })
                    },
                }
            },
            None => vstd::pervasive::unreached(),
        }
    }

    /// Concatenate two trees; the result holds `self`'s elements followed
    /// by `other`'s, sharing whole subtrees with both inputs.
    pub fn concat(&self, other: &Tree<T>) -> (r: Tree<T>)
        requires
            self.wf(),
            other.wf(),
            self@.len() + other@.len() <= usize::MAX,
        ensures
            r.wf(),
            r@ == self@ + other@,
    {
        match (&self.root, &other.root) {
            (None, _) => {
                proof {
                    assert(self@ + other@ =~= other@);
                }
                other.dup()
            },
            (_, None) => {
                proof {
                    assert(self@ + other@ =~= self@);
                }
                self.dup()
            },
            (Some(ra), Some(rb)) => {
                let (c0, oc1) = concat_nodes(&**ra, &**rb);
                match oc1 {
                    None => Tree {
                        root: Some(Rc::new(c0)),
                        length: self.length + other.length,
                    },
                    Some(c1) => {
                        proof {
                            assert((elems_of(c0) + elems_of(c1)).len() == elems_of(c0).len()
                                + elems_of(c1).len());
                        }
                        let nd = pair_root(Rc::new(c0), Rc::new(c1));
                        Tree { root: Some(Rc::new(nd)), length: self.length + other.length }
                    },
                }
            },
        }
    }

    /// Split at index `i`: the elements before `i` and the elements from
    /// `i` on.
    pub fn split_at(&self, i: usize) -> (r: (Tree<T>, Tree<T>))
        requires
            self.wf(),
            i <= self@.len(),
        ensures
            r.0.wf(),
            r.1.wf(),
            r.0@ == self@.take(i as int),
            r.1@ == self@.skip(i as int),
    {
        if i == 0 {
            proof {
                assert(self@.take(0) =~= Seq::<T>::empty());
                assert(self@.skip(0) =~= self@);
            }
            (Tree::new(), self.dup())
        } else if i == self.length {
            proof {
                assert(self@.take(self@.len() as int) =~= self@);
                assert(self@.skip(self@.len() as int) =~= Seq::<T>::empty());
            }
            (self.dup(), Tree::new())
        } else {
            match &self.root {
                Some(rc) => (node_take(&**rc, i), node_drop(&**rc, i)),
                None => vstd::pervasive::unreached(),
            }
        }
    }
}

/// A tree holding one existing subtree, wholly shared.
fn subtree_as_tree<T>(rc: &Rc<Node<T>>) -> (r: Tree<T>)
    requires
        node_wf(**rc),
    ensures
        r.wf(),
        r@ == elems_of(**rc),
{
    proof {
        lemma_node_len_bound(&**rc);
    }
    let l = node_len(&**rc);
    Tree { root: Some(rc.clone()), length: l }
}

/// A tree over a run of children taken from a well-formed internal node.
fn kids_as_tree<T>(cs: Vec<Rc<Node<T>>>, Ghost(h0): Ghost<nat>) -> (r: Tree<T>)
    requires
        1 <= cs@.len() <= BRANCH,
        kids_wf(cs@, h0),
        kids_elems(cs@, h0).len() <= usize::MAX,
    ensures
        r.wf(),
        r@ == kids_elems(cs@, h0),
{
    if cs.len() == 1 {
        proof {
            lemma_kids_wf_index(cs@, h0, 0);
            assert(cs@.drop_last() =~= Seq::<Rc<Node<T>>>::empty());
            assert(kids_elems(Seq::<Rc<Node<T>>>::empty(), h0) =~= Seq::<T>::empty());
            assert(cs@.last() == cs@[0]);
            assert(kids_elems(cs@, h0) =~= elems_of(*cs@[0]));
        }
        subtree_as_tree(&cs[0])
    } else {
        let nd = rebuild_internal(cs, Ghost(h0));
        proof {
            lemma_node_len_bound(&nd);
        }
        let l = node_len(&nd);
        Tree { root: Some(Rc::new(nd)), length: l }
    }
}

/// The first `i` elements below a node, as a tree.
fn node_take<T: Copy>(n: &Node<T>, i: usize) -> (r: Tree<T>)
    requires
        node_wf(*n),
        1 <= i < elems_of(*n).len(),
    ensures
        r.wf(),
        r@ == elems_of(*n).take(i as int),
    decreases n.ht(),
{
    match n {
        Node::Leaf { elems } => {
            let v = copy_range(elems, 0, i);
            proof {
                assert(v@ =~= elems@.take(i as int));
            }
            Tree { root: Some(Rc::new(Node::Leaf { elems: v })), length: i }
        },
        Node::Internal { height, children, sizes } => {
            let ghost hn = (*height) as nat;
            proof {
                assert(children@.take(children@.len() as int) =~= children@);
                lemma_node_len_bound(n);
            }
            let k = find_child(sizes, i);
            let base = if k == 0 {
                0
            } else {
                sizes[k - 1]
            };
            let off = i - base;
            proof {
                lemma_kids_wf_index(children@, hn, k as int);
                lemma_kids_elems_decompose(children@, hn, k as int);
                lemma_kids_elems_take_step(children@, hn, k as int);
                lemma_kids_wf_take(children@, hn, k as int);
            }
            if off == 0 {
                let cs = clone_kid_range(children, 0, k);
                proof {
                    assert(cs@ =~= children@.take(k as int));
                    assert(elems_of(*n).take(i as int) =~= kids_elems(
                        children@.take(k as int),
                        hn,
                    ));
                }
                kids_as_tree(cs, Ghost(hn))
            } else if k == 0 {
                let part = node_take(&*children[0], off);
                proof {
                    assert(elems_of(*n).take(i as int) =~= elems_of(*children@[0]).take(
                        off as int,
                    ));
                }
                part
            } else {
                let cs = clone_kid_range(children, 0, k);
                proof {
                    assert(cs@ =~= children@.take(k as int));
                }
                let prefix = kids_as_tree(cs, Ghost(hn));
                let part = node_take(&*children[k], off);
                let joined = prefix.concat(&part);
                proof {
                    assert(elems_of(*n).take(i as int) =~= kids_elems(
                        children@.take(k as int),
                        hn,
                    ) + elems_of(*children@[k as int]).take(off as int));
                }
                joined
            }
        },
    }
}

/// The elements from index `i` on, as a tree.
fn node_drop<T: Copy>(n: &Node<T>, i: usize) -> (r: Tree<T>)
    requires
        node_wf(*n),
        1 <= i < elems_of(*n).len(),
    ensures
        r.wf(),
        r@ == elems_of(*n).skip(i as int),
    decreases n.ht(),
{
    match n {
        Node::Leaf { elems } => {
            let v = copy_range(elems, i, elems.len());
            proof {
                assert(v@ =~= elems@.skip(i as int));
            }
            Tree { root: Some(Rc::new(Node::Leaf { elems: v })), length: elems.len() - i }
        },
        Node::Internal { height, children, sizes } => {
            let ghost hn = (*height) as nat;
            proof {
                assert(children@.take(children@.len() as int) =~= children@);
                lemma_node_len_bound(n);
            }
            let k = find_child(sizes, i);
            let base = if k == 0 {
                0
            } else {
                sizes[k - 1]
            };
            let off = i - base;
            let last = children.len() - 1;
            proof {
                lemma_kids_wf_index(children@, hn, k as int);
                lemma_kids_elems_decompose(children@, hn, k as int);
                lemma_kids_elems_take_step(children@, hn, k as int);
                lemma_kids_wf_skip(children@, hn, k as int);
                lemma_kids_wf_skip(children@, hn, k + 1);
            }
            if off == 0 {
                let cs = clone_kid_range(children, k, children.len());
                proof {
                    assert(cs@ =~= children@.skip(k as int));
                    lemma_kids_elems_concat(children@.take(k as int), children@.skip(k as int), hn);
                    assert(children@.take(k as int) + children@.skip(k as int) =~= children@);
                    assert(elems_of(*n).skip(i as int) =~= kids_elems(
                        children@.skip(k as int),
                        hn,
                    ));
                }
                kids_as_tree(cs, Ghost(hn))
            } else if k == last {
                let part = node_drop(&*children[last], off);
                proof {
                    assert(children@.skip(last + 1) =~= Seq::<Rc<Node<T>>>::empty());
                    assert(kids_elems(Seq::<Rc<Node<T>>>::empty(), hn) =~= Seq::<T>::empty());
                    assert(elems_of(*n).skip(i as int) =~= elems_of(*children@[last as int]).skip(
                        off as int,
                    ));
                }
                part
            } else {
                let part = node_drop(&*children[k], off);
                let cs = clone_kid_range(children, k + 1, children.len());
                proof {
                    assert(cs@ =~= children@.skip(k + 1));
                }
                let suffix = kids_as_tree(cs, Ghost(hn));
                let joined = part.concat(&suffix);
                proof {
                    assert(elems_of(*n).skip(i as int) =~= elems_of(*children@[k as int]).skip(
                        off as int,
                    ) + kids_elems(children@.skip(k + 1), hn));
                }
                joined
            }
        },
    }
}

/// Shared handles to the children in positions `from..to`.
fn clone_kid_range<T>(v: &Vec<Rc<Node<T>>>, from: usize, to: usize) -> (r: Vec<Rc<Node<T>>>)
    requires
        from <= to <= v@.len(),
    ensures
        r@ == v@.subrange(from as int, to as int),
{
    let mut r: Vec<Rc<Node<T>>> = Vec::new();
    let mut i: usize = from;
    while i < to
        invariant
            from <= i <= to <= v@.len(),
            r@ == v@.subrange(from as int, i as int),
        decreases to - i,
    {
        let c: &Rc<Node<T>> = &v[i];
        r.push(c.clone());
        proof {
            assert(v@.subrange(from as int, i + 1) =~= v@.subrange(from as int, i as int).push(
                v@[i as int],
            ));
        }
        i += 1;
    }
    r
}

} // verus!
