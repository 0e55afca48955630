//! Tree nodes: the unit of structural sharing.
//!
//! A node is either a leaf holding a run of elements or an internal node
//! holding reference-counted child handles together with a running
//! cumulative-size table, so that the child covering a given index can be
//! found without visiting the subtrees.

use std::rc::Rc;
use vstd::prelude::*;

verus! {

/// Maximum number of elements a leaf can hold.
pub const LEAF_CAP: usize = 64;

/// Maximum number of children an internal node can hold.
pub const BRANCH: usize = 64;

/// One node of the tree.  Nodes are immutable once shared: a version that
/// wants a different node builds a new one and keeps handles to the
/// untouched children.
pub enum Node<T> {
    /// Bottom level: a contiguous run of elements.
    Leaf { elems: Vec<T> },
    /// An internal node at `height >= 1`.  `sizes[i]` is the number of
    /// elements in `children[0..=i]` taken together.
    Internal { height: usize, children: Vec<Rc<Node<T>>>, sizes: Vec<usize> },
}

impl<T> Node<T> {
    /// Height of the node: leaves sit at height zero.
    pub open spec fn ht(self) -> nat {
        match self {
            Node::Leaf { .. } => 0,
            Node::Internal { height, .. } => height as nat,
        }
    }
}

/// The sequence of elements a node represents, in index order.
pub open spec fn elems_of<T>(n: Node<T>) -> Seq<T>
    decreases n.ht(), 1nat, 0nat,
{
    match n {
        Node::Leaf { elems } => elems@,
        Node::Internal { height, children, sizes } => kids_elems(children@, height as nat),
    }
}

/// The elements of a run of children, left to right.  A child that does not
/// sit strictly below height `h` contributes nothing; well-formed nodes never
/// contain such a child.
pub open spec fn kids_elems<T>(cs: Seq<Rc<Node<T>>>, h: nat) -> Seq<T>
    decreases h, 0nat, cs.len(),
{
    if cs.len() == 0 {
        Seq::empty()
    } else {
        let c = *cs.last();
        kids_elems(cs.drop_last(), h) + (if c.ht() < h {
            elems_of(c)
        } else {
            Seq::empty()
        })
    }
}

/// Well-formedness of a node: leaves are non-empty and within capacity;
/// internal nodes have between 1 and `BRANCH` children, all exactly one
/// level down, all themselves well formed, and the cumulative size table
/// matches the children's element counts.
pub open spec fn node_wf<T>(n: Node<T>) -> bool
    decreases n.ht(), 1nat, 0nat,
{
    match n {
        Node::Leaf { elems } => 1 <= elems@.len() <= LEAF_CAP,
        Node::Internal { height, children, sizes } => {
            &&& 1 <= height
            &&& 1 <= children@.len() <= BRANCH
            &&& sizes@.len() == children@.len()
            &&& kids_wf(children@, height as nat)
            &&& height as nat <= kids_elems(children@, height as nat).len()
            &&& forall|i: int|
                0 <= i < children@.len() ==> #[trigger] sizes@[i] == kids_elems(
                    children@.take(i + 1),
                    height as nat,
                ).len()
        },
    }
}

/// Well-formedness of a run of children of a node at height `h`.
pub open spec fn kids_wf<T>(cs: Seq<Rc<Node<T>>>, h: nat) -> bool
    decreases h, 0nat, cs.len(),
{
    if cs.len() == 0 {
        true
    } else {
        let c = *cs.last();
        &&& kids_wf(cs.drop_last(), h)
        &&& if c.ht() < h {
            node_wf(c)
        } else {
            false
        }
    }
}

/// Every child of a well-formed run is itself well formed and sits one
/// level down.
pub proof fn lemma_kids_wf_index<T>(cs: Seq<Rc<Node<T>>>, h: nat, i: int)
    requires
        kids_wf(cs, h),
        0 <= i < cs.len(),
    ensures
        node_wf(*cs[i]),
        (*cs[i]).ht() < h,
    decreases cs.len(),
{
    if i == cs.len() - 1 {
    } else {
        assert(cs.drop_last()[i] == cs[i]);
        lemma_kids_wf_index(cs.drop_last(), h, i);
    }
}

/// `kids_elems` distributes over concatenation of child runs.
pub proof fn lemma_kids_elems_concat<T>(a: Seq<Rc<Node<T>>>, b: Seq<Rc<Node<T>>>, h: nat)
    ensures
        kids_elems(a + b, h) == kids_elems(a, h) + kids_elems(b, h),
    decreases b.len(),
{
    if b.len() == 0 {
        assert(a + b =~= a);
        assert(kids_elems(a, h) + kids_elems(b, h) =~= kids_elems(a, h));
    } else {
        assert((a + b).drop_last() =~= a + b.drop_last());
        assert((a + b).last() == b.last());
        lemma_kids_elems_concat(a, b.drop_last(), h);
        assert(kids_elems(a + b, h) =~= kids_elems(a, h) + kids_elems(b, h));
    }
}

/// `kids_wf` distributes over concatenation of child runs.
pub proof fn lemma_kids_wf_concat<T>(a: Seq<Rc<Node<T>>>, b: Seq<Rc<Node<T>>>, h: nat)
    requires
        kids_wf(a, h),
        kids_wf(b, h),
    ensures
        kids_wf(a + b, h),
    decreases b.len(),
{
    if b.len() == 0 {
        assert(a + b =~= a);
    } else {
        assert((a + b).drop_last() =~= a + b.drop_last());
        lemma_kids_wf_concat(a, b.drop_last(), h);
    }
}

/// A prefix of a well-formed child run is well formed.
pub proof fn lemma_kids_wf_take<T>(cs: Seq<Rc<Node<T>>>, h: nat, i: int)
    requires
        kids_wf(cs, h),
        0 <= i <= cs.len(),
    ensures
        kids_wf(cs.take(i), h),
    decreases cs.len(),
{
    if i == cs.len() {
        assert(cs.take(i) =~= cs);
    } else {
        assert(cs.drop_last().take(i) =~= cs.take(i));
        lemma_kids_wf_take(cs.drop_last(), h, i);
    }
}

/// A suffix of a well-formed child run is well formed.
pub proof fn lemma_kids_wf_skip<T>(cs: Seq<Rc<Node<T>>>, h: nat, i: int)
    requires
        kids_wf(cs, h),
        0 <= i <= cs.len(),
    ensures
        kids_wf(cs.skip(i), h),
    decreases cs.len(),
{
    if i == cs.len() {
        assert(cs.skip(i) =~= Seq::<Rc<Node<T>>>::empty());
    } else {
        assert(cs.skip(i).drop_last() =~= cs.drop_last().skip(i));
        assert(cs.skip(i).last() == cs.last());
        lemma_kids_wf_skip(cs.drop_last(), h, i);
    }
}

/// Taking one more child appends exactly that child's elements.
pub proof fn lemma_kids_elems_take_step<T>(cs: Seq<Rc<Node<T>>>, h: nat, i: int)
    requires
        0 <= i < cs.len(),
        (*cs[i]).ht() < h,
    ensures
        kids_elems(cs.take(i + 1), h) == kids_elems(cs.take(i), h) + elems_of(*cs[i]),
{
    assert(cs.take(i + 1).drop_last() =~= cs.take(i));
    assert(cs.take(i + 1).last() == cs[i]);
}

/// A well-formed child run decomposes around any position.
pub proof fn lemma_kids_elems_decompose<T>(cs: Seq<Rc<Node<T>>>, h: nat, i: int)
    requires
        kids_wf(cs, h),
        0 <= i < cs.len(),
    ensures
        kids_elems(cs, h) == kids_elems(cs.take(i), h) + elems_of(*cs[i]) + kids_elems(
            cs.skip(i + 1),
            h,
        ),
{
    lemma_kids_wf_index(cs, h, i);
    assert(cs =~= cs.take(i + 1) + cs.skip(i + 1));
    lemma_kids_elems_concat(cs.take(i + 1), cs.skip(i + 1), h);
    lemma_kids_elems_take_step(cs, h, i);
}

/// A well-formed node holds at least one element.
pub proof fn lemma_node_nonempty<T>(n: &Node<T>)
    requires
        node_wf(*n),
    ensures
        elems_of(*n).len() >= 1,
    decreases n.ht(), 1nat, 0nat,
{
    match n {
        Node::Leaf { elems } => {},
        Node::Internal { height, children, sizes } => {
            lemma_kids_nonempty(children@, (*height) as nat);
        },
    }
}

/// A run of children holds at least as many elements as it has children.
pub proof fn lemma_kids_nonempty<T>(cs: Seq<Rc<Node<T>>>, h: nat)
    requires
        kids_wf(cs, h),
    ensures
        kids_elems(cs, h).len() >= cs.len(),
    decreases h, 0nat, cs.len(),
{
    if cs.len() == 0 {
    } else {
        lemma_kids_nonempty(cs.drop_last(), h);
        lemma_node_nonempty(&*cs.last());
    }
}

/// A well-formed node never holds more elements than a machine word can
/// count: the size table itself stores the total.
pub proof fn lemma_node_len_bound<T>(n: &Node<T>)
    requires
        node_wf(*n),
    ensures
        elems_of(*n).len() <= usize::MAX,
{
    match n {
        Node::Leaf { elems } => {},
        Node::Internal { height, children, sizes } => {
            assert(children@.take(children@.len() as int) =~= children@);
            assert(sizes@[children@.len() - 1] == elems_of(*n).len());
        },
    }
}

/// Replacing one child of a well-formed run by a well-formed node of the
/// right height keeps the run well formed.
pub proof fn lemma_kids_wf_update<T>(cs: Seq<Rc<Node<T>>>, h: nat, i: int, c: Rc<Node<T>>)
    requires
        kids_wf(cs, h),
        0 <= i < cs.len(),
        node_wf(*c),
        (*c).ht() < h,
    ensures
        kids_wf(cs.update(i, c), h),
    decreases cs.len(),
{
    if i == cs.len() - 1 {
        assert(cs.update(i, c).drop_last() =~= cs.drop_last());
        assert(cs.update(i, c).last() == c);
    } else {
        assert(cs.update(i, c).drop_last() =~= cs.drop_last().update(i, c));
        assert(cs.update(i, c).last() == cs.last());
        lemma_kids_wf_update(cs.drop_last(), h, i, c);
    }
}

/// Copy a run of elements.
pub fn copy_elems<T: Copy>(v: &Vec<T>) -> (r: Vec<T>)
    ensures
        r@ == v@,
{
    let mut r: Vec<T> = Vec::new();
    let mut i: usize = 0;
    while i < v.len()
        invariant
            i <= v@.len(),
            r@ == v@.take(i as int),
        decreases v@.len() - i,
    {
        r.push(v[i]);
        proof {
            assert(v@.take(i + 1) =~= v@.take(i as int).push(v@[i as int]));
        }
        i += 1;
    }
    proof {
        assert(v@.take(v@.len() as int) =~= v@);
    }
    r
}

/// Copy the elements of `v` in positions `from..to`.
pub fn copy_range<T: Copy>(v: &Vec<T>, from: usize, to: usize) -> (r: Vec<T>)
    requires
        from <= to <= v@.len(),
    ensures
        r@ == v@.subrange(from as int, to as int),
{
    let mut r: Vec<T> = Vec::new();
    let mut i: usize = from;
    while i < to
        invariant
            from <= i <= to <= v@.len(),
            r@ == v@.subrange(from as int, i as int),
        decreases to - i,
    {
        r.push(v[i]);
        proof {
            assert(v@.subrange(from as int, i + 1) =~= v@.subrange(from as int, i as int).push(
                v@[i as int],
            ));
        }
        i += 1;
    }
    r
}

/// Copy a run of child handles; the children themselves are shared, not
/// copied.
pub fn clone_kids<T>(v: &Vec<Rc<Node<T>>>) -> (r: Vec<Rc<Node<T>>>)
    ensures
        r@ == v@,
{
    let mut r: Vec<Rc<Node<T>>> = Vec::new();
    let mut i: usize = 0;
    while i < v.len()
        invariant
            i <= v@.len(),
            r@ == v@.take(i as int),
        decreases v@.len() - i,
    {
        let c: &Rc<Node<T>> = &v[i];
        r.push(c.clone());
        proof {
            assert(v@.take(i + 1) =~= v@.take(i as int).push(v@[i as int]));
        }
        i += 1;
    }
    proof {
        assert(v@.take(v@.len() as int) =~= v@);
    }
    r
}

/// Number of elements below a node, read off in constant time.
pub fn node_len<T>(n: &Node<T>) -> (r: usize)
    requires
        node_wf(*n),
    ensures
        r == elems_of(*n).len(),
{
    match n {
        Node::Leaf { elems } => elems.len(),
        Node::Internal { height, children, sizes } => {
            let r = sizes[sizes.len() - 1];
            proof {
                assert(children@.take(children@.len() as int) =~= children@);
            }
            r
        },
    }
}

/// Find the child covering absolute index `i` in a cumulative size table.
pub(crate) fn find_child(sizes: &Vec<usize>, i: usize) -> (k: usize)
    requires
        sizes@.len() >= 1,
        i < sizes@[sizes@.len() - 1],
    ensures
        k < sizes@.len(),
        i < sizes@[k as int],
        k > 0 ==> sizes@[k - 1] <= i,
{
    let n = sizes.len();
    let mut k: usize = 0;
    while sizes[k] <= i
        invariant
            n == sizes@.len(),
            k < n,
            i < sizes@[sizes@.len() - 1],
            k > 0 ==> sizes@[k - 1] <= i,
        decreases sizes@.len() - k,
    {
        proof {
            assert(k != sizes@.len() - 1);
        }
        k += 1;
    }
    k
}

/// Build an internal node over a run of children, computing the cumulative
/// size table.
pub fn mk_internal<T>(height: usize, children: Vec<Rc<Node<T>>>) -> (r: Node<T>)
    requires
        1 <= height,
        1 <= children@.len() <= BRANCH,
        kids_wf(children@, height as nat),
        height as nat <= kids_elems(children@, height as nat).len(),
        kids_elems(children@, height as nat).len() <= usize::MAX,
    ensures
        node_wf(r),
        r.ht() == height as nat,
        elems_of(r) == kids_elems(children@, height as nat),
{
    let ghost h = height as nat;
    let mut sizes: Vec<usize> = Vec::new();
    let mut total: usize = 0;
    let mut i: usize = 0;
    while i < children.len()
        invariant
            i <= children@.len(),
            sizes@.len() == i,
            1 <= height,
            h == height as nat,
            kids_wf(children@, h),
            kids_elems(children@, h).len() <= usize::MAX,
            total == kids_elems(children@.take(i as int), h).len(),
            forall|j: int|
                0 <= j < i ==> #[trigger] sizes@[j] == kids_elems(
                    children@.take(j + 1),
                    h,
                ).len(),
        decreases children@.len() - i,
    {
        proof {
            lemma_kids_wf_index(children@, h, i as int);
            lemma_kids_elems_take_step(children@, h, i as int);
            assert(children@ =~= children@.take(i + 1) + children@.skip(i + 1));
            lemma_kids_elems_concat(children@.take(i + 1), children@.skip(i + 1), h);
        }
        let l = node_len(&*children[i]);
        total = total + l;
        sizes.push(total);
        i += 1;
    }
    proof {
        assert(children@.take(children@.len() as int) =~= children@);
    }
    Node::Internal { height, children, sizes }
}

/// The larger of two heights.
pub open spec fn nat_max(a: nat, b: nat) -> nat {
    if a >= b {
        a
    } else {
        b
    }
}

/// A run holding a single well-formed child represents that child's
/// elements.
pub proof fn lemma_kids_single<T>(c: Rc<Node<T>>, h: nat)
    requires
        node_wf(*c),
        (*c).ht() < h,
    ensures
        kids_wf(seq![c], h),
        kids_elems(seq![c], h) == elems_of(*c),
{
    assert(seq![c].drop_last() =~= Seq::<Rc<Node<T>>>::empty());
    assert(seq![c].last() == c);
    assert(kids_elems(Seq::<Rc<Node<T>>>::empty(), h) =~= Seq::<T>::empty());
    assert(kids_wf(Seq::<Rc<Node<T>>>::empty(), h));
    assert(Seq::<T>::empty() + elems_of(*c) =~= elems_of(*c));
    assert(kids_elems(seq![c], h) =~= elems_of(*c));
}

/// Height of a node, read off in constant time.
pub fn node_height<T>(n: &Node<T>) -> (r: usize)
    ensures
        r as nat == n.ht(),
{
    match n {
        Node::Leaf { .. } => 0,
        Node::Internal { height, .. } => *height,
    }
}

/// Concatenate two runs of elements.
pub fn concat_elems<T: Copy>(a: &Vec<T>, b: &Vec<T>) -> (r: Vec<T>)
    ensures
        r@ == a@ + b@,
{
    let mut r = copy_elems(a);
    let mut i: usize = 0;
    while i < b.len()
        invariant
            i <= b@.len(),
            r@ == a@ + b@.take(i as int),
        decreases b@.len() - i,
    {
        r.push(b[i]);
        proof {
            assert(a@ + b@.take(i + 1) =~= (a@ + b@.take(i as int)).push(b@[i as int]));
        }
        i += 1;
    }
    proof {
        assert(a@ + b@.take(b@.len() as int) =~= a@ + b@);
        assert(a@ + b@.take(0) =~= a@);
    }
    r
}

/// Append shared handles of `b`'s entries to `a`.
pub fn extend_kids<T>(a: &mut Vec<Rc<Node<T>>>, b: &Vec<Rc<Node<T>>>)
    ensures
        final(a)@ == old(a)@ + b@,
{
    let mut i: usize = 0;
    while i < b.len()
        invariant
            i <= b@.len(),
            a@ == old(a)@ + b@.take(i as int),
        decreases b@.len() - i,
    {
        let c: &Rc<Node<T>> = &b[i];
        a.push(c.clone());
        proof {
            assert(old(a)@ + b@.take(i + 1) =~= (old(a)@ + b@.take(i as int)).push(b@[i as int]));
        }
        i += 1;
    }
    proof {
        assert(old(a)@ + b@.take(b@.len() as int) =~= old(a)@ + b@);
        assert(old(a)@ + b@.take(0) =~= old(a)@);
    }
}

/// A well-formed node never sits higher than it holds elements: the
/// well-formedness of internal nodes ties the height to the element count.
pub proof fn lemma_node_ht_le_len<T>(n: &Node<T>)
    requires
        node_wf(*n),
    ensures
        n.ht() <= elems_of(*n).len(),
{
    match n {
        Node::Leaf { elems } => {},
        Node::Internal { height, children, sizes } => {},
    }
}

/// The tallest height among a run of children.
pub open spec fn kids_max_ht<T>(cs: Seq<Rc<Node<T>>>) -> nat
    decreases cs.len(),
{
    if cs.len() == 0 {
        0
    } else {
        nat_max(kids_max_ht(cs.drop_last()), (*cs.last()).ht())
    }
}

/// No child is taller than the run's maximum height.
pub proof fn lemma_kids_max_ge<T>(cs: Seq<Rc<Node<T>>>, i: int)
    requires
        0 <= i < cs.len(),
    ensures
        (*cs[i]).ht() <= kids_max_ht(cs),
    decreases cs.len(),
{
    if i == cs.len() - 1 {
    } else {
        assert(cs.drop_last()[i] == cs[i]);
        lemma_kids_max_ge(cs.drop_last(), i);
    }
}

/// The maximum height of a well-formed run sits strictly below the parent
/// height.
pub proof fn lemma_kids_max_lt<T>(cs: Seq<Rc<Node<T>>>, h: nat)
    requires
        kids_wf(cs, h),
        1 <= cs.len(),
    ensures
        kids_max_ht(cs) < h,
    decreases cs.len(),
{
    if cs.len() == 1 {
        assert(kids_max_ht(cs.drop_last()) == 0);
    } else {
        lemma_kids_max_lt(cs.drop_last(), h);
    }
}

/// The maximum child height is bounded by the run's element count: every
/// child contributes at least one element, and the tallest child already
/// holds at least its own height in elements.
pub proof fn lemma_kids_max_bound<T>(cs: Seq<Rc<Node<T>>>, h: nat)
    requires
        kids_wf(cs, h),
        1 <= cs.len(),
    ensures
        kids_max_ht(cs) + cs.len() <= kids_elems(cs, h).len() + 1,
    decreases cs.len(),
{
    lemma_node_ht_le_len(&*cs.last());
    lemma_node_nonempty(&*cs.last());
    if cs.len() == 1 {
        assert(cs.drop_last() =~= Seq::<Rc<Node<T>>>::empty());
        assert(kids_elems(Seq::<Rc<Node<T>>>::empty(), h) =~= Seq::<T>::empty());
        assert(kids_max_ht(Seq::<Rc<Node<T>>>::empty()) == 0);
    } else {
        lemma_kids_max_bound(cs.drop_last(), h);
        lemma_kids_nonempty(cs.drop_last(), h);
    }
}

/// A run that is well formed below one height is well formed below any
/// height that still clears every child.
pub proof fn lemma_kids_wf_reheight<T>(cs: Seq<Rc<Node<T>>>, h1: nat, h2: nat)
    requires
        kids_wf(cs, h1),
        forall|i: int| #![trigger cs[i]] 0 <= i < cs.len() ==> (*cs[i]).ht() < h2,
    ensures
        kids_wf(cs, h2),
    decreases cs.len(),
{
    if cs.len() == 0 {
    } else {
        assert forall|i: int| #![trigger cs.drop_last()[i]]
            0 <= i < cs.drop_last().len() implies (*cs.drop_last()[i]).ht() < h2 by {
            assert(cs.drop_last()[i] == cs[i]);
        }
        lemma_kids_wf_reheight(cs.drop_last(), h1, h2);
        assert(cs[cs.len() - 1] == cs.last());
    }
}

/// The elements of a run do not depend on the height bound, as long as the
/// bound clears every child.
pub proof fn lemma_kids_elems_reheight<T>(cs: Seq<Rc<Node<T>>>, h1: nat, h2: nat)
    requires
        forall|i: int| #![trigger cs[i]]
            0 <= i < cs.len() ==> (*cs[i]).ht() < h1 && (*cs[i]).ht() < h2,
    ensures
        kids_elems(cs, h1) == kids_elems(cs, h2),
    decreases cs.len(),
{
    if cs.len() == 0 {
    } else {
        assert forall|i: int| #![trigger cs.drop_last()[i]]
            0 <= i < cs.drop_last().len() implies (*cs.drop_last()[i]).ht() < h1
            && (*cs.drop_last()[i]).ht() < h2 by {
            assert(cs.drop_last()[i] == cs[i]);
        }
        lemma_kids_elems_reheight(cs.drop_last(), h1, h2);
        assert(cs[cs.len() - 1] == cs.last());
    }
}

/// Compute the tallest height among a run of children.
pub fn max_kid_height<T>(cs: &Vec<Rc<Node<T>>>) -> (r: usize)
    ensures
        r as nat == kids_max_ht(cs@),
{
    proof {
        assert(cs@.take(0) =~= Seq::<Rc<Node<T>>>::empty());
    }
    let mut m: usize = 0;
    let mut i: usize = 0;
    while i < cs.len()
        invariant
            i <= cs@.len(),
            m as nat == kids_max_ht(cs@.take(i as int)),
        decreases cs@.len() - i,
    {
        let hh = node_height(&*cs[i]);
        if hh > m {
            m = hh;
        }
        proof {
            assert(cs@.take(i + 1).drop_last() =~= cs@.take(i as int));
            assert(cs@.take(i + 1).last() == cs@[i as int]);
        }
        i += 1;
    }
    proof {
        assert(cs@.take(cs@.len() as int) =~= cs@);
    }
    m
}

/// Build an internal node over a run of at least two children, picking the
/// smallest height that clears them all.
pub(crate) fn rebuild_internal<T>(cs: Vec<Rc<Node<T>>>, Ghost(h0): Ghost<nat>) -> (r: Node<T>)
    requires
        2 <= cs@.len() <= BRANCH,
        kids_wf(cs@, h0),
        kids_elems(cs@, h0).len() <= usize::MAX,
    ensures
        node_wf(r),
        r.ht() <= h0,
        elems_of(r) == kids_elems(cs@, h0),
{
    let mh = max_kid_height(&cs);
    proof {
        lemma_kids_max_lt(cs@, h0);
        lemma_kids_max_bound(cs@, h0);
        lemma_kids_nonempty(cs@, h0);
        assert forall|i: int| #![trigger cs@[i]]
            0 <= i < cs@.len() implies (*cs@[i]).ht() < h0 && (*cs@[i]).ht() < (mh + 1) as nat by {
            lemma_kids_wf_index(cs@, h0, i);
            lemma_kids_max_ge(cs@, i);
        }
        lemma_kids_wf_reheight(cs@, h0, (mh + 1) as nat);
        lemma_kids_elems_reheight(cs@, h0, (mh + 1) as nat);
    }
    mk_internal(mh + 1, cs)
}

/// Copy the top node; the children below it stay shared.
pub fn shallow_copy<T: Copy>(n: &Node<T>) -> (r: Node<T>)
    requires
        node_wf(*n),
    ensures
        node_wf(r),
        r.ht() == n.ht(),
        elems_of(r) == elems_of(*n),
{
    match n {
        Node::Leaf { elems } => Node::Leaf { elems: copy_elems(elems) },
        Node::Internal { height, children, sizes } => {
            proof {
                lemma_node_len_bound(n);
            }
            mk_internal(*height, clone_kids(children))
        },
    }
}

/// Add a subtree at the right edge of a node that sits strictly above it.
/// `Ok` carries the grown node; `Err` hands the subtree back when the node
/// and its right edge are full.
pub fn node_push_back<T>(n: &Node<T>, sub: Rc<Node<T>>) -> (r: Result<Node<T>, Rc<Node<T>>>)
    requires
        node_wf(*n),
        node_wf(*sub),
        (*sub).ht() < n.ht(),
        elems_of(*n).len() + elems_of(*sub).len() <= usize::MAX,
    ensures
        match r {
            Ok(m) => node_wf(m) && m.ht() == n.ht() && elems_of(m) == elems_of(*n) + elems_of(
                *sub,
            ),
            Err(s) => s == sub,
        },
    decreases n.ht(),
{
    match n {
        Node::Leaf { .. } => vstd::pervasive::unreached(),
        Node::Internal { height, children, sizes } => {
            let h = *height;
            let ghost hn = h as nat;
            let ghost gsub = sub;
            let last = children.len() - 1;
            proof {
                lemma_kids_wf_index(children@, hn, last as int);
                lemma_kids_elems_decompose(children@, hn, last as int);
                assert(children@.skip(last + 1) =~= Seq::<Rc<Node<T>>>::empty());
                assert(children@.take(last as int) =~= children@.drop_last());
                assert(kids_elems(Seq::<Rc<Node<T>>>::empty(), hn) =~= Seq::<T>::empty());
            }
            let sh = node_height(&*sub);
            let lh = node_height(&*children[last]);
            if sh < lh {
                match node_push_back(&*children[last], sub) {
                    Ok(m) => {
                        let grc = Rc::new(m);
                        let ghost ggrc = grc;
                        let mut cs2 = clone_kids(children);
                        cs2.set(last, grc);
                        proof {
                            lemma_kids_wf_update(children@, hn, last as int, ggrc);
                            lemma_kids_elems_decompose(cs2@, hn, last as int);
                            assert(cs2@.take(last as int) =~= children@.take(last as int));
                            assert(cs2@.skip(last + 1) =~= Seq::<Rc<Node<T>>>::empty());
                            assert(kids_elems(cs2@, hn) =~= elems_of(*n) + elems_of(*gsub));
                        }
                        Ok(mk_internal(h, cs2))
                    },
                    Err(s) => {
                        if children.len() < BRANCH {
                            let ghost gs = s;
                            let mut cs2 = clone_kids(children);
                            cs2.push(s);
                            proof {
                                lemma_kids_single(gs, hn);
                                assert(cs2@ =~= children@ + seq![gs]);
                                lemma_kids_wf_concat(children@, seq![gs], hn);
                                lemma_kids_elems_concat(children@, seq![gs], hn);
                            }
                            Ok(mk_internal(h, cs2))
                        } else {
                            Err(s)
                        }
                    },
                }
            } else {
                if children.len() < BRANCH {
                    let mut cs2 = clone_kids(children);
                    cs2.push(sub);
                    proof {
                        lemma_kids_single(gsub, hn);
                        assert(cs2@ =~= children@ + seq![gsub]);
                        lemma_kids_wf_concat(children@, seq![gsub], hn);
                        lemma_kids_elems_concat(children@, seq![gsub], hn);
                    }
                    Ok(mk_internal(h, cs2))
                } else {
                    Err(sub)
                }
            }
        },
    }
}

/// Add a subtree at the left edge of a node that sits strictly above it,
/// symmetric to [`node_push_back`].
pub fn node_push_front<T>(n: &Node<T>, sub: Rc<Node<T>>) -> (r: Result<Node<T>, Rc<Node<T>>>)
    requires
        node_wf(*n),
        node_wf(*sub),
        (*sub).ht() < n.ht(),
        elems_of(*n).len() + elems_of(*sub).len() <= usize::MAX,
    ensures
        match r {
            Ok(m) => node_wf(m) && m.ht() == n.ht() && elems_of(m) == elems_of(*sub) + elems_of(
                *n,
            ),
            Err(s) => s == sub,
        },
    decreases n.ht(),
{
    match n {
        Node::Leaf { .. } => vstd::pervasive::unreached(),
        Node::Internal { height, children, sizes } => {
            let h = *height;
            let ghost hn = h as nat;
            let ghost gsub = sub;
            proof {
                lemma_kids_wf_index(children@, hn, 0);
                lemma_kids_elems_decompose(children@, hn, 0);
                assert(children@.take(0) =~= Seq::<Rc<Node<T>>>::empty());
                assert(kids_elems(Seq::<Rc<Node<T>>>::empty(), hn) =~= Seq::<T>::empty());
            }
            let sh = node_height(&*sub);
            let fh = node_height(&*children[0]);
            if sh < fh {
                match node_push_front(&*children[0], sub) {
                    Ok(m) => {
                        let grc = Rc::new(m);
                        let ghost ggrc = grc;
                        let mut cs2 = clone_kids(children);
                        cs2.set(0, grc);
                        proof {
                            lemma_kids_wf_update(children@, hn, 0, ggrc);
                            lemma_kids_elems_decompose(cs2@, hn, 0);
                            assert(cs2@.take(0) =~= Seq::<Rc<Node<T>>>::empty());
                            assert(cs2@.skip(1) =~= children@.skip(1));
                            assert(kids_elems(cs2@, hn) =~= elems_of(*gsub) + elems_of(*n));
                        }
                        Ok(mk_internal(h, cs2))
                    },
                    Err(s) => {
                        if children.len() < BRANCH {
                            let ghost gs = s;
                            let mut cs2 = clone_kids(children);
                            cs2.insert(0, s);
                            proof {
                                lemma_kids_single(gs, hn);
                                assert(cs2@ =~= seq![gs] + children@);
                                lemma_kids_wf_concat(seq![gs], children@, hn);
                                lemma_kids_elems_concat(seq![gs], children@, hn);
                            }
                            Ok(mk_internal(h, cs2))
                        } else {
                            Err(s)
                        }
                    },
                }
            } else {
                if children.len() < BRANCH {
                    let mut cs2 = clone_kids(children);
                    cs2.insert(0, sub);
                    proof {
                        lemma_kids_single(gsub, hn);
                        assert(cs2@ =~= seq![gsub] + children@);
                        lemma_kids_wf_concat(seq![gsub], children@, hn);
                        lemma_kids_elems_concat(seq![gsub], children@, hn);
                    }
                    Ok(mk_internal(h, cs2))
                } else {
                    Err(sub)
                }
            }
        },
    }
}

/// Detach the rightmost leaf.  The second component is what remains, or
/// `None` when the node held a single leaf's worth of elements.  The
/// remaining node may sit lower than the original when a level collapses.
pub fn node_pop_back<T: Copy>(n: &Node<T>) -> (r: (Vec<T>, Option<Node<T>>))
    requires
        node_wf(*n),
    ensures
        1 <= r.0@.len() <= LEAF_CAP,
        match r.1 {
            Some(m) => node_wf(m) && m.ht() <= n.ht() && elems_of(*n) == elems_of(m) + r.0@,
            None => elems_of(*n) == r.0@,
        },
    decreases n.ht(),
{
    match n {
        Node::Leaf { elems } => (copy_elems(elems), None),
        Node::Internal { height, children, sizes } => {
            let h = *height;
            let ghost hn = h as nat;
            if children.len() == 1 {
                proof {
                    lemma_kids_wf_index(children@, hn, 0);
                    lemma_kids_elems_decompose(children@, hn, 0);
                    assert(children@.take(0) =~= Seq::<Rc<Node<T>>>::empty());
                    assert(children@.skip(1) =~= Seq::<Rc<Node<T>>>::empty());
                    assert(kids_elems(Seq::<Rc<Node<T>>>::empty(), hn) =~= Seq::<T>::empty());
                    assert(elems_of(*n) =~= elems_of(*children@[0]));
                }
                node_pop_back(&*children[0])
            } else {
                let last = children.len() - 1;
                proof {
                    lemma_kids_wf_index(children@, hn, last as int);
                    lemma_kids_elems_decompose(children@, hn, last as int);
                    assert(children@.skip(last + 1) =~= Seq::<Rc<Node<T>>>::empty());
                    assert(children@.take(last as int) =~= children@.drop_last());
                    assert(kids_elems(Seq::<Rc<Node<T>>>::empty(), hn) =~= Seq::<T>::empty());
                    lemma_node_len_bound(n);
                }
                let (leaf, rest) = node_pop_back(&*children[last]);
                match rest {
                    Some(m) => {
                        let grc = Rc::new(m);
                        let ghost ggrc = grc;
                        let mut cs2 = clone_kids(children);
                        cs2.set(last, grc);
                        proof {
                            lemma_kids_wf_update(children@, hn, last as int, ggrc);
                            lemma_kids_elems_decompose(cs2@, hn, last as int);
                            assert(cs2@.take(last as int) =~= children@.take(last as int));
                            assert(cs2@.skip(last + 1) =~= Seq::<Rc<Node<T>>>::empty());
                            assert(kids_elems(cs2@, hn) + leaf@ =~= elems_of(*n));
                        }
                        (leaf, Some(rebuild_internal(cs2, Ghost(hn))))
                    },
                    None => {
                        if children.len() == 2 {
                            proof {
                                lemma_kids_wf_index(children@, hn, 0);
                                assert(children@.take(1int).drop_last()
                                    =~= Seq::<Rc<Node<T>>>::empty());
                                assert(children@.take(1int).last() == children@[0]);
                                assert(kids_elems(children@.take(1int), hn) =~= elems_of(
                                    *children@[0],
                                ));
                            }
                            let cp = shallow_copy(&*children[0]);
                            (leaf, Some(cp))
                        } else {
                            let mut cs2 = clone_kids(children);
                            cs2.pop();
                            proof {
                                assert(cs2@ =~= children@.drop_last());
                            }
                            (leaf, Some(rebuild_internal(cs2, Ghost(hn))))
                        }
                    },
                }
            }
        },
    }
}

/// Detach the leftmost leaf, symmetric to [`node_pop_back`].
pub fn node_pop_front<T: Copy>(n: &Node<T>) -> (r: (Vec<T>, Option<Node<T>>))
    requires
        node_wf(*n),
    ensures
        1 <= r.0@.len() <= LEAF_CAP,
        match r.1 {
            Some(m) => node_wf(m) && m.ht() <= n.ht() && elems_of(*n) == r.0@ + elems_of(m),
            None => elems_of(*n) == r.0@,
        },
    decreases n.ht(),
{
    match n {
        Node::Leaf { elems } => (copy_elems(elems), None),
        Node::Internal { height, children, sizes } => {
            let h = *height;
            let ghost hn = h as nat;
            if children.len() == 1 {
                proof {
                    lemma_kids_wf_index(children@, hn, 0);
                    lemma_kids_elems_decompose(children@, hn, 0);
                    assert(children@.take(0) =~= Seq::<Rc<Node<T>>>::empty());
                    assert(children@.skip(1) =~= Seq::<Rc<Node<T>>>::empty());
                    assert(kids_elems(Seq::<Rc<Node<T>>>::empty(), hn) =~= Seq::<T>::empty());
                    assert(elems_of(*n) =~= elems_of(*children@[0]));
                }
                node_pop_front(&*children[0])
            } else {
                proof {
                    lemma_kids_wf_index(children@, hn, 0);
                    lemma_kids_elems_decompose(children@, hn, 0);
                    assert(children@.take(0) =~= Seq::<Rc<Node<T>>>::empty());
                    assert(kids_elems(Seq::<Rc<Node<T>>>::empty(), hn) =~= Seq::<T>::empty());
                    lemma_node_len_bound(n);
                }
                let (leaf, rest) = node_pop_front(&*children[0]);
                match rest {
                    Some(m) => {
                        let grc = Rc::new(m);
                        let ghost ggrc = grc;
                        let mut cs2 = clone_kids(children);
                        cs2.set(0, grc);
                        proof {
                            lemma_kids_wf_update(children@, hn, 0, ggrc);
                            lemma_kids_elems_decompose(cs2@, hn, 0);
                            assert(cs2@.take(0) =~= Seq::<Rc<Node<T>>>::empty());
                            assert(cs2@.skip(1) =~= children@.skip(1));
                            assert(leaf@ + kids_elems(cs2@, hn) =~= elems_of(*n));
                        }
                        (leaf, Some(rebuild_internal(cs2, Ghost(hn))))
                    },
                    None => {
                        if children.len() == 2 {
                            proof {
                                lemma_kids_wf_index(children@, hn, 1);
                                assert(children@.skip(1).drop_last()
                                    =~= Seq::<Rc<Node<T>>>::empty());
                                assert(children@.skip(1).last() == children@[1]);
                                assert(kids_elems(children@.skip(1), hn) =~= elems_of(
                                    *children@[1],
                                ));
                            }
                            let cp = shallow_copy(&*children[1]);
                            (leaf, Some(cp))
                        } else {
                            let mut cs2 = clone_kids(children);
                            cs2.remove(0);
                            proof {
                                assert(cs2@ =~= children@.skip(1));
                                lemma_kids_wf_skip(children@, hn, 1);
                            }
                            (leaf, Some(rebuild_internal(cs2, Ghost(hn))))
                        }
                    },
                }
            }
        },
    }
}

/// Concatenate two well-formed nodes.  The result is one node, or a left
/// and a right node whose elements in order make up `a`'s followed by
/// `b`'s; underfull edge nodes are merged with their neighbour whenever the
/// combined run fits, so repeated concatenation keeps nodes within
/// capacity.
#[verifier::rlimit(80)]
pub fn concat_nodes<T: Copy>(a: &Node<T>, b: &Node<T>) -> (r: (Node<T>, Option<Node<T>>))
    requires
        node_wf(*a),
        node_wf(*b),
        elems_of(*a).len() + elems_of(*b).len() <= usize::MAX,
    ensures
        node_wf(r.0),
        r.0.ht() <= nat_max(a.ht(), b.ht()),
        match r.1 {
            None => elems_of(r.0) == elems_of(*a) + elems_of(*b),
            Some(m) => {
                &&& node_wf(m)
                &&& m.ht() <= nat_max(a.ht(), b.ht())
                &&& elems_of(r.0) + elems_of(m) == elems_of(*a) + elems_of(*b)
                &&& elems_of(r.0).len() >= elems_of(*a).len()
                &&& elems_of(m).len() >= elems_of(*b).len()
            },
        },
    decreases a.ht() + b.ht(),
{
    let ha = node_height(a);
    let hb = node_height(b);
    if ha == hb {
        match (a, b) {
            (Node::Leaf { elems: e1 }, Node::Leaf { elems: e2 }) => {
                proof {
                    assert(elems_of(*a) == e1@);
                    assert(elems_of(*b) == e2@);
                }
                if e1.len() + e2.len() <= LEAF_CAP {
                    (Node::Leaf { elems: concat_elems(e1, e2) }, None)
                } else {
                    (
                        Node::Leaf { elems: copy_elems(e1) },
                        Some(Node::Leaf { elems: copy_elems(e2) }),
                    )
                }
            },
            (
                Node::Internal { height: h1, children: c1, sizes: s1 },
                Node::Internal { height: h2, children: c2, sizes: s2 },
            ) => {
                let ghost hn = (*h1) as nat;
                proof {
                    assert(elems_of(*a) == kids_elems(c1@, hn));
                    assert(elems_of(*b) == kids_elems(c2@, hn));
                }
                if c1.len() + c2.len() <= BRANCH {
                    let mut cs = clone_kids(c1);
                    extend_kids(&mut cs, c2);
                    proof {
                        lemma_kids_wf_concat(c1@, c2@, hn);
                        lemma_kids_elems_concat(c1@, c2@, hn);
                    }
                    (mk_internal(*h1, cs), None)
                } else {
                    (
                        mk_internal(*h1, clone_kids(c1)),
                        Some(mk_internal(*h2, clone_kids(c2))),
                    )
                }
            },
            _ => vstd::pervasive::unreached(),
        }
    } else if ha > hb {
        match a {
            Node::Leaf { .. } => vstd::pervasive::unreached(),
            Node::Internal { height, children, sizes } => {
                let h = *height;
                let ghost hn = h as nat;
                let last = children.len() - 1;
                proof {
                    lemma_kids_wf_index(children@, hn, last as int);
                    lemma_kids_elems_decompose(children@, hn, last as int);
                    assert(children@.skip(last + 1) =~= Seq::<Rc<Node<T>>>::empty());
                    assert(children@.take(last as int) =~= children@.drop_last());
                    assert(kids_elems(Seq::<Rc<Node<T>>>::empty(), hn) =~= Seq::<T>::empty());
                }
                let (c0, oc1) = concat_nodes(&*children[last], b);
                let rc0 = Rc::new(c0);
                let ghost grc0 = rc0;
                let mut cs2 = clone_kids(children);
                cs2.set(last, rc0);
                proof {
                    lemma_kids_wf_update(children@, hn, last as int, grc0);
                    lemma_kids_elems_decompose(cs2@, hn, last as int);
                    assert(cs2@.take(last as int) =~= children@.take(last as int));
                    assert(cs2@.skip(last + 1) =~= Seq::<Rc<Node<T>>>::empty());
                }
                match oc1 {
                    None => {
                        proof {
                            assert(kids_elems(cs2@, hn) =~= elems_of(*a) + elems_of(*b));
                        }
                        (mk_internal(h, cs2), None)
                    },
                    Some(cc1) => {
                        let ghost mid = cs2@;
                        proof {
                            assert(elems_of(*a) == kids_elems(children@, hn));
                            assert(kids_elems(mid, hn) =~= kids_elems(
                                children@.take(last as int),
                                hn,
                            ) + elems_of(*grc0));
                        }
                        if cs2.len() < BRANCH {
                            let rc1 = Rc::new(cc1);
                            let ghost grc1 = rc1;
                            cs2.push(rc1);
                            proof {
                                lemma_kids_single(grc1, hn);
                                assert(cs2@ =~= mid + seq![grc1]);
                                lemma_kids_wf_concat(mid, seq![grc1], hn);
                                lemma_kids_elems_concat(mid, seq![grc1], hn);
                                assert(kids_elems(cs2@, hn) =~= kids_elems(
                                    children@.take(last as int),
                                    hn,
                                ) + (elems_of(*grc0) + elems_of(*grc1)));
                                assert(elems_of(*grc0) + elems_of(*grc1) == elems_of(
                                    *children@[last as int],
                                ) + elems_of(*b));
                                assert(elems_of(*a) =~= kids_elems(
                                    children@.take(last as int),
                                    hn,
                                ) + elems_of(*children@[last as int]));
                                assert(kids_elems(cs2@, hn) =~= elems_of(*a) + elems_of(*b));
                            }
                            (mk_internal(h, cs2), None)
                        } else {
                            proof {
                                assert(elems_of(*grc0) + elems_of(cc1) == elems_of(
                                    *children@[last as int],
                                ) + elems_of(*b));
                                assert(elems_of(*a) =~= kids_elems(
                                    children@.take(last as int),
                                    hn,
                                ) + elems_of(*children@[last as int]));
                                assert(kids_elems(mid, hn) + elems_of(cc1) =~= kids_elems(
                                    children@.take(last as int),
                                    hn,
                                ) + (elems_of(*grc0) + elems_of(cc1)));
                                assert(kids_elems(mid, hn) + elems_of(cc1) =~= elems_of(*a)
                                    + elems_of(*b));
                            }
                            (mk_internal(h, cs2), Some(cc1))
                        }
                    },
                }
            },
        }
    } else {
        match b {
            Node::Leaf { .. } => vstd::pervasive::unreached(),
            Node::Internal { height, children, sizes } => {
                let h = *height;
                let ghost hn = h as nat;
                proof {
                    lemma_kids_wf_index(children@, hn, 0);
                    lemma_kids_elems_decompose(children@, hn, 0);
                    assert(children@.take(0) =~= Seq::<Rc<Node<T>>>::empty());
                    assert(kids_elems(Seq::<Rc<Node<T>>>::empty(), hn) =~= Seq::<T>::empty());
                }
                let (c0, oc1) = concat_nodes(a, &*children[0]);
                match oc1 {
                    None => {
                        let rc0 = Rc::new(c0);
                        let ghost grc0 = rc0;
                        let mut cs2 = clone_kids(children);
                        cs2.set(0, rc0);
                        proof {
                            lemma_kids_wf_update(children@, hn, 0, grc0);
                            lemma_kids_elems_decompose(cs2@, hn, 0);
                            assert(cs2@.take(0) =~= Seq::<Rc<Node<T>>>::empty());
                            assert(cs2@.skip(1) =~= children@.skip(1));
                            assert(kids_elems(cs2@, hn) =~= elems_of(*a) + elems_of(*b));
                        }
                        (mk_internal(h, cs2), None)
                    },
                    Some(cc1) => {
                        let rc1 = Rc::new(cc1);
                        let ghost grc1 = rc1;
                        let mut cs2 = clone_kids(children);
                        cs2.set(0, rc1);
                        proof {
                            lemma_kids_wf_update(children@, hn, 0, grc1);
                            lemma_kids_elems_decompose(cs2@, hn, 0);
                            assert(cs2@.take(0) =~= Seq::<Rc<Node<T>>>::empty());
                            assert(cs2@.skip(1) =~= children@.skip(1));
                        }
                        let ghost mid = cs2@;
                        proof {
                            assert(elems_of(*b) == kids_elems(children@, hn));
                            assert(kids_elems(mid, hn) =~= elems_of(*grc1) + kids_elems(
                                children@.skip(1),
                                hn,
                            ));
                            assert(elems_of(*b) =~= elems_of(*children@[0]) + kids_elems(
                                children@.skip(1),
                                hn,
                            ));
                        }
                        if cs2.len() < BRANCH {
                            let rc0 = Rc::new(c0);
                            let ghost grc0 = rc0;
                            cs2.insert(0, rc0);
                            proof {
                                lemma_kids_single(grc0, hn);
                                assert(cs2@ =~= seq![grc0] + mid);
                                lemma_kids_wf_concat(seq![grc0], mid, hn);
                                lemma_kids_elems_concat(seq![grc0], mid, hn);
                                assert(kids_elems(cs2@, hn) =~= (elems_of(*grc0) + elems_of(
                                    *grc1,
                                )) + kids_elems(children@.skip(1), hn));
                                assert(elems_of(*grc0) + elems_of(*grc1) == elems_of(*a)
                                    + elems_of(*children@[0]));
                                assert(kids_elems(cs2@, hn) =~= elems_of(*a) + elems_of(*b));
                            }
                            (mk_internal(h, cs2), None)
                        } else {
                            proof {
                                assert(elems_of(c0) + elems_of(*grc1) == elems_of(*a) + elems_of(
                                    *children@[0],
                                ));
                                assert(elems_of(c0) + kids_elems(mid, hn) =~= (elems_of(c0)
                                    + elems_of(*grc1)) + kids_elems(children@.skip(1), hn));
                                assert(elems_of(c0) + kids_elems(mid, hn) =~= elems_of(*a)
                                    + elems_of(*b));
                            }
                            (c0, Some(mk_internal(h, cs2)))
                        }
                    },
                }
            },
        }
    }
}

/// Read the element at index `i`.
pub fn node_get<T: Copy>(n: &Node<T>, i: usize) -> (r: T)
    requires
        node_wf(*n),
        i < elems_of(*n).len(),
    ensures
        r == elems_of(*n)[i as int],
    decreases n.ht(),
{
    match n {
        Node::Leaf { elems } => elems[i],
        Node::Internal { height, children, sizes } => {
            let ghost h = (*height) as nat;
            proof {
                assert(children@.take(children@.len() as int) =~= children@);
            }
            let k = find_child(sizes, i);
            let base = if k == 0 {
                0
            } else {
                sizes[k - 1]
            };
            proof {
                lemma_kids_wf_index(children@, h, k as int);
                lemma_kids_elems_decompose(children@, h, k as int);
                lemma_kids_elems_take_step(children@, h, k as int);
            }
            node_get(&*children[k], i - base)
        },
    }
}

/// Produce a version of the node with the element at index `i` replaced by
/// `x`.  Only the nodes along the path to the element are rebuilt; all other
/// children are shared with the original.
pub fn node_set<T: Copy>(n: &Node<T>, i: usize, x: T) -> (r: Node<T>)
    requires
        node_wf(*n),
        i < elems_of(*n).len(),
    ensures
        node_wf(r),
        r.ht() == n.ht(),
        elems_of(r) == elems_of(*n).update(i as int, x),
    decreases n.ht(),
{
    match n {
        Node::Leaf { elems } => {
            let mut e2 = copy_elems(elems);
            e2.set(i, x);
            Node::Leaf { elems: e2 }
        },
        Node::Internal { height, children, sizes } => {
            let ghost h = (*height) as nat;
            proof {
                assert(children@.take(children@.len() as int) =~= children@);
            }
            let k = find_child(sizes, i);
            let base = if k == 0 {
                0
            } else {
                sizes[k - 1]
            };
            proof {
                lemma_kids_wf_index(children@, h, k as int);
                lemma_kids_elems_decompose(children@, h, k as int);
                lemma_kids_elems_take_step(children@, h, k as int);
            }
            let child2 = node_set(&*children[k], i - base, x);
            let mut cs2 = clone_kids(children);
            cs2.set(k, Rc::new(child2));
            proof {
                lemma_kids_wf_update(children@, h, k as int, cs2@[k as int]);
                lemma_kids_elems_decompose(cs2@, h, k as int);
                assert(cs2@.take(k as int) =~= children@.take(k as int));
                assert(cs2@.skip(k + 1) =~= children@.skip(k + 1));
                lemma_node_len_bound(n);
                assert(elems_of(*n).update(i as int, x) =~= kids_elems(cs2@, h));
            }
            mk_internal(*height, cs2)
        },
    }
}

} // verus!
