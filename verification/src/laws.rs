//! Laws relating the vector operations, stated over the sequence model
//! that every contract in this crate speaks through.

use vstd::prelude::*;

verus! {

/// Splitting a concatenation at the length of its left part returns both
/// parts unchanged: together with the contracts of `Vector::append`
/// (`r@ == a@ + b@`) and `Vector::split_at` (`take`/`skip` at the split
/// point), this is the split/append round trip.
pub proof fn lemma_split_append_round_trip<T>(a: Seq<T>, b: Seq<T>)
    ensures
        (a + b).take(a.len() as int) == a,
        (a + b).skip(a.len() as int) == b,
{
    assert((a + b).take(a.len() as int) =~= a);
    assert((a + b).skip(a.len() as int) =~= b);
}

/// Update locality: after replacing the element at `i`, reading `i` gives
/// the new element, reading any other index gives the old one, and the
/// length is unchanged.  `Vector::set` ensures its result views as
/// `update`, and `Vector::get` reads the view, so this carries over to
/// get-after-set.
pub proof fn lemma_update_locality<T>(s: Seq<T>, i: int, j: int, x: T)
    requires
        0 <= i < s.len(),
        0 <= j < s.len(),
    ensures
        s.update(i, x)[i] == x,
        i != j ==> s.update(i, x)[j] == s[j],
        s.update(i, x).len() == s.len(),
{
}

/// Pushing at either end grows the length by one, puts the new element at
/// the touched end, and leaves every other element in place.
/// `Vector::push_front` ensures `r@ == seq![x] + self@` and
/// `Vector::push_back` ensures `r@ == self@.push(x)`, so this carries
/// over to both.
pub proof fn lemma_push_ends<T>(s: Seq<T>, x: T)
    ensures
        (seq![x] + s).len() == s.len() + 1,
        (seq![x] + s)[0] == x,
        forall|j: int| 0 <= j < s.len() ==> (seq![x] + s)[j + 1] == s[j],
        s.push(x).len() == s.len() + 1,
        s.push(x).last() == x,
        forall|j: int| 0 <= j < s.len() ==> s.push(x)[j] == s[j],
{
}

} // verus!
