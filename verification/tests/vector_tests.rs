use pvec::node::LEAF_CAP;
use pvec::sort::is_sorted;
use pvec::sort::sort_vec;
use pvec::vector::Error;
use pvec::vector::Vector;

fn build(n: u64) -> Vector<u64> {
    let mut v = Vector::new();
    for i in 0..n {
        v = v.push_back(i);
    }
    v
}

#[test]
fn empty_vector() {
    let v: Vector<u64> = Vector::new();
    assert_eq!(v.len(), 0);
    assert!(v.is_empty());
    assert_eq!(v.get(0), Err(Error::IndexOutOfBounds));
    assert!(v.pop_back().is_none());
    assert!(v.pop_front().is_none());
}

#[test]
fn push_back_and_get() {
    let v = build(10);
    assert_eq!(v.len(), 10);
    for i in 0..10 {
        assert_eq!(v.get(i as usize), Ok(i));
    }
    assert_eq!(v.get(10), Err(Error::IndexOutOfBounds));
}

#[test]
fn push_front_prepends() {
    let mut v = Vector::new();
    for i in 0..200u64 {
        v = v.push_front(i);
        assert_eq!(v.get(0), Ok(i));
        assert_eq!(v.len() as u64, i + 1);
    }
    // 199, 198, ..., 0
    for i in 0..200u64 {
        assert_eq!(v.get(i as usize), Ok(199 - i));
    }
}

#[test]
fn push_back_grows_length_and_keeps_prefix() {
    let v = build(150);
    let v2 = v.push_back(999);
    assert_eq!(v2.len(), v.len() + 1);
    assert_eq!(v2.get(150), Ok(999));
    for i in 0..150 {
        assert_eq!(v2.get(i), v.get(i));
    }
}

#[test]
fn set_updates_only_one_index() {
    let v = build(300);
    let v2 = v.set(123, 777).unwrap();
    assert_eq!(v2.get(123), Ok(777));
    for i in 0..300 {
        if i != 123 {
            assert_eq!(v2.get(i), v.get(i));
        }
    }
    assert!(v.set(300, 0).is_err());
}

#[test]
fn structural_sharing_no_leak() {
    // Two handles of one version: writing through one must never show
    // through the other.
    let v = build(500);
    let c = v.duplicate();
    let mut m = c;
    for i in (0..500).step_by(7) {
        m = m.set(i, 1_000_000 + i as u64).unwrap();
    }
    for i in 0..500 {
        assert_eq!(v.get(i), Ok(i as u64));
    }
    for i in 0..500 {
        let expected = if i % 7 == 0 { 1_000_000 + i as u64 } else { i as u64 };
        assert_eq!(m.get(i), Ok(expected));
    }
}

#[test]
fn split_append_round_trip_concrete() {
    // Build [0..1000), split at 500, check both halves, then re-append.
    let v = build(1000);
    let (l, r) = v.split_at(500).unwrap();
    assert_eq!(l.len(), 500);
    assert_eq!(r.len(), 500);
    for i in 0..500 {
        assert_eq!(l.get(i), Ok(i as u64));
        assert_eq!(r.get(i), Ok(500 + i as u64));
    }
    let w = l.append(&r);
    assert_eq!(w.len(), 1000);
    for i in 0..1000 {
        assert_eq!(w.get(i), Ok(i as u64));
    }
}

#[test]
fn split_at_ends() {
    let v = build(64);
    let (l, r) = v.split_at(0).unwrap();
    assert_eq!(l.len(), 0);
    assert_eq!(r.len(), 64);
    let (l2, r2) = v.split_at(64).unwrap();
    assert_eq!(l2.len(), 64);
    assert_eq!(r2.len(), 0);
    match v.split_at(65) {
        Err(e) => assert_eq!(e, Error::IndexOutOfBounds),
        Ok(_) => panic!("split past the end must be rejected"),
    }
}

#[test]
fn append_shares_and_orders() {
    let a = build(70);
    let mut b = Vector::new();
    for i in 0..30u64 {
        b = b.push_back(1000 + i);
    }
    let c = a.append(&b);
    assert_eq!(c.len(), 100);
    for i in 0..70 {
        assert_eq!(c.get(i), Ok(i as u64));
    }
    for i in 0..30 {
        assert_eq!(c.get(70 + i), Ok(1000 + i as u64));
    }
}

#[test]
fn one_past_leaf_capacity() {
    // One more element than a single leaf's capacity.
    let mut v = Vector::new();
    for i in 0..(LEAF_CAP as u64 + 1) {
        v = v.push_back(i);
    }
    assert_eq!(v.len(), LEAF_CAP + 1);
    assert_eq!(v.get(LEAF_CAP), Ok(LEAF_CAP as u64));
    // The run no longer fits the back buffer: a full leaf moved into the
    // tree.
    assert_eq!(v.tree.len(), LEAF_CAP);
    // Built in bulk, the same elements need two leaves under one root.
    let flat: Vec<u64> = (0..(LEAF_CAP as u64 + 1)).collect();
    let w = Vector::from_vec(&flat);
    assert_eq!(w.len(), LEAF_CAP + 1);
    assert_eq!(w.get(LEAF_CAP), Ok(LEAF_CAP as u64));
    assert!(w.depth() >= 1);
}

#[test]
fn pop_alternating_to_empty() {
    // Pop from both ends alternately on a 1000-element vector down to
    // empty: no premature out-of-bounds, length reaches zero.
    let mut v = build(1000);
    let mut lo: u64 = 0;
    let mut hi: u64 = 1000;
    let mut from_front = true;
    while v.len() > 0 {
        if from_front {
            let (x, rest) = v.pop_front().expect("premature empty on pop_front");
            assert_eq!(x, lo);
            lo += 1;
            v = rest;
        } else {
            let (x, rest) = v.pop_back().expect("premature empty on pop_back");
            assert_eq!(x, hi - 1);
            hi -= 1;
            v = rest;
        }
        from_front = !from_front;
    }
    assert_eq!(v.len(), 0);
    assert_eq!(lo, hi);
    assert!(v.pop_back().is_none());
}

#[test]
fn iteration_matches_indexing() {
    let v = build(777);
    let flat = v.to_vec();
    assert_eq!(flat.len(), 777);
    for i in 0..777 {
        assert_eq!(Ok(flat[i]), v.get(i));
    }
    let rev = v.to_vec_rev();
    for i in 0..777 {
        assert_eq!(rev[i], flat[776 - i]);
    }
}

#[test]
fn from_vec_to_vec_round_trip() {
    let flat: Vec<u64> = (0..4321u64).map(|x| x.wrapping_mul(2654435761) % 1000).collect();
    let v = Vector::from_vec(&flat);
    assert_eq!(v.len(), flat.len());
    assert_eq!(v.to_vec(), flat);
}

#[test]
fn deep_tree_from_bulk_build() {
    // 65 full leaves force a root above a full branch node.
    let flat: Vec<u64> = (0..(65 * LEAF_CAP as u64)).collect();
    let v = Vector::from_vec(&flat);
    assert!(v.depth() >= 2);
    assert_eq!(v.to_vec(), flat);
}

#[test]
fn sort_small_exact() {
    let v = Vector::from_vec(&vec![3u64, 1, 2, 2, 0]);
    let s = v.sort();
    assert_eq!(s.to_vec(), vec![0u64, 1, 2, 2, 3]);
    assert_eq!(v.to_vec(), vec![3u64, 1, 2, 2, 0]);
}

#[test]
fn sort_large_is_permutation() {
    let flat: Vec<u64> = (0..800u64).map(|x| (x * 7919) % 101).collect();
    let v = Vector::from_vec(&flat);
    let s = v.sort();
    let out = s.to_vec();
    assert!(is_sorted(&out));
    let mut expected = sort_vec(&flat);
    assert_eq!(out, expected);
    expected.sort();
    assert_eq!(out, expected);
}

#[test]
fn is_sorted_cases() {
    assert!(is_sorted(&vec![]));
    assert!(is_sorted(&vec![5u64]));
    assert!(is_sorted(&vec![1u64, 1, 2, 9]));
    assert!(!is_sorted(&vec![1u64, 3, 2]));
    assert!(!is_sorted(&vec![2u64, 1]));
}

#[test]
fn equality_ignores_tree_shape() {
    // The same elements arranged by different construction paths: one by
    // single pushes (buffered), one by bulk build, one via split/append.
    let a = build(700);
    let flat: Vec<u64> = (0..700).collect();
    let b = Vector::from_vec(&flat);
    let (l, r) = a.split_at(123).unwrap();
    let c = l.append(&r);
    assert!(a.eq_elems(&b));
    assert!(b.eq_elems(&c));
    assert!(c.eq_elems(&a));
    let d = a.set(0, 999).unwrap();
    assert!(!a.eq_elems(&d));
    assert!(!a.eq_elems(&build(699)));
}

#[test]
fn lexicographic_order() {
    let a = Vector::from_vec(&vec![1u64, 2, 3]);
    let b = Vector::from_vec(&vec![1u64, 2, 4]);
    let c = Vector::from_vec(&vec![1u64, 2]);
    let d = Vector::from_vec(&vec![1u64, 2, 3]);
    assert!(a.lex_lt(&b));
    assert!(!b.lex_lt(&a));
    assert!(c.lex_lt(&a));
    assert!(!a.lex_lt(&c));
    assert!(!a.lex_lt(&d));
    assert!(!d.lex_lt(&a));
}

#[test]
fn sort_vec_exact() {
    assert_eq!(sort_vec(&vec![9u64, 4, 4, 1]), vec![1u64, 4, 4, 9]);
    assert_eq!(sort_vec(&vec![]), Vec::<u64>::new());
}
