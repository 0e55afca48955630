use pvec::hasher::LolBuildHasher;
use pvec::hasher::LolHasher;
use pvec::hasher::SeededSipHasher;

#[test]
fn lol_hasher_folds_bytes() {
    let mut h = LolHasher::default();
    h.write(&vec![1u8, 2]);
    // 1 at shift 0, 2 at shift 8.
    assert_eq!(h.finish(), 1 ^ (2u64 << 8));
}

#[test]
fn lol_hasher_shift_wraps() {
    let mut h = LolHasher::default();
    h.write(&vec![0u8, 0, 0, 0, 0, 0, 0, 0, 5]);
    // The ninth byte lands at shift 0 again.
    assert_eq!(h.finish(), 5);
}

#[test]
fn lol_build_hasher_seeds() {
    let b = LolBuildHasher::with_seed(42);
    assert_eq!(b.seed(), 42);
    let mut h = b.build_hasher();
    h.write(&vec![]);
    assert_eq!(h.finish(), 42);
    assert_eq!(LolBuildHasher::new().seed(), 0);
}

#[test]
fn seeded_sip_hasher_keeps_seed() {
    let s = SeededSipHasher::with_seed((7, 9));
    assert_eq!(s.seed(), (7, 9));
}
