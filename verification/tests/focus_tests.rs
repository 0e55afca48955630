use pvec::focus::Focus;
use pvec::focus::FocusMut;
use pvec::vector::Vector;

#[test]
fn focus_sequential_reads() {
    let mut v = Vector::new();
    for i in 0..300u64 {
        v = v.push_back(i * 3);
    }
    let mut f = Focus::new(&v);
    for i in 0..300usize {
        assert_eq!(f.get(i), (i as u64) * 3);
    }
    // Jump around: the cursor refocuses and still reads correctly.
    for &i in &[299usize, 0, 150, 1, 298, 75] {
        assert_eq!(f.get(i), (i as u64) * 3);
    }
}

#[test]
fn focus_mut_reads_and_writes() {
    let mut v = Vector::new();
    for i in 0..200u64 {
        v = v.push_back(i);
    }
    let original = v.duplicate();
    let mut f = FocusMut::new(v);
    for i in 0..200usize {
        let x = f.get(i);
        f.set(i, x + 100);
    }
    let w = f.unfocus();
    for i in 0..200usize {
        assert_eq!(w.get(i), Ok(i as u64 + 100));
        // The version the cursor started from is untouched.
        assert_eq!(original.get(i), Ok(i as u64));
    }
}
