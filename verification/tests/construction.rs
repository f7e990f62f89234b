use simd_bitvec::bitvec::BitVec;
use simd_bitvec::lane::Lane;
use simd_bitvec::layout::{elems, elems_u32, load, store};

const LENGTHS: [usize; 12] = [0, 1, 31, 32, 33, 64, 127, 128, 129, 200, 255, 1_000_000];

/// Whether every bit of `v` is set: a union with all ones then changes nothing.
fn all_set(mut v: BitVec) -> bool {
    let ones = BitVec::from_elem(v.len(), true);
    !v.union_u32(&ones)
}

/// Whether every bit of `v` is clear: a union into all zeros then changes nothing.
fn all_clear(v: BitVec) -> bool {
    let mut zeros = BitVec::from_elem(v.len(), false);
    !zeros.union_u32(&v)
}

#[test]
fn new_is_empty() {
    let v = BitVec::new();
    assert_eq!(v.len(), 0);
    assert!(all_set(BitVec::new()));
    assert!(all_clear(BitVec::new()));
}

#[test]
fn from_elem_has_the_length_asked_for() {
    for &n in LENGTHS.iter() {
        assert_eq!(BitVec::from_elem(n, false).len(), n);
        assert_eq!(BitVec::from_elem(n, true).len(), n);
    }
}

#[test]
fn from_elem_true_reads_one_everywhere() {
    for &n in LENGTHS.iter() {
        assert!(all_set(BitVec::from_elem(n, true)));
        if n > 0 {
            assert!(!all_clear(BitVec::from_elem(n, true)));
        }
    }
}

#[test]
fn from_elem_false_reads_zero_everywhere() {
    for &n in LENGTHS.iter() {
        assert!(all_clear(BitVec::from_elem(n, false)));
        if n > 0 {
            assert!(!all_set(BitVec::from_elem(n, false)));
        }
    }
}

#[test]
fn set_all_sets_every_bit() {
    for &n in LENGTHS.iter() {
        let mut v = BitVec::from_elem(n, false);
        v.set_all();
        assert_eq!(v.len(), n);
        assert!(all_set(v));
    }
}

#[test]
fn set_all_on_ones_keeps_them() {
    for &n in LENGTHS.iter() {
        let mut v = BitVec::from_elem(n, true);
        v.set_all();
        assert_eq!(v.len(), n);
        assert!(all_set(v));
    }
}

#[test]
fn set_all_equals_from_elem_true_in_both_unions() {
    for &n in LENGTHS.iter() {
        let mut a = BitVec::from_elem(n, false);
        a.set_all();
        let mut b = BitVec::from_elem(n, true);
        assert!(!a.union(&b));
        assert!(!a.union_u32(&b));
        assert!(!b.union(&a));
        assert!(!b.union_u32(&a));
    }
}

#[test]
fn set_all_on_empty_vector() {
    let mut v = BitVec::new();
    v.set_all();
    assert_eq!(v.len(), 0);
}

#[test]
fn lane_and_word_counts() {
    assert_eq!(elems(0), 0);
    assert_eq!(elems(1), 1);
    assert_eq!(elems(128), 1);
    assert_eq!(elems(129), 2);
    assert_eq!(elems(200), 2);
    assert_eq!(elems(1_000_000), 7813);
    assert_eq!(elems(usize::MAX), usize::MAX / 128 + 1);
    assert_eq!(elems_u32(0), 0);
    assert_eq!(elems_u32(1), 1);
    assert_eq!(elems_u32(32), 1);
    assert_eq!(elems_u32(33), 2);
    assert_eq!(elems_u32(200), 7);
    assert_eq!(elems_u32(1_000_000), 31250);
    assert_eq!(elems_u32(usize::MAX), usize::MAX / 32 + 1);
}

#[test]
fn lane_operations() {
    let a = Lane { w0: 0b1100, w1: 0, w2: 0xffff_0000, w3: 7 };
    let b = Lane { w0: 0b1010, w1: 1, w2: 0x00ff_ff00, w3: 7 };
    let o = a.or(b);
    assert_eq!((o.w0, o.w1, o.w2, o.w3), (0b1110, 1, 0xffff_ff00, 7));
    let x = a.xor(b);
    assert_eq!((x.w0, x.w1, x.w2, x.w3), (0b0110, 1, 0xff00_ff00, 0));
    assert!(!x.is_zero());
    assert!(a.xor(a).is_zero());
    let ones = Lane::splat(true);
    assert_eq!((ones.w0, ones.w1, ones.w2, ones.w3), (u32::MAX, u32::MAX, u32::MAX, u32::MAX));
    assert!(Lane::splat(false).is_zero());
}

#[test]
fn lanes_are_loaded_and_stored_in_place() {
    let mut words: Vec<u32> = vec![1, 2, 3, 4, 5, 6, 7, 8];
    let second = load(&words, 1);
    assert_eq!((second.w0, second.w1, second.w2, second.w3), (5, 6, 7, 8));
    store(&mut words, 0, Lane { w0: 9, w1: 10, w2: 11, w3: 12 });
    assert_eq!(words, vec![9, 10, 11, 12, 5, 6, 7, 8]);
}
