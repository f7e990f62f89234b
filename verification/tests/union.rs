use simd_bitvec::bitvec::BitVec;

const LENGTHS: [usize; 12] = [0, 1, 31, 32, 33, 64, 127, 128, 129, 200, 255, 1_000_000];

fn is_all_set(mut v: BitVec) -> bool {
    let ones = BitVec::from_elem(v.len(), true);
    !v.union(&ones)
}

fn is_all_clear(v: BitVec) -> bool {
    let mut zeros = BitVec::from_elem(v.len(), false);
    !zeros.union(&v)
}

/// A vector of `n` bits, all `b`, built in one of two ways.
fn build(n: usize, b: bool, by_set_all: bool) -> BitVec {
    if b && by_set_all {
        let mut v = BitVec::from_elem(n, false);
        v.set_all();
        v
    } else {
        BitVec::from_elem(n, b)
    }
}

#[test]
fn union_sets_each_bit_to_the_or() {
    for &n in LENGTHS.iter() {
        for &(x, y) in [(false, false), (false, true), (true, false), (true, true)].iter() {
            let mut a = BitVec::from_elem(n, x);
            let b = BitVec::from_elem(n, y);
            a.union(&b);
            assert_eq!(a.len(), n);
            if x || y {
                assert!(is_all_set(a));
            } else {
                assert!(is_all_clear(a));
            }
        }
    }
}

#[test]
fn union_u32_sets_each_bit_to_the_or() {
    for &n in LENGTHS.iter() {
        for &(x, y) in [(false, false), (false, true), (true, false), (true, true)].iter() {
            let mut a = BitVec::from_elem(n, x);
            let b = BitVec::from_elem(n, y);
            a.union_u32(&b);
            assert_eq!(a.len(), n);
            if x || y {
                assert!(is_all_set(a));
            } else {
                assert!(is_all_clear(a));
            }
        }
    }
}

#[test]
fn union_reports_a_change_exactly_when_a_bit_flips() {
    for &n in LENGTHS.iter() {
        for &(x, y) in [(false, false), (false, true), (true, false), (true, true)].iter() {
            let mut a = BitVec::from_elem(n, x);
            let b = BitVec::from_elem(n, y);
            let expected = n > 0 && !x && y;
            assert_eq!(a.union(&b), expected);
            let mut c = BitVec::from_elem(n, x);
            assert_eq!(c.union_u32(&b), expected);
        }
    }
}

#[test]
fn union_leaves_the_other_operand_alone() {
    let mut a = BitVec::from_elem(100, true);
    let b = BitVec::from_elem(100, false);
    assert!(!a.union(&b));
    assert_eq!(b.len(), 100);
    assert!(is_all_clear(b));
}

#[test]
fn second_union_reports_no_change() {
    for &n in LENGTHS.iter() {
        for &(x, y) in [(false, false), (false, true), (true, false), (true, true)].iter() {
            let mut a = BitVec::from_elem(n, x);
            let b = BitVec::from_elem(n, y);
            a.union(&b);
            assert!(!a.union(&b));
            let mut c = BitVec::from_elem(n, x);
            c.union_u32(&b);
            assert!(!c.union_u32(&b));
            assert!(!c.union(&b));
        }
    }
}

#[test]
fn union_and_union_u32_agree() {
    for &n in LENGTHS.iter() {
        for &(x, xs) in [(false, false), (true, false), (true, true)].iter() {
            for &(y, ys) in [(false, false), (true, false), (true, true)].iter() {
                let mut wide = build(n, x, xs);
                let mut narrow = build(n, x, xs);
                let other = build(n, y, ys);
                let wide_changed = wide.union(&other);
                let narrow_changed = narrow.union_u32(&other);
                assert_eq!(wide_changed, narrow_changed);
                assert!(!wide.union(&narrow));
                assert!(!narrow.union(&wide));
                assert!(!wide.union_u32(&narrow));
                assert!(!narrow.union_u32(&wide));
            }
        }
    }
}

#[test]
fn padding_never_counts_as_a_change() {
    for &n in [1usize, 31, 33, 65, 97, 127, 129, 200].iter() {
        let mut a = BitVec::from_elem(n, false);
        a.set_all();
        let b = BitVec::from_elem(n, true);
        assert!(!a.union(&b));
        let mut c = BitVec::from_elem(n, false);
        c.set_all();
        assert!(!c.union_u32(&b));
    }
}

#[test]
fn union_of_empty_vectors() {
    let mut a = BitVec::new();
    let b = BitVec::from_elem(0, true);
    assert!(!a.union(&b));
    assert!(!a.union_u32(&b));
    assert_eq!(a.len(), 0);
}

#[test]
fn zeros_union_ones_of_200_bits() {
    let mut a = BitVec::from_elem(200, false);
    let b = BitVec::from_elem(200, true);
    assert!(a.union(&b));
    assert_eq!(a.len(), 200);
    assert!(!a.union(&b));
    assert!(is_all_set(a));
}

#[test]
fn zeros_union_u32_ones_of_200_bits() {
    let mut a = BitVec::from_elem(200, false);
    let b = BitVec::from_elem(200, true);
    assert!(a.union_u32(&b));
    assert!(!a.union_u32(&b));
    assert!(is_all_set(a));
}

#[test]
fn ones_union_ones_of_64_bits() {
    let mut a = BitVec::from_elem(64, true);
    let b = BitVec::from_elem(64, true);
    assert!(!a.union(&b));
    assert_eq!(a.len(), 64);
    assert!(is_all_set(a));
}

#[test]
fn ones_union_u32_ones_of_64_bits() {
    let mut a = BitVec::from_elem(64, true);
    let b = BitVec::from_elem(64, true);
    assert!(!a.union_u32(&b));
    assert!(is_all_set(a));
}

#[test]
fn fixed_point_loop_stops_after_one_round() {
    let sources = [
        BitVec::from_elem(300, false),
        BitVec::from_elem(300, true),
        BitVec::from_elem(300, false),
    ];
    let mut acc = BitVec::from_elem(300, false);
    let mut rounds = 0;
    loop {
        let mut changed = false;
        for s in sources.iter() {
            changed = acc.union(s) || changed;
        }
        rounds += 1;
        if !changed {
            break;
        }
    }
    assert_eq!(rounds, 2);
    assert!(is_all_set(acc));
}

#[test]
fn union_gives_the_same_bits_in_either_order() {
    for &n in LENGTHS.iter() {
        for &(x, y) in [(false, false), (false, true), (true, false), (true, true)].iter() {
            let mut left = BitVec::from_elem(n, x);
            left.union(&BitVec::from_elem(n, y));
            let mut right = BitVec::from_elem(n, y);
            right.union(&BitVec::from_elem(n, x));
            assert!(!left.union(&right));
            assert!(!right.union(&left));
        }
    }
}
