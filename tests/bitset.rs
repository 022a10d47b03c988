use bitvset::{big_mask, count_ones, BigBitv, BitvSet, Op};
use std::cell::RefCell;

fn elements(s: &BitvSet) -> Vec<usize> {
    let mut it = s.iter();
    let mut out = Vec::new();
    while let Some(x) = it.next() {
        out.push(x);
    }
    out
}

fn set_of(values: &[usize]) -> BitvSet {
    let mut s = BitvSet::new();
    for v in values {
        s.insert(*v);
    }
    s
}

#[test]
fn mask_of_partial_last_word() {
    assert_eq!(big_mask(70, 1), 0x3f);
    assert_eq!(big_mask(70, 0), !0u64);
    assert_eq!(big_mask(3, 0), 0b111);
}

#[test]
fn mask_of_whole_words() {
    assert_eq!(big_mask(64, 0), !0u64);
    assert_eq!(big_mask(128, 1), !0u64);
    assert_eq!(big_mask(0, 0), !0u64);
}

#[test]
fn mask_has_remainder_bits_in_last_word() {
    for nbits in 1..300usize {
        let last = (nbits + 63) / 64 - 1;
        for i in 0..=last {
            let expected = if i == last && nbits % 64 != 0 { (nbits % 64) as u64 } else { 64 };
            assert_eq!(count_ones(big_mask(nbits, i)), expected);
        }
    }
}

#[test]
fn popcount_values() {
    assert_eq!(count_ones(0), 0);
    assert_eq!(count_ones(0b1011), 3);
    assert_eq!(count_ones(u64::MAX), 64);
    assert_eq!(count_ones(1u64 << 63), 1);
}

#[test]
fn op_apply_table() {
    assert_eq!(Op::Union.apply(0b1100, 0b1010), 0b1110);
    assert_eq!(Op::Intersect.apply(0b1100, 0b1010), 0b1000);
    assert_eq!(Op::Assign.apply(0b1100, 0b1010), 0b1010);
    assert_eq!(Op::Difference.apply(0b1100, 0b1010), 0b0100);
    assert_eq!(Op::SymmetricDifference.apply(0b1100, 0b1010), 0b0110);
}

#[test]
fn storage_union_is_bitwise_or() {
    let mut a = BigBitv::new(vec![0b1100]);
    let b = BigBitv::new(vec![0b1010]);
    assert!(a.union(&b, 4));
    assert!(a.equals(&BigBitv::new(vec![0b1110]), 64));
    assert!(!a.union(&b, 4));
}

#[test]
fn storage_intersect_and_difference() {
    let mut a = BigBitv::new(vec![0b1100]);
    let b = BigBitv::new(vec![0b1010]);
    assert!(a.intersect(&b, 64));
    assert!(a.equals(&BigBitv::new(vec![0b1000]), 64));
    let mut c = BigBitv::new(vec![0b1100]);
    assert!(c.difference(&b, 64));
    assert!(c.equals(&BigBitv::new(vec![0b0100]), 64));
}

#[test]
fn storage_become_copies_masked_bits() {
    let mut a = BigBitv::new(vec![0, 0]);
    let b = BigBitv::new(vec![u64::MAX, u64::MAX]);
    assert!(a.become_(&b, 70));
    assert!(a.get(69));
    assert!(!a.get(70));
    assert!(a.equals(&b, 70));
    assert!(!a.equals(&b, 71));
}

#[test]
fn storage_process_ignores_bits_past_length() {
    let mut a = BigBitv::new(vec![1u64 << 10]);
    let b = BigBitv::new(vec![1u64 << 10]);
    assert!(!a.process(&b, 5, Op::Union));
    assert!(a.get(10));
    assert!(a.process(&BigBitv::new(vec![1]), 5, Op::Union));
    assert!(a.get(0));
    assert!(!a.get(10));
}

#[test]
fn storage_get_set_negate() {
    let mut a = BigBitv::new(vec![0, 0]);
    a.set(65, true);
    a.set(3, true);
    assert!(a.get(65));
    assert!(a.get(3));
    assert!(!a.get(64));
    a.set(3, false);
    assert!(!a.get(3));
    a.negate();
    assert!(a.get(3));
    assert!(!a.get(65));
    assert!(a.get(127));
}

#[test]
fn storage_equals_compares_prefix_of_longer() {
    let a = BigBitv::new(vec![5, 7]);
    let b = BigBitv::new(vec![5]);
    assert!(a.equals(&b, 128));
    assert!(!a.equals(&BigBitv::new(vec![4]), 128));
}

#[test]
fn storage_each_storage_applies_in_order() {
    let mut a = BigBitv::new(vec![0, 3]);
    let last = a.each_storage(&|w: u64| (w + 1, w == 0));
    assert!(!last);
    assert!(a.get(0));
    assert!(!a.get(64));
    assert!(a.get(66));
    let mut empty = BigBitv::new(vec![]);
    assert!(!empty.each_storage(&|w: u64| (w, true)));
}

#[test]
fn new_set_is_empty_with_one_word() {
    let s = BitvSet::new();
    assert_eq!(s.len(), 0);
    assert_eq!(s.capacity(), 64);
    assert!(elements(&s).is_empty());
}

#[test]
fn ascending_iteration() {
    let s = set_of(&[3, 65, 0, 200]);
    assert_eq!(elements(&s), vec![0, 3, 65, 200]);
    assert_eq!(elements(&s), vec![0, 3, 65, 200]);
}

#[test]
fn insert_twice_and_remove_absent() {
    let mut s = BitvSet::new();
    assert!(s.insert(7));
    assert!(!s.insert(7));
    assert_eq!(s.len(), 1);
    assert!(!s.remove(&8));
    assert!(s.remove(&7));
    assert!(!s.remove(&7));
    assert_eq!(s.len(), 0);
}

#[test]
fn insert_growth_amounts() {
    let mut s = BitvSet::new();
    s.insert(64);
    assert_eq!(s.capacity(), 128);
    let mut t = BitvSet::new();
    t.insert(1000);
    assert_eq!(t.capacity(), 1024);
    let mut u = BitvSet::new();
    u.insert(63);
    assert_eq!(u.capacity(), 64);
}

#[test]
fn out_of_range_membership_does_not_grow() {
    let s = BitvSet::new();
    assert!(!s.contains(&10_000));
    assert_eq!(s.capacity(), 64);
}

#[test]
fn growth_then_shrink_restores_words() {
    let mut s = set_of(&[1, 5]);
    assert_eq!(s.capacity(), 64);
    s.insert(5000);
    assert!(s.capacity() > 5000);
    s.remove(&5000);
    assert_eq!(s.capacity(), 64);
    assert_eq!(elements(&s), vec![1, 5]);
}

#[test]
fn remove_keeps_at_least_one_word() {
    let mut s = set_of(&[130]);
    assert!(s.remove(&130));
    assert_eq!(s.capacity(), 64);
    assert_eq!(s.len(), 0);
}

#[test]
fn remove_trims_to_last_nonzero_word() {
    let mut s = set_of(&[70, 300]);
    s.remove(&300);
    assert_eq!(s.capacity(), 128);
}

#[test]
fn clear_keeps_capacity() {
    let mut s = set_of(&[1, 300]);
    let cap = s.capacity();
    s.clear();
    assert_eq!(s.len(), 0);
    assert_eq!(s.capacity(), cap);
    assert!(elements(&s).is_empty());
}

#[test]
fn size_matches_rescan_after_operations() {
    let mut a = set_of(&[1, 2, 3, 64, 129]);
    let b = set_of(&[2, 64, 500]);
    let c = set_of(&[3, 500, 700]);
    a.union_with(&b);
    assert_eq!(a.len(), elements(&a).len());
    a.symmetric_difference_with(&c);
    assert_eq!(a.len(), elements(&a).len());
    a.difference_with(&b);
    assert_eq!(a.len(), elements(&a).len());
    a.insert(900);
    a.remove(&1);
    a.intersect_with(&c);
    assert_eq!(a.len(), elements(&a).len());
    assert_eq!(elements(&a), vec![700, 900]);
}

#[test]
fn union_with_grows_and_adds() {
    let mut a = set_of(&[1]);
    let b = set_of(&[2, 300]);
    a.union_with(&b);
    assert_eq!(elements(&a), vec![1, 2, 300]);
    assert_eq!(a.capacity(), b.capacity());
    assert_eq!(a.len(), 3);
}

#[test]
fn intersect_with_keeps_elements_past_other_capacity() {
    let mut a = set_of(&[1, 2, 300]);
    let b = set_of(&[2, 5]);
    a.intersect_with(&b);
    assert_eq!(elements(&a), vec![2, 300]);
    assert_eq!(a.len(), 2);
}

#[test]
fn difference_and_symmetric_difference() {
    let mut a = set_of(&[1, 2, 3, 70]);
    let b = set_of(&[2, 70, 200]);
    a.difference_with(&b);
    assert_eq!(elements(&a), vec![1, 3]);
    let mut c = set_of(&[1, 2, 3, 70]);
    c.symmetric_difference_with(&b);
    assert_eq!(elements(&c), vec![1, 3, 200]);
    assert_eq!(c.len(), 3);
}

#[test]
fn union_then_intersect_gives_other() {
    let mut a = set_of(&[1, 9]);
    let b = set_of(&[2, 9, 100]);
    a.union_with(&b);
    a.intersect_with(&b);
    assert_eq!(elements(&a), vec![2, 9, 100]);
}

#[test]
fn difference_with_itself_empties() {
    let mut a = set_of(&[1, 9, 400]);
    let copy = a.clone();
    a.difference_with(&copy);
    assert_eq!(a.len(), 0);
    assert!(elements(&a).is_empty());
    let mut b = set_of(&[1, 9, 400]);
    let copy = b.clone();
    b.symmetric_difference_with(&copy);
    assert_eq!(b.len(), 0);
    assert!(elements(&b).is_empty());
}

#[test]
fn union_and_intersect_commute_and_associate() {
    let a = set_of(&[1, 5, 9, 40]);
    let b = set_of(&[5, 9, 33]);
    let c = set_of(&[9, 40, 33, 2]);
    let mut ab = a.clone();
    ab.union_with(&b);
    let mut ba = b.clone();
    ba.union_with(&a);
    assert_eq!(elements(&ab), elements(&ba));
    let mut ab_c = ab.clone();
    ab_c.union_with(&c);
    let mut bc = b.clone();
    bc.union_with(&c);
    let mut a_bc = a.clone();
    a_bc.union_with(&bc);
    assert_eq!(elements(&ab_c), elements(&a_bc));

    let mut ia = a.clone();
    ia.intersect_with(&b);
    let mut ib = b.clone();
    ib.intersect_with(&a);
    assert_eq!(elements(&ia), elements(&ib));
    assert_eq!(elements(&ia), vec![5, 9]);
    let mut iab_c = ia.clone();
    iab_c.intersect_with(&c);
    let mut ibc = b.clone();
    ibc.intersect_with(&c);
    let mut ia_bc = a.clone();
    ia_bc.intersect_with(&ibc);
    assert_eq!(elements(&iab_c), elements(&ia_bc));
    assert_eq!(elements(&iab_c), vec![9]);
}

#[test]
fn difference_callback_visits_in_order() {
    let s = set_of(&[1, 2, 3, 70]);
    let other = set_of(&[2, 70]);
    let visited = RefCell::new(Vec::new());
    let all = s.difference(&other, &|x: usize| {
        visited.borrow_mut().push(x);
        true
    });
    assert!(all);
    assert_eq!(*visited.borrow(), vec![1, 3]);
}

#[test]
fn difference_callback_stops_early() {
    let s = set_of(&[1, 2, 3, 70]);
    let other = set_of(&[2, 70]);
    let visited = RefCell::new(Vec::new());
    let all = s.difference(&other, &|x: usize| {
        visited.borrow_mut().push(x);
        x != 1
    });
    assert!(!all);
    assert_eq!(*visited.borrow(), vec![1]);
}

#[test]
fn difference_callback_with_smaller_other() {
    let s = set_of(&[5, 300]);
    let other = set_of(&[5]);
    let visited = RefCell::new(Vec::new());
    assert!(s.difference(&other, &|x: usize| {
        visited.borrow_mut().push(x);
        true
    }));
    assert_eq!(*visited.borrow(), vec![300]);
    let visited2 = RefCell::new(Vec::new());
    assert!(other.difference(&s, &|x: usize| {
        visited2.borrow_mut().push(x);
        true
    }));
    assert!(visited2.borrow().is_empty());
}

#[test]
fn common_and_outlier_words() {
    let a = set_of(&[1, 200]);
    let b = set_of(&[3]);
    let common = a.common_iter(&b);
    assert_eq!(common, vec![(0, 0b10, 0b1000)]);
    let out = a.outlier_iter(&b);
    assert_eq!(out, vec![(true, 64, 0), (true, 128, 0), (true, 192, 1u64 << 8)]);
    let back = b.outlier_iter(&a);
    assert_eq!(back, vec![(false, 64, 0), (false, 128, 0), (false, 192, 1u64 << 8)]);
}

#[test]
fn exhausted_set_iterator_stays_exhausted() {
    let s = set_of(&[2, 100]);
    let mut it = s.iter();
    assert_eq!(it.next(), Some(2));
    assert_eq!(it.next(), Some(100));
    assert_eq!(it.next(), None);
    assert_eq!(it.next(), None);
}
