use roaring_bitmap::array::ArrayContainer;
use roaring_bitmap::bitmap::BitmapContainer;
use roaring_bitmap::container::Container;
use roaring_bitmap::container::Operation;
use roaring_bitmap::container::THRESHOLD;
use std::collections::BTreeSet;

fn is_array(c: &Container) -> bool {
    matches!(c, Container::Array(_))
}

fn is_bitmap(c: &Container) -> bool {
    matches!(c, Container::Bitmap(_))
}

fn container_of(values: &BTreeSet<u16>) -> Container {
    let mut c = Container::new();
    for v in values {
        c.insert(*v);
    }
    c
}

fn range_set(from: u16, to: u16, step: usize) -> BTreeSet<u16> {
    (from..to).step_by(step).collect()
}

fn as_vec(values: &BTreeSet<u16>) -> Vec<u16> {
    values.iter().copied().collect()
}

fn check_all_operations(a: &BTreeSet<u16>, b: &BTreeSet<u16>) {
    let ca = container_of(a);
    let cb = container_of(b);
    let union: BTreeSet<u16> = a.union(b).copied().collect();
    let inter: BTreeSet<u16> = a.intersection(b).copied().collect();
    let diff: BTreeSet<u16> = a.difference(b).copied().collect();
    let sym: BTreeSet<u16> = a.symmetric_difference(b).copied().collect();
    let cases = [
        (Container::union(Some(&ca), Some(&cb)), union),
        (Container::intersection(Some(&ca), Some(&cb)), inter),
        (Container::difference(Some(&ca), Some(&cb)), diff),
        (Container::symmetric_difference(Some(&ca), Some(&cb)), sym),
    ];
    for (got, want) in cases.iter() {
        assert_eq!(got.to_vec(), as_vec(want));
        assert_eq!(got.len(), want.len());
        assert_eq!(is_array(got), want.len() <= THRESHOLD);
        assert_eq!(is_bitmap(got), want.len() > THRESHOLD);
        assert_eq!(got.is_empty(), want.is_empty());
    }
    assert_eq!(ca.to_vec(), as_vec(a));
    assert_eq!(cb.to_vec(), as_vec(b));
}

#[test]
fn new_container_is_an_empty_list() {
    let c = Container::new();
    assert!(is_array(&c));
    assert!(c.is_empty());
    assert_eq!(c.len(), 0);
    assert_eq!(c.to_vec(), Vec::<u16>::new());
}

#[test]
fn threshold_is_4096() {
    assert_eq!(THRESHOLD, 4096);
}

#[test]
fn container_becomes_dense_above_the_threshold() {
    let mut c = Container::new();
    for v in 0..4096u16 {
        c.insert(v);
        assert!(is_array(&c));
    }
    assert_eq!(c.len(), 4096);
    c.insert(4095);
    assert!(is_array(&c));
    assert_eq!(c.len(), 4096);
    c.insert(4096);
    assert!(is_bitmap(&c));
    assert_eq!(c.len(), 4097);
    assert_eq!(c.to_vec(), (0..4097u16).collect::<Vec<u16>>());
}

#[test]
fn container_becomes_sparse_at_the_threshold() {
    let mut c = Container::new();
    for v in 0..4098u16 {
        c.insert(v);
    }
    assert!(is_bitmap(&c));
    c.remove(10000);
    assert!(is_bitmap(&c));
    assert_eq!(c.len(), 4098);
    c.remove(0);
    assert!(is_bitmap(&c));
    assert_eq!(c.len(), 4097);
    c.remove(1);
    assert!(is_array(&c));
    assert_eq!(c.len(), 4096);
    assert_eq!(c.to_vec(), (2..4098u16).collect::<Vec<u16>>());
}

#[test]
fn five_thousand_in_then_most_of_them_out() {
    let mut c = Container::new();
    for v in 0..5000u16 {
        c.insert(v);
        assert_eq!(is_bitmap(&c), v as usize + 1 > 4096);
    }
    assert!(is_bitmap(&c));
    assert_eq!(c.len(), 5000);
    for v in 0..4500u16 {
        c.remove(v);
        let left = 5000 - (v as usize + 1);
        assert_eq!(c.len(), left);
        assert_eq!(is_array(&c), left <= 4096);
    }
    assert!(is_array(&c));
    assert_eq!(c.len(), 500);
    assert_eq!(c.to_vec(), (4500..5000u16).collect::<Vec<u16>>());
}

#[test]
fn round_trip_keeps_the_members() {
    let start = range_set(0, 40000, 10);
    let mut c = container_of(&start);
    assert!(is_array(&c));
    assert_eq!(c.len(), 4000);
    let extra = range_set(1, 2001, 10);
    for v in &extra {
        c.insert(*v);
    }
    assert!(is_bitmap(&c));
    assert_eq!(c.len(), 4200);
    for v in &extra {
        c.remove(*v);
    }
    assert!(is_array(&c));
    assert_eq!(c.to_vec(), as_vec(&start));
}

#[test]
fn insert_twice_is_insert_once() {
    let mut once = Container::new();
    once.insert(42);
    let mut twice = Container::new();
    twice.insert(42);
    twice.insert(42);
    assert_eq!(once.to_vec(), vec![42]);
    assert_eq!(twice.to_vec(), vec![42]);
    assert_eq!(twice.len(), 1);

    let many = range_set(0, 10000, 2);
    let mut dense = container_of(&many);
    assert!(is_bitmap(&dense));
    dense.insert(100);
    assert_eq!(dense.len(), 5000);
    assert_eq!(dense.to_vec(), as_vec(&many));
}

#[test]
fn remove_of_a_non_member_changes_nothing() {
    let mut c = Container::new();
    c.remove(7);
    assert!(c.is_empty());
    c.insert(1);
    c.insert(3);
    c.remove(2);
    assert_eq!(c.to_vec(), vec![1, 3]);

    let many = range_set(0, 10000, 2);
    let mut dense = container_of(&many);
    dense.remove(101);
    assert!(is_bitmap(&dense));
    assert_eq!(dense.to_vec(), as_vec(&many));
}

#[test]
fn container_contains_in_both_encodings() {
    let few = container_of(&range_set(0, 100, 5));
    assert!(few.contains(95));
    assert!(!few.contains(96));
    let many = container_of(&range_set(0, 30000, 3));
    assert!(is_bitmap(&many));
    assert!(many.contains(29997));
    assert!(!many.contains(29998));
    assert!(!many.contains(30000));
}

#[test]
fn operations_on_two_lists() {
    check_all_operations(&range_set(0, 100, 3), &range_set(50, 200, 2));
    check_all_operations(&range_set(0, 100, 3), &BTreeSet::from([1000u16]));
    check_all_operations(&BTreeSet::from([5u16]), &BTreeSet::from([5u16]));
}

#[test]
fn operations_on_two_lists_with_a_dense_union() {
    let a = range_set(0, 8000, 2);
    let b = range_set(1, 8001, 2);
    assert_eq!(a.len(), 4000);
    assert_eq!(b.len(), 4000);
    check_all_operations(&a, &b);
    let c = range_set(0, 12000, 3);
    check_all_operations(&a, &c);
}

#[test]
fn operations_on_a_list_and_a_row() {
    let few = range_set(0, 3000, 7);
    let many = range_set(0, 20000, 2);
    assert!(many.len() > THRESHOLD);
    check_all_operations(&few, &many);
    check_all_operations(&many, &few);
}

#[test]
fn operations_on_a_list_and_a_row_with_a_sparse_result() {
    let many = range_set(0, 4100, 1);
    let few = range_set(0, 100, 1);
    check_all_operations(&many, &few);
    check_all_operations(&few, &many);
}

#[test]
fn operations_on_two_rows() {
    let a = range_set(0, 30000, 3);
    let b = range_set(0, 30000, 2);
    check_all_operations(&a, &b);
    check_all_operations(&b, &a);
    let c = range_set(0, 5000, 1);
    let d = range_set(4000, 9000, 1);
    check_all_operations(&c, &d);
    check_all_operations(&c, &c);
}

#[test]
fn operations_on_rows_without_common_members() {
    let a = range_set(0, 10000, 2);
    let b = range_set(1, 10001, 2);
    check_all_operations(&a, &b);
}

#[test]
fn operations_on_many_mixed_sets() {
    let mut state: u32 = 2463534242;
    let mut sets: Vec<BTreeSet<u16>> = Vec::new();
    for size in [0usize, 1, 50, 4000, 4096, 4097, 9000, 40000] {
        let mut s = BTreeSet::new();
        while s.len() < size {
            state ^= state << 13;
            state ^= state >> 17;
            state ^= state << 5;
            s.insert((state >> 8) as u16);
        }
        sets.push(s);
    }
    for a in &sets {
        for b in &sets {
            check_all_operations(a, b);
        }
    }
}

#[test]
fn union_with_an_absent_side_copies_the_other() {
    let few = container_of(&range_set(0, 50, 5));
    let many = container_of(&range_set(0, 10000, 2));
    for c in [&few, &many] {
        let left = Container::union(Some(c), None);
        let right = Container::union(None, Some(c));
        assert_eq!(left.to_vec(), c.to_vec());
        assert_eq!(right.to_vec(), c.to_vec());
        assert_eq!(is_array(&left), is_array(c));
        assert_eq!(is_array(&right), is_array(c));
    }
}

#[test]
fn intersection_with_an_absent_side_is_empty() {
    let few = container_of(&range_set(0, 50, 5));
    let many = container_of(&range_set(0, 10000, 2));
    for c in [&few, &many] {
        let left = Container::intersection(Some(c), None);
        let right = Container::intersection(None, Some(c));
        assert!(left.is_empty());
        assert!(right.is_empty());
        assert!(is_array(&left));
        assert!(is_array(&right));
    }
}

#[test]
fn difference_with_an_absent_side() {
    let few = container_of(&range_set(0, 50, 5));
    let many = container_of(&range_set(0, 10000, 2));
    for c in [&few, &many] {
        let kept = Container::difference(Some(c), None);
        assert_eq!(kept.to_vec(), c.to_vec());
        assert_eq!(is_array(&kept), is_array(c));
        let nothing = Container::difference(None, Some(c));
        assert!(nothing.is_empty());
        assert!(is_array(&nothing));
    }
}

#[test]
fn symmetric_difference_with_an_absent_side_copies_the_other() {
    let few = container_of(&range_set(0, 50, 5));
    let many = container_of(&range_set(0, 10000, 2));
    for c in [&few, &many] {
        let left = Container::symmetric_difference(Some(c), None);
        let right = Container::symmetric_difference(None, Some(c));
        assert_eq!(left.to_vec(), c.to_vec());
        assert_eq!(right.to_vec(), c.to_vec());
    }
}

#[test]
fn combine_does_what_the_operation_names() {
    let a = container_of(&BTreeSet::from([1u16, 2, 3]));
    let b = container_of(&BTreeSet::from([2u16, 3, 4]));
    assert_eq!(Container::combine(Operation::Union, Some(&a), Some(&b)).to_vec(), vec![1, 2, 3, 4]);
    assert_eq!(Container::combine(Operation::Intersection, Some(&a), Some(&b)).to_vec(), vec![2, 3]);
    assert_eq!(Container::combine(Operation::Difference, Some(&a), Some(&b)).to_vec(), vec![1]);
    assert_eq!(
        Container::combine(Operation::SymmetricDifference, Some(&a), Some(&b)).to_vec(),
        vec![1, 4]
    );
}

#[test]
fn operation_keeps_by_presence() {
    let table = [
        (Operation::Union, [false, true, true, true]),
        (Operation::Intersection, [false, false, false, true]),
        (Operation::Difference, [false, false, true, false]),
        (Operation::SymmetricDifference, [false, true, true, false]),
    ];
    for (op, want) in table.iter() {
        assert_eq!(op.keeps(false, false), want[0]);
        assert_eq!(op.keeps(false, true), want[1]);
        assert_eq!(op.keeps(true, false), want[2]);
        assert_eq!(op.keeps(true, true), want[3]);
    }
}

#[test]
fn from_array_and_from_bitmap_pick_the_encoding() {
    let mut small = ArrayContainer::new();
    let mut large = ArrayContainer::new();
    let mut small_row = BitmapContainer::new();
    let mut large_row = BitmapContainer::new();
    for v in 0..4097u16 {
        if v < 4096 {
            small.insert(v);
            small_row.set(v);
        }
        large.insert(v);
        large_row.set(v);
    }
    let a = Container::from_array(small);
    assert!(is_array(&a));
    assert_eq!(a.len(), 4096);
    let b = Container::from_array(large);
    assert!(is_bitmap(&b));
    assert_eq!(b.len(), 4097);
    let c = Container::from_bitmap(small_row);
    assert!(is_array(&c));
    assert_eq!(c.to_vec(), (0..4096u16).collect::<Vec<u16>>());
    let d = Container::from_bitmap(large_row);
    assert!(is_bitmap(&d));
    assert_eq!(d.to_vec(), (0..4097u16).collect::<Vec<u16>>());
}

#[test]
fn same_members_give_the_same_storage() {
    let values = range_set(0, 9000, 2);
    let forward = container_of(&values);
    let mut backward = Container::new();
    for v in values.iter().rev() {
        backward.insert(*v);
    }
    let mut detour = Container::new();
    for v in 0..9000u16 {
        detour.insert(v);
    }
    for v in (1..9000u16).step_by(2) {
        detour.remove(v);
    }
    assert!(is_bitmap(&forward));
    assert_eq!(is_bitmap(&backward), is_bitmap(&forward));
    assert_eq!(is_bitmap(&detour), is_bitmap(&forward));
    assert_eq!(backward.to_vec(), forward.to_vec());
    assert_eq!(detour.to_vec(), forward.to_vec());
    let other = container_of(&range_set(0, 9000, 3));
    let r1 = Container::intersection(Some(&forward), Some(&other));
    let r2 = Container::intersection(Some(&detour), Some(&other));
    assert_eq!(is_array(&r1), is_array(&r2));
    assert_eq!(r1.to_vec(), r2.to_vec());
}

#[test]
fn container_clone_is_independent() {
    let c = container_of(&BTreeSet::from([1u16, 2]));
    let mut d = c.clone();
    d.insert(3);
    assert_eq!(c.to_vec(), vec![1, 2]);
    assert_eq!(d.to_vec(), vec![1, 2, 3]);
}
