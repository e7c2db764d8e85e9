use roaring_bitmap::array::ArrayContainer;
use roaring_bitmap::bitmap::Bitwise;
use roaring_bitmap::bitmap::BitmapContainer;

fn row_of(values: &[u16]) -> BitmapContainer {
    let mut b = BitmapContainer::new();
    for v in values {
        b.set(*v);
    }
    b
}

fn list_of(values: &[u16]) -> ArrayContainer {
    let mut a = ArrayContainer::new();
    for v in values {
        a.insert(*v);
    }
    a
}

fn listed(b: &BitmapContainer) -> Vec<u16> {
    ArrayContainer::from(b).to_vec()
}

#[test]
fn new_bitmap_has_no_members() {
    let b = BitmapContainer::new();
    assert_eq!(b.weight(), 0);
    assert_eq!(b.first(), None);
    assert_eq!(b.last(), None);
    assert!(!b.is_set(0));
    assert!(!b.is_set(65535));
}

#[test]
fn bitmap_set_and_test() {
    let mut b = BitmapContainer::new();
    assert!(b.set(0));
    assert!(b.set(63));
    assert!(b.set(64));
    assert!(b.set(65535));
    assert!(!b.set(64));
    assert_eq!(b.weight(), 4);
    for v in [0u16, 63, 64, 65535] {
        assert!(b.is_set(v));
    }
    for v in [1u16, 62, 65, 127, 128, 65534] {
        assert!(!b.is_set(v));
    }
}

#[test]
fn bitmap_unset_clears_one_bit() {
    let mut b = row_of(&[10, 11, 12]);
    assert!(b.unset(11));
    assert!(!b.unset(11));
    assert!(!b.unset(500));
    assert_eq!(b.weight(), 2);
    assert_eq!(listed(&b), vec![10, 12]);
}

#[test]
fn bitmap_flip_toggles_membership() {
    let mut b = row_of(&[10]);
    assert!(b.flip(20));
    assert!(!b.flip(10));
    assert_eq!(listed(&b), vec![20]);
    assert_eq!(b.weight(), 1);
}

#[test]
fn bitmap_weight_counts_every_value() {
    let mut b = BitmapContainer::new();
    for v in 0..=65535u16 {
        b.set(v);
    }
    assert_eq!(b.weight(), 65536);
    assert_eq!(b.first(), Some(0));
    assert_eq!(b.last(), Some(65535));
    for v in (0..=65535u16).step_by(2) {
        b.unset(v);
    }
    assert_eq!(b.weight(), 32768);
    assert_eq!(b.first(), Some(1));
    assert_eq!(b.last(), Some(65535));
}

#[test]
fn bitmap_first_and_last() {
    assert_eq!(row_of(&[700]).first(), Some(700));
    assert_eq!(row_of(&[700]).last(), Some(700));
    let b = row_of(&[4097, 130, 64, 9000]);
    assert_eq!(b.first(), Some(64));
    assert_eq!(b.last(), Some(9000));
    let c = row_of(&[65535, 0]);
    assert_eq!(c.first(), Some(0));
    assert_eq!(c.last(), Some(65535));
}

#[test]
fn bitmap_or_and_and_not_xor() {
    let a = row_of(&[1, 64, 65, 4000]);
    let b = row_of(&[64, 66, 4000, 65535]);
    let or = BitmapContainer::or(&a, &b);
    assert_eq!(listed(&or), vec![1, 64, 65, 66, 4000, 65535]);
    assert_eq!(or.weight(), 6);
    let and = BitmapContainer::and(&a, &b);
    assert_eq!(listed(&and), vec![64, 4000]);
    assert_eq!(and.weight(), 2);
    let and_not = BitmapContainer::and_not(&a, &b);
    assert_eq!(listed(&and_not), vec![1, 65]);
    assert_eq!(and_not.weight(), 2);
    let other_way = BitmapContainer::and_not(&b, &a);
    assert_eq!(listed(&other_way), vec![66, 65535]);
    let xor = BitmapContainer::xor(&a, &b);
    assert_eq!(listed(&xor), vec![1, 65, 66, 65535]);
    assert_eq!(xor.weight(), 4);
    assert_eq!(listed(&a), vec![1, 64, 65, 4000]);
    assert_eq!(listed(&b), vec![64, 66, 4000, 65535]);
}

#[test]
fn bitwise_apply_on_words() {
    let a: u64 = 0b1100;
    let b: u64 = 0b1010;
    assert_eq!(Bitwise::Or.apply(a, b), 0b1110);
    assert_eq!(Bitwise::And.apply(a, b), 0b1000);
    assert_eq!(Bitwise::AndNot.apply(a, b), 0b0100);
    assert_eq!(Bitwise::Xor.apply(a, b), 0b0110);
}

#[test]
fn bitmap_from_array_sets_the_listed_bits() {
    let a = list_of(&[3, 300, 30000]);
    let b = BitmapContainer::from(&a);
    assert_eq!(b.weight(), 3);
    assert_eq!(listed(&b), vec![3, 300, 30000]);
    let e = BitmapContainer::from(&ArrayContainer::new());
    assert_eq!(e.weight(), 0);
}

#[test]
fn bitmap_combined_with_an_array() {
    let b = row_of(&[1, 2, 3, 1000]);
    let a = list_of(&[2, 1000, 5000]);
    let u = b.union_array(&a);
    assert_eq!(listed(&u), vec![1, 2, 3, 1000, 5000]);
    assert_eq!(u.weight(), 5);
    let d = b.difference_array(&a);
    assert_eq!(listed(&d), vec![1, 3]);
    assert_eq!(d.weight(), 2);
    let x = b.symmetric_difference_array(&a);
    assert_eq!(listed(&x), vec![1, 3, 5000]);
    assert_eq!(x.weight(), 3);
    assert_eq!(listed(&b), vec![1, 2, 3, 1000]);
}

#[test]
fn bitmap_clone_is_independent() {
    let b = row_of(&[8, 9]);
    let mut c = b.clone();
    c.set(10);
    c.unset(8);
    assert_eq!(listed(&b), vec![8, 9]);
    assert_eq!(b.weight(), 2);
    assert_eq!(listed(&c), vec![9, 10]);
    assert_eq!(c.weight(), 2);
}
