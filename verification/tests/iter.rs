use roaring::iter::next_after;
use roaring::{Container, Iter, MergeIter, RoaringBitmap, SetOp, Store};

fn collect(values: &[u32]) -> RoaringBitmap<u32> {
    let mut bitmap = RoaringBitmap::new();
    for &value in values {
        bitmap.insert(value);
    }
    bitmap
}

fn drain(mut sequence: MergeIter<u32>) -> Vec<u32> {
    let mut values = Vec::new();
    while let Some(value) = sequence.next() {
        values.push(value);
    }
    values
}

#[test]
fn a_store_finds_the_next_value() {
    let array: Store<u16> = Store::Array(vec![3, 64, 200, 65535]);
    let bitmap = array.to_bitmap();
    for store in [array, bitmap] {
        assert_eq!(store.next_from(0), Some(3));
        assert_eq!(store.next_from(3), Some(3));
        assert_eq!(store.next_from(4), Some(64));
        assert_eq!(store.next_from(64), Some(64));
        assert_eq!(store.next_from(65), Some(200));
        assert_eq!(store.next_from(201), Some(65535));
        assert_eq!(store.next_from(65535), Some(65535));
    }
    let array: Store<u16> = Store::Array(vec![3, 64]);
    let bitmap = array.to_bitmap();
    for store in [array, bitmap] {
        assert_eq!(store.next_from(65), None);
        assert_eq!(store.next_from(65535), None);
    }
    let empty: Store<u16> = Store::Array(Vec::new());
    assert_eq!(empty.next_from(0), None);
    assert_eq!(empty.to_bitmap().next_from(0), None);
}

#[test]
fn a_bitmap_finds_the_next_value_within_and_across_words() {
    let mut store: Store<u8> = Store::Array(Vec::new()).to_bitmap();
    for value in [5u8, 63, 64, 130, 255] {
        store.insert(value);
    }
    assert_eq!(store.next_from(0), Some(5));
    assert_eq!(store.next_from(6), Some(63));
    assert_eq!(store.next_from(63), Some(63));
    assert_eq!(store.next_from(64), Some(64));
    assert_eq!(store.next_from(65), Some(130));
    assert_eq!(store.next_from(131), Some(255));
    store.remove(255);
    assert_eq!(store.next_from(131), None);
    assert_eq!(store.next_from(255), None);
}

#[test]
fn a_container_finds_the_next_value() {
    let mut container: Container<u16> = Container::new(1);
    for value in 10..5000u16 {
        container.insert(value * 2);
    }
    assert_eq!(container.next_from(0), Some(20));
    assert_eq!(container.next_from(21), Some(22));
    assert_eq!(container.next_from(9998), Some(9998));
    assert_eq!(container.next_from(9999), None);
}

#[test]
fn a_set_finds_the_next_value() {
    let bitmap = collect(&[5, 70000, 70010, 4_000_000_000]);
    assert_eq!(bitmap.next_from(0), Some(5));
    assert_eq!(bitmap.next_from(5), Some(5));
    assert_eq!(bitmap.next_from(6), Some(70000));
    assert_eq!(bitmap.next_from(65536), Some(70000));
    assert_eq!(bitmap.next_from(70001), Some(70010));
    assert_eq!(bitmap.next_from(70011), Some(4_000_000_000));
    assert_eq!(bitmap.next_from(200000), Some(4_000_000_000));
    assert_eq!(bitmap.next_from(4_000_000_001), None);
    assert_eq!(bitmap.next_from(u32::MAX), None);
    assert_eq!(next_after(&bitmap, 5), Some(70000));
    assert_eq!(next_after(&bitmap, 4), Some(5));
    assert_eq!(next_after(&bitmap, u32::MAX), None);
    assert_eq!(next_after(&collect(&[u32::MAX]), u32::MAX - 1), Some(u32::MAX));
    assert_eq!(next_after(&collect(&[u32::MAX]), u32::MAX), None);
}

#[test]
fn values_one_at_a_time() {
    let mut rb: RoaringBitmap<u32> = RoaringBitmap::new();
    rb.insert(1);
    rb.insert(6);
    rb.insert(4);
    let mut iter = rb.iter();
    assert_eq!(iter.next(), Some(1));
    assert_eq!(iter.next(), Some(4));
    assert_eq!(iter.next(), Some(6));
    assert_eq!(iter.next(), None);
    assert_eq!(iter.next(), None);
}

#[test]
fn a_sequence_starts_anew_each_time() {
    let rb = collect(&[8, 70000]);
    let mut first = rb.iter();
    assert_eq!(first.next(), Some(8));
    let mut second: Iter<u32> = rb.iter();
    assert_eq!(second.next(), Some(8));
    assert_eq!(first.next(), Some(70000));
    assert_eq!(second.next(), Some(70000));
    assert_eq!(first.next(), None);
}

#[test]
fn a_sequence_reaches_the_largest_value() {
    let rb = collect(&[0, u32::MAX]);
    let mut iter = rb.iter();
    assert_eq!(iter.next(), Some(0));
    assert_eq!(iter.next(), Some(u32::MAX));
    assert_eq!(iter.next(), None);
    let none: RoaringBitmap<u32> = RoaringBitmap::new();
    assert_eq!(none.iter().next(), None);
}

#[test]
fn a_sequence_gives_what_the_set_holds() {
    let mut rb: RoaringBitmap<u32> = RoaringBitmap::new();
    for value in (0..30000u32).rev() {
        rb.insert(value * 7);
    }
    let mut iter = rb.iter();
    let mut values = Vec::new();
    while let Some(value) = iter.next() {
        values.push(value);
    }
    assert_eq!(values, rb.to_vec());
    assert_eq!(values.len(), 30000);
    assert!(values.windows(2).all(|pair| pair[0] < pair[1]));
}

#[test]
fn two_sets_one_value_at_a_time() {
    let rb1 = collect(&[1, 2, 4]);
    let rb2 = collect(&[1, 3, 4]);
    let mut iter = rb1.merged(SetOp::Union, &rb2);
    assert_eq!(iter.next(), Some(1));
    assert_eq!(iter.next(), Some(2));
    assert_eq!(iter.next(), Some(3));
    assert_eq!(iter.next(), Some(4));
    assert_eq!(iter.next(), None);
    let mut iter = rb1.merged(SetOp::Intersection, &rb2);
    assert_eq!(iter.next(), Some(1));
    assert_eq!(iter.next(), Some(4));
    assert_eq!(iter.next(), None);
    let mut iter1 = rb1.merged(SetOp::Difference, &rb2);
    assert_eq!(iter1.next(), Some(2));
    assert_eq!(iter1.next(), None);
    let mut iter2 = rb2.merged(SetOp::Difference, &rb1);
    assert_eq!(iter2.next(), Some(3));
    assert_eq!(iter2.next(), None);
    let mut iter = rb1.merged(SetOp::SymmetricDifference, &rb2);
    assert_eq!(iter.next(), Some(2));
    assert_eq!(iter.next(), Some(3));
    assert_eq!(iter.next(), None);
    assert_eq!(iter.next(), None);
}

#[test]
fn two_sets_give_what_the_new_set_holds() {
    let mut a: RoaringBitmap<u32> = RoaringBitmap::new();
    let mut b: RoaringBitmap<u32> = RoaringBitmap::new();
    for value in 0..9000u32 {
        a.insert(value * 3);
        b.insert(value * 5 + 60000);
    }
    b.insert(u32::MAX);
    assert_eq!(drain(a.merged(SetOp::Union, &b)), a.union(&b).to_vec());
    assert_eq!(drain(a.merged(SetOp::Intersection, &b)), a.intersection(&b).to_vec());
    assert_eq!(drain(a.merged(SetOp::Difference, &b)), a.difference(&b).to_vec());
    assert_eq!(drain(b.merged(SetOp::Difference, &a)), b.difference(&a).to_vec());
    assert_eq!(
        drain(a.merged(SetOp::SymmetricDifference, &b)),
        a.symmetric_difference(&b).to_vec()
    );
    let none: RoaringBitmap<u32> = RoaringBitmap::new();
    assert_eq!(drain(a.merged(SetOp::Union, &none)), a.to_vec());
    assert_eq!(drain(none.merged(SetOp::Union, &a)), a.to_vec());
    assert_eq!(drain(none.merged(SetOp::SymmetricDifference, &none)), Vec::<u32>::new());
    assert_eq!(drain(a.merged(SetOp::Intersection, &none)), Vec::<u32>::new());
}

#[test]
fn a_wide_set_one_value_at_a_time() {
    let mut rb: RoaringBitmap<u64> = RoaringBitmap::new();
    for value in [u64::MAX, 9, 1 << 40] {
        rb.insert(value);
    }
    let mut iter = rb.iter();
    assert_eq!(iter.next(), Some(9));
    assert_eq!(iter.next(), Some(1 << 40));
    assert_eq!(iter.next(), Some(u64::MAX));
    assert_eq!(iter.next(), None);
    assert_eq!(iter.next(), None);
    assert_eq!(rb.next_from((1 << 40) + 1), Some(u64::MAX));
    let mut other: RoaringBitmap<u64> = RoaringBitmap::new();
    other.insert(u64::MAX);
    other.insert(10);
    let mut both = rb.merged(SetOp::SymmetricDifference, &other);
    assert_eq!(both.next(), Some(9));
    assert_eq!(both.next(), Some(10));
    assert_eq!(both.next(), Some(1 << 40));
    assert_eq!(both.next(), None);
}
