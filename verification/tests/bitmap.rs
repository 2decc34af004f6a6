use roaring::{Malformed, RoaringBitmap, SetOp};
use std::collections::BTreeSet;

fn collect(values: &[u32]) -> RoaringBitmap<u32> {
    let mut bitmap = RoaringBitmap::new();
    for &value in values {
        bitmap.insert(value);
    }
    bitmap
}

fn scattered(seed: u64, count: usize, spread: u32) -> Vec<u32> {
    let mut state = seed;
    let mut values = Vec::new();
    for _ in 0..count {
        state = state.wrapping_mul(6364136223846793005).wrapping_add(1442695040888963407);
        values.push(((state >> 33) as u32) % spread);
    }
    values
}

fn sorted(values: &[u32]) -> BTreeSet<u32> {
    values.iter().copied().collect()
}

#[test]
fn a_new_set_is_empty() {
    let bitmap: RoaringBitmap<u32> = RoaringBitmap::new();
    assert!(bitmap.is_empty());
    assert_eq!(bitmap.len(), 0);
    assert!(!bitmap.contains(0));
    assert_eq!(bitmap.to_vec(), Vec::<u32>::new());
    assert_eq!(bitmap.to_raw64(), Vec::<u64>::new());
}

#[test]
fn insert_says_whether_the_value_is_new() {
    let mut rb: RoaringBitmap<u32> = RoaringBitmap::new();
    assert_eq!(rb.insert(3), true);
    assert_eq!(rb.insert(3), false);
    assert_eq!(rb.contains(3), true);
}

#[test]
fn remove_says_whether_the_value_was_there() {
    let mut rb: RoaringBitmap<u32> = RoaringBitmap::new();
    rb.insert(3);
    assert_eq!(rb.remove(3), true);
    assert_eq!(rb.remove(3), false);
    assert_eq!(rb.contains(3), false);
    assert_eq!(rb.remove(70000), false);
}

#[test]
fn contains_tells_values_apart() {
    let mut rb: RoaringBitmap<u32> = RoaringBitmap::new();
    rb.insert(1);
    assert_eq!(rb.contains(0), false);
    assert_eq!(rb.contains(1), true);
    assert_eq!(rb.contains(100), false);
    assert_eq!(rb.contains(65537), false);
    rb.insert(65537);
    assert_eq!(rb.contains(65537), true);
    assert_eq!(rb.contains(65536), false);
}

#[test]
fn clear_empties() {
    let mut rb: RoaringBitmap<u32> = RoaringBitmap::new();
    rb.insert(1);
    assert_eq!(rb.contains(1), true);
    rb.clear();
    assert_eq!(rb.contains(1), false);
    assert!(rb.is_empty());
    assert_eq!(rb, RoaringBitmap::new());
}

#[test]
fn is_empty_follows_the_values() {
    let mut rb: RoaringBitmap<u32> = RoaringBitmap::new();
    assert_eq!(rb.is_empty(), true);
    rb.insert(3);
    assert_eq!(rb.is_empty(), false);
    rb.remove(3);
    assert_eq!(rb.is_empty(), true);
}

#[test]
fn len_counts_distinct_values() {
    let mut rb: RoaringBitmap<u32> = RoaringBitmap::new();
    assert_eq!(rb.len(), 0);
    rb.insert(3);
    assert_eq!(rb.len(), 1);
    rb.insert(3);
    rb.insert(4);
    assert_eq!(rb.len(), 2);
    rb.insert(4_000_000_000);
    assert_eq!(rb.len(), 3);
}

#[test]
fn len_sums_the_containers() {
    let mut rb: RoaringBitmap<u32> = RoaringBitmap::new();
    for value in 0..70000u32 {
        rb.insert(value);
    }
    for value in 1000000..1000010u32 {
        rb.insert(value);
    }
    assert_eq!(rb.len(), 70010);
    assert_eq!(rb.min(), 0);
    assert_eq!(rb.max(), 1000009);
}

#[test]
fn a_container_without_values_is_dropped() {
    let mut rb: RoaringBitmap<u32> = RoaringBitmap::new();
    rb.insert(5);
    rb.insert(70000);
    rb.remove(5);
    assert_eq!(rb.to_raw64(), vec![1, 1, 0, 1, 4464]);
    assert_eq!(rb, collect(&[70000]));
    rb.remove(70000);
    assert_eq!(rb.to_raw64(), Vec::<u64>::new());
}

#[test]
fn values_come_out_in_order() {
    let mut rb: RoaringBitmap<u32> = RoaringBitmap::new();
    rb.insert(1);
    rb.insert(6);
    rb.insert(4);
    assert_eq!(rb.to_vec(), vec![1, 4, 6]);
    let values = scattered(11, 20000, 400000);
    let bitmap = collect(&values);
    let expected: Vec<u32> = sorted(&values).into_iter().collect();
    assert_eq!(bitmap.to_vec(), expected);
    assert_eq!(bitmap.len(), expected.len() as u64);
    assert_eq!(bitmap.to_vec(), bitmap.to_vec());
}

#[test]
fn values_come_out_in_order_after_the_stores_turned() {
    let mut rb: RoaringBitmap<u32> = RoaringBitmap::new();
    for value in (0..10000u32).rev() {
        rb.insert(value * 3);
    }
    for value in 2000..10000u32 {
        rb.remove(value * 3);
    }
    let expected: Vec<u32> = (0..2000u32).map(|v| v * 3).collect();
    assert_eq!(rb.to_vec(), expected);
    assert!(rb.to_vec().windows(2).all(|pair| pair[0] < pair[1]));
}

#[test]
fn a_narrow_set_works_the_same() {
    let mut rb: RoaringBitmap<u16> = RoaringBitmap::new();
    for value in [9u16, 300, 301, 65535, 0] {
        assert!(rb.insert(value));
    }
    assert_eq!(rb.to_vec(), vec![0, 9, 300, 301, 65535]);
    assert_eq!(rb.to_raw64(), vec![0, 2, 0, 2, 0, 9, 1, 2, 0, 2, 44, 45, 255, 1, 0, 1, 255]);
    assert_eq!(RoaringBitmap::<u16>::from_raw64(rb.to_raw64()), Ok(rb));
}

#[test]
fn disjoint() {
    let mut rb1: RoaringBitmap<u32> = RoaringBitmap::new();
    let mut rb2: RoaringBitmap<u32> = RoaringBitmap::new();
    rb1.insert(1);
    assert_eq!(rb1.is_disjoint(&rb2), true);
    rb2.insert(1);
    assert_eq!(rb1.is_disjoint(&rb2), false);
    let left = collect(&[1, 70000, 200000]);
    let right = collect(&[2, 70001, 300000]);
    assert!(left.is_disjoint(&right));
    assert!(!left.is_disjoint(&collect(&[5, 200000])));
}

#[test]
fn subset() {
    let mut rb1: RoaringBitmap<u32> = RoaringBitmap::new();
    let mut rb2: RoaringBitmap<u32> = RoaringBitmap::new();
    rb1.insert(1);
    assert_eq!(rb1.is_subset(&rb2), false);
    rb2.insert(1);
    assert_eq!(rb1.is_subset(&rb2), true);
    rb1.insert(2);
    assert_eq!(rb1.is_subset(&rb2), false);
    assert_eq!(rb1.is_subset_opt(&rb2), false);
    assert_eq!(rb2.is_subset_opt(&rb1), true);
}

#[test]
fn superset() {
    let mut rb1: RoaringBitmap<u32> = RoaringBitmap::new();
    let mut rb2: RoaringBitmap<u32> = RoaringBitmap::new();
    rb1.insert(1);
    assert_eq!(rb2.is_superset(&rb1), false);
    rb2.insert(1);
    assert_eq!(rb2.is_superset(&rb1), true);
    rb1.insert(2);
    assert_eq!(rb2.is_superset(&rb1), false);
}

#[test]
fn a_larger_set_is_no_subset() {
    let large = collect(&[1, 2, 70000]);
    let small = collect(&[1, 70000]);
    assert!(large.len() > small.len());
    assert!(!large.is_subset(&small));
    assert!(small.is_subset(&large));
    assert!(!collect(&[1, 2]).is_subset(&collect(&[1, 3])));
    assert!(!collect(&[70000]).is_subset(&collect(&[1, 2, 3])));
    assert!(!collect(&[70000]).is_subset_opt(&collect(&[1, 2, 3])));
    assert!(collect(&[]).is_subset(&collect(&[])));
}

#[test]
fn new_sets_from_two() {
    let rb1 = collect(&[1, 2, 4]);
    let rb2 = collect(&[1, 3, 4]);
    assert_eq!(rb1.union(&rb2).to_vec(), vec![1, 2, 3, 4]);
    assert_eq!(rb1.intersection(&rb2).to_vec(), vec![1, 4]);
    assert_eq!(rb1.difference(&rb2).to_vec(), vec![2]);
    assert_eq!(rb2.difference(&rb1).to_vec(), vec![3]);
    assert_eq!(rb1.symmetric_difference(&rb2).to_vec(), vec![2, 3]);
    assert_eq!(rb1.to_vec(), vec![1, 2, 4]);
    assert_eq!(rb2.to_vec(), vec![1, 3, 4]);
}

#[test]
fn in_place_forms() {
    let mut rb1 = collect(&[1, 2, 3]);
    rb1.union_with(&collect(&[3, 4]));
    assert_eq!(rb1, collect(&[1, 2, 3, 4]));
    let mut rb1 = collect(&[1, 2, 3]);
    rb1.intersect_with(&collect(&[3, 4]));
    assert_eq!(rb1, collect(&[3]));
    let mut rb1 = collect(&[1, 2, 3]);
    rb1.difference_with(&collect(&[3, 4]));
    assert_eq!(rb1, collect(&[1, 2]));
    let mut rb1 = collect(&[1, 2, 3]);
    rb1.symmetric_difference_with(&collect(&[3, 4, 5]));
    assert_eq!(rb1, collect(&[1, 2, 4, 5]));
    let mut rb1 = collect(&[1, 2, 3]);
    rb1.merge_with(SetOp::Difference, &collect(&[1, 2, 3]));
    assert!(rb1.is_empty());
}

#[test]
fn keys_of_one_side_alone() {
    let left = collect(&[1, 70000, 200000]);
    let right = collect(&[70001, 140000, 300000]);
    assert_eq!(left.union(&right).to_vec(), vec![1, 70000, 70001, 140000, 200000, 300000]);
    assert_eq!(left.intersection(&right).to_vec(), Vec::<u32>::new());
    assert_eq!(left.difference(&right).to_vec(), vec![1, 70000, 200000]);
    assert_eq!(
        left.symmetric_difference(&right).to_vec(),
        vec![1, 70000, 70001, 140000, 200000, 300000]
    );
    assert_eq!(left.intersection(&collect(&[70000])).to_raw64(), vec![1, 1, 0, 1, 4464]);
}

#[test]
fn algebra_matches_sets_of_integers() {
    for round in 0..6u64 {
        let a_values = scattered(round * 2 + 1, 9000, 150000);
        let b_values = scattered(round * 2 + 2, 300 + 3000 * round as usize, 150000);
        let (a, b) = (collect(&a_values), collect(&b_values));
        let (sa, sb) = (sorted(&a_values), sorted(&b_values));
        let union: Vec<u32> = sa.union(&sb).copied().collect();
        let intersection: Vec<u32> = sa.intersection(&sb).copied().collect();
        let difference: Vec<u32> = sa.difference(&sb).copied().collect();
        let symmetric: Vec<u32> = sa.symmetric_difference(&sb).copied().collect();
        assert_eq!(a.union(&b).to_vec(), union);
        assert_eq!(a.intersection(&b).to_vec(), intersection);
        assert_eq!(a.difference(&b).to_vec(), difference);
        assert_eq!(a.symmetric_difference(&b).to_vec(), symmetric);
        assert_eq!(a.union(&b).len(), union.len() as u64);
        assert_eq!(a.union(&b), collect(&union));
        assert_eq!(a.intersection(&b), collect(&intersection));
        assert_eq!(a.difference(&b), collect(&difference));
        assert_eq!(a.symmetric_difference(&b), collect(&symmetric));
        assert_eq!(a.is_disjoint(&b), intersection.is_empty());
        assert_eq!(a.is_subset(&b), sa.is_subset(&sb));
        assert!(a.intersection(&b).is_subset(&a));
        assert!(a.is_superset(&a.difference(&b)));
    }
}

#[test]
fn algebra_identities() {
    for round in 0..4u64 {
        let a = collect(&scattered(100 + round, 12000, 200000));
        let b = collect(&scattered(200 + round, 7000, 200000));
        assert_eq!(a.symmetric_difference(&b), a.difference(&b).union(&b.difference(&a)));
        assert_eq!(a.intersection(&b), a.union(&b).difference(&a.symmetric_difference(&b)));
        assert_eq!(a.is_disjoint(&b), a.intersection(&b).is_empty());
        let c = collect(&[500000, 500001]);
        assert_eq!(a.is_disjoint(&c), a.intersection(&c).is_empty());
        assert!(a.is_disjoint(&c));
    }
}

#[test]
fn a_set_is_read_back() {
    let mut values = scattered(5, 3000, 1 << 20);
    values.extend(131072..140000u32);
    values.extend(3_000_000_000..3_000_005_000u32);
    let bitmap = collect(&values);
    let words = bitmap.to_raw64();
    let back = RoaringBitmap::<u32>::from_raw64(words.clone()).unwrap();
    assert_eq!(back.to_vec(), bitmap.to_vec());
    assert_eq!(back, bitmap);
    assert_eq!(back.to_raw64(), words);
    let empty: RoaringBitmap<u32> = RoaringBitmap::new();
    assert_eq!(RoaringBitmap::<u32>::from_raw64(Vec::new()), Ok(empty));
}

#[test]
fn the_stream_is_the_records_in_key_order() {
    let bitmap = collect(&[196613, 2, 65536, 1, 196608]);
    assert_eq!(
        bitmap.to_raw64(),
        vec![0, 2, 0, 2, 1, 2, 1, 1, 0, 1, 0, 3, 2, 0, 2, 0, 5]
    );
}

#[test]
fn a_record_without_values_is_left_out() {
    let words: Vec<u64> = vec![0, 0, 0, 0, 4, 1, 0, 1, 9, 5, 0, 0, 0];
    let bitmap = RoaringBitmap::<u32>::from_raw64(words).unwrap();
    assert_eq!(bitmap.to_vec(), vec![262153]);
    assert_eq!(bitmap.to_raw64(), vec![4, 1, 0, 1, 9]);
}

#[test]
fn a_stream_that_is_not_one_is_refused() {
    let read = |words: Vec<u64>| RoaringBitmap::<u32>::from_raw64(words);
    assert!(read(vec![4, 1, 0, 1, 9, 5, 1, 0, 1, 9]).is_ok());
    assert_eq!(read(vec![4, 1, 0, 1, 9, 4, 1, 0, 1, 9]), Err(Malformed));
    assert_eq!(read(vec![5, 1, 0, 1, 9, 4, 1, 0, 1, 9]), Err(Malformed));
    assert_eq!(read(vec![4, 1, 0, 1, 9, 5]), Err(Malformed));
    assert_eq!(read(vec![4, 1, 0, 2, 9]), Err(Malformed));
    assert_eq!(read(vec![4, 1, 0, 1]), Err(Malformed));
    assert_eq!(read(vec![65536, 1, 0, 1, 9]), Err(Malformed));
    assert_eq!(read(vec![4, 1, 7, 1, 9]), Err(Malformed));
    assert_eq!(read(vec![4, 2, 0, 2, 9, 8]), Err(Malformed));
}

#[test]
fn a_clone_is_equal_and_apart() {
    let bitmap = collect(&scattered(9, 6000, 100000));
    let mut copy = bitmap.clone();
    assert_eq!(copy, bitmap);
    copy.insert(4_000_000);
    assert!(!bitmap.contains(4_000_000));
    assert_eq!(copy.len(), bitmap.len() + 1);
}

#[test]
fn min_and_max_of_a_set() {
    let bitmap = collect(&[70000, 3, 4_000_000_000, 65535]);
    assert_eq!(bitmap.min(), 3);
    assert_eq!(bitmap.max(), 4_000_000_000);
    let one = collect(&[0]);
    assert_eq!(one.min(), 0);
    assert_eq!(one.max(), 0);
    let top = collect(&[u32::MAX]);
    assert_eq!(top.min(), u32::MAX);
    assert_eq!(top.max(), u32::MAX);
}

#[test]
fn a_wide_set_works_the_same() {
    let mut rb: RoaringBitmap<u64> = RoaringBitmap::new();
    let values = [u64::MAX, 0, 1 << 32, (1 << 32) + 7, 5, 1 << 63];
    for value in values {
        assert!(rb.insert(value));
    }
    assert!(!rb.insert(1 << 32));
    assert_eq!(rb.to_vec(), vec![0, 5, 1 << 32, (1 << 32) + 7, 1 << 63, u64::MAX]);
    assert_eq!(rb.len(), 6);
    assert_eq!(rb.checked_len(), Some(6));
    assert!(rb.contains(1 << 63));
    assert!(!rb.contains((1 << 63) + 1));
    assert_eq!(rb.min(), 0);
    assert_eq!(rb.max(), u64::MAX);
    assert_eq!(
        rb.to_raw64(),
        vec![
            0, 2, 0, 2, 0, 5, 1, 2, 0, 2, 0, 7, 1 << 31, 1, 0, 1, 0, 4294967295, 1, 0, 1,
            4294967295
        ]
    );
    assert_eq!(RoaringBitmap::<u64>::from_raw64(rb.to_raw64()), Ok(rb.clone()));
    let mut other: RoaringBitmap<u64> = RoaringBitmap::new();
    other.insert(5);
    other.insert(6);
    other.insert(u64::MAX);
    assert_eq!(rb.intersection(&other).to_vec(), vec![5, u64::MAX]);
    assert_eq!(other.difference(&rb).to_vec(), vec![6]);
    assert!(!other.is_subset(&rb));
    assert!(rb.remove(u64::MAX));
    assert_eq!(rb.max(), 1 << 63);
}

#[test]
fn the_count_is_checked() {
    let bitmap = collect(&[1, 2, 70000]);
    assert_eq!(bitmap.checked_len(), Some(3));
    let none: RoaringBitmap<u32> = RoaringBitmap::new();
    assert_eq!(none.checked_len(), Some(0));
}
