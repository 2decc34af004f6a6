use roaring::container::array_limit;
use roaring::{Container, Malformed, SetOp};

fn filled(key: u16, count: u32) -> Container<u16> {
    let mut container = Container::new(key);
    for value in 0..count {
        container.insert(value as u16);
    }
    container
}

fn is_array(container: &Container<u16>) -> bool {
    container.to_raw64()[2] == 0
}

#[test]
fn the_limit_is_a_sixteenth_of_the_width() {
    assert_eq!(array_limit::<u8>(), 16);
    assert_eq!(array_limit::<u16>(), 4096);
    assert_eq!(array_limit::<u32>(), 268435456);
}

#[test]
fn a_new_container_is_empty() {
    let container: Container<u16> = Container::new(9);
    assert_eq!(container.key(), 9);
    assert_eq!(container.len(), 0);
    assert!(!container.contains(0));
    assert_eq!(container.iter(), Vec::<u16>::new());
    assert_eq!(container.to_raw64(), vec![9, 0, 0, 0]);
}

#[test]
fn insert_and_remove_count() {
    let mut container: Container<u16> = Container::new(0);
    assert!(container.insert(3));
    assert!(!container.insert(3));
    assert!(container.insert(1));
    assert_eq!(container.len(), 2);
    assert!(container.contains(3));
    assert!(container.remove(3));
    assert!(!container.remove(3));
    assert_eq!(container.len(), 1);
    assert!(!container.contains(3));
    assert_eq!(container.iter(), vec![1]);
}

#[test]
fn the_store_turns_at_the_limit() {
    let mut container = filled(0, 4096);
    assert_eq!(container.len(), 4096);
    assert!(is_array(&container));
    assert!(container.insert(4096));
    assert_eq!(container.len(), 4097);
    assert!(!is_array(&container));
    assert!(!container.insert(4096));
    assert!(!is_array(&container));
    assert!(container.remove(17));
    assert_eq!(container.len(), 4096);
    assert!(is_array(&container));
    assert!(!container.contains(17));
    assert!(container.contains(4096));
}

#[test]
fn the_store_turns_at_the_limit_of_a_narrow_width() {
    let mut container: Container<u8> = Container::new(0);
    for value in 0..16u8 {
        container.insert(value * 3);
    }
    assert_eq!(container.to_raw64()[2], 0);
    container.insert(200);
    assert_eq!(container.to_raw64()[2], 1);
    assert_eq!(container.to_raw64()[3], 4);
    container.remove(0);
    assert_eq!(container.to_raw64()[2], 0);
    assert_eq!(container.to_raw64()[3], 16);
}

#[test]
fn values_come_out_the_same_from_either_kind() {
    let mut container = filled(0, 5000);
    assert!(!is_array(&container));
    let dense: Vec<u16> = container.iter();
    let held: Vec<bool> = (0..6000u16).map(|v| container.contains(v)).collect();
    for value in 4000..5000u16 {
        container.remove(value);
    }
    assert!(is_array(&container));
    for value in 4000..5000u16 {
        container.insert(value);
    }
    assert!(!is_array(&container));
    assert_eq!(container.iter(), dense);
    let mut sparse: Container<u16> = Container::new(0);
    for value in (0..3000u16).rev() {
        sparse.insert(value);
    }
    assert!(is_array(&sparse));
    assert_eq!(sparse.iter(), dense[..3000].to_vec());
    for value in 0..3000u16 {
        assert_eq!(sparse.contains(value), held[value as usize]);
    }
}

#[test]
fn min_and_max_of_either_kind() {
    let mut container: Container<u16> = Container::new(0);
    for value in 100..5000u16 {
        container.insert(value);
    }
    assert_eq!(container.min(), 100);
    assert_eq!(container.max(), 4999);
    let mut container: Container<u16> = Container::new(0);
    container.insert(9);
    container.insert(2);
    assert_eq!(container.min(), 2);
    assert_eq!(container.max(), 9);
}

#[test]
fn bulk_operations_recount() {
    let mut left = filled(0, 5000);
    let mut right: Container<u16> = Container::new(0);
    for value in 4000..9000u16 {
        right.insert(value);
    }
    let mut both = left.clone();
    both.union_with(&right);
    assert_eq!(both.len(), 9000);
    assert!(!is_array(&both));
    let mut common = left.clone();
    common.intersect_with(&right);
    assert_eq!(common.len(), 1000);
    assert!(is_array(&common));
    assert_eq!(common.min(), 4000);
    assert_eq!(common.max(), 4999);
    let mut rest = left.clone();
    rest.difference_with(&right);
    assert_eq!(rest.len(), 4000);
    assert!(is_array(&rest));
    left.symmetric_difference_with(&right);
    assert_eq!(left.len(), 8000);
    assert!(!is_array(&left));
    assert!(!left.contains(4500));
    assert!(left.contains(3999));
    assert!(left.contains(5000));
    right.difference_with(&both);
    assert_eq!(right.len(), 0);
    assert!(is_array(&right));
}

#[test]
fn combine_is_the_named_operation() {
    let left = filled(3, 10);
    let mut right: Container<u16> = Container::new(3);
    for value in 5..15u16 {
        right.insert(value);
    }
    let mut c = left.clone();
    c.combine(SetOp::Union, &right);
    assert_eq!(c.iter(), (0..15u16).collect::<Vec<u16>>());
    let mut c = left.clone();
    c.combine(SetOp::Intersection, &right);
    assert_eq!(c.iter(), (5..10u16).collect::<Vec<u16>>());
    let mut c = left.clone();
    c.combine(SetOp::Difference, &right);
    assert_eq!(c.iter(), (0..5u16).collect::<Vec<u16>>());
    let mut c = left.clone();
    c.combine(SetOp::SymmetricDifference, &right);
    assert_eq!(c.iter(), (0..5u16).chain(10..15u16).collect::<Vec<u16>>());
    assert_eq!(c.key(), 3);
}

#[test]
fn disjoint_and_subset() {
    let small = filled(0, 10);
    let large = filled(0, 5000);
    assert!(small.is_subset(&large));
    assert!(!large.is_subset(&small));
    assert!(large.is_subset(&large));
    assert!(!small.is_disjoint(&large));
    let mut other: Container<u16> = Container::new(0);
    other.insert(60000);
    assert!(other.is_disjoint(&large));
    assert!(!other.is_subset(&large));
    let empty: Container<u16> = Container::new(0);
    assert!(empty.is_subset(&small));
    assert!(empty.is_disjoint(&small));
}

#[test]
fn the_record_of_an_array() {
    let mut container: Container<u16> = Container::new(7);
    container.insert(300);
    container.insert(2);
    container.insert(65535);
    assert_eq!(container.to_raw64(), vec![7, 3, 0, 3, 2, 300, 65535]);
}

#[test]
fn the_record_of_a_bitmap() {
    let mut container: Container<u8> = Container::new(2);
    for value in 0..20u8 {
        container.insert(value);
    }
    container.insert(64);
    container.insert(255);
    assert_eq!(container.to_raw64(), vec![2, 22, 1, 4, 0xfffff, 1, 0, 1 << 63]);
}

#[test]
fn a_record_is_read_back() {
    let words: Vec<u64> = vec![99, 7, 3, 0, 3, 2, 300, 65535, 8, 0, 0, 0];
    let container = Container::<u16>::from_raw64(&words, 1).unwrap();
    assert_eq!(container.key(), 7);
    assert_eq!(container.len(), 3);
    assert_eq!(container.iter(), vec![2, 300, 65535]);
    let next = Container::<u16>::from_raw64(&words, 8).unwrap();
    assert_eq!(next.key(), 8);
    assert_eq!(next.len(), 0);
    let dense = filled(5, 5000);
    let back = Container::<u16>::from_raw64(&dense.to_raw64(), 0).unwrap();
    assert_eq!(back, dense);
}

#[test]
fn an_array_is_counted_by_its_payload() {
    let words: Vec<u64> = vec![7, 1000, 0, 2, 4, 5];
    let container = Container::<u16>::from_raw64(&words, 0).unwrap();
    assert_eq!(container.len(), 2);
    assert_eq!(container.to_raw64(), vec![7, 2, 0, 2, 4, 5]);
}

#[test]
fn a_record_that_is_cut_short_is_refused() {
    let none: Vec<u64> = Vec::new();
    assert_eq!(Container::<u16>::from_raw64(&none, 0), Err(Malformed));
    assert_eq!(Container::<u16>::from_raw64(&vec![7, 0, 0], 0), Err(Malformed));
    assert_eq!(Container::<u16>::from_raw64(&vec![7, 0, 0, 0], 1), Err(Malformed));
    assert_eq!(Container::<u16>::from_raw64(&vec![7, 0, 0, 0], usize::MAX), Err(Malformed));
    assert_eq!(Container::<u16>::from_raw64(&vec![7, 2, 0, 2, 4], 0), Err(Malformed));
    assert_eq!(Container::<u16>::from_raw64(&vec![7, 2, 0, u64::MAX, 4], 0), Err(Malformed));
    assert_eq!(Container::<u8>::from_raw64(&vec![7, 17, 1, 4, 0x1ffff, 0, 0], 0), Err(Malformed));
}

#[test]
fn a_record_with_wrong_contents_is_refused() {
    let read = |words: Vec<u64>| Container::<u8>::from_raw64(&words, 0);
    assert!(read(vec![255, 2, 0, 2, 4, 5]).is_ok());
    assert_eq!(read(vec![256, 2, 0, 2, 4, 5]), Err(Malformed));
    assert_eq!(read(vec![1, 2, 2, 2, 4, 5]), Err(Malformed));
    assert_eq!(read(vec![1, 2, 0, 2, 5, 4]), Err(Malformed));
    assert_eq!(read(vec![1, 2, 0, 2, 4, 4]), Err(Malformed));
    assert_eq!(read(vec![1, 2, 0, 2, 4, 256]), Err(Malformed));
    let seventeen: Vec<u64> = (0..17).collect();
    let mut long = vec![1, 17, 0, 17];
    long.extend(seventeen);
    assert_eq!(read(long), Err(Malformed));
    assert!(read(vec![1, 17, 1, 4, 0x1ffff, 0, 0, 0]).is_ok());
    assert_eq!(read(vec![1, 18, 1, 4, 0x1ffff, 0, 0, 0]), Err(Malformed));
    assert_eq!(read(vec![1, 16, 1, 4, 0xffff, 0, 0, 0]), Err(Malformed));
    assert_eq!(read(vec![1, 17, 1, 3, 0x1ffff, 0, 0, 0]), Err(Malformed));
    assert_eq!(read(vec![1, 17, 1, 5, 0x1ffff, 0, 0, 0, 0]), Err(Malformed));
}
