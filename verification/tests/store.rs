use roaring::sorted::search;
use roaring::store::{bit, bitmap_location, key};
use roaring::{ExtInt, Halveable, SetOp, Store};

fn array_of(values: &[u16]) -> Store<u16> {
    let mut store = Store::Array(Vec::new());
    for &value in values {
        store.insert(value);
    }
    store
}

fn bitmap_of(values: &[u16]) -> Store<u16> {
    let mut store = Store::Array(Vec::new()).to_bitmap();
    for &value in values {
        store.insert(value);
    }
    store
}

fn both_kinds(values: &[u16]) -> Vec<Store<u16>> {
    vec![array_of(values), bitmap_of(values)]
}

#[test]
fn widths_have_their_largest_value() {
    assert_eq!(<u8 as ExtInt>::max_value(), 255u8);
    assert_eq!(<u16 as ExtInt>::max_value(), 65535u16);
    assert_eq!(<u32 as ExtInt>::max_value(), 4294967295u32);
    assert_eq!(<u64 as ExtInt>::max_value(), 18446744073709551615u64);
}

#[test]
fn narrowing_drops_high_bits() {
    assert_eq!(<u8 as ExtInt>::from64(0x1234), 0x34u8);
    assert_eq!(<u16 as ExtInt>::from64(0x12345678), 0x5678u16);
    assert_eq!(<u32 as ExtInt>::from64(0x1_0000_0007), 7u32);
    assert_eq!(<u16 as ExtInt>::from64(65535), 65535u16);
    assert_eq!(<u64 as ExtInt>::from64(u64::MAX), u64::MAX);
    assert_eq!(40000u16.to64(), 40000u64);
    assert_eq!(u64::MAX.to64(), u64::MAX);
}

#[test]
fn values_split_into_halves_and_back() {
    assert_eq!(0x1234_5678u32.split(), (0x1234u16, 0x5678u16));
    assert_eq!(<u32 as Halveable>::join(0x1234, 0x5678), 0x1234_5678u32);
    assert_eq!(0xabcdu16.split(), (0xabu8, 0xcdu8));
    assert_eq!(<u16 as Halveable>::join(0xab, 0xcd), 0xabcdu16);
    assert_eq!(u32::MAX.split(), (u16::MAX, u16::MAX));
    assert_eq!(0u32.split(), (0u16, 0u16));
    assert_eq!(0x1234_5678_9abc_def0u64.split(), (0x1234_5678u32, 0x9abc_def0u32));
    assert_eq!(<u64 as Halveable>::join(0x1234_5678, 0x9abc_def0), 0x1234_5678_9abc_def0u64);
    assert_eq!(u64::MAX.split(), (u32::MAX, u32::MAX));
}

#[test]
fn bit_places() {
    assert_eq!(key(0u16), 0);
    assert_eq!(bit(0u16), 0);
    assert_eq!(key(63u16), 0);
    assert_eq!(bit(63u16), 63);
    assert_eq!(key(64u16), 1);
    assert_eq!(bit(64u16), 0);
    assert_eq!(bitmap_location(65535u16), (1023, 63));
    assert_eq!(bitmap_location(200u8), (3, 8));
}

#[test]
fn search_finds_places() {
    let vec: Vec<u16> = vec![2, 4, 6, 8];
    assert_eq!(search(&vec, 2), Ok(0));
    assert_eq!(search(&vec, 8), Ok(3));
    assert_eq!(search(&vec, 1), Err(0));
    assert_eq!(search(&vec, 5), Err(2));
    assert_eq!(search(&vec, 9), Err(4));
    let none: Vec<u16> = Vec::new();
    assert_eq!(search(&none, 7), Err(0));
}

#[test]
fn insert_keeps_an_array_sorted() {
    let mut store: Store<u16> = Store::Array(Vec::new());
    assert!(store.insert(5));
    assert!(store.insert(1));
    assert!(store.insert(9));
    assert!(!store.insert(5));
    assert_eq!(store, Store::Array(vec![1, 5, 9]));
    assert!(store.remove(5));
    assert!(!store.remove(5));
    assert_eq!(store, Store::Array(vec![1, 9]));
}

#[test]
fn insert_sets_a_bit() {
    let mut store: Store<u8> = Store::Array(Vec::new()).to_bitmap();
    assert_eq!(store, Store::Bitmap(vec![0, 0, 0, 0]));
    assert!(store.insert(0));
    assert!(store.insert(65));
    assert!(store.insert(255));
    assert!(!store.insert(65));
    assert_eq!(store, Store::Bitmap(vec![1, 2, 0, 1 << 63]));
    assert!(store.contains(65));
    assert!(!store.contains(64));
    assert!(store.remove(65));
    assert!(!store.remove(65));
    assert_eq!(store, Store::Bitmap(vec![1, 0, 0, 1 << 63]));
}

#[test]
fn a_bitmap_has_a_bit_for_each_value() {
    match array_of(&[1, 2, 3]).to_bitmap() {
        Store::Bitmap(bits) => assert_eq!(bits.len(), 1024),
        Store::Array(_) => panic!("still an array"),
    }
    let wide: Store<u8> = Store::Array(vec![7]);
    assert_eq!(wide.to_bitmap(), Store::Bitmap(vec![128, 0, 0, 0]));
}

#[test]
fn conversions_keep_the_values() {
    let values = [0u16, 1, 63, 64, 65, 4000, 65535];
    let array = array_of(&values);
    let bitmap = array.to_bitmap();
    assert_eq!(bitmap, bitmap_of(&values));
    assert_eq!(bitmap.to_array(), array);
    assert_eq!(bitmap.iter(), values.to_vec());
    assert_eq!(array.iter(), values.to_vec());
}

#[test]
fn len_counts_values() {
    for store in both_kinds(&[]) {
        assert_eq!(store.len(), 0);
    }
    for store in both_kinds(&[3, 64, 65, 128, 65535]) {
        assert_eq!(store.len(), 5);
    }
    let mut full: Store<u8> = Store::Array(Vec::new()).to_bitmap();
    for value in 0..=255u8 {
        full.insert(value);
    }
    assert_eq!(full.len(), 256);
    assert_eq!(full, Store::Bitmap(vec![u64::MAX; 4]));
}

#[test]
fn min_and_max() {
    for store in both_kinds(&[700, 64, 63, 40000]) {
        assert_eq!(store.min(), 63);
        assert_eq!(store.max(), 40000);
    }
    for store in both_kinds(&[0]) {
        assert_eq!(store.min(), 0);
        assert_eq!(store.max(), 0);
    }
    for store in both_kinds(&[65535]) {
        assert_eq!(store.min(), 65535);
        assert_eq!(store.max(), 65535);
    }
}

#[test]
fn disjoint_in_every_pairing() {
    for left in both_kinds(&[1, 5, 900]) {
        for right in both_kinds(&[2, 6, 901]) {
            assert!(left.is_disjoint(&right));
        }
        for right in both_kinds(&[2, 900]) {
            assert!(!left.is_disjoint(&right));
        }
        for right in both_kinds(&[]) {
            assert!(left.is_disjoint(&right));
            assert!(right.is_disjoint(&left));
        }
    }
}

#[test]
fn subset_in_every_pairing() {
    let small = [5u16, 900];
    let large = [1u16, 5, 900, 901];
    assert!(array_of(&small).is_subset(&array_of(&large)));
    assert!(array_of(&small).is_subset(&bitmap_of(&large)));
    assert!(bitmap_of(&small).is_subset(&bitmap_of(&large)));
    assert!(!array_of(&large).is_subset(&array_of(&small)));
    assert!(!array_of(&large).is_subset(&bitmap_of(&small)));
    assert!(!bitmap_of(&large).is_subset(&bitmap_of(&small)));
    assert!(array_of(&[]).is_subset(&array_of(&[])));
    assert!(array_of(&small).is_subset(&array_of(&small)));
    assert!(!array_of(&[5, 6]).is_subset(&array_of(&[5, 7])));
}

#[test]
fn a_bitmap_is_never_reported_within_an_array() {
    assert!(!bitmap_of(&[5, 900]).is_subset(&array_of(&[1, 5, 900, 901])));
    assert!(!bitmap_of(&[]).is_subset(&array_of(&[])));
}

#[test]
fn algebra_in_every_pairing() {
    let a = [1u16, 2, 3, 64, 700, 65535];
    let b = [0u16, 2, 64, 65, 700, 701];
    let union = [0u16, 1, 2, 3, 64, 65, 700, 701, 65535];
    let intersection = [2u16, 64, 700];
    let difference = [1u16, 3, 65535];
    let symmetric = [0u16, 1, 3, 65, 701, 65535];
    for left in both_kinds(&a) {
        for right in both_kinds(&b) {
            let mut store = left.clone();
            store.union_with(&right);
            assert_eq!(store.iter(), union.to_vec());
            let mut store = left.clone();
            store.intersect_with(&right);
            assert_eq!(store.iter(), intersection.to_vec());
            let mut store = left.clone();
            store.difference_with(&right);
            assert_eq!(store.iter(), difference.to_vec());
            let mut store = left.clone();
            store.symmetric_difference_with(&right);
            assert_eq!(store.iter(), symmetric.to_vec());
        }
    }
}

#[test]
fn algebra_settles_the_kind_of_the_result() {
    let a = [1u16, 2, 3];
    let b = [2u16, 3, 4];
    let kind = |store: &Store<u16>| match store {
        Store::Array(_) => "array",
        Store::Bitmap(_) => "bitmap",
    };
    let run = |left: &Store<u16>, right: &Store<u16>, op: SetOp| {
        let mut store = left.clone();
        match op {
            SetOp::Union => store.union_with(right),
            SetOp::Intersection => store.intersect_with(right),
            SetOp::Difference => store.difference_with(right),
            SetOp::SymmetricDifference => store.symmetric_difference_with(right),
        }
        kind(&store)
    };
    let (aa, ab) = (array_of(&a), bitmap_of(&a));
    let (ba, bb) = (array_of(&b), bitmap_of(&b));
    assert_eq!(run(&aa, &ba, SetOp::Union), "array");
    assert_eq!(run(&aa, &bb, SetOp::Union), "bitmap");
    assert_eq!(run(&ab, &ba, SetOp::Union), "bitmap");
    assert_eq!(run(&ab, &bb, SetOp::Union), "bitmap");
    assert_eq!(run(&aa, &ba, SetOp::Intersection), "array");
    assert_eq!(run(&aa, &bb, SetOp::Intersection), "array");
    assert_eq!(run(&ab, &ba, SetOp::Intersection), "array");
    assert_eq!(run(&ab, &bb, SetOp::Intersection), "bitmap");
    assert_eq!(run(&aa, &ba, SetOp::Difference), "array");
    assert_eq!(run(&aa, &bb, SetOp::Difference), "array");
    assert_eq!(run(&ab, &ba, SetOp::Difference), "bitmap");
    assert_eq!(run(&ab, &bb, SetOp::Difference), "bitmap");
    assert_eq!(run(&aa, &ba, SetOp::SymmetricDifference), "array");
    assert_eq!(run(&aa, &bb, SetOp::SymmetricDifference), "bitmap");
    assert_eq!(run(&ab, &ba, SetOp::SymmetricDifference), "bitmap");
    assert_eq!(run(&ab, &bb, SetOp::SymmetricDifference), "bitmap");
}

#[test]
fn algebra_with_an_empty_side() {
    let a = [7u16, 8];
    for left in both_kinds(&a) {
        for right in both_kinds(&[]) {
            let mut store = left.clone();
            store.union_with(&right);
            assert_eq!(store.iter(), a.to_vec());
            let mut store = left.clone();
            store.intersect_with(&right);
            assert_eq!(store.iter(), Vec::<u16>::new());
            let mut store = left.clone();
            store.difference_with(&right);
            assert_eq!(store.iter(), a.to_vec());
            let mut store = left.clone();
            store.symmetric_difference_with(&right);
            assert_eq!(store.iter(), a.to_vec());
            let mut store = right.clone();
            store.symmetric_difference_with(&left);
            assert_eq!(store.iter(), a.to_vec());
            let mut store = right.clone();
            store.difference_with(&left);
            assert_eq!(store.iter(), Vec::<u16>::new());
        }
    }
}

#[test]
fn symmetric_difference_appends_what_is_left_of_the_right() {
    let mut store = array_of(&[1, 2]);
    store.symmetric_difference_with(&array_of(&[2, 5, 6, 7]));
    assert_eq!(store, Store::Array(vec![1, 5, 6, 7]));
    let mut store = array_of(&[5, 6]);
    store.symmetric_difference_with(&array_of(&[1, 2, 6]));
    assert_eq!(store, Store::Array(vec![1, 2, 5]));
}

#[test]
fn a_clone_is_equal() {
    for store in both_kinds(&[1, 64, 4000]) {
        assert_eq!(store.clone(), store);
    }
}

#[test]
fn set_operations_say_what_they_keep() {
    assert!(SetOp::Union.keeps_first() && SetOp::Union.keeps_second());
    assert!(!SetOp::Intersection.keeps_first() && !SetOp::Intersection.keeps_second());
    assert!(SetOp::Difference.keeps_first() && !SetOp::Difference.keeps_second());
    assert!(SetOp::SymmetricDifference.keeps_first());
    assert!(SetOp::SymmetricDifference.keeps_second());
}
