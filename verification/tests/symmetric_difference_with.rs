use roaring::RoaringBitmap;
use std::ops::Range;

fn collect(ranges: &[Range<u32>]) -> RoaringBitmap<u32> {
    let mut bitmap = RoaringBitmap::new();
    for range in ranges {
        for value in range.clone() {
            bitmap.insert(value);
        }
    }
    bitmap
}

#[test]
fn array() {
    let mut bitmap1: RoaringBitmap<u32> = collect(&[0..2000u32]);
    let bitmap2: RoaringBitmap<u32> = collect(&[1000..3000u32]);
    let bitmap3: RoaringBitmap<u32> = collect(&[0..1000u32, 2000..3000u32]);

    bitmap1.symmetric_difference_with(&bitmap2);

    assert_eq!(bitmap1, bitmap3);
}

#[test]
fn array_and_bitmap() {
    let mut bitmap1: RoaringBitmap<u32> = collect(&[0..2000u32]);
    let bitmap2: RoaringBitmap<u32> = collect(&[1000..8000u32]);
    let bitmap3: RoaringBitmap<u32> = collect(&[0..1000u32, 2000..8000u32]);

    bitmap1.symmetric_difference_with(&bitmap2);

    assert_eq!(bitmap1, bitmap3);
}

#[test]
fn bitmap_to_bitmap() {
    let mut bitmap1: RoaringBitmap<u32> = collect(&[0..12000u32]);
    let bitmap2: RoaringBitmap<u32> = collect(&[6000..18000u32]);
    let bitmap3: RoaringBitmap<u32> = collect(&[0..6000u32, 12000..18000u32]);

    bitmap1.symmetric_difference_with(&bitmap2);

    assert_eq!(bitmap1, bitmap3);
}

#[test]
fn bitmap_to_array() {
    let mut bitmap1: RoaringBitmap<u32> = collect(&[0..6000u32]);
    let bitmap2: RoaringBitmap<u32> = collect(&[2000..7000u32]);
    let bitmap3: RoaringBitmap<u32> = collect(&[0..2000u32, 6000..7000u32]);

    bitmap1.symmetric_difference_with(&bitmap2);

    assert_eq!(bitmap1, bitmap3);
}

#[test]
fn bitmap_and_array_to_bitmap() {
    let mut bitmap1: RoaringBitmap<u32> = collect(&[0..12000u32]);
    let bitmap2: RoaringBitmap<u32> = collect(&[11000..14000u32]);
    let bitmap3: RoaringBitmap<u32> = collect(&[0..11000u32, 12000..14000u32]);

    bitmap1.symmetric_difference_with(&bitmap2);

    assert_eq!(bitmap1, bitmap3);
}

#[test]
fn bitmap_and_array_to_array() {
    let mut bitmap1: RoaringBitmap<u32> = collect(&[0..6000u32]);
    let bitmap2: RoaringBitmap<u32> = collect(&[3000..7000u32]);
    let bitmap3: RoaringBitmap<u32> = collect(&[0..3000u32, 6000..7000u32]);

    bitmap1.symmetric_difference_with(&bitmap2);

    assert_eq!(bitmap1, bitmap3);
}

#[test]
fn arrays() {
    let mut bitmap1: RoaringBitmap<u32> =
        collect(&[0..2000u32, 1000000..1002000u32, 3000000..3001000u32]);
    let bitmap2: RoaringBitmap<u32> =
        collect(&[1000..3000u32, 1001000..1003000u32, 2000000..2000001u32]);
    let bitmap3: RoaringBitmap<u32> = collect(&[
        0..1000u32,
        1000000..1001000u32,
        2000..3000u32,
        1002000..1003000u32,
        2000000..2000001u32,
        3000000..3001000u32,
    ]);

    bitmap1.symmetric_difference_with(&bitmap2);

    assert_eq!(bitmap1, bitmap3);
}

#[test]
fn bitmaps() {
    let mut bitmap1: RoaringBitmap<u32> =
        collect(&[0..6000u32, 1000000..1012000u32, 3000000..3010000u32]);
    let bitmap2: RoaringBitmap<u32> =
        collect(&[3000..7000u32, 1006000..1018000u32, 2000000..2010000u32]);
    let bitmap3: RoaringBitmap<u32> = collect(&[
        0..3000u32,
        1000000..1006000u32,
        6000..7000u32,
        1012000..1018000u32,
        2000000..2010000u32,
        3000000..3010000u32,
    ]);

    bitmap1.symmetric_difference_with(&bitmap2);

    assert_eq!(bitmap1, bitmap3);
}
