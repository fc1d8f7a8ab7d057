use std::convert::TryInto;

use watermark::WatermarkError;
use watermark::WatermarkSet;

#[test]
fn can_create_as_default() {
    let collection = WatermarkSet::default();
    assert_eq!(collection.contains(1), false);
    assert_eq!(collection.contains(0), false);
}

#[test]
fn basic_operation() {
    let mut collection = WatermarkSet::default();
    collection.insert(1).unwrap();
    assert!(collection.contains(1));
    assert_eq!(collection.contains(0), false);
}

#[test]
fn can_check_size() {
    let mut collection = WatermarkSet::default();
    let mut expected_count: usize = 0;
    let mid: u64 = rand::random_range(10..100);
    for i in 0..mid {
        collection.insert(i).unwrap();
        expected_count += 1;
    }
    let upper: u64 = rand::random_range(mid..500);
    let step: usize = rand::random_range(3..20);
    for i in (mid..upper).step_by(step) {
        collection.insert(i).unwrap();
        expected_count += 1;
    }
    assert_eq!(collection.size(), expected_count);
}

#[test]
fn can_insert_many_with_good_watermarking() {
    let mut collection = WatermarkSet::default();
    // Insert the numbers 0 through 16383 (exclusive)
    for i in 0..(1u64 << 14) - 1 {
        collection.insert(i).unwrap();
    }
    // We should have been able to raise the watermark to 16320
    assert!(collection.watermark == (1 << 14) - 64);
    // and have one entry tracking recent additions
    assert!(collection.recently_added.len() == 1);
    // And have all but the 64th bit flipped
    assert!(collection.recently_added[0] == !(1u64 << 63));

    // Add 16383 (the 16384th entry, starting at 0)
    collection.insert((1 << 14) - 1).unwrap();

    // This should have filled up the last bucket, causing
    // us to raise the watermark
    assert!(collection.watermark == (1 << 14));
    assert!(collection.recently_added.len() == 0);
}

#[test]
fn can_insert_slightly_out_of_order() {
    // Generate a list of IDs we're going to insert
    // that are "mostly" in order
    let mut items: Vec<u32> = (0..1 << 12).collect();
    for i in 0..items.len() {
        // If we've swapped this item forward, leave it here
        if items[i] != i.try_into().unwrap() {
            continue;
        }
        // Swapping items with elements within 100 units of them
        // means that the whole list will be "mostly" in order
        // and items will be within 100 units of where they "should" be
        let mut offset: i32 = rand::random_range(-100..100);
        let idx: i32 = i.try_into().unwrap();
        let count: i32 = items.len().try_into().unwrap();
        if idx + offset < 0 {
            offset = 0;
        } else if idx + offset > count - 1 {
            offset = (count - 1) - idx;
        }
        let j: usize = (idx + offset).try_into().unwrap();
        items.swap(i, j);
    }

    let mut coll = WatermarkSet::default();
    // Now, insert each item
    for item in items {
        coll.insert(item as u64).unwrap();
    }
    // And check that we watermarked correctly to this point
    assert!(coll.watermark == (1 << 12));
    assert!(coll.recently_added.len() == 0);
}

#[test]
fn full_first_bucket_is_absorbed() {
    let mut s = WatermarkSet::default();
    for i in 0..=63u64 {
        s.insert(i).unwrap();
    }
    assert_eq!(s.watermark, 64);
    assert_eq!(s.recently_added.len(), 0);
    assert_eq!(s.size(), 64);
}

#[test]
fn far_ahead_value_grows_window() {
    let mut s = WatermarkSet::default();
    s.insert(1000).unwrap();
    assert_eq!(s.watermark, 0);
    assert_eq!(s.recently_added.len(), 16);
    for i in 0..16 {
        if i == 1000 / 64 {
            assert_eq!(s.recently_added[i], 1u64 << (1000 % 64));
        } else {
            assert_eq!(s.recently_added[i], 0);
        }
    }
    assert_eq!(s.size(), 1);
}

#[test]
fn initial_watermark_counts_below() {
    let wm = WatermarkSet::new(1385);
    assert!(wm.contains(1384));
    assert_eq!(wm.contains(1385), false);
    assert_eq!(wm.contains(1386), false);
    assert_eq!(wm.size(), 1385);
}

#[test]
fn out_of_order_fills_single_bucket() {
    let mut s = WatermarkSet::default();
    for v in [1u64, 0, 3, 2] {
        s.insert(v).unwrap();
    }
    assert_eq!(s.watermark, 0);
    assert_eq!(s.recently_added.len(), 1);
    assert_eq!(s.recently_added[0], 0b1111);
}

#[test]
fn duplicate_insert_changes_nothing() {
    let mut once = WatermarkSet::default();
    once.insert(7).unwrap();
    let mut twice = WatermarkSet::default();
    twice.insert(7).unwrap();
    twice.insert(7).unwrap();
    assert_eq!(once.watermark, twice.watermark);
    assert_eq!(once.size(), twice.size());
    for x in 0..70u64 {
        assert_eq!(once.contains(x), twice.contains(x));
    }
    assert_eq!(twice.size(), 1);
}

#[test]
fn size_counts_distinct_values() {
    let mut s = WatermarkSet::default();
    for v in [5u64, 1, 5, 300, 1, 0, 300] {
        s.insert(v).unwrap();
    }
    assert_eq!(s.size(), 4);
}

#[test]
fn watermark_never_decreases() {
    let mut s = WatermarkSet::default();
    let mut last: u64 = 0;
    for v in [10u64, 3, 0, 1, 2, 4, 5, 6, 7, 8, 9, 700, 11, 64, 63, 12] {
        s.insert(v).unwrap();
        assert!(s.watermark >= last);
        last = s.watermark;
    }
}

#[test]
fn front_bucket_never_saturated() {
    let mut s = WatermarkSet::default();
    for v in [100u64, 70, 65, 64, 66, 67].into_iter().chain(0..200) {
        s.insert(v).unwrap();
        if !s.recently_added.is_empty() {
            assert_ne!(s.recently_added[0], u64::MAX);
        }
    }
}

#[test]
fn contains_reports_presence_and_absence() {
    let mut s = WatermarkSet::new(100);
    s.insert(150).unwrap();
    assert!(s.contains(0));
    assert!(s.contains(99));
    assert!(s.contains(150));
    assert_eq!(s.contains(100), false);
    assert_eq!(s.contains(149), false);
    assert_eq!(s.contains(151), false);
    assert_eq!(s.contains(10_000), false);
}

#[test]
fn watermark_overflow_is_fatal() {
    let mut s = WatermarkSet::new(u64::MAX - 63);
    for v in (u64::MAX - 63)..u64::MAX {
        s.insert(v).unwrap();
    }
    // The 64th value saturates the front bucket, and absorbing it would push
    // the watermark past u64::MAX.
    assert_eq!(s.insert(u64::MAX), Err(WatermarkError::WatermarkOverflow));
    // Every inserted value is still tracked afterwards.
    assert!(s.contains(u64::MAX));
    assert!(s.contains(u64::MAX - 63));
    assert!(s.contains(u64::MAX - 64));
}
