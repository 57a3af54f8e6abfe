use skiplist::BinarySerializable;
use skiplist::ByteCursor;
use skiplist::Layer;
use skiplist::SkipList;
use skiplist::SkipListBuilder;

fn keys_of(count: u32, stride: u32) -> Vec<u32> {
    (0..count).map(|index| 3 + index * stride).collect()
}

fn image_of(period: usize, keys: &[u32]) -> Vec<u8> {
    let mut builder = SkipListBuilder::new(period);
    for key in keys {
        assert_eq!(builder.insert(*key, &(key * 2 + 1)), Ok(()));
    }
    let mut image = Vec::new();
    assert_eq!(builder.write(&mut image), Ok(()));
    image
}

fn scan(keys: &[u32], target: u32) -> Option<(u32, u32)> {
    let mut found = None;
    for key in keys {
        if *key < target {
            found = Some((*key, key * 2 + 1));
        }
    }
    found
}

#[test]
fn data_level_gives_back_what_was_inserted() {
    for period in 1..=6usize {
        for count in 0..=40u32 {
            let keys = keys_of(count, 5);
            let image = image_of(period, &keys);
            let mut list: SkipList<u32> = SkipList::read(&image).unwrap();
            let expected: Vec<(u32, u32)> = keys.iter().map(|key| (*key, key * 2 + 1)).collect();
            assert_eq!(list.collect(), Ok(expected));
        }
    }
}

#[test]
fn first_seek_agrees_with_a_scan() {
    for period in 1..=6usize {
        for count in 0..=30u32 {
            let keys = keys_of(count, 4);
            let image = image_of(period, &keys);
            for target in 0..(4 * count + 10) {
                let mut list: SkipList<u32> = SkipList::read(&image).unwrap();
                assert_eq!(list.seek(target), Ok(scan(&keys, target)));
            }
            let mut list: SkipList<u32> = SkipList::read(&image).unwrap();
            assert_eq!(list.seek(u32::MAX), Ok(scan(&keys, u32::MAX)));
        }
    }
}

#[test]
fn seek_agrees_with_a_scan_on_a_long_run() {
    let keys = keys_of(2000, 7);
    for period in [2usize, 3, 8, 64] {
        let image = image_of(period, &keys);
        for target in [0u32, 3, 4, 500, 7000, 7003, 13_990, 13_996, 13_997, 20_000] {
            let mut list: SkipList<u32> = SkipList::read(&image).unwrap();
            assert_eq!(list.seek(target), Ok(scan(&keys, target)));
        }
    }
}

#[test]
fn rising_targets_find_what_lies_between_them() {
    let keys = keys_of(50, 10);
    let image = image_of(4, &keys);
    let mut list: SkipList<u32> = SkipList::read(&image).unwrap();
    assert_eq!(list.seek(100), Ok(scan(&keys, 100)));
    assert_eq!(list.seek(250), Ok(scan(&keys, 250)));
    assert_eq!(list.seek(251), Ok(None));
    assert_eq!(list.seek(480), Ok(scan(&keys, 480)));
    assert_eq!(list.seek(10_000), Ok(scan(&keys, 10_000)));
}

#[test]
fn seek_does_not_change_what_the_image_holds() {
    let keys = keys_of(20, 3);
    let image = image_of(3, &keys);
    let copy = image.clone();
    let mut list: SkipList<u32> = SkipList::read(&image).unwrap();
    assert_eq!(list.seek(30), Ok(scan(&keys, 30)));
    assert_eq!(image, copy);
}

/// The bytes of each level of an image, the data level first.
fn levels_of(image: &[u8]) -> Vec<&[u8]> {
    let mut cursor = ByteCursor::new(image);
    let offsets = Vec::<u32>::deserialize(&mut cursor).unwrap();
    let body = &image[cursor.offset()..];
    let mut levels = Vec::new();
    let mut start = 0usize;
    for stop in offsets {
        levels.push(&body[start..stop as usize]);
        start = stop as usize;
    }
    levels
}

/// Seeks `target` in one level, entered at `carried`, and says what was found
/// and how many entries were produced on the way.
fn seek_counted(level: &[u8], carried: Option<u32>, target: u32) -> (Option<(u32, u32)>, usize) {
    let mut untouched: Layer<u32> = Layer::read(ByteCursor::new(level));
    let mut sought: Layer<u32> = Layer::read(ByteCursor::new(level));
    if let Some(offset) = carried {
        untouched.seek_offset(offset as usize);
        sought.seek_offset(offset as usize);
    }
    let found = sought.seek(target).unwrap();
    let before = untouched.collect().unwrap().len();
    let after = sought.collect().unwrap().len();
    (found, before - after)
}

#[test]
fn first_seek_produces_no_more_than_a_period_in_each_level() {
    for period in 1..=6usize {
        for count in 1..=40u32 {
            let keys = keys_of(count, 4);
            let image = image_of(period, &keys);
            let levels = levels_of(&image);
            for target in 0..(4 * count + 10) {
                let mut carried = None;
                let mut found = None;
                for level in levels.iter().rev() {
                    let (entry, produced) = seek_counted(level, carried, target);
                    assert!(produced <= period);
                    carried = entry.map(|(_, value)| value);
                    found = entry;
                }
                assert_eq!(found, scan(&keys, target));
            }
        }
    }
}

#[test]
fn tower_is_as_high_as_the_period_makes_it() {
    assert_eq!(levels_of(&image_of(4, &keys_of(3, 1))).len(), 1);
    assert_eq!(levels_of(&image_of(4, &keys_of(4, 1))).len(), 2);
    assert_eq!(levels_of(&image_of(4, &keys_of(15, 1))).len(), 2);
    assert_eq!(levels_of(&image_of(4, &keys_of(16, 1))).len(), 3);
    assert_eq!(levels_of(&image_of(4, &keys_of(64, 1))).len(), 4);
    assert_eq!(levels_of(&image_of(2, &keys_of(1000, 1))).len(), 10);
    assert_eq!(levels_of(&image_of(1, &keys_of(5, 1))).len(), 5);
}
