use skiplist::ByteCursor;
use skiplist::Error;
use skiplist::Layer;
use skiplist::SkipList;
use skiplist::SkipListBuilder;

fn image_of(period: usize, keys: &[u32]) -> Vec<u8> {
    let mut builder = SkipListBuilder::new(period);
    for key in keys {
        assert_eq!(builder.insert(*key, key), Ok(()));
    }
    let mut image = Vec::new();
    assert_eq!(builder.write(&mut image), Ok(()));
    image
}

fn words(values: &[u32]) -> Vec<u8> {
    let mut bytes = Vec::new();
    for value in values {
        bytes.extend_from_slice(&value.to_be_bytes());
    }
    bytes
}

#[test]
fn seek_in_nine_entries_with_period_four() {
    let image = image_of(4, &[10, 20, 30, 40, 50, 60, 70, 80, 90]);
    let mut list: SkipList<u32> = SkipList::read(&image).unwrap();
    assert_eq!(list.seek(45), Ok(Some((40, 40))));
    assert_eq!(list.seek(5), Ok(None));
    assert_eq!(list.seek(1000), Ok(Some((90, 90))));
}

#[test]
fn seek_on_fresh_readers_of_nine_entries() {
    let image = image_of(4, &[10, 20, 30, 40, 50, 60, 70, 80, 90]);
    let mut list: SkipList<u32> = SkipList::read(&image).unwrap();
    assert_eq!(list.seek(5), Ok(None));
    let mut list: SkipList<u32> = SkipList::read(&image).unwrap();
    assert_eq!(list.seek(10), Ok(None));
    let mut list: SkipList<u32> = SkipList::read(&image).unwrap();
    assert_eq!(list.seek(11), Ok(Some((10, 10))));
    let mut list: SkipList<u32> = SkipList::read(&image).unwrap();
    assert_eq!(list.seek(40), Ok(Some((30, 30))));
    let mut list: SkipList<u32> = SkipList::read(&image).unwrap();
    assert_eq!(list.seek(41), Ok(Some((40, 40))));
    let mut list: SkipList<u32> = SkipList::read(&image).unwrap();
    assert_eq!(list.seek(90), Ok(Some((80, 80))));
    let mut list: SkipList<u32> = SkipList::read(&image).unwrap();
    assert_eq!(list.seek(u32::MAX), Ok(Some((90, 90))));
}

#[test]
fn seek_leaves_the_entry_at_the_target_to_be_produced() {
    let image = image_of(4, &[10, 20, 30, 40, 50]);
    let mut list: SkipList<u32> = SkipList::read(&image).unwrap();
    assert_eq!(list.seek(30), Ok(Some((20, 20))));
    assert_eq!(list.next(), Ok(Some((30, 30))));
    assert_eq!(list.next(), Ok(Some((40, 40))));
    assert_eq!(list.next(), Ok(Some((50, 50))));
    assert_eq!(list.next(), Ok(None));
    assert_eq!(list.next(), Ok(None));
}

#[test]
fn second_seek_of_a_target_passes_over_nothing() {
    let image = image_of(4, &[10, 20, 30, 40, 50, 60, 70, 80, 90]);
    let mut list: SkipList<u32> = SkipList::read(&image).unwrap();
    assert_eq!(list.seek(45), Ok(Some((40, 40))));
    assert_eq!(list.seek(45), Ok(None));
    assert_eq!(list.next(), Ok(Some((50, 50))));
    let mut list: SkipList<u32> = SkipList::read(&image).unwrap();
    assert_eq!(list.seek(5), Ok(None));
    assert_eq!(list.seek(5), Ok(None));
}

#[test]
fn two_fresh_readers_find_the_same() {
    let image = image_of(3, &[2, 4, 6, 8, 10, 12, 14, 16, 18, 20, 22]);
    for target in 0..25 {
        let mut first: SkipList<u32> = SkipList::read(&image).unwrap();
        let mut second: SkipList<u32> = SkipList::read(&image).unwrap();
        assert_eq!(first.seek(target), second.seek(target));
    }
}

#[test]
fn empty_list_has_no_level_and_finds_nothing() {
    let image = image_of(4, &[]);
    assert_eq!(image, vec![0u8, 0, 0, 0]);
    for target in [0u32, 1, 1000, u32::MAX] {
        let mut list: SkipList<u32> = SkipList::read(&image).unwrap();
        assert_eq!(list.seek(target), Ok(None));
        assert_eq!(list.next(), Ok(None));
    }
}

#[test]
fn single_entry_is_found_from_above_only() {
    let image = image_of(4, &[10]);
    let mut list: SkipList<u32> = SkipList::read(&image).unwrap();
    assert_eq!(list.seek(10), Ok(None));
    let mut list: SkipList<u32> = SkipList::read(&image).unwrap();
    assert_eq!(list.seek(11), Ok(Some((10, 10))));
}

#[test]
fn collect_gives_the_data_level_in_order() {
    let keys = [10u32, 20, 30, 40, 50, 60, 70, 80, 90];
    let image = image_of(4, &keys);
    let mut list: SkipList<u32> = SkipList::read(&image).unwrap();
    let expected: Vec<(u32, u32)> = keys.iter().map(|key| (*key, *key)).collect();
    assert_eq!(list.collect(), Ok(expected));
    assert_eq!(list.collect(), Ok(Vec::new()));
}

#[test]
fn collect_after_a_seek_gives_what_was_not_passed() {
    let image = image_of(2, &[1, 2, 3, 4, 5]);
    let mut list: SkipList<u32> = SkipList::read(&image).unwrap();
    assert_eq!(list.seek(4), Ok(Some((3, 3))));
    assert_eq!(list.collect(), Ok(vec![(4, 4), (5, 5)]));
}

#[test]
fn unit_values_take_no_bytes() {
    let mut builder = SkipListBuilder::new(2);
    for key in [3u32, 5, 8] {
        assert_eq!(builder.insert(key, &()), Ok(()));
    }
    let mut image = Vec::new();
    assert_eq!(builder.write(&mut image), Ok(()));
    let mut list: SkipList<()> = SkipList::read(&image).unwrap();
    assert_eq!(list.seek(6), Ok(Some((5, ()))));
    assert_eq!(list.next(), Ok(Some((8, ()))));
    assert_eq!(list.next(), Ok(None));
}

#[test]
fn sequence_values_round_trip() {
    let entries: Vec<(u32, Vec<u32>)> =
        vec![(1, vec![]), (4, vec![7, 8, 9]), (6, vec![1]), (9, vec![2, 3]), (12, vec![])];
    let mut builder = SkipListBuilder::new(2);
    for (key, value) in entries.iter() {
        assert_eq!(builder.insert(*key, value), Ok(()));
    }
    let mut image = Vec::new();
    assert_eq!(builder.write(&mut image), Ok(()));
    let mut list: SkipList<Vec<u32>> = SkipList::read(&image).unwrap();
    assert_eq!(list.collect(), Ok(entries.clone()));
    let mut list: SkipList<Vec<u32>> = SkipList::read(&image).unwrap();
    assert_eq!(list.seek(9), Ok(Some((6, vec![1]))));
    assert_eq!(list.seek(100), Ok(Some((12, vec![]))));
}

#[test]
fn header_that_does_not_decode_is_a_read_error() {
    assert!(matches!(SkipList::<u32>::read(&[]), Err(Error::ReadError)));
    assert!(matches!(SkipList::<u32>::read(&[0, 0, 0]), Err(Error::ReadError)));
    assert!(matches!(SkipList::<u32>::read(&[0, 0, 0, 2, 0, 0, 0, 0]), Err(Error::ReadError)));
}

#[test]
fn level_lengths_beyond_the_image_are_a_read_error() {
    let mut image = words(&[1, 16]);
    image.extend(words(&[10, 10]));
    assert!(matches!(SkipList::<u32>::read(&image), Err(Error::ReadError)));
}

#[test]
fn level_lengths_out_of_order_are_a_read_error() {
    let mut image = words(&[2, 16, 8]);
    image.extend(words(&[10, 10, 20, 20]));
    assert!(matches!(SkipList::<u32>::read(&image), Err(Error::ReadError)));
}

#[test]
fn truncated_value_is_a_read_error() {
    let mut image = words(&[1, 14]);
    image.extend(words(&[10, 10, 20]));
    image.extend_from_slice(&[0, 0]);
    let mut list: SkipList<u32> = SkipList::read(&image).unwrap();
    assert_eq!(list.next(), Ok(Some((10, 10))));
    assert_eq!(list.next(), Err(Error::ReadError));
    assert_eq!(list.next(), Err(Error::ReadError));
    let mut list: SkipList<u32> = SkipList::read(&image).unwrap();
    assert_eq!(list.seek(100), Err(Error::ReadError));
    let mut list: SkipList<u32> = SkipList::read(&image).unwrap();
    assert_eq!(list.seek(15), Ok(Some((10, 10))));
    let mut list: SkipList<u32> = SkipList::read(&image).unwrap();
    assert_eq!(list.collect(), Err(Error::ReadError));
}

#[test]
fn truncated_key_is_a_read_error_and_not_the_end() {
    let mut image = words(&[1, 10]);
    image.extend(words(&[10, 10]));
    image.extend_from_slice(&[0, 0]);
    let mut list: SkipList<u32> = SkipList::read(&image).unwrap();
    assert_eq!(list.next(), Err(Error::ReadError));
    let mut list: SkipList<u32> = SkipList::read(&image).unwrap();
    assert_eq!(list.seek(11), Err(Error::ReadError));
    let mut list: SkipList<u32> = SkipList::read(&image).unwrap();
    assert_eq!(list.seek(10), Ok(None));
}

#[test]
fn level_too_short_for_a_key_is_empty() {
    let mut image = words(&[1, 3]);
    image.extend_from_slice(&[0, 0, 9]);
    let mut list: SkipList<u32> = SkipList::read(&image).unwrap();
    assert_eq!(list.next(), Ok(None));
    assert_eq!(list.seek(u32::MAX), Ok(None));
}

#[test]
fn sentinel_key_ends_a_level() {
    let mut image = words(&[1, 24]);
    image.extend(words(&[10, 10, u32::MAX, 20, 30, 30]));
    let mut list: SkipList<u32> = SkipList::read(&image).unwrap();
    assert_eq!(list.next(), Ok(Some((10, 10))));
    assert_eq!(list.next(), Ok(None));
    assert_eq!(list.seek(u32::MAX), Ok(None));
}

#[test]
fn layer_produces_and_seeks() {
    let bytes = words(&[10, 1, 20, 2, 30, 3]);
    let mut layer: Layer<u32> = Layer::read(ByteCursor::new(&bytes));
    assert_eq!(layer.seek(25), Ok(Some((20, 2))));
    assert_eq!(layer.seek(25), Ok(None));
    assert_eq!(layer.next(), Ok(Some((30, 3))));
    assert_eq!(layer.next(), Ok(None));
    layer.seek_offset(8);
    assert_eq!(layer.next(), Ok(Some((20, 2))));
    layer.seek_offset(0);
    assert_eq!(layer.collect(), Ok(vec![(10, 1), (20, 2), (30, 3)]));
    layer.seek_offset(24);
    assert_eq!(layer.next(), Ok(None));
    layer.seek_offset(1000);
    assert_eq!(layer.next(), Ok(None));
    layer.seek_offset(22);
    assert_eq!(layer.next(), Ok(None));
    layer.seek_offset(16);
    assert_eq!(layer.seek(31), Ok(Some((30, 3))));
}

#[test]
fn layer_reads_from_where_the_cursor_stands() {
    let bytes = words(&[10, 1, 20, 2]);
    let mut cursor = ByteCursor::new(&bytes);
    cursor.seek_to(8);
    let mut layer: Layer<u32> = Layer::read(cursor);
    assert_eq!(layer.next(), Ok(Some((20, 2))));
    assert_eq!(layer.next(), Ok(None));
}

#[test]
fn empty_layer_produces_nothing() {
    let mut layer: Layer<u32> = Layer::empty();
    assert_eq!(layer.next(), Ok(None));
    assert_eq!(layer.seek(u32::MAX), Ok(None));
    assert_eq!(layer.collect(), Ok(Vec::new()));
}
