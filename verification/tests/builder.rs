use skiplist::LayerBuilder;
use skiplist::WriteStage;
use skiplist::SkipListBuilder;

fn image_of(period: usize, keys: &[u32]) -> Vec<u8> {
    let mut builder = SkipListBuilder::new(period);
    for key in keys {
        assert_eq!(builder.insert(*key, key), Ok(()));
    }
    let mut image = Vec::new();
    assert_eq!(builder.write(&mut image), Ok(()));
    image
}

fn words(values: &[u32]) -> Vec<u8> {
    let mut bytes = Vec::new();
    for value in values {
        bytes.extend_from_slice(&value.to_be_bytes());
    }
    bytes
}

#[test]
fn layer_promotes_every_period_th_entry() {
    let mut layer = LayerBuilder::with_period(3);
    assert_eq!(layer.insert(1, &10u32), Ok(None));
    assert_eq!(layer.insert(2, &20u32), Ok(None));
    assert_eq!(layer.insert(3, &30u32), Ok(Some((3, 16))));
    assert_eq!(layer.insert(4, &40u32), Ok(None));
    assert_eq!(layer.insert(5, &50u32), Ok(None));
    assert_eq!(layer.insert(6, &60u32), Ok(Some((6, 40))));
    assert_eq!(layer.len(), 6);
    assert_eq!(layer.written_size(), 48);
    let mut bytes = Vec::new();
    assert_eq!(layer.write(&mut bytes), Ok(()));
    assert_eq!(bytes, words(&[1, 10, 2, 20, 3, 30, 4, 40, 5, 50, 6, 60]));
}

#[test]
fn layer_with_period_one_promotes_every_entry() {
    let mut layer = LayerBuilder::with_period(1);
    assert_eq!(layer.insert(7, &()), Ok(Some((7, 0))));
    assert_eq!(layer.insert(9, &()), Ok(Some((9, 4))));
    assert_eq!(layer.written_size(), 8);
}

#[test]
fn layer_takes_payloads_as_encoded() {
    let mut layer = LayerBuilder::with_period(2);
    assert_eq!(layer.insert_encoded(5, &[1, 2, 3]), Ok(None));
    assert_eq!(layer.insert_encoded(6, &[]), Ok(Some((6, 7))));
    let mut bytes = vec![0xeeu8];
    assert_eq!(layer.write(&mut bytes), Ok(()));
    assert_eq!(bytes, vec![0xee, 0, 0, 0, 5, 1, 2, 3, 0, 0, 0, 6]);
}

#[test]
fn empty_builder_writes_a_zero_count() {
    assert_eq!(image_of(4, &[]), vec![0u8, 0, 0, 0]);
}

#[test]
fn single_entry_builds_the_data_level_alone() {
    assert_eq!(image_of(4, &[10]), words(&[1, 8, 10, 10]));
    assert_eq!(image_of(2, &[10]), words(&[1, 8, 10, 10]));
}

#[test]
fn nine_entries_with_period_four_build_one_skip_level() {
    let image = image_of(4, &[10, 20, 30, 40, 50, 60, 70, 80, 90]);
    let mut expected = words(&[2, 72, 88]);
    expected.extend(words(&[10, 10, 20, 20, 30, 30, 40, 40, 50, 50, 60, 60, 70, 70, 80, 80, 90, 90]));
    expected.extend(words(&[40, 24, 80, 56]));
    assert_eq!(image, expected);
}

#[test]
fn period_two_grows_a_level_with_every_doubling() {
    let image = image_of(2, &[1, 2, 3, 4]);
    let mut expected = words(&[3, 32, 48, 56]);
    expected.extend(words(&[1, 1, 2, 2, 3, 3, 4, 4]));
    expected.extend(words(&[2, 8, 4, 24]));
    expected.extend(words(&[4, 8]));
    assert_eq!(image, expected);
}

#[test]
fn countdown_of_a_level_is_its_own() {
    // Level 1 counts its own insertions: with period 3 it promotes its third
    // pointer, which is the ninth entry.
    let image = image_of(3, &[1, 2, 3, 4, 5, 6, 7, 8, 9, 10]);
    let mut expected = words(&[3, 80, 104, 112]);
    expected.extend(words(&[1, 1, 2, 2, 3, 3, 4, 4, 5, 5, 6, 6, 7, 7, 8, 8, 9, 9, 10, 10]));
    expected.extend(words(&[3, 16, 6, 40, 9, 64]));
    expected.extend(words(&[9, 16]));
    assert_eq!(image, expected);
}

#[test]
fn period_one_creates_one_level_with_an_insertion() {
    assert_eq!(image_of(1, &[5]), words(&[1, 8, 5, 5]));
    let mut expected = words(&[2, 16, 24]);
    expected.extend(words(&[5, 5, 6, 6]));
    expected.extend(words(&[6, 8]));
    assert_eq!(image_of(1, &[5, 6]), expected);
    let mut expected = words(&[3, 24, 40, 48]);
    expected.extend(words(&[5, 5, 6, 6, 7, 7]));
    expected.extend(words(&[6, 8, 7, 16]));
    expected.extend(words(&[7, 8]));
    assert_eq!(image_of(1, &[5, 6, 7]), expected);
}

#[test]
fn write_appends_to_what_the_output_holds() {
    let mut builder = SkipListBuilder::new(4);
    assert_eq!(builder.insert(3, &()), Ok(()));
    let mut output = vec![0xaau8, 0xbb];
    assert_eq!(builder.write(&mut output), Ok(()));
    assert_eq!(output, vec![0xaa, 0xbb, 0, 0, 0, 1, 0, 0, 0, 4, 0, 0, 0, 3]);
}

#[test]
fn values_of_any_codec_go_into_the_data_level() {
    let mut builder = SkipListBuilder::new(2);
    assert_eq!(builder.insert(1, &vec![7u32, 8]), Ok(()));
    assert_eq!(builder.insert(2, &Vec::<u32>::new()), Ok(()));
    let mut image = Vec::new();
    assert_eq!(builder.write(&mut image), Ok(()));
    let mut expected = words(&[2, 24, 32]);
    expected.extend(words(&[1, 2, 7, 8, 2, 0]));
    expected.extend(words(&[2, 16]));
    assert_eq!(image, expected);
}

#[test]
fn payload_as_encoded_goes_in_unchanged() {
    let mut builder = SkipListBuilder::new(4);
    assert_eq!(builder.insert_encoded(9, &[0xde, 0xad]), Ok(()));
    let mut image = Vec::new();
    assert_eq!(builder.write(&mut image), Ok(()));
    assert_eq!(image, vec![0, 0, 0, 1, 0, 0, 0, 6, 0, 0, 0, 9, 0xde, 0xad]);
}

#[test]
fn stages_are_the_image_in_pieces() {
    let mut builder = SkipListBuilder::new(2);
    for key in [1u32, 2, 3, 4] {
        assert_eq!(builder.insert(key, &key), Ok(()));
    }
    let pieces = builder.stages();
    assert_eq!(
        pieces,
        vec![
            (WriteStage::Offsets, words(&[3, 32, 48, 56])),
            (WriteStage::Level(0), words(&[1, 1, 2, 2, 3, 3, 4, 4])),
            (WriteStage::Level(1), words(&[2, 8, 4, 24])),
            (WriteStage::Level(2), words(&[4, 8])),
        ]
    );
    let joined: Vec<u8> = pieces.into_iter().flat_map(|(_, bytes)| bytes).collect();
    assert_eq!(joined, image_of(2, &[1, 2, 3, 4]));
    let empty = SkipListBuilder::new(3).stages();
    assert_eq!(empty, vec![(WriteStage::Offsets, vec![0u8, 0, 0, 0])]);
}
