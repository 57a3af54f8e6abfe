use skiplist::BinarySerializable;
use skiplist::ByteCursor;
use skiplist::Error;

#[test]
fn unit_takes_no_bytes() {
    let mut sink = vec![7u8];
    assert_eq!(().serialize(&mut sink), Ok(0));
    assert_eq!(sink, vec![7u8]);
    let bytes = [1u8, 2, 3];
    let mut cursor = ByteCursor::new(&bytes);
    assert_eq!(<()>::deserialize(&mut cursor), Ok(()));
    assert_eq!(cursor.offset(), 0);
}

#[test]
fn word_is_written_most_significant_byte_first() {
    let mut sink = Vec::new();
    assert_eq!(0x0102_0304u32.serialize(&mut sink), Ok(4));
    assert_eq!(sink, vec![1u8, 2, 3, 4]);
    assert_eq!(267u32.serialize(&mut sink), Ok(4));
    assert_eq!(sink, vec![1u8, 2, 3, 4, 0, 0, 1, 11]);
}

#[test]
fn word_is_read_most_significant_byte_first() {
    let bytes = [0x47u8, 0xd9, 0x3d, 0x66, 0xff];
    let mut cursor = ByteCursor::new(&bytes);
    assert_eq!(u32::deserialize(&mut cursor), Ok(1_205_419_366));
    assert_eq!(cursor.offset(), 4);
    assert_eq!(cursor.remaining_len(), 1);
}

#[test]
fn word_needs_four_bytes() {
    let bytes = [1u8, 2, 3];
    let mut cursor = ByteCursor::new(&bytes);
    assert_eq!(u32::deserialize(&mut cursor), Err(Error::ReadError));
    assert_eq!(cursor.offset(), 0);
    let nothing: [u8; 0] = [];
    let mut cursor = ByteCursor::new(&nothing);
    assert_eq!(cursor.read_u32(), Err(Error::ReadError));
}

#[test]
fn extreme_words_round_trip() {
    for word in [0u32, 1, 255, 256, 65_535, 65_536, 0x00ff_ffff, 0x0100_0000, u32::MAX - 1, u32::MAX] {
        let mut sink = Vec::new();
        assert_eq!(word.serialize(&mut sink), Ok(4));
        let mut cursor = ByteCursor::new(&sink);
        assert_eq!(u32::deserialize(&mut cursor), Ok(word));
    }
}

#[test]
fn sequence_is_a_count_and_its_items() {
    let mut sink = Vec::new();
    let items: Vec<u32> = vec![5, 0x0a0b_0c0d];
    assert_eq!(items.serialize(&mut sink), Ok(12));
    assert_eq!(sink, vec![0u8, 0, 0, 2, 0, 0, 0, 5, 0x0a, 0x0b, 0x0c, 0x0d]);
    let mut cursor = ByteCursor::new(&sink);
    assert_eq!(Vec::<u32>::deserialize(&mut cursor), Ok(items));
    assert_eq!(cursor.offset(), 12);
}

#[test]
fn empty_sequence_is_a_zero_count() {
    let mut sink = Vec::new();
    let items: Vec<u32> = Vec::new();
    assert_eq!(items.serialize(&mut sink), Ok(4));
    assert_eq!(sink, vec![0u8, 0, 0, 0]);
    let mut cursor = ByteCursor::new(&sink);
    assert_eq!(Vec::<u32>::deserialize(&mut cursor), Ok(Vec::new()));
}

#[test]
fn nested_sequences_round_trip() {
    let items: Vec<Vec<u32>> = vec![vec![1, 2, 3], vec![], vec![9]];
    let mut sink = Vec::new();
    assert_eq!(items.serialize(&mut sink), Ok(4 + (4 + 12) + 4 + (4 + 4)));
    assert_eq!(sink.len(), 32);
    let mut cursor = ByteCursor::new(&sink);
    assert_eq!(Vec::<Vec<u32>>::deserialize(&mut cursor), Ok(items));
    assert_eq!(cursor.remaining_len(), 0);
}

#[test]
fn sequence_of_units_is_its_count() {
    let items: Vec<()> = vec![(), (), ()];
    let mut sink = Vec::new();
    assert_eq!(items.serialize(&mut sink), Ok(4));
    assert_eq!(sink, vec![0u8, 0, 0, 3]);
    let mut cursor = ByteCursor::new(&sink);
    assert_eq!(Vec::<()>::deserialize(&mut cursor), Ok(items));
}

#[test]
fn truncated_sequence_is_a_read_error() {
    let bytes = [0u8, 0, 0, 2, 0, 0, 0, 5, 0, 0];
    let mut cursor = ByteCursor::new(&bytes);
    assert_eq!(Vec::<u32>::deserialize(&mut cursor), Err(Error::ReadError));
    let short = [0u8, 0];
    let mut cursor = ByteCursor::new(&short);
    assert_eq!(Vec::<u32>::deserialize(&mut cursor), Err(Error::ReadError));
}

#[test]
fn cursor_moves_within_its_bytes() {
    let bytes = [0u8, 0, 0, 1, 0, 0, 0, 2];
    let mut cursor = ByteCursor::new(&bytes);
    cursor.seek_to(4);
    assert_eq!(cursor.offset(), 4);
    assert_eq!(cursor.read_u32(), Ok(2));
    assert_eq!(cursor.remaining_len(), 0);
    cursor.seek_to(100);
    assert_eq!(cursor.offset(), 8);
    cursor.seek_to(0);
    assert_eq!(cursor.read_u32(), Ok(1));
}
