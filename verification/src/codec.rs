//! The value codec: how a value becomes bytes and how bytes become a value.

use vstd::prelude::*;

use crate::error::Error;
use crate::error::WriteStage;
use crate::wire::be_bytes;
use crate::wire::be_value;
use crate::wire::lemma_be_value_of_bytes;
use crate::wire::write_u32_be;
use crate::wire::ByteCursor;

verus! {

/// A type whose values can be written to bytes and read back. Contracts speak
/// of a value through its deep view.
pub trait BinarySerializable: Sized + DeepView {
    /// Whether the format can hold `value`.
    spec fn encodable(value: <Self as DeepView>::V) -> bool;

    /// The bytes that stand for `value`.
    spec fn encoding(value: <Self as DeepView>::V) -> Seq<u8>;

    /// The value at the front of `bytes` and the number of bytes it takes, or
    /// nothing where the bytes are malformed or end too early.
    spec fn decoding(bytes: Seq<u8>) -> Option<(<Self as DeepView>::V, nat)>;

    /// Decoding reads back what encoding wrote, whatever follows it.
    proof fn lemma_decoding_of_encoding(value: <Self as DeepView>::V, rest: Seq<u8>)
        requires
            Self::encodable(value),
        ensures
            Self::decoding(Self::encoding(value) + rest) == Some(
                (value, Self::encoding(value).len()),
            ),
    ;

    /// Appends the encoding of `self` to `writer` and says how many bytes that
    /// took. It fails exactly on a value that the format cannot hold, and then
    /// `writer` holds no defined content.
    fn serialize(&self, writer: &mut Vec<u8>) -> (written: Result<usize, Error>)
        ensures
            match written {
                Ok(count) => {
                    &&& Self::encodable(self.deep_view())
                    &&& count == Self::encoding(self.deep_view()).len()
                    &&& final(writer)@ == old(writer)@ + Self::encoding(self.deep_view())
                },
                Err(_) => !Self::encodable(self.deep_view()),
            },
    ;

    /// Reads one value at the cursor and steps over it. Where the bytes ahead
    /// decode to nothing the read fails.
    fn deserialize(reader: &mut ByteCursor<'_>) -> (value: Result<Self, Error>)
        requires
            old(reader).wf(),
        ensures
            final(reader).wf(),
            final(reader).bytes() == old(reader).bytes(),
            match Self::decoding(old(reader).remaining()) {
                Some((expected, taken)) => {
                    &&& value matches Ok(found)
                    &&& found.deep_view() == expected
                    &&& final(reader).position() == old(reader).position() + taken
                },
                None => value == Err::<Self, Error>(Error::ReadError),
            },
    ;
}

impl BinarySerializable for () {
    open spec fn encodable(value: ()) -> bool {
        true
    }

    open spec fn encoding(value: ()) -> Seq<u8> {
        Seq::empty()
    }

    open spec fn decoding(bytes: Seq<u8>) -> Option<((), nat)> {
        Some(((), 0nat))
    }

    proof fn lemma_decoding_of_encoding(value: (), rest: Seq<u8>) {
    }

    fn serialize(&self, writer: &mut Vec<u8>) -> (written: Result<usize, Error>) {
        Ok(0)
    }

    fn deserialize(reader: &mut ByteCursor<'_>) -> (value: Result<Self, Error>) {
        Ok(())
    }
}

impl BinarySerializable for u32 {
    open spec fn encodable(value: u32) -> bool {
        true
    }

    open spec fn encoding(value: u32) -> Seq<u8> {
        be_bytes(value)
    }

    open spec fn decoding(bytes: Seq<u8>) -> Option<(u32, nat)> {
        if bytes.len() >= 4 {
            Some((be_value(bytes), 4nat))
        } else {
            None
        }
    }

    proof fn lemma_decoding_of_encoding(value: u32, rest: Seq<u8>) {
        lemma_be_value_of_bytes(value, rest);
    }

    fn serialize(&self, writer: &mut Vec<u8>) -> (written: Result<usize, Error>) {
        write_u32_be(writer, *self);
        Ok(4)
    }

    fn deserialize(reader: &mut ByteCursor<'_>) -> (value: Result<Self, Error>) {
        reader.read_u32()
    }
}

/// The encodings of `values`, one after another.
pub open spec fn encoding_of_items<T: BinarySerializable>(values: Seq<T::V>) -> Seq<u8>
    decreases values.len(),
{
    if values.len() == 0 {
        Seq::empty()
    } else {
        T::encoding(values[0]) + encoding_of_items::<T>(values.drop_first())
    }
}

/// Reads `count` values off the front of `bytes`, one after another: the
/// values and the number of bytes they take together.
pub open spec fn decoding_of_items<T: BinarySerializable>(bytes: Seq<u8>, count: nat) -> Option<
    (Seq<T::V>, nat),
>
    decreases count,
{
    if count == 0 {
        Some((Seq::empty(), 0nat))
    } else {
        match T::decoding(bytes) {
            Some((first, taken)) => if taken <= bytes.len() {
                match decoding_of_items::<T>(bytes.skip(taken as int), (count - 1) as nat) {
                    Some((others, more)) => Some((seq![first] + others, taken + more)),
                    None => None,
                }
            } else {
                None
            },
            None => None,
        }
    }
}

/// Appending a value to a run appends its encoding to the run's.
pub proof fn lemma_encoding_of_items_push<T: BinarySerializable>(values: Seq<T::V>, last: T::V)
    ensures
        encoding_of_items::<T>(values.push(last)) == encoding_of_items::<T>(values) + T::encoding(
            last,
        ),
    decreases values.len(),
{
    let grown = values.push(last);
    if values.len() == 0 {
        assert(grown.drop_first() =~= Seq::<T::V>::empty());
        assert(encoding_of_items::<T>(grown.drop_first()) =~= Seq::<u8>::empty());
        assert(encoding_of_items::<T>(grown) =~= T::encoding(last));
        assert(encoding_of_items::<T>(values) + T::encoding(last) =~= T::encoding(last));
    } else {
        assert(grown.drop_first() =~= values.drop_first().push(last));
        lemma_encoding_of_items_push::<T>(values.drop_first(), last);
        assert(grown[0] == values[0]);
        assert(encoding_of_items::<T>(grown) =~= encoding_of_items::<T>(values) + T::encoding(
            last,
        ));
    }
}

/// Decoding reads back a run that encoding wrote, whatever follows it.
pub proof fn lemma_decoding_of_items_of_encoding<T: BinarySerializable>(
    values: Seq<T::V>,
    rest: Seq<u8>,
)
    requires
        forall|i: int| 0 <= i < values.len() ==> T::encodable(#[trigger] values[i]),
    ensures
        decoding_of_items::<T>(encoding_of_items::<T>(values) + rest, values.len()) == Some(
            (values, encoding_of_items::<T>(values).len()),
        ),
    decreases values.len(),
{
    if values.len() > 0 {
        let first = values[0];
        let tail = values.drop_first();
        let head_bytes = T::encoding(first);
        let tail_bytes = encoding_of_items::<T>(tail);
        let all = encoding_of_items::<T>(values) + rest;
        assert(all =~= head_bytes + (tail_bytes + rest));
        T::lemma_decoding_of_encoding(first, tail_bytes + rest);
        assert(all.skip(head_bytes.len() as int) =~= tail_bytes + rest);
        assert forall|i: int| 0 <= i < tail.len() implies T::encodable(#[trigger] tail[i]) by {
            assert(tail[i] == values[i + 1]);
        }
        lemma_decoding_of_items_of_encoding::<T>(tail, rest);
        assert(seq![first] + tail =~= values);
    } else {
        assert(values =~= Seq::<T::V>::empty());
    }
}

impl<T: BinarySerializable> BinarySerializable for Vec<T> {
    open spec fn encodable(value: Seq<T::V>) -> bool {
        &&& value.len() <= u32::MAX
        &&& forall|i: int| 0 <= i < value.len() ==> T::encodable(#[trigger] value[i])
    }

    open spec fn encoding(value: Seq<T::V>) -> Seq<u8> {
        be_bytes(value.len() as u32) + encoding_of_items::<T>(value)
    }

    open spec fn decoding(bytes: Seq<u8>) -> Option<(Seq<T::V>, nat)> {
        if bytes.len() >= 4 {
            match decoding_of_items::<T>(bytes.skip(4), be_value(bytes) as nat) {
                Some((values, taken)) => Some((values, 4 + taken)),
                None => None,
            }
        } else {
            None
        }
    }

    proof fn lemma_decoding_of_encoding(value: Seq<T::V>, rest: Seq<u8>) {
        let count = value.len() as u32;
        let items = encoding_of_items::<T>(value);
        let all = Self::encoding(value) + rest;
        assert(all =~= be_bytes(count) + (items + rest));
        lemma_be_value_of_bytes(count, items + rest);
        assert(all.skip(4) =~= items + rest);
        lemma_decoding_of_items_of_encoding::<T>(value, rest);
    }

    fn serialize(&self, writer: &mut Vec<u8>) -> (written: Result<usize, Error>) {
        let count = self.len();
        if count > u32::MAX as usize {
            return Err(
                Error::WriteError {
                    stage: WriteStage::Entry,
                    cause: "more items than a 32-bit count can hold".to_owned(),
                },
            );
        }
        write_u32_be(writer, count as u32);
        let ghost values = self.deep_view();
        let mut total: usize = 4;
        let mut index: usize = 0;
        proof {
            assert(values.take(0) =~= Seq::<T::V>::empty());
        }
        while index < count
            invariant
                index <= count,
                count == self.len(),
                count <= u32::MAX,
                values == self.deep_view(),
                values.len() == count,
                forall|i: int| 0 <= i < index ==> T::encodable(#[trigger] values[i]),
                total == 4 + encoding_of_items::<T>(values.take(index as int)).len(),
                writer@ == old(writer)@ + be_bytes(count as u32) + encoding_of_items::<T>(
                    values.take(index as int),
                ),
            decreases count - index,
        {
            let ghost before = writer@;
            match self[index].serialize(writer) {
                Ok(taken) => {
                    proof {
                        let item = values[index as int];
                        assert(self[index as int].deep_view() == item);
                        assert(values.take(index + 1) =~= values.take(index as int).push(item));
                        lemma_encoding_of_items_push::<T>(values.take(index as int), item);
                        assert(writer@ =~= old(writer)@ + be_bytes(count as u32)
                            + encoding_of_items::<T>(values.take(index + 1)));
                    }
                    let size = writer.len();
                    assert(total + taken <= size);
                    total = total + taken;
                },
                Err(failure) => {
                    proof {
                        assert(self[index as int].deep_view() == values[index as int]);
                    }
                    return Err(failure);
                },
            }
            index = index + 1;
        }
        proof {
            assert(values.take(count as int) =~= values);
            assert(writer@ =~= old(writer)@ + (be_bytes(count as u32) + encoding_of_items::<T>(
                values,
            )));
        }
        Ok(total)
    }

    fn deserialize(reader: &mut ByteCursor<'_>) -> (value: Result<Self, Error>) {
        let ghost start = reader.remaining();
        let count = match reader.read_u32() {
            Ok(count) => count,
            Err(failure) => {
                return Err(failure);
            },
        };
        let ghost body = reader.remaining();
        let ghost body_at = reader.position();
        proof {
            assert(body =~= start.skip(4));
        }
        let mut items: Vec<T> = Vec::new();
        let mut index: u32 = 0;
        proof {
            assert(items.deep_view() =~= Seq::<T::V>::empty());
            match decoding_of_items::<T>(body, count as nat) {
                Some((values, taken)) => {
                    assert(Seq::<T::V>::empty() + values =~= values);
                },
                None => {},
            }
        }
        while index < count
            invariant
                index <= count,
                reader.wf(),
                reader.bytes() == old(reader).bytes(),
                start == old(reader).remaining(),
                start.len() >= 4,
                body == start.skip(4),
                count == be_value(start),
                body_at == old(reader).position() + 4,
                body_at <= reader.position(),
                items.deep_view().len() == index,
                decoding_of_items::<T>(body, count as nat) == match decoding_of_items::<T>(
                    reader.remaining(),
                    (count - index) as nat,
                ) {
                    Some((others, more)) => Some(
                        (items.deep_view() + others, (reader.position() - body_at + more) as nat),
                    ),
                    None => None,
                },
            decreases count - index,
        {
            let ghost ahead = reader.remaining();
            let ghost found = items.deep_view();
            let ghost at = reader.position();
            match T::deserialize(reader) {
                Ok(item) => {
                    items.push(item);
                    proof {
                        let (first, taken) = T::decoding(ahead).unwrap();
                        assert(reader.remaining() =~= ahead.skip(taken as int));
                        assert(items.deep_view() =~= found.push(first));
                        match decoding_of_items::<T>(
                            reader.remaining(),
                            (count - index - 1) as nat,
                        ) {
                            Some((others, more)) => {
                                assert(found + (seq![first] + others) =~= found.push(first)
                                    + others);
                            },
                            None => {},
                        }
                    }
                },
                Err(failure) => {
                    return Err(failure);
                },
            }
            index = index + 1;
        }
        proof {
            assert(items.deep_view() + Seq::<T::V>::empty() =~= items.deep_view());
        }
        Ok(items)
    }
}

} // verus!
