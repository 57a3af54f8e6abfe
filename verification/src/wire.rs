//! Big-endian 32-bit words on the wire, and a forward cursor over bytes.

use byteorder::BigEndian;
use byteorder::ReadBytesExt;
use byteorder::WriteBytesExt;
use vstd::prelude::*;

use crate::error::Error;

verus! {

/// The four bytes of `value`, most significant first.
pub open spec fn be_bytes(value: u32) -> Seq<u8> {
    seq![
        (value / 0x100_0000) as u8,
        ((value / 0x1_0000) % 0x100) as u8,
        ((value / 0x100) % 0x100) as u8,
        (value % 0x100) as u8,
    ]
}

/// The word whose big-endian bytes are the first four of `bytes`.
pub open spec fn be_value(bytes: Seq<u8>) -> u32 {
    (bytes[0] * 0x100_0000 + bytes[1] * 0x1_0000 + bytes[2] * 0x100 + bytes[3]) as u32
}

/// Decoding the bytes of a word gives the word back, whatever follows them.
pub proof fn lemma_be_value_of_bytes(value: u32, rest: Seq<u8>)
    ensures
        be_bytes(value).len() == 4,
        be_value(be_bytes(value) + rest) == value,
{
    let b = be_bytes(value) + rest;
    assert(b[0] == be_bytes(value)[0]);
    assert(b[1] == be_bytes(value)[1]);
    assert(b[2] == be_bytes(value)[2]);
    assert(b[3] == be_bytes(value)[3]);
}

/// `std::io::Error`, the error of the readers and writers of `std::io`. It is
/// carried from a failed read to the place that turns it into an error of
/// this library, and nothing is said of what it holds.
#[verifier::external_type_specification]
#[verifier::external_body]
pub struct ExIoError(std::io::Error);

/// `byteorder::WriteBytesExt::write_u32::<BigEndian>` on a vector, which as a
/// writer appends and does not fail: the vector grows by the four bytes of
/// `value`, most significant first.
#[verifier::external_body]
pub(crate) fn write_u32_be(buffer: &mut Vec<u8>, value: u32)
    ensures
        final(buffer)@ == old(buffer)@ + be_bytes(value),
{
    let _ = buffer.write_u32::<BigEndian>(value);
}

/// `byteorder::ReadBytesExt::read_u32::<BigEndian>` on a byte slice: it
/// succeeds exactly when the slice holds at least four bytes, and then gives
/// the word that the first four spell, most significant first.
#[verifier::external_body]
pub(crate) fn read_u32_be(bytes: &[u8]) -> (word: Result<u32, std::io::Error>)
    ensures
        word is Ok <==> bytes@.len() >= 4,
        word matches Ok(value) ==> value == be_value(bytes@),
{
    let mut source: &[u8] = bytes;
    source.read_u32::<BigEndian>()
}

/// A forward cursor over borrowed bytes: the bytes and a position in them.
pub struct ByteCursor<'a> {
    data: &'a [u8],
    pos: usize,
}

impl<'a> ByteCursor<'a> {
    /// The bytes under the cursor, all of them.
    pub closed spec fn bytes(&self) -> Seq<u8> {
        self.data@
    }

    /// How many of the bytes lie behind the cursor.
    pub closed spec fn position(&self) -> nat {
        self.pos as nat
    }

    /// The position lies within the bytes.
    pub open spec fn wf(&self) -> bool {
        self.position() <= self.bytes().len()
    }

    /// The bytes still ahead of the cursor.
    pub open spec fn remaining(&self) -> Seq<u8> {
        self.bytes().subrange(self.position() as int, self.bytes().len() as int)
    }

    /// A cursor at the start of `data`.
    pub fn new(data: &'a [u8]) -> (cursor: Self)
        ensures
            cursor.wf(),
            cursor.bytes() == data@,
            cursor.position() == 0,
    {
        ByteCursor { data, pos: 0 }
    }

    /// The position, counted from the start of the bytes.
    pub fn offset(&self) -> (at: usize)
        ensures
            at == self.position(),
    {
        self.pos
    }

    /// The number of bytes still ahead.
    pub fn remaining_len(&self) -> (count: usize)
        requires
            self.wf(),
        ensures
            count == self.remaining().len(),
    {
        self.data.len() - self.pos
    }

    /// Moves to `target`, or to the end of the bytes if `target` lies beyond it.
    pub fn seek_to(&mut self, target: usize)
        ensures
            final(self).wf(),
            final(self).bytes() == old(self).bytes(),
            final(self).position() == if target <= old(self).bytes().len() {
                target as nat
            } else {
                old(self).bytes().len()
            },
    {
        if target <= self.data.len() {
            self.pos = target;
        } else {
            self.pos = self.data.len();
        }
    }

    /// Reads a big-endian word and steps over it. With fewer than four bytes
    /// ahead the read fails and the cursor stays where it was.
    pub fn read_u32(&mut self) -> (word: Result<u32, Error>)
        requires
            old(self).wf(),
        ensures
            final(self).wf(),
            final(self).bytes() == old(self).bytes(),
            old(self).remaining().len() >= 4 ==> word == Ok::<u32, Error>(
                be_value(old(self).remaining()),
            ) && final(self).position() == old(self).position() + 4,
            old(self).remaining().len() < 4 ==> word == Err::<u32, Error>(Error::ReadError)
                && final(self).position() == old(self).position(),
    {
        let ahead = &self.data[self.pos..self.data.len()];
        match read_u32_be(ahead) {
            Ok(value) => {
                self.pos = self.pos + 4;
                Ok(value)
            },
            Err(_) => Err(Error::ReadError),
        }
    }
}

} // verus!
