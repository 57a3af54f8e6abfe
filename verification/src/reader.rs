//! The read path: a forward cursor with lookahead over one level, and the
//! reader that seeks through the tower of them.

use std::marker::PhantomData;
use vstd::prelude::*;

use crate::codec::BinarySerializable;
use crate::error::Error;
use crate::level::DocId;
use crate::level::SENTINEL;
use crate::wire::be_value;
use crate::wire::ByteCursor;

verus! {

/// Where a reader stands in a level: the bytes of the level, the position
/// behind the key that was read last, and that key, the lookahead. The
/// lookahead is the key of the entry that comes next, or the sentinel.
pub struct LayerCursor {
    pub bytes: Seq<u8>,
    pub position: nat,
    pub next_id: DocId,
}

/// What producing the next entry of a level comes to.
pub enum Step<V> {
    /// The level has no more entries.
    End,
    /// The entry under the lookahead, and the cursor behind it.
    Item { key: DocId, value: V, after: LayerCursor },
    /// The bytes under the lookahead do not hold an entry.
    Corrupt,
}

/// What a seek in a level comes to: the last entry passed over, or a failure,
/// and the cursor where the seek stopped.
pub struct Sought<V> {
    pub found: Result<Option<(DocId, V)>, Error>,
    pub after: LayerCursor,
}

/// What producing every entry of a level comes to: the entries, or a failure,
/// and the cursor where that ended.
pub struct Drained<V> {
    pub items: Result<Seq<(DocId, V)>, Error>,
    pub after: LayerCursor,
}

impl LayerCursor {
    /// The position lies within the bytes.
    pub open spec fn wf(self) -> bool {
        self.position <= self.bytes.len()
    }

    /// The bytes ahead of the position.
    pub open spec fn remaining(self) -> Seq<u8> {
        self.bytes.subrange(self.position as int, self.bytes.len() as int)
    }

    /// The cursor that takes its lookahead from the key at `at`: behind that
    /// key where four bytes are there to read, and else, with the sentinel for
    /// a lookahead, at `at` or at the end if `at` lies beyond it.
    pub open spec fn settled(bytes: Seq<u8>, at: nat) -> LayerCursor {
        if at + 4 <= bytes.len() {
            LayerCursor {
                bytes,
                position: at + 4,
                next_id: be_value(bytes.subrange(at as int, bytes.len() as int)),
            }
        } else {
            LayerCursor {
                bytes,
                position: if at <= bytes.len() {
                    at
                } else {
                    bytes.len()
                },
                next_id: SENTINEL,
            }
        }
    }

    /// The cursor at the start of a level.
    pub open spec fn opened(bytes: Seq<u8>) -> LayerCursor {
        LayerCursor::settled(bytes, 0)
    }

    /// Producing the next entry: none behind the sentinel; else the value under
    /// the lookahead is decoded, and the key behind it becomes the lookahead.
    /// The end of the bytes behind the value leaves the sentinel; a value that
    /// does not decode, or fewer than four bytes where a key should follow,
    /// is corruption.
    pub open spec fn step<T: BinarySerializable>(self) -> Step<T::V> {
        if self.next_id == SENTINEL {
            Step::End
        } else {
            match T::decoding(self.remaining()) {
                Some((value, taken)) => {
                    let at = self.position + taken;
                    if at == self.bytes.len() {
                        Step::Item {
                            key: self.next_id,
                            value,
                            after: LayerCursor {
                                bytes: self.bytes,
                                position: at,
                                next_id: SENTINEL,
                            },
                        }
                    } else if at + 4 <= self.bytes.len() {
                        Step::Item {
                            key: self.next_id,
                            value,
                            after: LayerCursor {
                                bytes: self.bytes,
                                position: at + 4,
                                next_id: be_value(
                                    self.bytes.subrange(at as int, self.bytes.len() as int),
                                ),
                            },
                        }
                    } else {
                        Step::Corrupt
                    }
                },
                None => Step::Corrupt,
            }
        }
    }

    /// Seeking `target`: entries are produced while the lookahead is below
    /// `target`, and the last one produced is kept; `found` is what was kept
    /// before. The entry under a lookahead that is not below `target` stays.
    /// Corruption ends the seek with the cursor where it met it.
    pub open spec fn seek<T: BinarySerializable>(
        self,
        target: DocId,
        found: Option<(DocId, T::V)>,
    ) -> Sought<T::V>
        decreases
            self.bytes.len() - self.position,
            if self.next_id == SENTINEL {
                0nat
            } else {
                1nat
            },
    {
        if self.next_id < target {
            match self.step::<T>() {
                Step::Item { key, value, after } => after.seek::<T>(target, Some((key, value))),
                Step::End => Sought { found: Ok(found), after: self },
                Step::Corrupt => Sought { found: Err(Error::ReadError), after: self },
            }
        } else {
            Sought { found: Ok(found), after: self }
        }
    }

    /// How many entries seeking `target` produces.
    pub open spec fn passes<T: BinarySerializable>(self, target: DocId) -> nat
        decreases
            self.bytes.len() - self.position,
            if self.next_id == SENTINEL {
                0nat
            } else {
                1nat
            },
    {
        if self.next_id < target {
            match self.step::<T>() {
                Step::Item { key, value, after } => 1 + after.passes::<T>(target),
                _ => 0,
            }
        } else {
            0
        }
    }

    /// Producing entries until the level is at its end: the entries in their
    /// order. Corruption ends it with the cursor where it met it.
    pub open spec fn drain<T: BinarySerializable>(self) -> Drained<T::V>
        decreases
            self.bytes.len() - self.position,
            if self.next_id == SENTINEL {
                0nat
            } else {
                1nat
            },
    {
        match self.step::<T>() {
            Step::Item { key, value, after } => {
                let rest = after.drain::<T>();
                Drained {
                    items: match rest.items {
                        Ok(more) => Ok(seq![(key, value)] + more),
                        Err(failure) => Err(failure),
                    },
                    after: rest.after,
                }
            },
            Step::End => Drained { items: Ok(Seq::empty()), after: self },
            Step::Corrupt => Drained { items: Err(Error::ReadError), after: self },
        }
    }
}

/// A forward cursor with lookahead over the bytes of one level, whose values
/// are of type `T`.
pub struct Layer<'a, T> {
    cursor: ByteCursor<'a>,
    next_id: DocId,
    _phantom_: PhantomData<T>,
}

impl<'a, T> View for Layer<'a, T> {
    type V = LayerCursor;

    closed spec fn view(&self) -> LayerCursor {
        LayerCursor {
            bytes: self.cursor.bytes(),
            position: self.cursor.position(),
            next_id: self.next_id,
        }
    }
}

/// Whether `found` holds the entry `expected`, its value by its deep view.
pub open spec fn holds<T: DeepView>(found: Option<(DocId, T)>, expected: Option<(DocId, T::V)>) -> bool {
    match (found, expected) {
        (Some((key, value)), Some((expected_key, expected_value))) => key == expected_key
            && value.deep_view() == expected_value,
        (None, None) => true,
        _ => false,
    }
}

impl<'a, T: BinarySerializable> Layer<'a, T> {
    /// A level over the bytes of `cursor`, with the key at the cursor's
    /// position for its lookahead. Where no key is there to read, the level is
    /// at its end.
    pub fn read(cursor: ByteCursor<'a>) -> (layer: Layer<'a, T>)
        requires
            cursor.wf(),
        ensures
            layer@.wf(),
            layer@ == LayerCursor::settled(cursor.bytes(), cursor.position()),
    {
        let mut cursor = cursor;
        let next_id = match cursor.read_u32() {
            Ok(val) => val,
            Err(_) => SENTINEL,
        };
        Layer { cursor: cursor, next_id: next_id, _phantom_: PhantomData }
    }

    /// The level without bytes.
    pub fn empty() -> (layer: Layer<'a, T>)
        ensures
            layer@.wf(),
            layer@ == LayerCursor::opened(Seq::empty()),
    {
        let nothing: &'a [u8] = &[];
        assert(nothing@ =~= Seq::<u8>::empty());
        Layer { cursor: ByteCursor::new(nothing), next_id: SENTINEL, _phantom_: PhantomData }
    }

    /// Produces the entry under the lookahead and moves the lookahead to the
    /// key behind it. On corruption the level stays as it was.
    pub fn next(&mut self) -> (produced: Result<Option<(DocId, T)>, Error>)
        requires
            old(self)@.wf(),
        ensures
            final(self)@.wf(),
            match old(self)@.step::<T>() {
                Step::End => produced matches Ok(None) && final(self)@ == old(self)@,
                Step::Item { key, value, after } => {
                    &&& produced matches Ok(Some((found_key, found_value)))
                    &&& found_key == key
                    &&& found_value.deep_view() == value
                    &&& final(self)@ == after
                },
                Step::Corrupt => produced == Err::<Option<(DocId, T)>, Error>(Error::ReadError)
                    && final(self)@ == old(self)@,
            },
    {
        if self.next_id == SENTINEL {
            return Ok(None);
        }
        let start = self.cursor.offset();
        let cur_val = match T::deserialize(&mut self.cursor) {
            Ok(val) => val,
            Err(failure) => {
                self.cursor.seek_to(start);
                return Err(failure);
            },
        };
        let cur_id = self.next_id;
        if self.cursor.remaining_len() == 0 {
            self.next_id = SENTINEL;
        } else {
            match self.cursor.read_u32() {
                Ok(val) => {
                    self.next_id = val;
                },
                Err(failure) => {
                    self.cursor.seek_to(start);
                    return Err(failure);
                },
            }
        }
        Ok(Some((cur_id, cur_val)))
    }

    /// Moves to `offset` within the level and takes the key there for the
    /// lookahead. Where no key is there to read, the level is at its end.
    pub fn seek_offset(&mut self, offset: usize)
        requires
            old(self)@.wf(),
        ensures
            final(self)@.wf(),
            final(self)@ == LayerCursor::settled(old(self)@.bytes, offset as nat),
    {
        self.cursor.seek_to(offset);
        self.next_id = match self.cursor.read_u32() {
            Ok(val) => val,
            Err(_) => SENTINEL,
        };
    }

    /// Returns the last entry whose key is below `doc_id`, among those from the
    /// lookahead on, and passes over the entries up to it. The entry under a
    /// lookahead that is not below `doc_id` is left to be produced later.
    pub fn seek(&mut self, doc_id: DocId) -> (found: Result<Option<(DocId, T)>, Error>)
        requires
            old(self)@.wf(),
        ensures
            final(self)@.wf(),
            final(self)@ == old(self)@.seek::<T>(doc_id, None).after,
            match old(self)@.seek::<T>(doc_id, None).found {
                Ok(expected) => found matches Ok(entry) && holds(entry, expected),
                Err(failure) => found == Err::<Option<(DocId, T)>, Error>(failure),
            },
    {
        let mut val: Option<(DocId, T)> = None;
        let ghost mut kept: Option<(DocId, T::V)> = None;
        while self.next_id < doc_id
            invariant
                self@.wf(),
                holds(val, kept),
                old(self)@.seek::<T>(doc_id, None) == self@.seek::<T>(doc_id, kept),
            ensures
                old(self)@.seek::<T>(doc_id, None) == (Sought { found: Ok(kept), after: self@ }),
            decreases
                self@.bytes.len() - self@.position,
                if self@.next_id == SENTINEL {
                    0nat
                } else {
                    1nat
                },
        {
            match self.next() {
                Ok(Some(entry)) => {
                    proof {
                        kept = Some((entry.0, entry.1.deep_view()));
                    }
                    val = Some(entry);
                },
                Ok(None) => {
                    break ;
                },
                Err(failure) => {
                    return Err(failure);
                },
            }
        }
        Ok(val)
    }

    /// Produces every entry from the lookahead on, in order, and leaves the
    /// level at its end.
    pub fn collect(&mut self) -> (items: Result<Vec<(DocId, T)>, Error>)
        requires
            old(self)@.wf(),
        ensures
            final(self)@.wf(),
            final(self)@ == old(self)@.drain::<T>().after,
            match old(self)@.drain::<T>().items {
                Ok(expected) => items matches Ok(found) && found.deep_view() == expected,
                Err(failure) => items == Err::<Vec<(DocId, T)>, Error>(failure),
            },
    {
        let mut found: Vec<(DocId, T)> = Vec::new();
        proof {
            assert(found.deep_view() =~= Seq::<(DocId, T::V)>::empty());
            match self@.drain::<T>().items {
                Ok(more) => {
                    assert(found.deep_view() + more =~= more);
                },
                Err(_) => {},
            }
        }
        loop
            invariant
                self@.wf(),
                old(self)@.drain::<T>().after == self@.drain::<T>().after,
                old(self)@.drain::<T>().items == match self@.drain::<T>().items {
                    Ok(more) => Ok::<Seq<(DocId, T::V)>, Error>(found.deep_view() + more),
                    Err(failure) => Err(failure),
                },
            ensures
                self@.wf(),
                old(self)@.drain::<T>() == (Drained {
                    items: Ok(found.deep_view()),
                    after: self@,
                }),
            decreases
                self@.bytes.len() - self@.position,
                if self@.next_id == SENTINEL {
                    0nat
                } else {
                    1nat
                },
        {
            let ghost before = found.deep_view();
            match self.next() {
                Ok(Some(entry)) => {
                    let ghost item = (entry.0, entry.1.deep_view());
                    found.push(entry);
                    proof {
                        assert(found.deep_view() =~= before.push(item));
                        match self@.drain::<T>().items {
                            Ok(more) => {
                                assert(before + (seq![item] + more) =~= before.push(item) + more);
                            },
                            Err(_) => {},
                        }
                    }
                },
                Ok(None) => {
                    proof {
                        assert(before + Seq::<(DocId, T::V)>::empty() =~= before);
                    }
                    break ;
                },
                Err(failure) => {
                    return Err(failure);
                },
            }
        }
        Ok(found)
    }
}

/// Where a reader stands in a skip list: in the data level, and in each skip
/// level, the coarsest first.
pub struct SkipListState {
    pub data: LayerCursor,
    pub skips: Seq<LayerCursor>,
}

/// What the way down the skip levels comes to: the cursors where it left
/// them, and the offset that it carries into the data level, or a failure.
pub struct Descent {
    pub skips: Seq<LayerCursor>,
    pub carried: Result<Option<u32>, Error>,
}

/// What a seek in a skip list comes to: the entry found, or a failure, and
/// the reader where the seek left it.
pub struct Seek<V> {
    pub found: Result<Option<(DocId, V)>, Error>,
    pub after: SkipListState,
}

/// The level that a seek enters: moved to the offset carried from the level
/// above, if there is one.
pub open spec fn entered(level: LayerCursor, carried: Option<u32>) -> LayerCursor {
    match carried {
        Some(offset) => LayerCursor::settled(level.bytes, offset as nat),
        None => level,
    }
}

/// The offset that the entry found in a skip level points to.
pub open spec fn pointer_of(found: Option<(DocId, u32)>) -> Option<u32> {
    match found {
        Some((_, offset)) => Some(offset),
        None => None,
    }
}

/// The way down the skip levels from level `from` on, with the offset
/// `carried` from the level above: each level is entered, sought for
/// `target`, and hands the offset of what it found to the next.
pub open spec fn descend(
    skips: Seq<LayerCursor>,
    from: nat,
    carried: Option<u32>,
    target: DocId,
) -> Descent
    decreases skips.len() - from,
{
    if from >= skips.len() {
        Descent { skips, carried: Ok(carried) }
    } else {
        let sought = entered(skips[from as int], carried).seek::<u32>(target, None);
        let moved = skips.update(from as int, sought.after);
        match sought.found {
            Ok(found) => descend(moved, from + 1, pointer_of(found), target),
            Err(failure) => Descent { skips: moved, carried: Err(failure) },
        }
    }
}

/// Whether cumulative level lengths grow from level to level and end within
/// the `available` bytes.
pub open spec fn levels_in_order(offsets: Seq<u32>, available: nat) -> bool {
    &&& forall|i: int, j: int| 0 <= i <= j < offsets.len() ==> offsets[i] <= offsets[j]
    &&& forall|i: int| 0 <= i < offsets.len() ==> offsets[i] <= available
}

/// The bytes of level `level` among the bytes of all levels.
pub open spec fn level_slice(body: Seq<u8>, offsets: Seq<u32>, level: int) -> Seq<u8> {
    body.subrange(
        if level == 0 {
            0
        } else {
            offsets[level - 1] as int
        },
        offsets[level] as int,
    )
}

/// How many entries the way down produces in each skip level that it enters,
/// from level `from` on.
pub open spec fn descend_passes(
    skips: Seq<LayerCursor>,
    from: nat,
    carried: Option<u32>,
    target: DocId,
) -> Seq<nat>
    decreases skips.len() - from,
{
    if from >= skips.len() {
        Seq::empty()
    } else {
        let level = entered(skips[from as int], carried);
        let sought = level.seek::<u32>(target, None);
        seq![level.passes::<u32>(target)] + match sought.found {
            Ok(found) => descend_passes(skips, from + 1, pointer_of(found), target),
            Err(_) => Seq::empty(),
        }
    }
}

impl SkipListState {
    /// Every cursor lies within its level.
    pub open spec fn wf(self) -> bool {
        &&& self.data.wf()
        &&& forall|level: int| 0 <= level < self.skips.len() ==> (#[trigger] self.skips[level]).wf()
    }

    /// The reader at the start of the skip list that `image` holds, or nothing
    /// where the header does not decode or the level lengths are out of order
    /// or reach beyond the image.
    pub open spec fn parse(image: Seq<u8>) -> Option<SkipListState> {
        match <Vec<u32> as BinarySerializable>::decoding(image) {
            Some((offsets, taken)) => {
                let body = image.skip(taken as int);
                if taken <= image.len() && levels_in_order(offsets, body.len()) {
                    Some(
                        SkipListState {
                            data: if offsets.len() == 0 {
                                LayerCursor::opened(Seq::empty())
                            } else {
                                LayerCursor::opened(level_slice(body, offsets, 0))
                            },
                            skips: Seq::new(
                                if offsets.len() == 0 {
                                    0nat
                                } else {
                                    (offsets.len() - 1) as nat
                                },
                                |skip: int|
                                    LayerCursor::opened(
                                        level_slice(body, offsets, offsets.len() - 1 - skip),
                                    ),
                            ),
                        },
                    )
                } else {
                    None
                }
            },
            None => None,
        }
    }

    /// How many entries seeking `target` produces in each level that it
    /// enters: the skip levels from the coarsest down, then the data level.
    pub open spec fn passes<T: BinarySerializable>(self, target: DocId) -> Seq<nat> {
        let above = descend_passes(self.skips, 0, None, target);
        match descend(self.skips, 0, None, target).carried {
            Ok(carried) => above.push(entered(self.data, carried).passes::<T>(target)),
            Err(_) => above,
        }
    }

    /// Seeking `target`: down the skip levels, then in the data level, entered
    /// at the offset that the skip levels carried down.
    pub open spec fn seek<T: BinarySerializable>(self, target: DocId) -> Seek<T::V> {
        let descent = descend(self.skips, 0, None, target);
        match descent.carried {
            Ok(carried) => {
                let sought = entered(self.data, carried).seek::<T>(target, None);
                Seek {
                    found: sought.found,
                    after: SkipListState { data: sought.after, skips: descent.skips },
                }
            },
            Err(failure) => Seek {
                found: Err(failure),
                after: SkipListState { data: self.data, skips: descent.skips },
            },
        }
    }
}

/// A reader of a serialized skip list whose values are of type `T`.
pub struct SkipList<'a, T: BinarySerializable> {
    data_layer: Layer<'a, T>,
    skip_layers: Vec<Layer<'a, u32>>,
}

impl<'a, T: BinarySerializable> View for SkipList<'a, T> {
    type V = SkipListState;

    closed spec fn view(&self) -> SkipListState {
        SkipListState {
            data: self.data_layer@,
            skips: Seq::new(self.skip_layers@.len(), |level: int| self.skip_layers@[level]@),
        }
    }
}

impl<'a, T: BinarySerializable> SkipList<'a, T> {
    /// Produces the next entry of the data level.
    pub fn next(&mut self) -> (produced: Result<Option<(DocId, T)>, Error>)
        requires
            old(self)@.wf(),
        ensures
            final(self)@.wf(),
            final(self)@.skips == old(self)@.skips,
            match old(self)@.data.step::<T>() {
                Step::End => produced matches Ok(None) && final(self)@ == old(self)@,
                Step::Item { key, value, after } => {
                    &&& produced matches Ok(Some((found_key, found_value)))
                    &&& found_key == key
                    &&& found_value.deep_view() == value
                    &&& final(self)@.data == after
                },
                Step::Corrupt => produced == Err::<Option<(DocId, T)>, Error>(Error::ReadError)
                    && final(self)@ == old(self)@,
            },
    {
        let produced = self.data_layer.next();
        proof {
            assert(self@.skips =~= old(self)@.skips);
        }
        produced
    }

    /// Produces every entry of the data level from its lookahead on, in
    /// order. The skip levels have no part in it.
    pub fn collect(&mut self) -> (items: Result<Vec<(DocId, T)>, Error>)
        requires
            old(self)@.wf(),
        ensures
            final(self)@.wf(),
            final(self)@.skips == old(self)@.skips,
            final(self)@.data == old(self)@.data.drain::<T>().after,
            match old(self)@.data.drain::<T>().items {
                Ok(expected) => items matches Ok(found) && found.deep_view() == expected,
                Err(failure) => items == Err::<Vec<(DocId, T)>, Error>(failure),
            },
    {
        let items = self.data_layer.collect();
        proof {
            assert(self@.skips =~= old(self)@.skips);
        }
        items
    }

    /// Returns the last entry whose key is below `doc_id`, among those that
    /// the reader has not passed yet: down the skip levels first, each
    /// pointing into the level below it, then along the data level.
    pub fn seek(&mut self, doc_id: DocId) -> (found: Result<Option<(DocId, T)>, Error>)
        requires
            old(self)@.wf(),
        ensures
            final(self)@.wf(),
            final(self)@ == old(self)@.seek::<T>(doc_id).after,
            match old(self)@.seek::<T>(doc_id).found {
                Ok(expected) => found matches Ok(entry) && holds(entry, expected),
                Err(failure) => found == Err::<Option<(DocId, T)>, Error>(failure),
            },
    {
        let mut next_layer_skip: Option<(DocId, u32)> = None;
        let mut skip_layer_id: usize = 0;
        let height = self.skip_layers.len();
        while skip_layer_id < height
            invariant
                skip_layer_id <= height,
                height == self.skip_layers.len(),
                self@.wf(),
                self@.data == old(self)@.data,
                descend(old(self)@.skips, 0, None, doc_id) == descend(
                    self@.skips,
                    skip_layer_id as nat,
                    pointer_of(next_layer_skip),
                    doc_id,
                ),
            decreases height - skip_layer_id,
        {
            let ghost skips = self@.skips;
            let skip_layer = &mut self.skip_layers[skip_layer_id];
            match next_layer_skip {
                Some((_, offset)) => {
                    skip_layer.seek_offset(offset as usize);
                },
                None => {},
            }
            let sought = skip_layer.seek(doc_id);
            proof {
                assert(self@.skips =~= skips.update(
                    skip_layer_id as int,
                    entered(skips[skip_layer_id as int], pointer_of(next_layer_skip)).seek::<u32>(
                        doc_id,
                        None,
                    ).after,
                ));
            }
            next_layer_skip = match sought {
                Ok(entry) => entry,
                Err(failure) => {
                    return Err(failure);
                },
            };
            skip_layer_id = skip_layer_id + 1;
        }
        match next_layer_skip {
            Some((_, offset)) => {
                self.data_layer.seek_offset(offset as usize);
            },
            None => {},
        }
        self.data_layer.seek(doc_id)
    }

    /// Opens the skip list that `data` holds: decodes the cumulative level
    /// lengths, and sets a cursor at the start of each level. It fails where
    /// the header does not decode, or where the lengths are out of order or
    /// reach beyond `data`.
    pub fn read(data: &'a [u8]) -> (opened: Result<SkipList<'a, T>, Error>)
        ensures
            match SkipListState::parse(data@) {
                Some(state) => opened matches Ok(list) && list@.wf() && list@ == state,
                None => opened matches Err(Error::ReadError),
            },
    {
        let mut cursor = ByteCursor::new(data);
        proof {
            assert(cursor.remaining() =~= data@);
        }
        let offsets: Vec<u32> = match Vec::<u32>::deserialize(&mut cursor) {
            Ok(offsets) => offsets,
            Err(failure) => {
                return Err(failure);
            },
        };
        proof {
            assert(offsets.deep_view() =~= offsets@);
        }
        let num_layers = offsets.len();
        let start_position = cursor.offset();
        let layers_data: &'a [u8] = &data[start_position..data.len()];
        let ghost body = layers_data@;
        proof {
            assert(body =~= data@.skip(start_position as int));
        }
        let mut prev: usize = 0;
        let mut checked: usize = 0;
        while checked < num_layers
            invariant
                checked <= num_layers,
                num_layers == offsets.len(),
                checked == 0 ==> prev == 0,
                checked > 0 ==> prev == offsets[checked - 1],
                levels_in_order(offsets@.take(checked as int), body.len()),
                layers_data@ == body,
                body == data@.skip(start_position as int),
                <Vec<u32> as BinarySerializable>::decoding(data@) == Some(
                    (offsets@, start_position as nat),
                ),
            decreases num_layers - checked,
        {
            let stop = offsets[checked] as usize;
            if stop < prev || stop > layers_data.len() {
                proof {
                    if levels_in_order(offsets@, body.len()) {
                        assert(offsets@[checked as int] <= body.len());
                        if checked > 0 {
                            assert(offsets@[checked - 1] <= offsets@[checked as int]);
                        }
                    }
                }
                return Err(Error::ReadError);
            }
            proof {
                let grown = offsets@.take(checked + 1);
                let known = offsets@.take(checked as int);
                assert forall|i: int, j: int| 0 <= i <= j < grown.len() implies grown[i]
                    <= grown[j] by {
                    if j < checked {
                        assert(known[i] <= known[j]);
                    } else if i < checked {
                        assert(known[i] <= known[checked - 1]);
                    }
                }
                assert forall|i: int| 0 <= i < grown.len() implies grown[i] <= body.len() by {
                    if i < checked {
                        assert(known[i] <= body.len());
                    }
                }
            }
            prev = stop;
            checked = checked + 1;
        }
        proof {
            assert(offsets@.take(num_layers as int) =~= offsets@);
        }
        if num_layers == 0 {
            let list = SkipList { data_layer: Layer::empty(), skip_layers: Vec::new() };
            proof {
                assert(list@.skips =~= SkipListState::parse(data@).unwrap().skips);
            }
            return Ok(list);
        }
        let first_layer_data: &'a [u8] = &layers_data[0..offsets[0] as usize];
        let data_layer: Layer<'a, T> = Layer::read(ByteCursor::new(first_layer_data));
        let mut skip_layers: Vec<Layer<'a, u32>> = Vec::new();
        let mut level: usize = num_layers - 1;
        while level > 0
            invariant
                level < num_layers,
                num_layers == offsets.len(),
                levels_in_order(offsets@, body.len()),
                layers_data@ == body,
                skip_layers.len() == num_layers - 1 - level,
                forall|skip: int|
                    0 <= skip < skip_layers.len() ==> (#[trigger] skip_layers[skip])@.wf()
                        && skip_layers[skip]@ == LayerCursor::opened(
                        level_slice(body, offsets@, num_layers - 1 - skip),
                    ),
            decreases level,
        {
            let start = offsets[level - 1] as usize;
            let stop = offsets[level] as usize;
            let layer_data: &'a [u8] = &layers_data[start..stop];
            skip_layers.push(Layer::read(ByteCursor::new(layer_data)));
            level = level - 1;
        }
        let list = SkipList { data_layer: data_layer, skip_layers: skip_layers };
        proof {
            assert(list@.skips =~= SkipListState::parse(data@).unwrap().skips);
        }
        Ok(list)
    }
}

} // verus!
