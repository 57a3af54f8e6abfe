//! The write path: a builder for one level, and the builder of the tower of
//! levels that serializes them into one image.

use vstd::prelude::*;

use crate::codec::BinarySerializable;
use crate::error::Error;
use crate::error::WriteStage;
use crate::level::level_bytes;
use crate::level::DocId;
use crate::level::Entry;
use crate::tower::bodies;
use crate::tower::cascade;
use crate::tower::image;
use crate::tower::lemma_bodies_at_least;
use crate::tower::lemma_bodies_take;
use crate::tower::lemma_bodies_update;
use crate::tower::lemma_cascade_grows;
use crate::tower::lemma_level_after_len;
use crate::tower::lemma_level_for_len;
use crate::tower::lemma_tower_inhabited;
use crate::tower::level_after;
use crate::tower::level_for;
use crate::tower::offsets;
use crate::tower::promotions;
use crate::tower::tower_of;
use crate::tower::Level;
use crate::wire::be_bytes;
use crate::wire::write_u32_be;

verus! {

/// What a level under construction is: its fan-out, the bytes written so far,
/// the insertions left until the next promotion, and the number of entries.
pub struct LayerState {
    pub period: nat,
    pub bytes: Seq<u8>,
    pub remaining: nat,
    pub len: nat,
}

impl LayerState {
    /// The countdown runs within the period, and every entry has its key.
    pub open spec fn wf(self) -> bool {
        &&& 1 <= self.remaining <= self.period
        &&& self.len * 4 <= self.bytes.len()
        &&& self.bytes.len() <= u32::MAX
    }

    /// Whether an entry with a payload of `payload_len` bytes still starts and
    /// ends within the range of a 32-bit offset.
    pub open spec fn fits(self, payload_len: nat) -> bool {
        self.bytes.len() + 4 + payload_len <= u32::MAX
    }

    /// The level after one more entry.
    pub open spec fn inserted(self, key: DocId, payload: Seq<u8>) -> LayerState {
        LayerState {
            period: self.period,
            bytes: self.bytes + be_bytes(key) + payload,
            remaining: if self.remaining == 1 {
                self.period
            } else {
                (self.remaining - 1) as nat
            },
            len: self.len + 1,
        }
    }

    /// The pointer that an insertion hands to the level above: on every
    /// `period`-th insertion, the key and the offset at which its entry starts.
    pub open spec fn promotion(self, key: DocId) -> Option<(DocId, u32)> {
        if self.remaining == 1 {
            Some((key, self.bytes.len() as u32))
        } else {
            None
        }
    }
}

/// Accumulates the serialized entries of one level.
pub struct LayerBuilder {
    period: usize,
    buffer: Vec<u8>,
    remaining: usize,
    len: usize,
}

impl View for LayerBuilder {
    type V = LayerState;

    closed spec fn view(&self) -> LayerState {
        LayerState {
            period: self.period as nat,
            bytes: self.buffer@,
            remaining: self.remaining as nat,
            len: self.len as nat,
        }
    }
}

impl LayerBuilder {
    /// The number of bytes written to this level.
    pub fn written_size(&self) -> (size: usize)
        ensures
            size == self@.bytes.len(),
    {
        self.buffer.len()
    }

    /// Appends the bytes of this level to `output`.
    pub fn write(&self, output: &mut Vec<u8>) -> (written: Result<(), Error>)
        ensures
            written == Ok::<(), Error>(()),
            final(output)@ == old(output)@ + self@.bytes,
    {
        output.extend_from_slice(self.buffer.as_slice());
        Ok(())
    }

    /// The number of entries in this level.
    pub fn len(&self) -> (count: usize)
        ensures
            count == self@.len,
    {
        self.len
    }

    /// The empty level with fan-out `period`.
    pub open spec fn fresh(period: nat) -> LayerState {
        LayerState { period, bytes: Seq::empty(), remaining: period, len: 0 }
    }

    /// An empty level that promotes every `period`-th entry.
    pub fn with_period(period: usize) -> (layer: LayerBuilder)
        requires
            period >= 1,
        ensures
            layer@.wf(),
            layer@ == LayerBuilder::fresh(period as nat),
    {
        LayerBuilder { period: period, buffer: Vec::new(), remaining: period, len: 0 }
    }

    /// Appends the entry `(doc_id, payload)`, the payload given as encoded, and
    /// returns the pointer to promote, if this insertion is due for one. An
    /// entry that would reach beyond the range of a 32-bit offset is refused
    /// and the level left as it was.
    pub fn insert_encoded(&mut self, doc_id: DocId, payload: &[u8]) -> (promoted: Result<
        Option<(DocId, u32)>,
        Error,
    >)
        requires
            old(self)@.wf(),
        ensures
            final(self)@.wf(),
            old(self)@.fits(payload@.len()) ==> {
                &&& promoted == Ok::<Option<(DocId, u32)>, Error>(old(self)@.promotion(doc_id))
                &&& final(self)@ == old(self)@.inserted(doc_id, payload@)
            },
            !old(self)@.fits(payload@.len()) ==> {
                &&& promoted matches Err(Error::WriteError { stage, .. })
                &&& stage == WriteStage::Entry
                &&& final(self)@ == old(self)@
            },
    {
        let offset = self.buffer.len();
        let limit = u32::MAX as usize;
        if payload.len() > limit || offset > limit - 4 || payload.len() > limit - 4 - offset {
            return Err(
                Error::WriteError {
                    stage: WriteStage::Entry,
                    cause: "the level would outgrow its 32-bit offsets".to_owned(),
                },
            );
        }
        self.remaining = self.remaining - 1;
        self.len = self.len + 1;
        let promoted = if self.remaining == 0 {
            self.remaining = self.period;
            Some((doc_id, offset as u32))
        } else {
            None
        };
        write_u32_be(&mut self.buffer, doc_id);
        self.buffer.extend_from_slice(payload);
        proof {
            assert(self@.bytes == old(self)@.inserted(doc_id, payload@).bytes);
        }
        Ok(promoted)
    }

    /// Appends the entry `(doc_id, value)` and returns the pointer to promote,
    /// if this insertion is due for one. A value that the codec cannot encode,
    /// or an entry that would reach beyond the range of a 32-bit offset, is
    /// refused and the level left as it was.
    pub fn insert<S: BinarySerializable>(&mut self, doc_id: DocId, value: &S) -> (promoted: Result<
        Option<(DocId, u32)>,
        Error,
    >)
        requires
            old(self)@.wf(),
        ensures
            final(self)@.wf(),
            S::encodable(value.deep_view()) && old(self)@.fits(
                S::encoding(value.deep_view()).len(),
            ) ==> {
                &&& promoted == Ok::<Option<(DocId, u32)>, Error>(old(self)@.promotion(doc_id))
                &&& final(self)@ == old(self)@.inserted(doc_id, S::encoding(value.deep_view()))
            },
            !(S::encodable(value.deep_view()) && old(self)@.fits(
                S::encoding(value.deep_view()).len(),
            )) ==> promoted is Err && final(self)@ == old(self)@,
            S::encodable(value.deep_view()) && !old(self)@.fits(
                S::encoding(value.deep_view()).len(),
            ) ==> {
                &&& promoted matches Err(Error::WriteError { stage, .. })
                &&& stage == WriteStage::Entry
            },
    {
        let mut payload: Vec<u8> = Vec::new();
        match value.serialize(&mut payload) {
            Ok(_) => {
                proof {
                    assert(payload@ =~= S::encoding(value.deep_view()));
                }
                self.insert_encoded(doc_id, payload.as_slice())
            },
            Err(failure) => Err(failure),
        }
    }
}

/// What a skip list under construction is: its fan-out and the entries
/// inserted so far, each with its payload as encoded.
pub struct BuilderState {
    pub period: nat,
    pub entries: Seq<Entry>,
}

impl BuilderState {
    /// The tower of levels that the insertions have built.
    pub open spec fn tower(self) -> Seq<Level> {
        tower_of(self.period, self.entries)
    }

    /// The state after one more entry.
    pub open spec fn inserted(self, key: DocId, payload: Seq<u8>) -> BuilderState {
        BuilderState { period: self.period, entries: self.entries.push(Entry { key, payload }) }
    }

    /// Whether 32-bit offsets reach over all levels together.
    pub open spec fn fits(self) -> bool {
        bodies(self.tower()).len() <= u32::MAX
    }
}

/// Whether the builder of a level holds the level `level` of a tower.
pub open spec fn layer_holds(layer: LayerState, level: Level, period: nat) -> bool {
    &&& layer.wf()
    &&& layer.period == period
    &&& layer.bytes == level_bytes(level.entries)
    &&& layer.remaining == level.remaining
    &&& layer.len == level.entries.len()
}

/// Whether the builders of the levels hold the tower `tower`.
pub open spec fn layers_hold(layers: Seq<LayerBuilder>, tower: Seq<Level>, period: nat) -> bool {
    &&& layers.len() == tower.len()
    &&& forall|level: int|
        0 <= level < layers.len() ==> layer_holds(
            (#[trigger] layers[level])@,
            tower[level],
            period,
        )
}

/// Builds a skip list: entries go into the data level, and every
/// `period`-th entry of a level is promoted, as a pointer, to the level above.
pub struct SkipListBuilder {
    period: usize,
    layers: Vec<LayerBuilder>,
    entries: Ghost<Seq<Entry>>,
}

impl View for SkipListBuilder {
    type V = BuilderState;

    closed spec fn view(&self) -> BuilderState {
        BuilderState { period: self.period as nat, entries: self.entries@ }
    }
}

impl SkipListBuilder {
    /// The levels hold the tower of the entries inserted, and 32-bit offsets
    /// reach over all of it.
    pub closed spec fn wf(&self) -> bool {
        &&& self.period >= 1
        &&& layers_hold(self.layers@, self@.tower(), self.period as nat)
        &&& self@.fits()
    }

    /// An empty builder with fan-out `period`.
    pub fn new(period: usize) -> (builder: SkipListBuilder)
        requires
            period >= 1,
        ensures
            builder.wf(),
            builder@ == (BuilderState { period: period as nat, entries: Seq::empty() }),
    {
        SkipListBuilder { period: period, layers: Vec::new(), entries: Ghost(Seq::empty()) }
    }

    /// The builder of level `layer_id`, which is created if it is the first
    /// level that does not exist yet.
    fn get_layer(&mut self, layer_id: usize) -> (layer: &mut LayerBuilder)
        requires
            old(self).period >= 1,
            layer_id <= old(self).layers.len(),
        ensures
            layer_id < old(self).layers.len() ==> *layer == old(self).layers[layer_id as int]
                && final(self).layers@ == old(self).layers@.update(layer_id as int, *final(layer)),
            layer_id == old(self).layers.len() ==> layer@ == LayerBuilder::fresh(
                old(self).period as nat,
            ) && final(self).layers@ == old(self).layers@.push(*final(layer)),
            final(self).period == old(self).period,
            final(self).entries == old(self).entries,
    {
        if layer_id == self.layers.len() {
            let layer_builder = LayerBuilder::with_period(self.period);
            self.layers.push(layer_builder);
        }
        &mut self.layers[layer_id]
    }

    /// Whether 32-bit offsets still reach over all levels once an entry with a
    /// payload of `payload_len` bytes is inserted.
    fn has_room(&self, payload_len: usize) -> (room: bool)
        requires
            self.wf(),
        ensures
            room == (bodies(self@.tower()).len() + 4 + payload_len + 8 * promotions(
                self@.tower(),
                0,
            ) <= u32::MAX),
    {
        let ghost tower = self@.tower();
        let limit: u64 = u32::MAX as u64;
        if payload_len > u32::MAX as usize {
            return false;
        }
        let height = self.layers.len();
        let mut needed: u64 = 4 + payload_len as u64;
        let mut level: usize = 0;
        proof {
            lemma_bodies_take(tower, 0);
            assert(tower.take(0) =~= Seq::<Level>::empty());
        }
        while level < height
            invariant
                level <= height,
                height == self.layers.len(),
                tower == self@.tower(),
                self.wf(),
                payload_len <= u32::MAX,
                needed == 4 + payload_len + bodies(tower.take(level as int)).len(),
            decreases height - level,
        {
            proof {
                lemma_bodies_take(tower, level as int);
                lemma_bodies_take(tower, level + 1);
            }
            needed = needed + self.layers[level].written_size() as u64;
            level = level + 1;
        }
        proof {
            assert(tower.take(height as int) =~= tower);
        }
        let mut due: usize = 0;
        while due < height && self.layers[due].remaining == 1
            invariant
                due <= height,
                height == self.layers.len(),
                tower == self@.tower(),
                self.wf(),
                limit == u32::MAX,
                needed <= 2 * limit + 4,
                needed + 8 * promotions(tower, due as nat) == 4 + payload_len + bodies(
                    tower,
                ).len() + 8 * promotions(tower, 0),
            decreases height - due,
        {
            if needed > limit {
                return false;
            }
            needed = needed + 8;
            due = due + 1;
        }
        needed <= limit
    }

    /// Inserts the entry `(doc_id, payload)`, the payload given as encoded:
    /// into the data level, and as a pointer into each level above to which it
    /// is promoted. A level that does not exist yet is created for the
    /// pointer, and promotes nothing in the insertion that creates it. An
    /// entry with which the levels would outgrow their 32-bit offsets is
    /// refused and the builder left as it was.
    pub fn insert_encoded(&mut self, doc_id: DocId, payload: &[u8]) -> (inserted: Result<
        (),
        Error,
    >)
        requires
            old(self).wf(),
        ensures
            final(self).wf(),
            old(self)@.inserted(doc_id, payload@).fits() ==> {
                &&& inserted == Ok::<(), Error>(())
                &&& final(self)@ == old(self)@.inserted(doc_id, payload@)
            },
            !old(self)@.inserted(doc_id, payload@).fits() ==> {
                &&& inserted matches Err(Error::WriteError { stage, .. })
                &&& stage == WriteStage::Entry
                &&& final(self)@ == old(self)@
            },
    {
        let ghost period = self.period as nat;
        let ghost before = self@.tower();
        let ghost target = cascade(before, 0, period, doc_id, payload@);
        proof {
            let grown = self@.entries.push(Entry { key: doc_id, payload: payload@ });
            assert(grown.drop_last() =~= self@.entries);
            assert(self@.inserted(doc_id, payload@).tower() == target);
            lemma_cascade_grows(before, 0, period, doc_id, payload@);
        }
        if !self.has_room(payload.len()) {
            return Err(
                Error::WriteError {
                    stage: WriteStage::Entry,
                    cause: "the levels would outgrow their 32-bit offsets".to_owned(),
                },
            );
        }
        let height = self.layers.len();
        let mut layer_id: usize = 0;
        let mut fresh = height == 0;
        proof {
            if height > 0 {
                lemma_bodies_update(before, 0, before[0]);
            }
        }
        let mut skip_pointer = match self.get_layer(layer_id).insert_encoded(doc_id, payload) {
            Ok(promoted) => promoted,
            Err(failure) => {
                return Err(failure);
            },
        };
        let ghost mut current = if fresh {
            before.push(level_for(period, doc_id, payload@))
        } else {
            before.update(0, level_after(before[0], period, doc_id, payload@))
        };
        proof {
            if fresh {
                lemma_level_for_len(period, doc_id, payload@);
            } else {
                lemma_level_after_len(before[0], period, doc_id, payload@);
            }
            assert(layers_hold(self.layers@, current, period));
        }
        loop
            invariant
                period == self.period,
                period >= 1,
                self.entries == old(self).entries,
                layer_id <= height,
                fresh <==> layer_id == height,
                self.layers.len() == current.len(),
                current.len() == if fresh {
                    height + 1
                } else {
                    height as int
                },
                layers_hold(self.layers@, current, period),
                bodies(target).len() <= u32::MAX,
                target == old(self)@.inserted(doc_id, payload@).tower(),
                target == match skip_pointer {
                    Some((key, offset)) => if fresh {
                        current
                    } else {
                        cascade(current, (layer_id + 1) as nat, period, key, be_bytes(offset))
                    },
                    None => current,
                },
            ensures
                fresh || skip_pointer is None,
            decreases height - layer_id,
        {
            if fresh {
                break ;
            }
            match skip_pointer {
                Some((key, offset)) => {
                    layer_id = layer_id + 1;
                    fresh = layer_id == height;
                    let ghost pointer = be_bytes(offset);
                    proof {
                        lemma_cascade_grows(current, layer_id as nat, period, key, pointer);
                        if !fresh {
                            lemma_bodies_update(current, layer_id as int, current[layer_id as int]);
                        }
                    }
                    let ghost below = current;
                    skip_pointer = match self.get_layer(layer_id).insert(key, &offset) {
                        Ok(promoted) => promoted,
                        Err(failure) => {
                            return Err(failure);
                        },
                    };
                    proof {
                        current = if fresh {
                            below.push(level_for(period, key, pointer))
                        } else {
                            below.update(
                                layer_id as int,
                                level_after(below[layer_id as int], period, key, pointer),
                            )
                        };
                        if fresh {
                            lemma_level_for_len(period, key, pointer);
                        } else {
                            lemma_level_after_len(below[layer_id as int], period, key, pointer);
                        }
                        assert(layers_hold(self.layers@, current, period));
                    }
                },
                None => {
                    break ;
                },
            }
        }
        self.entries = Ghost(self.entries@.push(Entry { key: doc_id, payload: payload@ }));
        Ok(())
    }

    /// Inserts the entry `(doc_id, dest)`. It fails, and leaves the builder as
    /// it was, where the codec cannot encode the value or where the levels
    /// would outgrow their 32-bit offsets.
    pub fn insert<S: BinarySerializable>(&mut self, doc_id: DocId, dest: &S) -> (inserted: Result<
        (),
        Error,
    >)
        requires
            old(self).wf(),
        ensures
            final(self).wf(),
            S::encodable(dest.deep_view()) && old(self)@.inserted(
                doc_id,
                S::encoding(dest.deep_view()),
            ).fits() ==> {
                &&& inserted == Ok::<(), Error>(())
                &&& final(self)@ == old(self)@.inserted(doc_id, S::encoding(dest.deep_view()))
            },
            !(S::encodable(dest.deep_view()) && old(self)@.inserted(
                doc_id,
                S::encoding(dest.deep_view()),
            ).fits()) ==> inserted is Err && final(self)@ == old(self)@,
            S::encodable(dest.deep_view()) && !old(self)@.inserted(
                doc_id,
                S::encoding(dest.deep_view()),
            ).fits() ==> {
                &&& inserted matches Err(Error::WriteError { stage, .. })
                &&& stage == WriteStage::Entry
            },
    {
        let mut payload: Vec<u8> = Vec::new();
        match dest.serialize(&mut payload) {
            Ok(_) => {
                proof {
                    assert(payload@ =~= S::encoding(dest.deep_view()));
                }
                self.insert_encoded(doc_id, payload.as_slice())
            },
            Err(failure) => Err(failure),
        }
    }

    /// The cumulative byte lengths of the levels, one per level.
    fn layer_sizes(&self) -> (layer_sizes: Vec<u32>)
        requires
            self.wf(),
        ensures
            layer_sizes@ == offsets(self@.tower()),
            <Vec<u32> as BinarySerializable>::encodable(layer_sizes.deep_view()),
            layer_sizes.deep_view() == offsets(self@.tower()),
            self.layers.len() == self@.tower().len(),
    {
        let ghost tower = self@.tower();
        let height = self.layers.len();
        let mut size: u32 = 0;
        let mut layer_sizes: Vec<u32> = Vec::new();
        let mut level: usize = 0;
        proof {
            assert(tower.take(0) =~= Seq::<Level>::empty());
        }
        while level < height
            invariant
                level <= height,
                height == self.layers.len(),
                tower == self@.tower(),
                self.wf(),
                size == bodies(tower.take(level as int)).len(),
                layer_sizes@ == offsets(tower).take(level as int),
            decreases height - level,
        {
            proof {
                lemma_bodies_take(tower, level as int);
                lemma_bodies_take(tower, level + 1);
            }
            size = size + self.layers[level].written_size() as u32;
            layer_sizes.push(size);
            level = level + 1;
            proof {
                assert(layer_sizes@ =~= offsets(tower).take(level as int));
            }
        }
        proof {
            assert(offsets(tower).take(height as int) =~= offsets(tower));
            assert(layer_sizes.deep_view() =~= offsets(tower));
            lemma_tower_inhabited(self@.period, self@.entries);
            assert forall|at: int| 0 <= at < tower.len() implies level_bytes(
                (#[trigger] tower[at]).entries,
            ).len() >= 4 by {
                assert(layer_holds(self.layers@[at]@, tower[at], self@.period));
            }
            lemma_bodies_at_least(tower);
        }
        layer_sizes
    }

    /// Appends the serialized image to `output`: the encoded sequence of
    /// cumulative level lengths, then the bytes of each level, the data level
    /// first.
    pub fn write(self, output: &mut Vec<u8>) -> (written: Result<(), Error>)
        requires
            self.wf(),
        ensures
            written == Ok::<(), Error>(()),
            final(output)@ == old(output)@ + image(self@.tower()),
    {
        let ghost tower = self@.tower();
        let height = self.layers.len();
        let layer_sizes = self.layer_sizes();
        match layer_sizes.serialize(output) {
            Ok(_) => {},
            Err(failure) => {
                return Err(failure);
            },
        }
        let ghost header = <Vec<u32> as BinarySerializable>::encoding(offsets(tower));
        let mut level: usize = 0;
        proof {
            assert(tower.take(0) =~= Seq::<Level>::empty());
            assert(output@ =~= old(output)@ + header + bodies(tower.take(0)));
        }
        while level < height
            invariant
                level <= height,
                height == self.layers.len(),
                tower == self@.tower(),
                self.wf(),
                output@ == old(output)@ + header + bodies(tower.take(level as int)),
            decreases height - level,
        {
            proof {
                lemma_bodies_take(tower, level as int);
            }
            match self.layers[level].write(output) {
                Ok(_) => {},
                Err(failure) => {
                    return Err(failure);
                },
            }
            level = level + 1;
            proof {
                assert(output@ =~= old(output)@ + header + bodies(tower.take(level as int)));
            }
        }
        proof {
            assert(tower.take(height as int) =~= tower);
            assert(output@ =~= old(output)@ + (header + bodies(tower)));
        }
        Ok(())
    }

    /// The serialized image in the pieces that are written one after another,
    /// each with the stage that it belongs to: the encoded sequence of
    /// cumulative level lengths, then each level. A writer to a sink that can
    /// fail sends them in this order and knows at which stage it failed.
    pub fn stages(self) -> (pieces: Vec<(WriteStage, Vec<u8>)>)
        requires
            self.wf(),
        ensures
            pieces.len() == self@.tower().len() + 1,
            pieces[0].0 == WriteStage::Offsets,
            pieces[0].1@ == <Vec<u32> as BinarySerializable>::encoding(offsets(self@.tower())),
            forall|level: int|
                0 <= level < self@.tower().len() ==> (#[trigger] pieces[level + 1]).0
                    == WriteStage::Level(level as usize) && pieces[level + 1].1@ == level_bytes(
                    self@.tower()[level].entries,
                ),
    {
        let ghost tower = self@.tower();
        let height = self.layers.len();
        let layer_sizes = self.layer_sizes();
        let mut header: Vec<u8> = Vec::new();
        match layer_sizes.serialize(&mut header) {
            Ok(_) => {},
            Err(_) => {},
        }
        proof {
            assert(header@ =~= <Vec<u32> as BinarySerializable>::encoding(offsets(tower)));
        }
        let mut pieces: Vec<(WriteStage, Vec<u8>)> = Vec::new();
        pieces.push((WriteStage::Offsets, header));
        let mut level: usize = 0;
        while level < height
            invariant
                level <= height,
                height == self.layers.len(),
                height == tower.len(),
                tower == self@.tower(),
                self.wf(),
                pieces.len() == level + 1,
                pieces[0].0 == WriteStage::Offsets,
                pieces[0].1@ == <Vec<u32> as BinarySerializable>::encoding(offsets(tower)),
                forall|below: int|
                    0 <= below < level ==> (#[trigger] pieces[below + 1]).0 == WriteStage::Level(
                        below as usize,
                    ) && pieces[below + 1].1@ == level_bytes(tower[below].entries),
            decreases height - level,
        {
            let mut bytes: Vec<u8> = Vec::new();
            match self.layers[level].write(&mut bytes) {
                Ok(_) => {},
                Err(_) => {},
            }
            proof {
                assert(layer_holds(self.layers@[level as int]@, tower[level as int], self@.period));
                assert(bytes@ =~= level_bytes(tower[level as int].entries));
            }
            pieces.push((WriteStage::Level(level), bytes));
            level = level + 1;
        }
        pieces
    }
}

} // verus!
