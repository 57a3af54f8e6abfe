//! What the builder and the reader promise together.

use vstd::prelude::*;

use crate::codec::BinarySerializable;
use crate::level::level_bytes;
use crate::level::lemma_level_bytes_at_least;
use crate::level::offset_of;
use crate::level::strictly_increasing;
use crate::level::DocId;
use crate::level::Entry;
use crate::links::lemma_tower_linked;
use crate::links::level_linked;
use crate::links::linked;
use crate::links::points_at;
use crate::links::points_into;
use crate::opening::fresh_reader;
use crate::opening::lemma_parse_image;
use crate::error::Error;
use crate::reader::descend;
use crate::reader::Descent;
use crate::reader::Seek;
use crate::reader::Step;
use crate::scan::lemma_drain_at_entry;
use crate::reader::entered;
use crate::reader::pointer_of;
use crate::reader::LayerCursor;
use crate::reader::SkipListState;
use crate::reader::Sought;
use crate::scan::at_entry;
use crate::scan::lemma_rank;
use crate::scan::lemma_seek_at_entry;
use crate::scan::lemma_settled_at_entry;
use crate::scan::rank;
use crate::scan::spells;
use crate::tower::bodies;
use crate::tower::image;
use crate::tower::lemma_bodies_at_least;
use crate::tower::lemma_tower_inhabited;
use crate::tower::tower_of;
use crate::tower::Level;
use crate::wire::be_value;
use crate::wire::lemma_be_value_of_bytes;

verus! {

/// Whether `found` is the entry of `values` with the greatest key below
/// `target`, or nothing where no key is below `target`.
pub open spec fn is_predecessor<V>(
    values: Seq<(DocId, V)>,
    target: DocId,
    found: Option<(DocId, V)>,
) -> bool {
    match found {
        Some(entry) => {
            &&& entry.0 < target
            &&& exists|index: int| 0 <= index < values.len() && values[index] == entry
            &&& forall|index: int|
                0 <= index < values.len() && (#[trigger] values[index]).0 < target
                    ==> values[index].0 <= entry.0
        },
        None => forall|index: int|
            0 <= index < values.len() ==> (#[trigger] values[index]).0 >= target,
    }
}

/// The last of the entries below `target` in a sorted run, or nothing where
/// none is below it.
pub open spec fn last_below<V>(
    entries: Seq<Entry>,
    values: Seq<(DocId, V)>,
    target: DocId,
) -> Option<(DocId, V)> {
    if rank(entries, target) == 0 {
        None
    } else {
        Some(values[rank(entries, target) - 1])
    }
}

/// Whether the offset carried into a level is where an entry with a key below
/// `target` starts.
pub open spec fn carries(level: Seq<Entry>, carried: Option<u32>, target: DocId) -> bool {
    match carried {
        Some(offset) => exists|index: int|
            0 <= index < level.len() && offset == #[trigger] offset_of(level, index)
                && level[index].key < target,
        None => true,
    }
}

/// The pointers of a skip level as values: each key with the offset that its
/// payload spells.
pub open spec fn pointers(entries: Seq<Entry>) -> Seq<(DocId, u32)> {
    Seq::new(entries.len(), |index: int| (entries[index].key, be_value(entries[index].payload)))
}

/// A linked skip level spells its pointers.
pub proof fn lemma_pointers_spell(tower: Seq<Level>, level: int)
    requires
        1 <= level < tower.len(),
        level_linked(tower, level),
    ensures
        spells::<u32>(tower[level].entries, pointers(tower[level].entries)),
{
    let entries = tower[level].entries;
    let below = tower[level - 1].entries;
    assert forall|index: int| 0 <= index < entries.len() implies {
        &&& (#[trigger] entries[index]).key == pointers(entries)[index].0
        &&& entries[index].payload == <u32 as BinarySerializable>::encoding(
            pointers(entries)[index].1,
        )
    } by {
        assert(points_into(below, tower[level].entries[index]));
        let under = choose|under: int| points_at(below, entries[index], under);
        lemma_be_value_of_bytes(offset_of(below, under) as u32, Seq::empty());
        assert(entries[index].payload + Seq::<u8>::empty() =~= entries[index].payload);
    }
}

/// In the first seek of a sorted level, entered at its start or at an entry
/// below the target, the last entry below the target is found, and the cursor
/// is left behind it.
pub proof fn lemma_level_seek<T: BinarySerializable>(
    entries: Seq<Entry>,
    values: Seq<(DocId, T::V)>,
    carried: Option<u32>,
    target: DocId,
)
    requires
        spells::<T>(entries, values),
        strictly_increasing(entries),
        carries(entries, carried, target),
    ensures
        entered(LayerCursor::opened(level_bytes(entries)), carried).seek::<T>(target, None) == (
        Sought {
            found: Ok(last_below(entries, values, target)),
            after: at_entry(entries, rank(entries, target) as int),
        }),
{
    lemma_rank(entries, target);
    match carried {
        Some(offset) => {
            let index = choose|index: int|
                0 <= index < entries.len() && offset == #[trigger] offset_of(entries, index)
                    && entries[index].key < target;
            lemma_settled_at_entry(entries, index);
            lemma_seek_at_entry::<T>(entries, values, index, target, None);
        },
        None => {
            lemma_settled_at_entry(entries, 0);
            assert(entries.take(0) =~= Seq::<Entry>::empty());
            lemma_seek_at_entry::<T>(entries, values, 0, target, None);
        },
    }
}

/// What a sorted level finds last below the target is the predecessor of the
/// target among its entries.
pub proof fn lemma_last_below_is_predecessor<V>(
    entries: Seq<Entry>,
    values: Seq<(DocId, V)>,
    target: DocId,
)
    requires
        strictly_increasing(entries),
        entries.len() == values.len(),
        forall|index: int|
            0 <= index < entries.len() ==> (#[trigger] entries[index]).key == values[index].0,
    ensures
        is_predecessor(values, target, last_below(entries, values, target)),
{
    lemma_rank(entries, target);
    let count = rank(entries, target) as int;
    if count == 0 {
        assert forall|index: int| 0 <= index < values.len() implies (#[trigger] values[index]).0
            >= target by {
            assert(entries[index].key >= target);
        }
    } else {
        let entry = values[count - 1];
        assert(entries[count - 1].key < target);
        assert(0 <= count - 1 < values.len() && values[count - 1] == entry);
        assert forall|index: int|
            0 <= index < values.len() && (#[trigger] values[index]).0 < target implies values[index].0
            <= entry.0 by {
            assert(entries[index].key < target);
            if index >= count {
                assert(entries[index].key >= target);
            }
            if index < count - 1 {
                assert(entries[index].key < entries[count - 1].key);
            }
        }
    }
}

/// What a linked skip level finds last below the target points at an entry
/// below the target in the level beneath it.
pub proof fn lemma_found_carries(tower: Seq<Level>, level: int, target: DocId)
    requires
        1 <= level < tower.len(),
        level_linked(tower, level),
    ensures
        carries(
            tower[level - 1].entries,
            pointer_of(
                last_below(tower[level].entries, pointers(tower[level].entries), target),
            ),
            target,
        ),
{
    let entries = tower[level].entries;
    let below = tower[level - 1].entries;
    lemma_rank(entries, target);
    let count = rank(entries, target) as int;
    if count > 0 {
        let pointer = entries[count - 1];
        assert(pointer.key < target);
        assert(points_into(below, tower[level].entries[count - 1]));
        let under = choose|under: int| points_at(below, pointer, under);
        lemma_be_value_of_bytes(offset_of(below, under) as u32, Seq::empty());
        assert(pointer.payload + Seq::<u8>::empty() =~= pointer.payload);
        assert(pointers(entries)[count - 1].1 == offset_of(below, under));
    }
}

/// The first way down the skip levels of a linked tower carries into the data
/// level the offset of an entry below the target.
pub proof fn lemma_descend_carries(
    tower: Seq<Level>,
    skips: Seq<LayerCursor>,
    from: nat,
    carried: Option<u32>,
    target: DocId,
)
    requires
        linked(tower),
        tower.len() >= 1,
        skips.len() == tower.len() - 1,
        from <= skips.len(),
        forall|skip: int|
            from <= skip < skips.len() ==> #[trigger] skips[skip] == LayerCursor::opened(
                level_bytes(tower[tower.len() - 1 - skip].entries),
            ),
        carries(tower[tower.len() - 1 - from].entries, carried, target),
    ensures
        descend(skips, from, carried, target).carried matches Ok(handed) && carries(
            tower[0].entries,
            handed,
            target,
        ),
    decreases skips.len() - from,
{
    if from < skips.len() {
        let level = tower.len() - 1 - from;
        let entries = tower[level].entries;
        assert(level_linked(tower, level));
        lemma_pointers_spell(tower, level);
        lemma_level_seek::<u32>(entries, pointers(entries), carried, target);
        lemma_found_carries(tower, level, target);
        let sought = entered(skips[from as int], carried).seek::<u32>(target, None);
        let moved = skips.update(from as int, sought.after);
        assert forall|skip: int| from + 1 <= skip < moved.len() implies #[trigger] moved[skip]
            == LayerCursor::opened(level_bytes(tower[tower.len() - 1 - skip].entries)) by {
            assert(moved[skip] == skips[skip]);
        }
        lemma_descend_carries(tower, moved, from + 1, pointer_of(sought.found.unwrap()), target);
    }
}

/// Seek correctness. In a skip list built from entries with increasing keys,
/// the first seek of a target finds the entry with the greatest key below the
/// target, or nothing where no key is below it: as a scan of the entries
/// would, for every target.
pub proof fn lemma_seek_finds_predecessor<T: BinarySerializable>(
    period: nat,
    entries: Seq<Entry>,
    values: Seq<(DocId, T::V)>,
    target: DocId,
)
    requires
        period >= 1,
        spells::<T>(entries, values),
        strictly_increasing(entries),
        bodies(tower_of(period, entries)).len() <= u32::MAX,
    ensures
        SkipListState::parse(image(tower_of(period, entries))) matches Some(reader)
            && reader.seek::<T>(target).found matches Ok(found) && is_predecessor(
            values,
            target,
            found,
        ),
{
    let tower = tower_of(period, entries);
    lemma_tower_height(period, entries);
    lemma_parse_image(tower);
    lemma_tower_linked(period, entries);
    let reader = fresh_reader(tower);
    if entries.len() == 0 {
        assert(reader.skips.len() == 0);
        assert(reader.seek::<T>(target).found == Ok::<Option<(DocId, T::V)>, Error>(None));
    } else {
        lemma_descend_carries(tower, reader.skips, 0, None, target);
        let handed = descend(reader.skips, 0, None, target).carried.unwrap();
        lemma_level_seek::<T>(entries, values, handed, target);
        lemma_last_below_is_predecessor(entries, values, target);
    }
}

/// A tower that fits 32-bit offsets has fewer levels than a 32-bit count
/// holds.
pub proof fn lemma_tower_height(period: nat, entries: Seq<Entry>)
    requires
        bodies(tower_of(period, entries)).len() <= u32::MAX,
    ensures
        tower_of(period, entries).len() <= u32::MAX,
{
    let tower = tower_of(period, entries);
    lemma_tower_inhabited(period, entries);
    assert forall|level: int| 0 <= level < tower.len() implies level_bytes(
        (#[trigger] tower[level]).entries,
    ).len() >= 4 by {
        lemma_level_bytes_at_least(tower[level].entries);
    }
    lemma_bodies_at_least(tower);
}

/// Round trip. Building a skip list from entries with increasing keys, with
/// any period, and producing every entry of its data level from the start
/// gives the entries back, with their values, in their order.
pub proof fn lemma_round_trip<T: BinarySerializable>(
    period: nat,
    entries: Seq<Entry>,
    values: Seq<(DocId, T::V)>,
)
    requires
        period >= 1,
        spells::<T>(entries, values),
        strictly_increasing(entries),
        bodies(tower_of(period, entries)).len() <= u32::MAX,
    ensures
        SkipListState::parse(image(tower_of(period, entries))) matches Some(reader)
            && reader.data.drain::<T>().items == Ok::<Seq<(DocId, T::V)>, Error>(values),
{
    let tower = tower_of(period, entries);
    lemma_tower_height(period, entries);
    lemma_parse_image(tower);
    lemma_tower_linked(period, entries);
    lemma_settled_at_entry(entries, 0);
    assert(entries.take(0) =~= Seq::<Entry>::empty());
    if entries.len() == 0 {
        assert(level_bytes(entries) =~= Seq::<u8>::empty());
    }
    lemma_drain_at_entry::<T>(entries, values, 0);
    assert(values.skip(0) =~= values);
}

/// The empty skip list. With no entry inserted the tower has no level, and
/// every seek in what was built finds nothing.
pub proof fn lemma_empty_list<T: BinarySerializable>(period: nat, target: DocId)
    ensures
        tower_of(period, Seq::empty()).len() == 0,
        SkipListState::parse(image(tower_of(period, Seq::empty()))) matches Some(reader)
            && reader.skips.len() == 0 && reader.seek::<T>(target).found == Ok::<
            Option<(DocId, T::V)>,
            Error,
        >(None),
{
    let tower = tower_of(period, Seq::empty());
    assert(bodies(tower) =~= Seq::<u8>::empty());
    lemma_parse_image(tower);
}

/// A single entry. One insertion builds the data level alone: no skip level,
/// whatever the period.
pub proof fn lemma_single_entry(period: nat, entry: Entry)
    ensures
        tower_of(period, seq![entry]).len() == 1,
        tower_of(period, seq![entry])[0].entries == seq![entry],
{
    let entries = seq![entry];
    assert(entries.drop_last() =~= Seq::<Entry>::empty());
    assert(tower_of(period, entries.drop_last()).len() == 0);
}

/// A seek that went well leaves the lookahead of the level at or above the
/// target, over the same bytes.
pub proof fn lemma_layer_seek_stops<T: BinarySerializable>(
    cursor: LayerCursor,
    target: DocId,
    found: Option<(DocId, T::V)>,
)
    ensures
        cursor.seek::<T>(target, found).after.bytes == cursor.bytes,
        cursor.seek::<T>(target, found).found is Ok ==> cursor.seek::<T>(
            target,
            found,
        ).after.next_id >= target,
    decreases
        cursor.bytes.len() - cursor.position,
        if cursor.next_id == crate::level::SENTINEL {
            0nat
        } else {
            1nat
        },
{
    if cursor.next_id < target {
        match cursor.step::<T>() {
            Step::Item { key, value, after } => {
                lemma_layer_seek_stops::<T>(after, target, Some((key, value)));
            },
            _ => {},
        }
    }
}

/// A way down that went well leaves every skip level that it passed at a
/// lookahead at or above the target, and the levels before them alone.
pub proof fn lemma_descend_stops(
    skips: Seq<LayerCursor>,
    from: nat,
    carried: Option<u32>,
    target: DocId,
)
    ensures
        descend(skips, from, carried, target).skips.len() == skips.len(),
        forall|skip: int|
            0 <= skip < from && skip < skips.len() ==> #[trigger] descend(
                skips,
                from,
                carried,
                target,
            ).skips[skip] == skips[skip],
        descend(skips, from, carried, target).carried is Ok ==> forall|skip: int|
            from <= skip < skips.len() ==> (#[trigger] descend(
                skips,
                from,
                carried,
                target,
            ).skips[skip]).next_id >= target,
    decreases skips.len() - from,
{
    if from < skips.len() {
        let level = entered(skips[from as int], carried);
        lemma_layer_seek_stops::<u32>(level, target, None);
        let sought = level.seek::<u32>(target, None);
        let moved = skips.update(from as int, sought.after);
        match sought.found {
            Ok(found) => {
                lemma_descend_stops(moved, from + 1, pointer_of(found), target);
                let result = descend(moved, from + 1, pointer_of(found), target);
                assert(result.skips[from as int] == moved[from as int]);
                assert forall|skip: int| 0 <= skip < from implies #[trigger] result.skips[skip]
                    == skips[skip] by {
                    assert(result.skips[skip] == moved[skip]);
                }
            },
            Err(_) => {},
        }
    }
}

/// A way down through levels whose lookaheads are at or above the target
/// moves nothing and carries nothing.
pub proof fn lemma_descend_idle(skips: Seq<LayerCursor>, from: nat, target: DocId)
    requires
        forall|skip: int| from <= skip < skips.len() ==> (#[trigger] skips[skip]).next_id >= target,
    ensures
        descend(skips, from, None, target) == (Descent { skips, carried: Ok(None) }),
    decreases skips.len() - from,
{
    if from < skips.len() {
        assert(skips[from as int].next_id >= target);
        assert(skips.update(from as int, skips[from as int]) =~= skips);
        lemma_descend_idle(skips, from + 1, target);
    }
}

/// Seeking again. After a seek that went well, every level stands at a
/// lookahead at or above the target: a second seek of the same target passes
/// over nothing, finds nothing and leaves the reader as it is. The second
/// result is the first one only where the first found nothing.
pub proof fn lemma_seek_again<T: BinarySerializable>(reader: SkipListState, target: DocId)
    requires
        reader.seek::<T>(target).found is Ok,
    ensures
        reader.seek::<T>(target).after.seek::<T>(target) == (Seek::<T::V> {
            found: Ok(None),
            after: reader.seek::<T>(target).after,
        }),
{
    let descent = descend(reader.skips, 0, None, target);
    lemma_descend_stops(reader.skips, 0, None, target);
    let carried = descent.carried.unwrap();
    lemma_layer_seek_stops::<T>(entered(reader.data, carried), target, None);
    let after = reader.seek::<T>(target).after;
    lemma_descend_idle(after.skips, 0, target);
}

/// Seeking is a function of the image and the target: two readers opened on
/// the same image find the same for the same target and are left alike.
pub proof fn lemma_seek_repeatable<T: BinarySerializable>(
    first: Seq<u8>,
    second: Seq<u8>,
    target: DocId,
)
    requires
        first == second,
        SkipListState::parse(first) is Some,
    ensures
        SkipListState::parse(second) is Some,
        SkipListState::parse(first).unwrap().seek::<T>(target) == SkipListState::parse(
            second,
        ).unwrap().seek::<T>(target),
{
}

} // verus!
