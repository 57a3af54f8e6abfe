//! What the first seek costs: in each level it produces no more entries than
//! the period.

use vstd::prelude::*;

use crate::codec::BinarySerializable;
use crate::laws::last_below;
use crate::laws::lemma_level_seek;
use crate::laws::lemma_pointers_spell;
use crate::laws::pointers;
use crate::laws::lemma_tower_height;
use crate::level::level_bytes;
use crate::level::strictly_increasing;
use crate::links::lemma_tower_linked;
use crate::opening::fresh_reader;
use crate::opening::lemma_parse_image;
use crate::pace::lemma_tower_paced;
use crate::reader::SkipListState;
use crate::tower::bodies;
use crate::tower::image;
use crate::tower::tower_of;
use crate::level::offset_of;
use crate::level::DocId;
use crate::level::Entry;
use crate::links::level_linked;
use crate::links::linked;
use crate::links::points_at;
use crate::links::points_into;
use crate::pace::level_ready;
use crate::pace::paced;
use crate::reader::descend;
use crate::reader::descend_passes;
use crate::reader::entered;
use crate::reader::pointer_of;
use crate::reader::LayerCursor;
use crate::scan::lemma_passes_at_entry;
use crate::scan::lemma_rank;
use crate::scan::lemma_rank_monotone;
use crate::scan::lemma_rank_of_entry;
use crate::scan::lemma_settled_at_entry;
use crate::scan::rank;
use crate::scan::spells;
use crate::tower::Level;
use crate::wire::lemma_be_value_of_bytes;

verus! {

/// Whether `carried` is what the first seek of `target` carries into level
/// `level`: the offset of the entry that the last pointer below `target` in
/// the level above points at, or nothing where the level above has no pointer
/// below `target` or does not exist.
pub open spec fn enters(tower: Seq<Level>, level: int, carried: Option<u32>, target: DocId) -> bool {
    if level + 1 < tower.len() {
        let above = tower[level + 1].entries;
        let below = tower[level].entries;
        let count = rank(above, target);
        if count == 0 {
            carried is None
        } else {
            let index = rank(below, above[count - 1].key);
            &&& offset_of(below, index as int) <= u32::MAX
            &&& carried == Some(offset_of(below, index as int) as u32)
        }
    } else {
        carried is None
    }
}

/// In a linked tower a pointer points at the entry that has as many keys
/// below it as the pointer's key has.
pub proof fn lemma_pointer_rank(tower: Seq<Level>, level: int, index: int)
    requires
        1 <= level < tower.len(),
        level_linked(tower, level),
        level_linked(tower, level - 1),
        0 <= index < tower[level].entries.len(),
    ensures
        points_at(
            tower[level - 1].entries,
            tower[level].entries[index],
            rank(tower[level - 1].entries, tower[level].entries[index].key) as int,
        ),
{
    let below = tower[level - 1].entries;
    let pointer = tower[level].entries[index];
    assert(points_into(below, tower[level].entries[index]));
    let under = choose|under: int| points_at(below, pointer, under);
    lemma_rank_of_entry(below, under);
}

/// What a skip level finds in the first seek is what the seek carries into
/// the level below.
pub proof fn lemma_found_enters(tower: Seq<Level>, level: int, target: DocId)
    requires
        1 <= level < tower.len(),
        level_linked(tower, level),
        level_linked(tower, level - 1),
    ensures
        enters(
            tower,
            level - 1,
            pointer_of(
                last_below(tower[level].entries, pointers(tower[level].entries), target),
            ),
            target,
        ),
{
    let entries = tower[level].entries;
    let below = tower[level - 1].entries;
    lemma_rank(entries, target);
    let count = rank(entries, target) as int;
    if count > 0 {
        let pointer = entries[count - 1];
        lemma_pointer_rank(tower, level, count - 1);
        let under = rank(below, pointer.key) as int;
        lemma_be_value_of_bytes(offset_of(below, under) as u32, Seq::empty());
        assert(pointer.payload + Seq::<u8>::empty() =~= pointer.payload);
        assert(pointers(entries)[count - 1].1 == offset_of(below, under));
    }
}

/// What the first seek carries into a level is the offset of an entry below
/// the target.
pub proof fn lemma_enters_carries(tower: Seq<Level>, level: int, carried: Option<u32>, target: DocId)
    requires
        linked(tower),
        0 <= level < tower.len(),
        enters(tower, level, carried, target),
    ensures
        crate::laws::carries(tower[level].entries, carried, target),
{
    if level + 1 < tower.len() {
        let above = tower[level + 1].entries;
        let below = tower[level].entries;
        assert(level_linked(tower, level + 1));
        assert(level_linked(tower, level));
        lemma_rank(above, target);
        let count = rank(above, target) as int;
        if count > 0 {
            lemma_pointer_rank(tower, level + 1, count - 1);
            let index = rank(below, above[count - 1].key) as int;
            assert(0 <= index < below.len() && carried.unwrap() == offset_of(below, index)
                && below[index].key < target);
        }
    }
}

/// In the first seek a level that keeps pace produces no more entries than
/// the period.
pub proof fn lemma_level_passes<T: BinarySerializable>(
    tower: Seq<Level>,
    level: int,
    values: Seq<(DocId, T::V)>,
    carried: Option<u32>,
    target: DocId,
    period: nat,
)
    requires
        period >= 1,
        linked(tower),
        paced(tower, period),
        0 <= level < tower.len(),
        spells::<T>(tower[level].entries, values),
        enters(tower, level, carried, target),
    ensures
        entered(LayerCursor::opened(level_bytes(tower[level].entries)), carried).passes::<T>(target)
            <= period,
{
    let entries = tower[level].entries;
    assert(level_linked(tower, level));
    assert(level_ready(tower, level, period, 0));
    lemma_rank(entries, target);
    let below_target = rank(entries, target) as int;
    if level + 1 < tower.len() {
        let above = tower[level + 1].entries;
        assert(level_linked(tower, level + 1));
        lemma_rank(above, target);
        let count = rank(above, target) as int;
        if count == 0 {
            lemma_settled_at_entry(entries, 0);
            assert(entries.take(0) =~= Seq::<Entry>::empty());
            lemma_passes_at_entry::<T>(entries, values, 0, target);
            assert(above[0].key >= target);
            lemma_rank_monotone(entries, target, above[0].key);
        } else {
            let pointer = above[count - 1];
            lemma_pointer_rank(tower, level + 1, count - 1);
            let index = rank(entries, pointer.key) as int;
            assert(pointer.key < target);
            lemma_settled_at_entry(entries, index);
            lemma_passes_at_entry::<T>(entries, values, index, target);
            if count < above.len() {
                assert(above[count].key >= target);
                lemma_rank_monotone(entries, target, above[count].key);
                assert(rank(entries, above[count].key) - rank(entries, above[count - 1].key)
                    <= period);
            } else {
                assert(above.last() == pointer);
            }
        }
    } else {
        lemma_settled_at_entry(entries, 0);
        assert(entries.take(0) =~= Seq::<Entry>::empty());
        lemma_passes_at_entry::<T>(entries, values, 0, target);
    }
}

/// In the first way down the skip levels of a tower that keeps pace, every
/// level is entered, none produces more entries than the period, and the data
/// level is handed what the seek carries into it.
pub proof fn lemma_descend_passes(
    tower: Seq<Level>,
    skips: Seq<LayerCursor>,
    from: nat,
    carried: Option<u32>,
    target: DocId,
    period: nat,
)
    requires
        period >= 1,
        linked(tower),
        paced(tower, period),
        tower.len() >= 1,
        skips.len() == tower.len() - 1,
        from <= skips.len(),
        forall|skip: int|
            from <= skip < skips.len() ==> #[trigger] skips[skip] == LayerCursor::opened(
                level_bytes(tower[tower.len() - 1 - skip].entries),
            ),
        enters(tower, tower.len() - 1 - from, carried, target),
    ensures
        descend_passes(skips, from, carried, target).len() == skips.len() - from,
        forall|index: int|
            0 <= index < skips.len() - from ==> #[trigger] descend_passes(
                skips,
                from,
                carried,
                target,
            )[index] <= period,
        descend(skips, from, carried, target).carried matches Ok(handed) && enters(
            tower,
            0,
            handed,
            target,
        ),
    decreases skips.len() - from,
{
    if from < skips.len() {
        let level = tower.len() - 1 - from;
        let entries = tower[level].entries;
        assert(level_linked(tower, level));
        assert(level_linked(tower, level - 1));
        lemma_pointers_spell(tower, level);
        lemma_enters_carries(tower, level, carried, target);
        lemma_level_seek::<u32>(entries, pointers(entries), carried, target);
        lemma_level_passes::<u32>(tower, level, pointers(entries), carried, target, period);
        lemma_found_enters(tower, level, target);
        let sought = entered(skips[from as int], carried).seek::<u32>(target, None);
        let handed = pointer_of(sought.found.unwrap());
        let moved = skips.update(from as int, sought.after);
        assert forall|skip: int| from + 1 <= skip < moved.len() implies #[trigger] moved[skip]
            == LayerCursor::opened(level_bytes(tower[tower.len() - 1 - skip].entries)) by {
            assert(moved[skip] == skips[skip]);
        }
        lemma_descend_passes(tower, moved, from + 1, handed, target, period);
        lemma_descend_passes(tower, skips, from + 1, handed, target, period);
        let here = descend_passes(skips, from, carried, target);
        let rest = descend_passes(skips, from + 1, handed, target);
        assert(here == seq![entered(skips[from as int], carried).passes::<u32>(target)] + rest);
        assert forall|index: int| 0 <= index < skips.len() - from implies #[trigger] here[index]
            <= period by {
            if index > 0 {
                assert(here[index] == rest[index - 1]);
            }
        }
    }
}

/// Cost bound. In a skip list built from entries with increasing keys, the
/// first seek of a target enters each level of the tower once, the top level
/// first, and in no level produces more entries than the period.
pub proof fn lemma_seek_cost<T: BinarySerializable>(
    period: nat,
    entries: Seq<Entry>,
    values: Seq<(DocId, T::V)>,
    target: DocId,
)
    requires
        period >= 1,
        spells::<T>(entries, values),
        strictly_increasing(entries),
        bodies(tower_of(period, entries)).len() <= u32::MAX,
    ensures
        SkipListState::parse(image(tower_of(period, entries))) matches Some(reader) && {
            &&& reader.passes::<T>(target).len() == if entries.len() == 0 {
                1
            } else {
                tower_of(period, entries).len()
            }
            &&& forall|level: int|
                0 <= level < reader.passes::<T>(target).len() ==> #[trigger] reader.passes::<T>(
                    target,
                )[level] <= period
        },
{
    let tower = tower_of(period, entries);
    lemma_tower_height(period, entries);
    lemma_parse_image(tower);
    lemma_tower_linked(period, entries);
    let reader = fresh_reader(tower);
    if entries.len() == 0 {
        assert(reader.skips.len() == 0);
        assert(reader.passes::<T>(target) =~= seq![0nat]);
    } else {
        lemma_tower_paced(period, entries);
        lemma_descend_passes(tower, reader.skips, 0, None, target, period);
        let handed = descend(reader.skips, 0, None, target).carried.unwrap();
        lemma_level_passes::<T>(tower, 0, values, handed, target, period);
        let above = descend_passes(reader.skips, 0, None, target);
        let all = reader.passes::<T>(target);
        assert forall|level: int| 0 <= level < all.len() implies #[trigger] all[level]
            <= period by {
            if level < above.len() {
                assert(all[level] == above[level]);
            }
        }
    }
}

} // verus!
