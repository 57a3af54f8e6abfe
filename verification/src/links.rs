//! What holds a tower together: every level is sorted, and every pointer of a
//! skip level points at the entry with its key in the level below.

use vstd::prelude::*;

use crate::level::level_bytes;
use crate::level::offset_of;
use crate::level::strictly_increasing;
use crate::level::DocId;
use crate::level::Entry;
use crate::level::SENTINEL;
use crate::tower::bodies;
use crate::tower::cascade;
use crate::tower::lemma_bodies_update;
use crate::tower::lemma_cascade_grows;
use crate::tower::level_after;
use crate::tower::level_for;
use crate::tower::tower_of;
use crate::tower::Level;
use crate::wire::be_bytes;

verus! {

/// Whether `pointer` points at entry `index` of the level `below`: it has the
/// key of that entry, and for a payload the offset at which that entry starts.
pub open spec fn points_at(below: Seq<Entry>, pointer: Entry, index: int) -> bool {
    &&& 0 <= index < below.len()
    &&& below[index].key == pointer.key
    &&& offset_of(below, index) <= u32::MAX
    &&& pointer.payload == be_bytes(offset_of(below, index) as u32)
}

/// Whether `pointer` points at an entry of the level `below`.
pub open spec fn points_into(below: Seq<Entry>, pointer: Entry) -> bool {
    exists|index: int| points_at(below, pointer, index)
}

/// Whether level `level` of a tower is sorted and, above the data level,
/// points with each entry into the level below it.
pub open spec fn level_linked(tower: Seq<Level>, level: int) -> bool {
    &&& strictly_increasing(tower[level].entries)
    &&& level >= 1 ==> forall|index: int|
        0 <= index < tower[level].entries.len() ==> points_into(
            tower[level - 1].entries,
            #[trigger] tower[level].entries[index],
        )
}

/// Whether a tower holds together: each level is sorted, and each entry of a
/// level above the data level points into the level below it.
pub open spec fn linked(tower: Seq<Level>) -> bool {
    forall|level: int| 0 <= level < tower.len() ==> #[trigger] level_linked(tower, level)
}

/// Every key of `entries` is below `key`.
pub open spec fn all_below(entries: Seq<Entry>, key: DocId) -> bool {
    forall|index: int| 0 <= index < entries.len() ==> (#[trigger] entries[index]).key < key
}

/// A pointer into a level still points into it when the level has grown.
pub proof fn lemma_points_into_grown(below: Seq<Entry>, pointer: Entry, last: Entry)
    requires
        points_into(below, pointer),
    ensures
        points_into(below.push(last), pointer),
{
    let index = choose|index: int| points_at(below, pointer, index);
    assert(below.push(last).take(index) =~= below.take(index));
    assert(points_at(below.push(last), pointer, index));
}

/// A sorted run stays sorted with a greater key behind it.
pub proof fn lemma_sorted_push(entries: Seq<Entry>, last: Entry)
    requires
        strictly_increasing(entries),
        all_below(entries, last.key),
        last.key < SENTINEL,
    ensures
        strictly_increasing(entries.push(last)),
{
    let grown = entries.push(last);
    assert forall|i: int, j: int| 0 <= i < j < grown.len() implies (#[trigger] grown[i]).key < (
    #[trigger] grown[j]).key by {
        if j < entries.len() {
            assert(grown[i] == entries[i] && grown[j] == entries[j]);
        } else {
            assert(grown[i] == entries[i]);
        }
    }
    assert forall|i: int| 0 <= i < grown.len() implies (#[trigger] grown[i]).key < SENTINEL by {
        if i < entries.len() {
            assert(grown[i] == entries[i]);
        }
    }
}

/// A level stays linked in a tower that differs neither in it nor below it.
pub proof fn lemma_level_linked_kept(tower: Seq<Level>, other: Seq<Level>, level: int)
    requires
        0 <= level < tower.len(),
        level < other.len(),
        level_linked(tower, level),
        other[level] == tower[level],
        level >= 1 ==> other[level - 1] == tower[level - 1],
    ensures
        level_linked(other, level),
{
}

/// A level stays linked when the level below it has grown by an entry.
pub proof fn lemma_level_linked_over_grown(
    tower: Seq<Level>,
    other: Seq<Level>,
    level: int,
    last: Entry,
)
    requires
        1 <= level < tower.len(),
        level < other.len(),
        level_linked(tower, level),
        other[level] == tower[level],
        other[level - 1].entries == tower[level - 1].entries.push(last),
    ensures
        level_linked(other, level),
{
    assert forall|index: int| 0 <= index < other[level].entries.len() implies points_into(
        other[level - 1].entries,
        #[trigger] other[level].entries[index],
    ) by {
        assert(points_into(tower[level - 1].entries, tower[level].entries[index]));
        lemma_points_into_grown(tower[level - 1].entries, tower[level].entries[index], last);
    }
}

/// A level stays linked when it grows by an entry with a greater key that
/// points into the level below.
pub proof fn lemma_level_linked_grown(
    tower: Seq<Level>,
    other: Seq<Level>,
    level: int,
    last: Entry,
)
    requires
        0 <= level < tower.len(),
        level < other.len(),
        level_linked(tower, level),
        other[level].entries == tower[level].entries.push(last),
        all_below(tower[level].entries, last.key),
        last.key < SENTINEL,
        level >= 1 ==> other[level - 1] == tower[level - 1] && points_into(
            tower[level - 1].entries,
            last,
        ),
    ensures
        level_linked(other, level),
{
    lemma_sorted_push(tower[level].entries, last);
    if level >= 1 {
        assert forall|index: int| 0 <= index < other[level].entries.len() implies points_into(
            other[level - 1].entries,
            #[trigger] other[level].entries[index],
        ) by {
            if index < tower[level].entries.len() {
                assert(other[level].entries[index] == tower[level].entries[index]);
                assert(points_into(tower[level - 1].entries, tower[level].entries[index]));
            }
        }
    }
}

/// Every key of a level is a key of the level below it, and so is below what
/// the keys there are below.
pub proof fn lemma_all_below_above(tower: Seq<Level>, level: int, key: DocId)
    requires
        1 <= level < tower.len(),
        level_linked(tower, level),
        all_below(tower[level - 1].entries, key),
    ensures
        all_below(tower[level].entries, key),
{
    let above = tower[level].entries;
    let below = tower[level - 1].entries;
    assert forall|index: int| 0 <= index < above.len() implies (#[trigger] above[index]).key
        < key by {
        assert(points_into(below, tower[level].entries[index]));
        let under = choose|under: int| points_at(below, above[index], under);
        assert(below[under].key < key);
    }
}

/// A level that was created for an entry pointing into the top of a tower is
/// linked on top of it.
pub proof fn lemma_level_linked_top(tower: Seq<Level>, other: Seq<Level>, last: Entry)
    requires
        other.len() == tower.len() + 1,
        other[tower.len() as int].entries == seq![last],
        last.key < SENTINEL,
        tower.len() >= 1 ==> other[tower.len() - 1] == tower[tower.len() - 1] && points_into(
            tower[tower.len() - 1].entries,
            last,
        ),
    ensures
        level_linked(other, tower.len() as int),
{
    let level = tower.len() as int;
    assert(strictly_increasing(other[level].entries));
    if level >= 1 {
        assert forall|index: int| 0 <= index < other[level].entries.len() implies points_into(
            other[level - 1].entries,
            #[trigger] other[level].entries[index],
        ) by {
            assert(other[level].entries[index] == last);
        }
    }
}

/// An insertion leaves the levels below its own as they were and appends the
/// entry to its own level, which it creates if need be.
pub proof fn lemma_cascade_shape(
    tower: Seq<Level>,
    at: nat,
    period: nat,
    key: DocId,
    payload: Seq<u8>,
)
    requires
        at <= tower.len(),
    ensures
        cascade(tower, at, period, key, payload).len() > at,
        forall|level: int|
            0 <= level < at ==> #[trigger] cascade(tower, at, period, key, payload)[level]
                == tower[level],
        at < tower.len() ==> cascade(tower, at, period, key, payload)[at as int] == level_after(
            tower[at as int],
            period,
            key,
            payload,
        ),
        at == tower.len() ==> cascade(tower, at, period, key, payload)[at as int] == level_for(
            period,
            key,
            payload,
        ),
    decreases tower.len() - at,
{
    if at < tower.len() {
        let level = tower[at as int];
        let grown = tower.update(at as int, level_after(level, period, key, payload));
        if level.remaining == 1 {
            let pointer = be_bytes(level_bytes(level.entries).len() as u32);
            lemma_cascade_shape(grown, at + 1, period, key, pointer);
            let result = cascade(grown, at + 1, period, key, pointer);
            assert(result[at as int] == grown[at as int]);
            assert forall|below: int| 0 <= below < at implies #[trigger] result[below]
                == tower[below] by {
                assert(result[below] == grown[below]);
            }
        }
    }
}

/// The offset at which an insertion puts its entry fits 32 bits where the
/// tower after it does.
pub proof fn lemma_cascade_offset(
    tower: Seq<Level>,
    at: nat,
    period: nat,
    key: DocId,
    payload: Seq<u8>,
)
    requires
        at < tower.len(),
        bodies(cascade(tower, at, period, key, payload)).len() <= u32::MAX,
    ensures
        level_bytes(tower[at as int].entries).len() <= u32::MAX,
{
    lemma_cascade_grows(tower, at, period, key, payload);
    lemma_bodies_update(tower, at as int, tower[at as int]);
}

/// Growing one level of a linked tower by an entry with a greater key that
/// points into the level below leaves the tower linked.
pub proof fn lemma_grown_linked(tower: Seq<Level>, at: int, period: nat, last: Entry)
    requires
        linked(tower),
        0 <= at < tower.len(),
        last.key < SENTINEL,
        all_below(tower[at].entries, last.key),
        at >= 1 ==> points_into(tower[at - 1].entries, last),
    ensures
        linked(tower.update(at, level_after(tower[at], period, last.key, last.payload))),
{
    let grown = tower.update(at, level_after(tower[at], period, last.key, last.payload));
    assert forall|level: int| 0 <= level < grown.len() implies #[trigger] level_linked(
        grown,
        level,
    ) by {
        assert(level_linked(tower, level));
        if level == at {
            lemma_level_linked_grown(tower, grown, level, last);
        } else if level == at + 1 {
            lemma_level_linked_over_grown(tower, grown, level, last);
        } else {
            lemma_level_linked_kept(tower, grown, level);
        }
    }
}

/// A level created on top of a linked tower for an entry that points into the
/// former top leaves the tower linked.
pub proof fn lemma_topped_linked(tower: Seq<Level>, period: nat, last: Entry)
    requires
        linked(tower),
        last.key < SENTINEL,
        tower.len() >= 1 ==> points_into(tower[tower.len() - 1].entries, last),
    ensures
        linked(tower.push(level_for(period, last.key, last.payload))),
{
    let topped = tower.push(level_for(period, last.key, last.payload));
    assert forall|level: int| 0 <= level < topped.len() implies #[trigger] level_linked(
        topped,
        level,
    ) by {
        if level < tower.len() {
            assert(level_linked(tower, level));
            lemma_level_linked_kept(tower, topped, level);
        } else {
            lemma_level_linked_top(tower, topped, last);
        }
    }
}

/// The pointer that a level promotes points at the entry that it just took.
pub proof fn lemma_promoted_points(level: Level, period: nat, last: Entry)
    requires
        level_bytes(level.entries).len() <= u32::MAX,
    ensures
        points_into(
            level_after(level, period, last.key, last.payload).entries,
            Entry { key: last.key, payload: be_bytes(level_bytes(level.entries).len() as u32) },
        ),
{
    let after = level_after(level, period, last.key, last.payload);
    let pointer = Entry {
        key: last.key,
        payload: be_bytes(level_bytes(level.entries).len() as u32),
    };
    assert(after.entries.take(level.entries.len() as int) =~= level.entries);
    assert(points_at(after.entries, pointer, level.entries.len() as int));
}

/// An insertion with a key above those of its level, which points into the
/// level below, keeps the tower linked.
pub proof fn lemma_cascade_linked(
    tower: Seq<Level>,
    at: nat,
    period: nat,
    key: DocId,
    payload: Seq<u8>,
)
    requires
        linked(tower),
        at <= tower.len(),
        key < SENTINEL,
        at < tower.len() ==> all_below(tower[at as int].entries, key),
        at >= 1 ==> points_into(tower[at - 1].entries, Entry { key, payload }),
        bodies(cascade(tower, at, period, key, payload)).len() <= u32::MAX,
    ensures
        linked(cascade(tower, at, period, key, payload)),
    decreases tower.len() - at,
{
    let entry = Entry { key, payload };
    if at >= tower.len() {
        lemma_topped_linked(tower, period, entry);
    } else {
        let here = at as int;
        let level = tower[here];
        let grown = tower.update(here, level_after(level, period, key, payload));
        lemma_grown_linked(tower, here, period, entry);
        if level.remaining == 1 {
            let pointer = be_bytes(level_bytes(level.entries).len() as u32);
            lemma_cascade_offset(tower, at, period, key, payload);
            lemma_promoted_points(level, period, entry);
            if here + 1 < tower.len() {
                assert(level_linked(tower, here + 1));
                lemma_all_below_above(tower, here + 1, key);
            }
            lemma_cascade_linked(grown, at + 1, period, key, pointer);
        }
    }
}

/// A front part of a sorted run is sorted.
pub proof fn lemma_sorted_front(entries: Seq<Entry>)
    requires
        strictly_increasing(entries),
        entries.len() > 0,
    ensures
        strictly_increasing(entries.drop_last()),
        all_below(entries.drop_last(), entries.last().key),
        entries.last().key < SENTINEL,
{
    let front = entries.drop_last();
    assert forall|i: int, j: int| 0 <= i < j < front.len() implies (#[trigger] front[i]).key < (
    #[trigger] front[j]).key by {
        assert(front[i] == entries[i] && front[j] == entries[j]);
    }
    assert forall|i: int| 0 <= i < front.len() implies (#[trigger] front[i]).key < SENTINEL by {
        assert(front[i] == entries[i]);
    }
    assert forall|i: int| 0 <= i < front.len() implies (#[trigger] front[i]).key
        < entries.last().key by {
        assert(front[i] == entries[i]);
        assert(entries[i].key < entries[entries.len() - 1].key);
    }
}

/// The tower that sorted insertions build is linked, and its data level holds
/// the entries inserted, in their order.
pub proof fn lemma_tower_linked(period: nat, entries: Seq<Entry>)
    requires
        strictly_increasing(entries),
        bodies(tower_of(period, entries)).len() <= u32::MAX,
    ensures
        linked(tower_of(period, entries)),
        entries.len() == 0 <==> tower_of(period, entries).len() == 0,
        entries.len() > 0 ==> tower_of(period, entries)[0].entries == entries,
    decreases entries.len(),
{
    if entries.len() > 0 {
        let front = entries.drop_last();
        let last = entries.last();
        let before = tower_of(period, front);
        lemma_cascade_grows(before, 0, period, last.key, last.payload);
        lemma_sorted_front(entries);
        lemma_tower_linked(period, front);
        lemma_cascade_linked(before, 0, period, last.key, last.payload);
        lemma_cascade_shape(before, 0, period, last.key, last.payload);
        assert(front.push(last) =~= entries);
        if front.len() == 0 {
            assert(seq![last] =~= entries);
        }
    }
}

} // verus!
