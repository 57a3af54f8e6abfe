//! The tower of levels as mathematics: how an insertion cascades upward, the
//! tower that a run of insertions builds, and the image it serializes to.

use vstd::prelude::*;

use crate::codec::BinarySerializable;
use crate::level::level_bytes;
use crate::level::lemma_level_bytes_single;
use crate::level::DocId;
use crate::level::Entry;
use crate::wire::be_bytes;

verus! {

/// One level of a tower: its entries and the insertions left until its next
/// promotion.
pub struct Level {
    pub entries: Seq<Entry>,
    pub remaining: nat,
}

/// The countdown of a level after one insertion: it runs down to the
/// promotion and starts again at the period.
pub open spec fn countdown_after(remaining: nat, period: nat) -> nat {
    if remaining == 1 {
        period
    } else {
        (remaining - 1) as nat
    }
}

/// The level `level` after the entry `(key, payload)` went into it.
pub open spec fn level_after(level: Level, period: nat, key: DocId, payload: Seq<u8>) -> Level {
    Level {
        entries: level.entries.push(Entry { key, payload }),
        remaining: countdown_after(level.remaining, period),
    }
}

/// A level that was created for the entry `(key, payload)`.
pub open spec fn level_for(period: nat, key: DocId, payload: Seq<u8>) -> Level {
    Level { entries: seq![Entry { key, payload }], remaining: countdown_after(period, period) }
}

/// The tower after the entry `(key, payload)` went into level `at`. A level
/// that is due promotes the key, with the offset at which the entry starts, to
/// the level above. A level that does not exist yet is created for the entry,
/// and nothing is promoted out of a level in the insertion that created it.
pub open spec fn cascade(
    tower: Seq<Level>,
    at: nat,
    period: nat,
    key: DocId,
    payload: Seq<u8>,
) -> Seq<Level>
    decreases tower.len() - at,
{
    if at >= tower.len() {
        tower.push(level_for(period, key, payload))
    } else {
        let level = tower[at as int];
        let grown = tower.update(at as int, level_after(level, period, key, payload));
        if level.remaining == 1 {
            cascade(
                grown,
                at + 1,
                period,
                key,
                be_bytes(level_bytes(level.entries).len() as u32),
            )
        } else {
            grown
        }
    }
}

/// The tower that inserting `entries` in order builds, starting from nothing.
pub open spec fn tower_of(period: nat, entries: Seq<Entry>) -> Seq<Level>
    decreases entries.len(),
{
    if entries.len() == 0 {
        Seq::empty()
    } else {
        cascade(
            tower_of(period, entries.drop_last()),
            0,
            period,
            entries.last().key,
            entries.last().payload,
        )
    }
}

/// How many levels, from `at` upward without a gap, are due to promote.
pub open spec fn promotions(tower: Seq<Level>, at: nat) -> nat
    decreases tower.len() - at,
{
    if at < tower.len() && tower[at as int].remaining == 1 {
        1 + promotions(tower, at + 1)
    } else {
        0
    }
}

/// The bytes of all levels, the data level first.
pub open spec fn bodies(tower: Seq<Level>) -> Seq<u8>
    decreases tower.len(),
{
    if tower.len() == 0 {
        Seq::empty()
    } else {
        bodies(tower.drop_last()) + level_bytes(tower.last().entries)
    }
}

/// The cumulative byte lengths of the levels, one per level.
pub open spec fn offsets(tower: Seq<Level>) -> Seq<u32> {
    Seq::new(tower.len(), |level: int| bodies(tower.take(level + 1)).len() as u32)
}

/// The serialized image of a tower: the encoded sequence of cumulative level
/// lengths, then the bytes of the levels.
pub open spec fn image(tower: Seq<Level>) -> Seq<u8> {
    <Vec<u32> as BinarySerializable>::encoding(offsets(tower)) + bodies(tower)
}

/// Every level holds at least one entry.
pub open spec fn levels_inhabited(tower: Seq<Level>) -> bool {
    forall|level: int| 0 <= level < tower.len() ==> (#[trigger] tower[level]).entries.len() >= 1
}

/// The bytes of a tower with one more level on top.
pub proof fn lemma_bodies_push(tower: Seq<Level>, top: Level)
    ensures
        bodies(tower.push(top)) == bodies(tower) + level_bytes(top.entries),
{
    assert(tower.push(top).drop_last() =~= tower);
}

/// Replacing a level changes the length of the bytes by the change in that
/// level, and no level is longer than the whole.
pub proof fn lemma_bodies_update(tower: Seq<Level>, at: int, level: Level)
    requires
        0 <= at < tower.len(),
    ensures
        level_bytes(tower[at].entries).len() <= bodies(tower).len(),
        bodies(tower.update(at, level)).len() == bodies(tower).len() - level_bytes(
            tower[at].entries,
        ).len() + level_bytes(level.entries).len(),
    decreases tower.len(),
{
    let changed = tower.update(at, level);
    if at == tower.len() - 1 {
        assert(changed.drop_last() =~= tower.drop_last());
    } else {
        assert(changed.drop_last() =~= tower.drop_last().update(at, level));
        lemma_bodies_update(tower.drop_last(), at, level);
    }
}

/// One more entry makes a level longer by its key and its payload.
pub proof fn lemma_level_after_len(level: Level, period: nat, key: DocId, payload: Seq<u8>)
    ensures
        level_bytes(level_after(level, period, key, payload).entries) == level_bytes(level.entries)
            + be_bytes(key) + payload,
{
    let entry = Entry { key, payload };
    assert(level.entries.push(entry).drop_last() =~= level.entries);
}

/// A level created for an entry holds its key and its payload.
pub proof fn lemma_level_for_len(period: nat, key: DocId, payload: Seq<u8>)
    ensures
        level_bytes(level_for(period, key, payload).entries) == be_bytes(key) + payload,
{
    lemma_level_bytes_single(Entry { key, payload });
}

/// An insertion adds the entry to its level and an 8-byte pointer to a level
/// above for each level that promotes.
pub proof fn lemma_cascade_grows(
    tower: Seq<Level>,
    at: nat,
    period: nat,
    key: DocId,
    payload: Seq<u8>,
)
    requires
        at <= tower.len(),
    ensures
        bodies(cascade(tower, at, period, key, payload)).len() == bodies(tower).len() + 4
            + payload.len() + 8 * promotions(tower, at),
        cascade(tower, at, period, key, payload).len() >= tower.len(),
        cascade(tower, at, period, key, payload).len() <= tower.len() + 1,
        levels_inhabited(tower) ==> levels_inhabited(cascade(tower, at, period, key, payload)),
    decreases tower.len() - at,
{
    if at >= tower.len() {
        lemma_bodies_push(tower, level_for(period, key, payload));
        lemma_level_for_len(period, key, payload);
    } else {
        let level = tower[at as int];
        let after = level_after(level, period, key, payload);
        let grown = tower.update(at as int, after);
        lemma_bodies_update(tower, at as int, after);
        lemma_level_after_len(level, period, key, payload);
        if level.remaining == 1 {
            let pointer = be_bytes(level_bytes(level.entries).len() as u32);
            lemma_cascade_grows(grown, at + 1, period, key, pointer);
            lemma_promotions_above(tower, at, after);
        }
    }
}

/// Replacing a level leaves the count of promotions above it as it was.
pub proof fn lemma_promotions_above(tower: Seq<Level>, at: nat, level: Level)
    requires
        at < tower.len(),
    ensures
        forall|from: nat|
            at < from ==> #[trigger] promotions(tower.update(at as int, level), from)
                == promotions(tower, from),
{
    assert forall|from: nat| at < from implies #[trigger] promotions(
        tower.update(at as int, level),
        from,
    ) == promotions(tower, from) by {
        lemma_promotions_update(tower, at, level, from);
    }
}

/// Replacing a level leaves the count of promotions from a level above it as
/// it was.
pub proof fn lemma_promotions_update(tower: Seq<Level>, at: nat, level: Level, from: nat)
    requires
        at < tower.len(),
        at < from,
    ensures
        promotions(tower.update(at as int, level), from) == promotions(tower, from),
    decreases tower.len() - from,
{
    if from < tower.len() {
        lemma_promotions_update(tower, at, level, from + 1);
    }
}

/// The bytes of two towers stacked are the bytes of the lower, then of the upper.
pub proof fn lemma_bodies_concat(lower: Seq<Level>, upper: Seq<Level>)
    ensures
        bodies(lower + upper) == bodies(lower) + bodies(upper),
    decreases upper.len(),
{
    if upper.len() == 0 {
        assert(lower + upper =~= lower);
        assert(bodies(lower) + bodies(upper) =~= bodies(lower));
    } else {
        let stacked = lower + upper;
        assert(stacked.drop_last() =~= lower + upper.drop_last());
        assert(stacked.last() == upper.last());
        lemma_bodies_concat(lower, upper.drop_last());
        assert(bodies(stacked) =~= bodies(lower) + bodies(upper));
    }
}

/// The bytes of the levels below `upto` lead the bytes of the tower, and the
/// level `upto` follows them.
pub proof fn lemma_bodies_take(tower: Seq<Level>, upto: int)
    requires
        0 <= upto <= tower.len(),
    ensures
        bodies(tower.take(upto)).len() <= bodies(tower).len(),
        bodies(tower.take(upto)) == bodies(tower).subrange(0, bodies(tower.take(upto)).len() as int),
        upto < tower.len() ==> bodies(tower.take(upto + 1)) == bodies(tower.take(upto))
            + level_bytes(tower[upto].entries),
{
    assert(tower =~= tower.take(upto) + tower.skip(upto));
    lemma_bodies_concat(tower.take(upto), tower.skip(upto));
    assert(bodies(tower.take(upto)) =~= bodies(tower).subrange(
        0,
        bodies(tower.take(upto)).len() as int,
    ));
    if upto < tower.len() {
        assert(tower.take(upto + 1) =~= tower.take(upto).push(tower[upto]));
        lemma_bodies_push(tower.take(upto), tower[upto]);
    }
}

/// Where every level holds at least four bytes, the tower holds at least four
/// for each level.
pub proof fn lemma_bodies_at_least(tower: Seq<Level>)
    requires
        forall|level: int|
            0 <= level < tower.len() ==> level_bytes((#[trigger] tower[level]).entries).len() >= 4,
    ensures
        bodies(tower).len() >= 4 * tower.len(),
    decreases tower.len(),
{
    if tower.len() > 0 {
        assert forall|level: int| 0 <= level < tower.drop_last().len() implies level_bytes(
            (#[trigger] tower.drop_last()[level]).entries,
        ).len() >= 4 by {
            assert(tower.drop_last()[level] == tower[level]);
        }
        lemma_bodies_at_least(tower.drop_last());
        assert(level_bytes(tower[tower.len() - 1].entries).len() >= 4);
    }
}

/// In a tower built by insertions every level holds an entry.
pub proof fn lemma_tower_inhabited(period: nat, entries: Seq<Entry>)
    ensures
        levels_inhabited(tower_of(period, entries)),
    decreases entries.len(),
{
    if entries.len() > 0 {
        lemma_tower_inhabited(period, entries.drop_last());
        lemma_cascade_grows(
            tower_of(period, entries.drop_last()),
            0,
            period,
            entries.last().key,
            entries.last().payload,
        );
    }
}

} // verus!
