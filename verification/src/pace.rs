//! How far apart the pointers of a skip level stand: never more than a period
//! of entries lies between two of them, before the first or behind the last.

use vstd::prelude::*;

use crate::level::level_bytes;
use crate::level::strictly_increasing;
use crate::level::DocId;
use crate::level::Entry;
use crate::level::SENTINEL;
use crate::links::all_below;
use crate::links::lemma_all_below_above;
use crate::links::lemma_cascade_offset;
use crate::links::lemma_grown_linked;
use crate::links::lemma_promoted_points;
use crate::links::lemma_sorted_front;
use crate::links::lemma_tower_linked;
use crate::links::level_linked;
use crate::links::linked;
use crate::links::points_into;
use crate::scan::lemma_rank_of_entry;
use crate::scan::lemma_rank_push;
use crate::scan::rank;
use crate::tower::bodies;
use crate::tower::cascade;
use crate::tower::lemma_cascade_grows;
use crate::tower::level_after;
use crate::tower::level_for;
use crate::tower::tower_of;
use crate::tower::Level;
use crate::wire::be_bytes;

verus! {

/// Whether the pointers `above` stand close in the level `below`: at most
/// `period` entries lie before the entry of the first pointer, and at most
/// `period` from the entry of one pointer to that of the next.
pub open spec fn gaps_within(below: Seq<Entry>, above: Seq<Entry>, period: nat) -> bool {
    &&& above.len() >= 1
    &&& rank(below, above[0].key) <= period
    &&& forall|index: int|
        1 <= index < above.len() ==> rank(below, (#[trigger] above[index]).key) - rank(
            below,
            above[index - 1].key,
        ) <= period
}

/// Whether a level keeps pace with the level above it: the pointers stand
/// close, and from the entry of the last pointer on, the entries and the
/// countdown of the level make up no more than a period and one.
pub open spec fn paced_pair(below: Level, above: Level, period: nat) -> bool {
    &&& gaps_within(below.entries, above.entries, period)
    &&& below.entries.len() - rank(below.entries, above.entries.last().key) + below.remaining
        <= period + 1
    &&& below.remaining >= 1
}

/// Whether the top level keeps pace: its entries and its countdown make up no
/// more than a period and one.
pub open spec fn paced_top(top: Level, period: nat) -> bool {
    &&& top.entries.len() + top.remaining <= period + 1
    &&& top.remaining >= 1
}

/// Whether a level that has just promoted its last entry is ready for the
/// pointer to go into the level above it.
pub open spec fn pending_pair(below: Level, above: Level, period: nat) -> bool {
    &&& gaps_within(below.entries, above.entries, period)
    &&& below.entries.len() - 1 - rank(below.entries, above.entries.last().key) <= period
    &&& below.remaining == period
}

/// Whether a top level that has just promoted its last entry is ready for a
/// level to be created above it.
pub open spec fn pending_top(below: Level, period: nat) -> bool {
    &&& below.entries.len() - 1 <= period
    &&& below.remaining == period
}

/// Whether level `level` of a tower stands as it should while an entry goes
/// into level `at`: the level under `at` has promoted and waits for its
/// pointer, and every other level keeps pace.
pub open spec fn level_ready(tower: Seq<Level>, level: int, period: nat, at: nat) -> bool {
    if level + 1 < tower.len() {
        if level + 1 == at {
            pending_pair(tower[level], tower[level + 1], period)
        } else {
            paced_pair(tower[level], tower[level + 1], period)
        }
    } else {
        if level + 1 == at {
            pending_top(tower[level], period)
        } else {
            paced_top(tower[level], period)
        }
    }
}

/// Whether a tower stands as it should while an entry goes into level `at`.
pub open spec fn ready(tower: Seq<Level>, period: nat, at: nat) -> bool {
    forall|level: int| 0 <= level < tower.len() ==> #[trigger] level_ready(tower, level, period, at)
}

/// Whether every level of a tower keeps pace.
pub open spec fn paced(tower: Seq<Level>, period: nat) -> bool {
    ready(tower, period, 0)
}

/// Pointers stand as close in a level that has grown by a greater key.
pub proof fn lemma_gaps_kept(below: Seq<Entry>, above: Seq<Entry>, last: Entry, period: nat)
    requires
        gaps_within(below, above, period),
        all_below(above, last.key),
    ensures
        gaps_within(below.push(last), above, period),
        rank(below.push(last), above.last().key) == rank(below, above.last().key),
{
    let grown = below.push(last);
    assert forall|index: int| 0 <= index < above.len() implies rank(
        grown,
        (#[trigger] above[index]).key,
    ) == rank(below, above[index].key) by {
        lemma_rank_push(below, last, above[index].key);
    }
    assert(above[0].key == above[0].key);
    assert forall|index: int| 1 <= index < above.len() implies rank(
        grown,
        (#[trigger] above[index]).key,
    ) - rank(grown, above[index - 1].key) <= period by {
        assert(rank(grown, above[index - 1].key) == rank(below, above[index - 1].key));
    }
}

/// The pointer to the last entry of a level stands close behind the pointers
/// before it, where no more than a period of entries lies between.
pub proof fn lemma_gaps_pushed(below: Seq<Entry>, above: Seq<Entry>, pointer: Entry, period: nat)
    requires
        gaps_within(below, above, period),
        strictly_increasing(below),
        below.len() >= 1,
        below.last().key == pointer.key,
        below.len() - 1 - rank(below, above.last().key) <= period,
    ensures
        gaps_within(below, above.push(pointer), period),
        rank(below, above.push(pointer).last().key) == below.len() - 1,
{
    let grown = above.push(pointer);
    lemma_rank_of_entry(below, below.len() - 1);
    assert(grown[0] == above[0]);
    assert forall|index: int| 1 <= index < grown.len() implies rank(
        below,
        (#[trigger] grown[index]).key,
    ) - rank(below, grown[index - 1].key) <= period by {
        if index < above.len() {
            assert(grown[index] == above[index]);
            assert(grown[index - 1] == above[index - 1]);
        } else {
            assert(grown[index - 1] == above[above.len() - 1]);
        }
    }
}

/// The pointer to the last entry of a level stands close to the start, where
/// no more than a period of entries lies before that entry.
pub proof fn lemma_gaps_first(below: Seq<Entry>, pointer: Entry, period: nat)
    requires
        strictly_increasing(below),
        below.len() >= 1,
        below.last().key == pointer.key,
        below.len() - 1 <= period,
    ensures
        gaps_within(below, seq![pointer], period),
        rank(below, seq![pointer].last().key) == below.len() - 1,
{
    lemma_rank_of_entry(below, below.len() - 1);
}

/// A level created for the pointer to the last entry of the top level, which
/// has just promoted it, leaves every level keeping pace.
pub proof fn lemma_ready_topped(tower: Seq<Level>, period: nat, last: Entry)
    requires
        period >= 1,
        linked(tower),
        ready(tower, period, tower.len()),
        tower.len() >= 1 ==> tower[tower.len() - 1].entries.len() >= 1 && tower[tower.len()
            - 1].entries.last().key == last.key,
    ensures
        paced(tower.push(level_for(period, last.key, last.payload)), period),
{
    let top = level_for(period, last.key, last.payload);
    let topped = tower.push(top);
    assert forall|level: int| 0 <= level < topped.len() implies #[trigger] level_ready(
        topped,
        level,
        period,
        0,
    ) by {
        if level == tower.len() {
            assert(paced_top(top, period));
        } else if level == tower.len() - 1 {
            assert(level_ready(tower, level, period, tower.len()));
            assert(level_linked(tower, level));
            lemma_gaps_first(tower[level].entries, Entry { key: last.key, payload: last.payload }, period);
            assert(topped[level + 1].entries =~= seq![Entry { key: last.key, payload: last.payload }]);
        } else {
            assert(level_ready(tower, level, period, tower.len()));
        }
    }
}

/// The level under the one that takes the pointer to its last entry keeps
/// pace again.
pub proof fn lemma_ready_under(tower: Seq<Level>, period: nat, at: int, last: Entry)
    requires
        period >= 1,
        1 <= at < tower.len(),
        strictly_increasing(tower[at - 1].entries),
        pending_pair(tower[at - 1], tower[at], period),
        tower[at - 1].entries.len() >= 1,
        tower[at - 1].entries.last().key == last.key,
    ensures
        paced_pair(tower[at - 1], level_after(tower[at], period, last.key, last.payload), period),
{
    lemma_gaps_pushed(
        tower[at - 1].entries,
        tower[at].entries,
        Entry { key: last.key, payload: last.payload },
        period,
    );
}

/// A level that takes an entry with a greater key keeps pace with the level
/// above it, or waits for its pointer to go there if it has promoted.
pub proof fn lemma_ready_here(tower: Seq<Level>, period: nat, at: int, last: Entry)
    requires
        period >= 1,
        0 <= at < tower.len(),
        at + 1 < tower.len() ==> paced_pair(tower[at], tower[at + 1], period) && all_below(
            tower[at + 1].entries,
            last.key,
        ),
        at + 1 == tower.len() ==> paced_top(tower[at], period),
    ensures
        at + 1 < tower.len() ==> if tower[at].remaining == 1 {
            pending_pair(
                level_after(tower[at], period, last.key, last.payload),
                tower[at + 1],
                period,
            )
        } else {
            paced_pair(
                level_after(tower[at], period, last.key, last.payload),
                tower[at + 1],
                period,
            )
        },
        at + 1 == tower.len() ==> if tower[at].remaining == 1 {
            pending_top(level_after(tower[at], period, last.key, last.payload), period)
        } else {
            paced_top(level_after(tower[at], period, last.key, last.payload), period)
        },
{
    if at + 1 < tower.len() {
        lemma_gaps_kept(
            tower[at].entries,
            tower[at + 1].entries,
            Entry { key: last.key, payload: last.payload },
            period,
        );
    }
}

/// Growing a level by an entry with a greater key, which is the pointer to
/// the last entry of the level below, leaves the tower as it should stand for
/// the next step: every level keeping pace, or the grown level waiting for its
/// pointer.
pub proof fn lemma_ready_grown(tower: Seq<Level>, period: nat, at: int, last: Entry)
    requires
        period >= 1,
        linked(tower),
        0 <= at < tower.len(),
        ready(tower, period, at as nat),
        all_below(tower[at].entries, last.key),
        at >= 1 ==> tower[at - 1].entries.len() >= 1 && tower[at - 1].entries.last().key
            == last.key,
    ensures
        ready(
            tower.update(at, level_after(tower[at], period, last.key, last.payload)),
            period,
            if tower[at].remaining == 1 {
                (at + 1) as nat
            } else {
                0nat
            },
        ),
{
    let after = level_after(tower[at], period, last.key, last.payload);
    let grown = tower.update(at, after);
    let next = if tower[at].remaining == 1 {
        (at + 1) as nat
    } else {
        0nat
    };
    assert forall|level: int| 0 <= level < grown.len() implies #[trigger] level_ready(
        grown,
        level,
        period,
        next,
    ) by {
        assert(level_ready(tower, level, period, at as nat));
        if level == at - 1 {
            assert(level_linked(tower, level));
            lemma_ready_under(tower, period, at, last);
        } else if level == at {
            if at + 1 < tower.len() {
                assert(level_linked(tower, at + 1));
                lemma_all_below_above(tower, at + 1, last.key);
            }
            lemma_ready_here(tower, period, at, last);
        } else {
            assert(grown[level] == tower[level]);
            if level + 1 < tower.len() {
                assert(grown[level + 1] == tower[level + 1]);
            }
        }
    }
}

/// An insertion with a key above those of its level, which is the pointer to
/// the last entry of the level below, leaves every level keeping pace.
pub proof fn lemma_cascade_paced(
    tower: Seq<Level>,
    at: nat,
    period: nat,
    key: DocId,
    payload: Seq<u8>,
)
    requires
        period >= 1,
        linked(tower),
        ready(tower, period, at),
        at <= tower.len(),
        key < SENTINEL,
        at < tower.len() ==> all_below(tower[at as int].entries, key),
        at >= 1 ==> points_into(tower[at - 1].entries, Entry { key, payload }),
        at >= 1 ==> tower[at - 1].entries.len() >= 1 && tower[at - 1].entries.last().key == key,
        bodies(cascade(tower, at, period, key, payload)).len() <= u32::MAX,
    ensures
        paced(cascade(tower, at, period, key, payload), period),
    decreases tower.len() - at,
{
    let entry = Entry { key, payload };
    if at >= tower.len() {
        lemma_ready_topped(tower, period, entry);
    } else {
        let here = at as int;
        let level = tower[here];
        let grown = tower.update(here, level_after(level, period, key, payload));
        lemma_grown_linked(tower, here, period, entry);
        lemma_ready_grown(tower, period, here, entry);
        if level.remaining == 1 {
            let pointer = be_bytes(level_bytes(level.entries).len() as u32);
            lemma_cascade_offset(tower, at, period, key, payload);
            lemma_promoted_points(level, period, entry);
            if here + 1 < tower.len() {
                assert(level_linked(tower, here + 1));
                lemma_all_below_above(tower, here + 1, key);
            }
            lemma_cascade_paced(grown, at + 1, period, key, pointer);
        }
    }
}

/// In the tower that sorted insertions build every level keeps pace.
pub proof fn lemma_tower_paced(period: nat, entries: Seq<Entry>)
    requires
        period >= 1,
        strictly_increasing(entries),
        bodies(tower_of(period, entries)).len() <= u32::MAX,
    ensures
        paced(tower_of(period, entries), period),
    decreases entries.len(),
{
    if entries.len() > 0 {
        let front = entries.drop_last();
        let last = entries.last();
        let before = tower_of(period, front);
        lemma_cascade_grows(before, 0, period, last.key, last.payload);
        lemma_sorted_front(entries);
        lemma_tower_linked(period, front);
        lemma_tower_paced(period, front);
        lemma_cascade_paced(before, 0, period, last.key, last.payload);
    }
}

} // verus!
