//! Reading a level that was written entry by entry: where the cursor stands
//! before each entry, and what producing and seeking come to there.

use vstd::prelude::*;

use crate::codec::BinarySerializable;
use crate::level::level_bytes;
use crate::level::lemma_level_bytes_from;
use crate::level::lemma_offset_of_end;
use crate::level::offset_of;
use crate::level::strictly_increasing;
use crate::level::DocId;
use crate::level::Entry;
use crate::level::SENTINEL;
use crate::reader::Drained;
use crate::reader::LayerCursor;
use crate::reader::Sought;
use crate::reader::Step;
use crate::wire::lemma_be_value_of_bytes;

verus! {

/// Whether `entries` are the entries `values` with each value encoded: the
/// same keys in the same order, and each payload the encoding of its value.
pub open spec fn spells<T: BinarySerializable>(
    entries: Seq<Entry>,
    values: Seq<(DocId, T::V)>,
) -> bool {
    &&& entries.len() == values.len()
    &&& forall|i: int|
        0 <= i < entries.len() ==> {
            &&& (#[trigger] entries[i]).key == values[i].0
            &&& T::encodable(values[i].1)
            &&& entries[i].payload == T::encoding(values[i].1)
        }
}

/// The cursor that has entry `index` under its lookahead, or that is at the
/// end where `index` is the number of entries.
pub open spec fn at_entry(entries: Seq<Entry>, index: int) -> LayerCursor {
    if 0 <= index < entries.len() {
        LayerCursor {
            bytes: level_bytes(entries),
            position: offset_of(entries, index) + 4,
            next_id: entries[index].key,
        }
    } else {
        LayerCursor {
            bytes: level_bytes(entries),
            position: level_bytes(entries).len(),
            next_id: SENTINEL,
        }
    }
}

/// How many entries of a sorted run have a key below `target`.
pub open spec fn rank(entries: Seq<Entry>, target: DocId) -> nat
    decreases entries.len(),
{
    if entries.len() == 0 {
        0
    } else if entries.last().key < target {
        entries.len()
    } else {
        rank(entries.drop_last(), target)
    }
}

/// In a sorted run the entries below `target` are the first `rank` ones.
pub proof fn lemma_rank(entries: Seq<Entry>, target: DocId)
    requires
        strictly_increasing(entries),
    ensures
        rank(entries, target) <= entries.len(),
        forall|i: int| 0 <= i < rank(entries, target) ==> (#[trigger] entries[i]).key < target,
        forall|i: int|
            rank(entries, target) <= i < entries.len() ==> (#[trigger] entries[i]).key >= target,
    decreases entries.len(),
{
    if entries.len() > 0 && entries.last().key >= target {
        let front = entries.drop_last();
        assert forall|i: int, j: int| 0 <= i < j < front.len() implies (#[trigger] front[i]).key
            < (#[trigger] front[j]).key by {
            assert(front[i] == entries[i] && front[j] == entries[j]);
        }
        assert forall|i: int| 0 <= i < front.len() implies (#[trigger] front[i]).key
            < SENTINEL by {
            assert(front[i] == entries[i]);
        }
        lemma_rank(front, target);
        assert forall|i: int| 0 <= i < rank(entries, target) implies (#[trigger] entries[i]).key
            < target by {
            assert(front[i] == entries[i]);
        }
        assert forall|i: int| rank(entries, target) <= i < entries.len() implies (
        #[trigger] entries[i]).key >= target by {
            if i < front.len() {
                assert(front[i] == entries[i]);
            }
        }
    }
}

/// Settling at the offset of an entry puts that entry under the lookahead.
pub proof fn lemma_settled_at_entry(entries: Seq<Entry>, index: int)
    requires
        0 <= index <= entries.len(),
    ensures
        LayerCursor::settled(level_bytes(entries), offset_of(entries, index)) == at_entry(
            entries,
            index,
        ),
        at_entry(entries, index).wf(),
{
    lemma_offset_of_end(entries);
    if index < entries.len() {
        lemma_level_bytes_from(entries, index);
        let bytes = level_bytes(entries);
        let ahead = bytes.subrange(offset_of(entries, index) as int, bytes.len() as int);
        lemma_be_value_of_bytes(
            entries[index].key,
            entries[index].payload + level_bytes(entries.skip(index + 1)),
        );
        assert(ahead =~= crate::wire::be_bytes(entries[index].key) + (entries[index].payload
            + level_bytes(entries.skip(index + 1))));
    }
}

/// Producing at an entry gives that entry, its value decoded, and leaves the
/// next entry under the lookahead.
pub proof fn lemma_step_at_entry<T: BinarySerializable>(
    entries: Seq<Entry>,
    values: Seq<(DocId, T::V)>,
    index: int,
)
    requires
        spells::<T>(entries, values),
        0 <= index < entries.len(),
        entries[index].key != SENTINEL,
    ensures
        at_entry(entries, index).step::<T>() == (Step::Item {
            key: values[index].0,
            value: values[index].1,
            after: at_entry(entries, index + 1),
        }),
{
    let cursor = at_entry(entries, index);
    let bytes = level_bytes(entries);
    let entry = entries[index];
    let rest = level_bytes(entries.skip(index + 1));
    lemma_level_bytes_from(entries, index);
    lemma_offset_of_end(entries);
    lemma_be_value_of_bytes(entry.key, entry.payload + rest);
    assert(cursor.remaining() =~= entry.payload + rest) by {
        let from = bytes.subrange(offset_of(entries, index) as int, bytes.len() as int);
        assert(from =~= crate::wire::be_bytes(entry.key) + entry.payload + rest);
        assert(cursor.remaining() =~= from.skip(4));
    }
    T::lemma_decoding_of_encoding(values[index].1, rest);
    lemma_settled_at_entry(entries, index + 1);
}

/// Seeking from an entry on passes over the entries below the target and
/// keeps the last of them.
pub proof fn lemma_seek_at_entry<T: BinarySerializable>(
    entries: Seq<Entry>,
    values: Seq<(DocId, T::V)>,
    index: int,
    target: DocId,
    found: Option<(DocId, T::V)>,
)
    requires
        spells::<T>(entries, values),
        strictly_increasing(entries),
        0 <= index <= entries.len(),
    ensures
        at_entry(entries, index).seek::<T>(target, found) == (Sought {
            found: Ok(
                if index < rank(entries, target) {
                    Some(values[rank(entries, target) - 1])
                } else {
                    found
                },
            ),
            after: at_entry(
                entries,
                if index < rank(entries, target) {
                    rank(entries, target) as int
                } else {
                    index
                },
            ),
        }),
    decreases entries.len() - index,
{
    lemma_rank(entries, target);
    let cursor = at_entry(entries, index);
    if index < entries.len() && entries[index].key < target {
        lemma_step_at_entry::<T>(entries, values, index);
        lemma_settled_at_entry(entries, index);
        lemma_settled_at_entry(entries, index + 1);
        lemma_seek_at_entry::<T>(entries, values, index + 1, target, Some(values[index]));
    }
}

/// Producing every entry from an entry on gives the values from there on, in
/// their order, and leaves the cursor at the end.
pub proof fn lemma_drain_at_entry<T: BinarySerializable>(
    entries: Seq<Entry>,
    values: Seq<(DocId, T::V)>,
    index: int,
)
    requires
        spells::<T>(entries, values),
        strictly_increasing(entries),
        0 <= index <= entries.len(),
    ensures
        at_entry(entries, index).drain::<T>() == (Drained {
            items: Ok(values.skip(index)),
            after: at_entry(entries, entries.len() as int),
        }),
    decreases entries.len() - index,
{
    if index < entries.len() {
        lemma_step_at_entry::<T>(entries, values, index);
        lemma_settled_at_entry(entries, index);
        lemma_settled_at_entry(entries, index + 1);
        lemma_drain_at_entry::<T>(entries, values, index + 1);
        assert(seq![values[index]] + values.skip(index + 1) =~= values.skip(index));
    } else {
        assert(values.skip(index) =~= Seq::<(DocId, T::V)>::empty());
    }
}

/// Seeking from an entry on produces the entries from there up to the last
/// one below the target.
pub proof fn lemma_passes_at_entry<T: BinarySerializable>(
    entries: Seq<Entry>,
    values: Seq<(DocId, T::V)>,
    index: int,
    target: DocId,
)
    requires
        spells::<T>(entries, values),
        strictly_increasing(entries),
        0 <= index <= entries.len(),
    ensures
        at_entry(entries, index).passes::<T>(target) == if index < rank(entries, target) {
            rank(entries, target) - index
        } else {
            0
        },
    decreases entries.len() - index,
{
    lemma_rank(entries, target);
    if index < entries.len() && entries[index].key < target {
        lemma_step_at_entry::<T>(entries, values, index);
        lemma_settled_at_entry(entries, index);
        lemma_settled_at_entry(entries, index + 1);
        lemma_passes_at_entry::<T>(entries, values, index + 1, target);
    }
}

/// The entries below `target` in a sorted run are as many as any count that
/// parts the keys below `target` from the others.
pub proof fn lemma_rank_is(entries: Seq<Entry>, target: DocId, count: int)
    requires
        strictly_increasing(entries),
        0 <= count <= entries.len(),
        forall|i: int| 0 <= i < count ==> (#[trigger] entries[i]).key < target,
        forall|i: int| count <= i < entries.len() ==> (#[trigger] entries[i]).key >= target,
    ensures
        rank(entries, target) == count,
{
    lemma_rank(entries, target);
    let found = rank(entries, target) as int;
    if found < count {
        assert(entries[found].key >= target);
    }
    if count < found {
        assert(entries[count].key < target);
    }
}

/// In a sorted run, as many keys are below the key of an entry as entries
/// stand before it.
pub proof fn lemma_rank_of_entry(entries: Seq<Entry>, index: int)
    requires
        strictly_increasing(entries),
        0 <= index < entries.len(),
    ensures
        rank(entries, entries[index].key) == index,
{
    let key = entries[index].key;
    assert forall|i: int| 0 <= i < index implies (#[trigger] entries[i]).key < key by {
        assert(entries[i].key < entries[index].key);
    }
    assert forall|i: int| index <= i < entries.len() implies (#[trigger] entries[i]).key
        >= key by {
        if index < i {
            assert(entries[index].key < entries[i].key);
        }
    }
    lemma_rank_is(entries, key, index);
}

/// A greater target has no fewer keys below it.
pub proof fn lemma_rank_monotone(entries: Seq<Entry>, lower: DocId, upper: DocId)
    requires
        strictly_increasing(entries),
        lower <= upper,
    ensures
        rank(entries, lower) <= rank(entries, upper),
{
    lemma_rank(entries, lower);
    lemma_rank(entries, upper);
    let below = rank(entries, upper) as int;
    if below < rank(entries, lower) {
        assert(entries[below].key < lower);
        assert(entries[below].key >= upper);
    }
}

/// An entry behind a sorted run, with a key above those of the run, leaves
/// the count of keys below a target as it was, where the target is not above
/// its key.
pub proof fn lemma_rank_push(entries: Seq<Entry>, last: Entry, target: DocId)
    requires
        target <= last.key,
    ensures
        rank(entries.push(last), target) == rank(entries, target),
{
    assert(entries.push(last).drop_last() =~= entries);
}

} // verus!
