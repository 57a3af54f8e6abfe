//! One level of the list as mathematics: a run of entries and the bytes that
//! spell it.

use vstd::prelude::*;

use crate::wire::be_bytes;

verus! {

/// The ordinal key of an entry.
pub type DocId = u32;

/// The key that no entry carries: as a lookahead it says that a level has no
/// more entries.
pub const SENTINEL: DocId = 0xffff_ffff;

/// An entry as a level holds it: its key and the encoded payload.
pub struct Entry {
    pub key: DocId,
    pub payload: Seq<u8>,
}

/// The bytes of one entry: the key, big-endian, then the payload.
pub open spec fn entry_bytes(entry: Entry) -> Seq<u8> {
    be_bytes(entry.key) + entry.payload
}

/// The bytes of a level: its entries one after another.
pub open spec fn level_bytes(entries: Seq<Entry>) -> Seq<u8>
    decreases entries.len(),
{
    if entries.len() == 0 {
        Seq::empty()
    } else {
        level_bytes(entries.drop_last()) + entry_bytes(entries.last())
    }
}

/// Where entry `index` starts among the bytes of its level.
pub open spec fn offset_of(entries: Seq<Entry>, index: int) -> nat {
    level_bytes(entries.take(index)).len()
}

/// Each key is smaller than the next, and none is the sentinel.
pub open spec fn strictly_increasing(entries: Seq<Entry>) -> bool {
    &&& forall|i: int, j: int|
        0 <= i < j < entries.len() ==> (#[trigger] entries[i]).key < (#[trigger] entries[j]).key
    &&& forall|i: int| 0 <= i < entries.len() ==> (#[trigger] entries[i]).key < SENTINEL
}

/// The bytes of two runs joined are the bytes of the first, then of the second.
pub proof fn lemma_level_bytes_concat(front: Seq<Entry>, back: Seq<Entry>)
    ensures
        level_bytes(front + back) == level_bytes(front) + level_bytes(back),
    decreases back.len(),
{
    if back.len() == 0 {
        assert(front + back =~= front);
        assert(level_bytes(front) + level_bytes(back) =~= level_bytes(front));
    } else {
        let joined = front + back;
        assert(joined.drop_last() =~= front + back.drop_last());
        assert(joined.last() == back.last());
        lemma_level_bytes_concat(front, back.drop_last());
        assert(level_bytes(joined) =~= level_bytes(front) + level_bytes(back));
    }
}

/// The bytes of a single entry's run are that entry's bytes.
pub proof fn lemma_level_bytes_single(entry: Entry)
    ensures
        level_bytes(seq![entry]) == entry_bytes(entry),
{
    let run = seq![entry];
    assert(run.drop_last() =~= Seq::<Entry>::empty());
    assert(level_bytes(run.drop_last()) =~= Seq::<u8>::empty());
    assert(level_bytes(run) =~= entry_bytes(entry));
}

/// From the start of entry `index` on, a level reads: that entry's key, its
/// payload, then the entries behind it.
pub proof fn lemma_level_bytes_from(entries: Seq<Entry>, index: int)
    requires
        0 <= index < entries.len(),
    ensures
        offset_of(entries, index) + 4 + entries[index].payload.len() == offset_of(
            entries,
            index + 1,
        ),
        offset_of(entries, index + 1) <= level_bytes(entries).len(),
        level_bytes(entries).subrange(
            offset_of(entries, index) as int,
            level_bytes(entries).len() as int,
        ) == be_bytes(entries[index].key) + entries[index].payload + level_bytes(
            entries.skip(index + 1),
        ),
        level_bytes(entries).subrange(
            offset_of(entries, index + 1) as int,
            level_bytes(entries).len() as int,
        ) == level_bytes(entries.skip(index + 1)),
{
    let before = entries.take(index);
    let entry = entries[index];
    let after = entries.skip(index + 1);
    let upto = entries.take(index + 1);
    assert(upto =~= before + seq![entry]);
    assert(entries =~= upto + after);
    lemma_level_bytes_concat(before, seq![entry]);
    lemma_level_bytes_single(entry);
    lemma_level_bytes_concat(upto, after);
    let all = level_bytes(entries);
    assert(all =~= level_bytes(before) + entry_bytes(entry) + level_bytes(after));
    assert(all.subrange(offset_of(entries, index) as int, all.len() as int) =~= be_bytes(
        entry.key,
    ) + entry.payload + level_bytes(after));
    assert(all.subrange(offset_of(entries, index + 1) as int, all.len() as int) =~= level_bytes(
        after,
    ));
}

/// The whole run takes every byte of the level.
pub proof fn lemma_offset_of_end(entries: Seq<Entry>)
    ensures
        offset_of(entries, entries.len() as int) == level_bytes(entries).len(),
        offset_of(entries, 0) == 0,
{
    assert(entries.take(entries.len() as int) =~= entries);
    assert(entries.take(0) =~= Seq::<Entry>::empty());
}

/// A level takes at least the four bytes of a key for each entry.
pub proof fn lemma_level_bytes_at_least(entries: Seq<Entry>)
    ensures
        level_bytes(entries).len() >= 4 * entries.len(),
    decreases entries.len(),
{
    if entries.len() > 0 {
        lemma_level_bytes_at_least(entries.drop_last());
    }
}

} // verus!
