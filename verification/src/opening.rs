//! Opening a serialized tower: the reader finds each level where the builder
//! wrote it.

use vstd::prelude::*;

use crate::codec::BinarySerializable;
use crate::level::level_bytes;
use crate::reader::level_slice;
use crate::reader::levels_in_order;
use crate::reader::LayerCursor;
use crate::reader::SkipListState;
use crate::tower::bodies;
use crate::tower::image;
use crate::tower::lemma_bodies_take;
use crate::tower::offsets;
use crate::tower::Level;

verus! {

/// The reader at the start of every level of a tower: in the data level, and
/// in the skip levels from the top one down.
pub open spec fn fresh_reader(tower: Seq<Level>) -> SkipListState {
    SkipListState {
        data: if tower.len() == 0 {
            LayerCursor::opened(Seq::empty())
        } else {
            LayerCursor::opened(level_bytes(tower[0].entries))
        },
        skips: Seq::new(
            if tower.len() == 0 {
                0nat
            } else {
                (tower.len() - 1) as nat
            },
            |skip: int| LayerCursor::opened(level_bytes(tower[tower.len() - 1 - skip].entries)),
        ),
    }
}

/// The bytes of the levels below `lower` are no more than of those below
/// `upper`.
pub proof fn lemma_bodies_monotone(tower: Seq<Level>, lower: int, upper: int)
    requires
        0 <= lower <= upper <= tower.len(),
    ensures
        bodies(tower.take(lower)).len() <= bodies(tower.take(upper)).len(),
        bodies(tower.take(upper)).len() <= bodies(tower).len(),
{
    assert(tower.take(upper).take(lower) =~= tower.take(lower));
    lemma_bodies_take(tower.take(upper), lower);
    lemma_bodies_take(tower, upper);
}

/// The cumulative lengths of a tower grow from level to level and end within
/// its bytes.
pub proof fn lemma_offsets_in_order(tower: Seq<Level>)
    requires
        bodies(tower).len() <= u32::MAX,
    ensures
        levels_in_order(offsets(tower), bodies(tower).len()),
        forall|level: int|
            0 <= level < tower.len() ==> (#[trigger] offsets(tower)[level]) == bodies(
                tower.take(level + 1),
            ).len(),
{
    let cumulative = offsets(tower);
    assert forall|level: int| 0 <= level < tower.len() implies (#[trigger] cumulative[level])
        == bodies(tower.take(level + 1)).len() by {
        lemma_bodies_monotone(tower, level + 1, level + 1);
    }
    assert forall|i: int, j: int| 0 <= i <= j < cumulative.len() implies cumulative[i]
        <= cumulative[j] by {
        lemma_bodies_monotone(tower, i + 1, j + 1);
    }
    assert forall|i: int| 0 <= i < cumulative.len() implies cumulative[i] <= bodies(
        tower,
    ).len() by {
        lemma_bodies_monotone(tower, i + 1, i + 1);
    }
}

/// Between the cumulative lengths around a level lie the bytes of that level.
pub proof fn lemma_level_slice(tower: Seq<Level>, level: int)
    requires
        bodies(tower).len() <= u32::MAX,
        0 <= level < tower.len(),
    ensures
        level_slice(bodies(tower), offsets(tower), level) == level_bytes(tower[level].entries),
{
    lemma_offsets_in_order(tower);
    lemma_bodies_take(tower, level);
    lemma_bodies_take(tower, level + 1);
    let below = bodies(tower.take(level));
    let upto = bodies(tower.take(level + 1));
    if level == 0 {
        assert(tower.take(0) =~= Seq::<Level>::empty());
    } else {
        assert(offsets(tower)[level - 1] == below.len());
    }
    assert(offsets(tower)[level] == upto.len());
    let all = bodies(tower);
    let here = level_bytes(tower[level].entries);
    let slice = level_slice(all, offsets(tower), level);
    assert(slice == all.subrange(below.len() as int, upto.len() as int));
    assert(upto.len() == below.len() + here.len());
    assert forall|i: int| 0 <= i < here.len() implies slice[i] == here[i] by {
        assert(upto[below.len() + i] == here[i]);
        assert(all.subrange(0, upto.len() as int)[below.len() + i] == all[below.len() + i]);
    }
    assert(slice =~= here);
}

/// Opening the image of a tower puts the reader at the start of every level.
pub proof fn lemma_parse_image(tower: Seq<Level>)
    requires
        bodies(tower).len() <= u32::MAX,
        tower.len() <= u32::MAX,
    ensures
        SkipListState::parse(image(tower)) == Some(fresh_reader(tower)),
{
    let cumulative = offsets(tower);
    let header = <Vec<u32> as BinarySerializable>::encoding(cumulative);
    <Vec<u32> as BinarySerializable>::lemma_decoding_of_encoding(cumulative, bodies(tower));
    let body = image(tower).skip(header.len() as int);
    assert(body =~= bodies(tower));
    lemma_offsets_in_order(tower);
    let parsed = SkipListState::parse(image(tower)).unwrap();
    let fresh = fresh_reader(tower);
    if tower.len() > 0 {
        lemma_level_slice(tower, 0);
    }
    assert(parsed.skips =~= fresh.skips) by {
        assert forall|skip: int| 0 <= skip < fresh.skips.len() implies parsed.skips[skip]
            == fresh.skips[skip] by {
            lemma_level_slice(tower, tower.len() - 1 - skip);
        }
    }
}

} // verus!
