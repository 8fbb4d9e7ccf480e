//! Addressing in a growable array built as a tree of segments: an index is split into chunks
//! of `SEGMENT_LOGSIZE` bits, the lowest chunk picking the slot in a leaf segment and each
//! higher chunk the child in the segment one level up.
use vstd::prelude::*;

verus! {

/// The number of bits of an index that each level of segments consumes.
pub const SEGMENT_LOGSIZE: usize = 10;

/// The number of slots of a segment, `2^SEGMENT_LOGSIZE`.
pub const SEGMENT_SIZE: usize = 1024;

/// The chunks of `index`, lowest first: at least one, and no zero chunk above the first.
pub open spec fn chunks(index: nat) -> Seq<usize>
    decreases index,
{
    if index < 1024 {
        seq![index as usize]
    } else {
        seq![(index % 1024) as usize] + chunks(index / 1024)
    }
}

/// The number that chunks stand for, lowest chunk first.
pub open spec fn chunks_value(s: Seq<usize>) -> nat
    decreases s.len(),
{
    if s.len() == 0 {
        0
    } else {
        (s[0] as nat) + 1024 * chunks_value(s.drop_first())
    }
}

/// The chunks of an index put back together give the index, each chunk is below the segment
/// size, and there is at least one chunk.
pub proof fn lemma_chunks(index: nat)
    ensures
        chunks_value(chunks(index)) == index,
        chunks(index).len() >= 1,
        forall|i: int| 0 <= i < chunks(index).len() ==> #[trigger] chunks(index)[i] < 1024,
    decreases index,
{
    if index >= 1024 {
        lemma_chunks(index / 1024);
        let c = chunks(index);
        assert(c.drop_first() == chunks(index / 1024));
        vstd::arithmetic::div_mod::lemma_fundamental_div_mod(index as int, 1024);
        assert(chunks_value(c) == (index % 1024) + 1024 * chunks_value(chunks(index / 1024)));
        assert forall|i: int| 0 <= i < c.len() implies #[trigger] c[i] < 1024 by {
            if i > 0 {
                assert(c[i] == chunks(index / 1024)[i - 1]);
            }
        }
    } else {
        let c = chunks(index);
        assert(c.drop_first() == Seq::<usize>::empty());
        assert(chunks_value(Seq::<usize>::empty()) == 0);
    }
}

/// Splits `index` into its chunks, lowest first (the path from a leaf segment to the root).
pub fn segment_path(index: usize) -> (r: Vec<usize>)
    ensures
        r@ == chunks(index as nat),
{
    let mut path: Vec<usize> = Vec::new();
    let mut idx = index;
    loop
        invariant_except_break
            path@ + chunks(idx as nat) == chunks(index as nat),
        ensures
            path@ == chunks(index as nat),
        decreases idx,
    {
        let low = idx & 1023;
        let high = idx >> 10;
        assert((idx & 1023) == idx % 1024 && (idx >> 10) == idx / 1024) by (bit_vector);
        let ghost before = path@;
        path.push(low);
        if high == 0 {
            assert(idx < 1024);
            assert(chunks(idx as nat) == seq![idx]);
            assert(path@ == before + chunks(idx as nat));
            break;
        }
        assert(chunks(idx as nat) == seq![low] + chunks(high as nat));
        assert(path@ + chunks(high as nat) == before + chunks(idx as nat));
        idx = high;
    }
    path
}

/// The chunk that picks the child at level `height` (`1` for the leaf level): the chunk of the
/// path at that level, and `0` above the path (the tree may be taller than the index needs).
pub fn chunk_at(path: &Vec<usize>, height: usize) -> (r: usize)
    requires
        height >= 1,
    ensures
        r == if height <= path@.len() {
            path@[height - 1]
        } else {
            0
        },
{
    if height <= path.len() {
        path[height - 1]
    } else {
        0
    }
}

} // verus!
