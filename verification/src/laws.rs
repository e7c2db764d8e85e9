//! What holds of containers and sets however they were built.
//!
//! The operations promise which members their results have and that the
//! results are well formed. The proofs here draw the consequences: the members
//! of a well-formed value decide how it is stored, down to the last bit, so
//! that operations with the same members in give the same storage out.

use crate::array::ascending;
use crate::chunk_key;
use crate::chunk_low;
use crate::chunk_members;
use crate::container::Container;
use crate::container::Operation;
use crate::container::THRESHOLD;
use crate::RoaringBitmap;
use vstd::prelude::*;

verus! {

/// The value that chunk `key` stores as `low`.
pub open spec fn joined(key: u16, low: u16) -> u32 {
    (key as u32 * 0x1_0000 + low as u32) as u32
}

/// Both sets have the same chunks, and each chunk is stored in the same way
/// in both.
pub open spec fn same_chunks(a: RoaringBitmap, b: RoaringBitmap) -> bool {
    &&& forall|key: u16| a.chunks().contains_key(key) == b.chunks().contains_key(key)
    &&& forall|key: u16|
        #![trigger a.chunks()[key]]
        a.chunks().contains_key(key) ==> a.chunks()[key].same_encoding(&b.chunks()[key])
}

/// A value is found again from its chunk key and its low bits, and the two
/// can be chosen freely.
pub proof fn lemma_split_join(key: u16, low: u16, value: u32)
    ensures
        chunk_key(joined(key, low)) == key,
        chunk_low(joined(key, low)) == low,
        joined(chunk_key(value), chunk_low(value)) == value,
{
}

/// The encoding follows the number of members: a list up to the threshold,
/// a row of bits beyond it. The list holds the members in ascending order.
pub proof fn lemma_encoding_follows_population(c: Container)
    requires
        c.wf(),
    ensures
        c is Array <==> c@.len() <= THRESHOLD,
        c is Bitmap <==> c@.len() > THRESHOLD,
        c matches Container::Array(a) ==> ascending(a.elements()) && a.elements().to_set() == c@
            && a.elements().len() == c@.len(),
{
    match c {
        Container::Array(a) => {
            crate::array::lemma_ascending_len(a.elements());
        },
        Container::Bitmap(_) => {},
    }
}

/// A container that grew beyond the threshold and shrank back to the members
/// it had before is a list again, the very list it was.
pub proof fn lemma_round_trip(before: Container, grown: Container, after: Container)
    requires
        before.wf(),
        grown.wf(),
        after.wf(),
        before@.len() <= THRESHOLD,
        grown@.len() > THRESHOLD,
        after@ == before@,
    ensures
        before is Array,
        grown is Bitmap,
        after is Array,
        after.same_encoding(&before),
{
    after.lemma_encoding_unique(before);
}

/// Adding a member a second time changes nothing, in the members or in how
/// they are stored.
pub proof fn lemma_insert_again(once: Container, twice: Container, value: u16)
    requires
        once.wf(),
        twice.wf(),
        once@.contains(value),
        twice@ == once@.insert(value),
    ensures
        twice@ == once@,
        twice.same_encoding(&once),
{
    assert(once@.insert(value) =~= once@);
    twice.lemma_encoding_unique(once);
}

/// Removing what is no member changes nothing, in the members or in how they
/// are stored.
pub proof fn lemma_remove_absent(before: Container, after: Container, value: u16)
    requires
        before.wf(),
        after.wf(),
        !before@.contains(value),
        after@ == before@.remove(value),
    ensures
        after@ == before@,
        after.same_encoding(&before),
{
    assert(before@.remove(value) =~= before@);
    after.lemma_encoding_unique(before);
}

/// What an operation gives depends on the members of its operands alone, not
/// on how the operands are stored: from operands with the same members, be
/// they lists or rows of bits, come results that are stored alike.
pub proof fn lemma_result_ignores_encoding(
    op: Operation,
    lhs1: Set<u16>,
    rhs1: Set<u16>,
    out1: Container,
    lhs2: Set<u16>,
    rhs2: Set<u16>,
    out2: Container,
)
    requires
        lhs1 == lhs2,
        rhs1 == rhs2,
        out1.wf(),
        out2.wf(),
        forall|v: u16| out1@.contains(v) == op.keeps(lhs1.contains(v), rhs1.contains(v)),
        forall|v: u16| out2@.contains(v) == op.keeps(lhs2.contains(v), rhs2.contains(v)),
    ensures
        out1@ == out2@,
        out1.same_encoding(&out2),
{
    assert(out1@ =~= out2@);
    out1.lemma_encoding_unique(out2);
}

/// A chunk is there exactly if the set has a member with its key, and it
/// holds the low bits of exactly those members.
pub proof fn lemma_chunks_follow_members(set: RoaringBitmap, key: u16)
    requires
        set.wf(),
    ensures
        set.chunks().contains_key(key) <==> exists|low: u16| set@.contains(joined(key, low)),
        forall|low: u16|
            chunk_members(set.chunks(), key).contains(low) == set@.contains(joined(key, low)),
{
    assert forall|low: u16|
        chunk_members(set.chunks(), key).contains(low) == set@.contains(joined(key, low)) by {
        lemma_split_join(key, low, 0);
    }
    if set.chunks().contains_key(key) {
        let chunk = set.chunks()[key];
        chunk.lemma_finite();
        let low = chunk@.choose();
        assert(chunk@.contains(low));
        assert(set@.contains(joined(key, low)));
    }
}

/// The members of a well-formed set decide which chunks it has and how each
/// of them is stored.
pub proof fn lemma_chunks_unique(a: RoaringBitmap, b: RoaringBitmap)
    requires
        a.wf(),
        b.wf(),
        a@ == b@,
    ensures
        same_chunks(a, b),
{
    assert forall|key: u16| a.chunks().contains_key(key) == b.chunks().contains_key(key) by {
        lemma_chunks_follow_members(a, key);
        lemma_chunks_follow_members(b, key);
    }
    assert forall|key: u16| a.chunks().contains_key(key) implies a.chunks()[key].same_encoding(
        &b.chunks()[key],
    ) by {
        lemma_chunks_follow_members(a, key);
        lemma_chunks_follow_members(b, key);
        assert(a.chunks()[key]@ =~= b.chunks()[key]@);
        a.chunks()[key].lemma_encoding_unique(b.chunks()[key]);
    }
}

/// Inserting a member again, or removing what is no member, leaves a set as
/// it is: the same members, in the same chunks, stored in the same way.
pub proof fn lemma_idempotent(before: RoaringBitmap, after: RoaringBitmap, value: u32)
    requires
        before.wf(),
        after.wf(),
        (before@.contains(value) && after@ == before@.insert(value)) || (!before@.contains(value)
            && after@ == before@.remove(value)),
    ensures
        after@ == before@,
        same_chunks(after, before),
{
    if before@.contains(value) {
        assert(before@.insert(value) =~= before@);
    } else {
        assert(before@.remove(value) =~= before@);
    }
    lemma_chunks_unique(after, before);
}

/// No chunk is without members: every key that a well-formed set has a chunk
/// for is the key of one of its members.
pub proof fn lemma_no_empty_chunk(set: RoaringBitmap, key: u16)
    requires
        set.wf(),
        set.chunks().contains_key(key),
    ensures
        set.chunks()[key]@.len() > 0,
        exists|value: u32| set@.contains(value) && chunk_key(value) == key,
{
    lemma_chunks_follow_members(set, key);
    let low = choose|low: u16| set@.contains(joined(key, low));
    lemma_split_join(key, low, 0);
    assert(set@.contains(joined(key, low)) && chunk_key(joined(key, low)) == key);
}

/// Where an operation leaves a chunk nothing to hold, the result has no
/// chunk with that key.
pub proof fn lemma_empty_result_drops_key(
    out: RoaringBitmap,
    lhs: RoaringBitmap,
    rhs: RoaringBitmap,
    op: Operation,
    key: u16,
)
    requires
        out.wf(),
        forall|value: u32| out@.contains(value) == op.keeps(lhs@.contains(value), rhs@.contains(value)),
        forall|low: u16|
            !op.keeps(lhs@.contains(joined(key, low)), rhs@.contains(joined(key, low))),
    ensures
        !out.chunks().contains_key(key),
{
    lemma_chunks_follow_members(out, key);
}

} // verus!
