//! Sets of 32-bit unsigned integers, stored in chunks.
//!
//! A member's high 16 bits name its chunk, and the chunk holds the low 16
//! bits of all members that share them. A chunk with few members lists them;
//! one with many keeps a bit for each possible value. No chunk is kept
//! without members.

pub mod array;
pub mod bitmap;
pub mod container;
pub mod laws;
pub mod word;

use crate::container::Container;
use crate::container::Operation;
use std::collections::HashMap;
use vstd::prelude::*;

verus! {

/// The chunk that `value` belongs to: its high 16 bits.
pub open spec fn chunk_key(value: u32) -> u16 {
    (value / 0x1_0000) as u16
}

/// What a chunk stores of `value`: its low 16 bits.
pub open spec fn chunk_low(value: u32) -> u16 {
    (value % 0x1_0000) as u16
}

/// The members of chunk `key` in a map of chunks: none where the map has no
/// such chunk.
pub open spec fn chunk_members(chunks: Map<u16, Container>, key: u16) -> Set<u16> {
    if chunks.contains_key(key) {
        chunks[key]@
    } else {
        Set::empty()
    }
}

/// Every chunk of the map is well formed and has at least one member.
pub open spec fn chunks_wf(chunks: Map<u16, Container>) -> bool {
    forall|key: u16|
        #![trigger chunks.contains_key(key)]
        chunks.contains_key(key) ==> chunks[key].wf() && chunks[key]@.len() > 0
}

/// Chunk `key` of `out` holds what `op` makes of chunk `key` of `lhs` and of
/// `rhs`.
pub open spec fn chunk_combined(
    out: Map<u16, Container>,
    lhs: Map<u16, Container>,
    rhs: Map<u16, Container>,
    op: Operation,
    key: u16,
) -> bool {
    forall|v: u16|
        chunk_members(out, key).contains(v) == op.keeps(
            chunk_members(lhs, key).contains(v),
            chunk_members(rhs, key).contains(v),
        )
}

/// The chunk key of a value is what is left of it after a shift by 16 bits,
/// and the chunk stores what the mask `0xffff` lets through.
pub proof fn lemma_split(value: u32)
    ensures
        chunk_key(value) == value >> 16,
        chunk_low(value) == value & 0xffff,
{
    assert((value >> 16) == value / 0x1_0000 && (value & 0xffff) == value % 0x1_0000 && (value
        >> 16) <= 0xffff && (value & 0xffff) <= 0xffff) by (bit_vector);
}

/// A set of 32-bit unsigned integers.
pub struct RoaringBitmap {
    containers: HashMap<u16, Container>,
}

impl View for RoaringBitmap {
    type V = Set<u32>;

    /// The set of members.
    open spec fn view(&self) -> Set<u32> {
        Set::new(|value: u32| self.holds(value))
    }
}

impl RoaringBitmap {
    /// The chunks by their keys.
    pub closed spec fn chunks(&self) -> Map<u16, Container> {
        self.containers@
    }

    /// Whether the chunk of `value` is there and has its low bits.
    pub open spec fn holds(&self, value: u32) -> bool {
        chunk_members(self.chunks(), chunk_key(value)).contains(chunk_low(value))
    }

    /// Every chunk is well formed and has at least one member.
    pub open spec fn wf(&self) -> bool {
        chunks_wf(self.chunks())
    }

    /// The set without members.
    pub fn new() -> (set: Self)
        ensures
            set.wf(),
            set@ == Set::<u32>::empty(),
            set.chunks() == Map::<u16, Container>::empty(),
    {
        let set = RoaringBitmap { containers: HashMap::new() };
        assert(set@ =~= Set::<u32>::empty());
        set
    }

    /// Whether `value` is a member.
    pub fn contains(&self, value: u32) -> (found: bool)
        requires
            self.wf(),
        ensures
            found == self@.contains(value),
    {
        proof {
            lemma_split(value);
        }
        let key: u16 = (value >> 16) as u16;
        let low: u16 = (value & 0xffff) as u16;
        assert(self.chunks() == self.containers@);
        match self.containers.get(&key) {
            Some(chunk) => chunk.contains(low),
            None => false,
        }
    }

    /// Whether there is no member.
    pub fn is_empty(&self) -> (empty: bool)
        requires
            self.wf(),
        ensures
            empty == (self@ == Set::<u32>::empty()),
    {
        let empty: bool = self.containers.is_empty();
        proof {
            if empty {
                assert(self@ =~= Set::<u32>::empty());
            } else {
                let key = choose|key: u16| self.chunks().contains_key(key);
                assert(self.chunks().contains_key(key));
                let members = self.chunks()[key]@;
                assert(members.len() > 0);
                let low = choose|low: u16| members.contains(low);
                assert(members.contains(low)) by {
                    if members =~= Set::<u16>::empty() {
                    }
                }
                let value = (key as u32 * 0x1_0000 + low as u32) as u32;
                assert(chunk_key(value) == key && chunk_low(value) == low);
                assert(self@.contains(value));
            }
        }
        empty
    }

    /// The number of chunks.
    pub fn container_count(&self) -> (n: usize)
        ensures
            n == self.chunks().dom().len(),
    {
        self.containers.len()
    }

    /// The chunk with the given key, if there is one.
    pub fn container(&self, key: u16) -> (chunk: Option<&Container>)
        ensures
            match chunk {
                Some(c) => self.chunks().contains_key(key) && *c == self.chunks()[key],
                None => !self.chunks().contains_key(key),
            },
    {
        self.containers.get(&key)
    }

    /// Makes `value` a member. Its chunk is made if it is not there yet.
    pub fn insert(&mut self, value: u32)
        requires
            old(self).wf(),
        ensures
            final(self).wf(),
            final(self)@ == old(self)@.insert(value),
            final(self).chunks().dom() == old(self).chunks().dom().insert(chunk_key(value)),
            final(self).chunks()[chunk_key(value)]@ == chunk_members(
                old(self).chunks(),
                chunk_key(value),
            ).insert(chunk_low(value)),
            forall|key: u16|
                key != chunk_key(value) && old(self).chunks().contains_key(key) ==> final(self).chunks()[key]
                    == old(self).chunks()[key],
    {
        proof {
            lemma_split(value);
        }
        let key: u16 = (value >> 16) as u16;
        let low: u16 = (value & 0xffff) as u16;
        assert(self.chunks() == self.containers@);
        let mut chunk = match self.containers.remove(&key) {
            Some(chunk) => chunk,
            None => Container::new(),
        };
        proof {
            chunk.lemma_finite();
        }
        chunk.insert(low);
        self.containers.insert(key, chunk);
        proof {
            assert(self.chunks() == self.containers@);
            assert forall|x: u32| self@.contains(x) == (old(self)@.contains(x) || x == value) by {
                if chunk_key(x) == key {
                    assert(x == value <==> chunk_low(x) == low);
                }
            }
            assert(self@ =~= old(self)@.insert(value));
        }
    }

    /// Takes `value` out of the members. A chunk that is left without
    /// members is dropped.
    pub fn remove(&mut self, value: u32)
        requires
            old(self).wf(),
        ensures
            final(self).wf(),
            final(self)@ == old(self)@.remove(value),
            forall|key: u16|
                key != chunk_key(value) ==> final(self).chunks().contains_key(key)
                    == old(self).chunks().contains_key(key),
            forall|key: u16|
                key != chunk_key(value) && old(self).chunks().contains_key(key) ==> final(self).chunks()[key]
                    == old(self).chunks()[key],
            chunk_members(final(self).chunks(), chunk_key(value)) == chunk_members(
                old(self).chunks(),
                chunk_key(value),
            ).remove(chunk_low(value)),
    {
        proof {
            lemma_split(value);
        }
        let key: u16 = (value >> 16) as u16;
        let low: u16 = (value & 0xffff) as u16;
        assert(self.chunks() == self.containers@);
        match self.containers.remove(&key) {
            Some(chunk) => {
                let mut chunk = chunk;
                chunk.remove(low);
                if !chunk.is_empty() {
                    self.containers.insert(key, chunk);
                }
            },
            None => {},
        }
        proof {
            assert(self.chunks() == self.containers@);
            assert forall|x: u32| self@.contains(x) == (old(self)@.contains(x) && x != value) by {
                if chunk_key(x) == key {
                    assert(x == value <==> chunk_low(x) == low);
                }
            }
            assert(self@ =~= old(self)@.remove(value));
        }
    }

    /// Combines the chunks of two sets key by key. A key is looked at only
    /// where `op` can keep anything of it, and a chunk is kept only where it
    /// has a member.
    fn combine(&self, other: &RoaringBitmap, op: Operation) -> (out: RoaringBitmap)
        requires
            self.wf(),
            other.wf(),
        ensures
            out.wf(),
            forall|key: u16| chunk_combined(out.chunks(), self.chunks(), other.chunks(), op, key),
    {
        let mut out: HashMap<u16, Container> = HashMap::new();
        assert(self.chunks() == self.containers@ && other.chunks() == other.containers@);
        for key in keys: self.containers.keys()
            invariant
                chunks_wf(self.containers@),
                chunks_wf(other.containers@),
                chunks_wf(out@),
                forall|k: u16|
                    #![trigger out@.contains_key(k)]
                    out@.contains_key(k) ==> self.containers@.contains_key(k),
                forall|k: u16|
                    #![trigger self.containers@.contains_key(k)]
                    self.containers@.contains_key(k) ==> chunk_combined(
                        out@,
                        self.containers@,
                        other.containers@,
                        op,
                        k,
                    ) || (!out@.contains_key(k) && exists|i: int|
                        keys.index() <= i < keys.seq().len() && *keys.seq()[i] == k),
        {
            let ghost before = out@;
            let lhs = self.containers.get(key);
            let rhs = other.containers.get(key);
            if rhs.is_some() || op.keeps(true, false) {
                let chunk = Container::combine(op, lhs, rhs);
                if !chunk.is_empty() {
                    out.insert(*key, chunk);
                }
            }
            proof {
                assert(self.containers@.contains_key(*key));
                assert(chunk_combined(out@, self.containers@, other.containers@, op, *key));
                assert forall|k: u16| self.containers@.contains_key(k) implies chunk_combined(
                    out@,
                    self.containers@,
                    other.containers@,
                    op,
                    k,
                ) || (!out@.contains_key(k) && exists|i: int|
                    keys.index() + 1 <= i < keys.seq().len() && *keys.seq()[i] == k) by {
                    if k != *key {
                        assert(chunk_members(out@, k) == chunk_members(before, k));
                        if !chunk_combined(before, self.containers@, other.containers@, op, k) {
                            let i = choose|i: int|
                                keys.index() <= i < keys.seq().len() && *keys.seq()[i] == k;
                            assert(keys.index() + 1 <= i < keys.seq().len() && *keys.seq()[i]
                                == k);
                        }
                    }
                }
            }
        }
        if op.keeps(false, true) {
            for key in keys: other.containers.keys()
                invariant
                    chunks_wf(self.containers@),
                    chunks_wf(other.containers@),
                    chunks_wf(out@),
                    forall|k: u16|
                        #![trigger out@.contains_key(k)]
                        out@.contains_key(k) ==> self.containers@.contains_key(k)
                            || other.containers@.contains_key(k),
                    forall|k: u16|
                        #![trigger self.containers@.contains_key(k)]
                        self.containers@.contains_key(k) ==> chunk_combined(
                            out@,
                            self.containers@,
                            other.containers@,
                            op,
                            k,
                        ),
                    forall|k: u16|
                        #![trigger other.containers@.contains_key(k)]
                        other.containers@.contains_key(k) ==> chunk_combined(
                            out@,
                            self.containers@,
                            other.containers@,
                            op,
                            k,
                        ) || (!out@.contains_key(k) && exists|i: int|
                            keys.index() <= i < keys.seq().len() && *keys.seq()[i] == k),
            {
                let ghost before = out@;
                if !self.containers.contains_key(key) {
                    let chunk = Container::combine(op, None, other.containers.get(key));
                    if !chunk.is_empty() {
                        out.insert(*key, chunk);
                    }
                }
                proof {
                    assert(other.containers@.contains_key(*key));
                    assert(chunk_combined(out@, self.containers@, other.containers@, op, *key));
                    assert forall|k: u16| k != *key implies chunk_members(out@, k)
                        == chunk_members(before, k) by {}
                    assert forall|k: u16| other.containers@.contains_key(k) implies chunk_combined(
                        out@,
                        self.containers@,
                        other.containers@,
                        op,
                        k,
                    ) || (!out@.contains_key(k) && exists|i: int|
                        keys.index() + 1 <= i < keys.seq().len() && *keys.seq()[i] == k) by {
                        if k != *key {
                            assert(chunk_members(out@, k) == chunk_members(before, k));
                            if !chunk_combined(before, self.containers@, other.containers@, op, k) {
                                let i = choose|i: int|
                                    keys.index() <= i < keys.seq().len() && *keys.seq()[i] == k;
                                assert(keys.index() + 1 <= i < keys.seq().len() && *keys.seq()[i]
                                    == k);
                            }
                        }
                    }
                    assert forall|k: u16| self.containers@.contains_key(k) implies chunk_combined(
                        out@,
                        self.containers@,
                        other.containers@,
                        op,
                        k,
                    ) by {
                        if k != *key {
                            assert(chunk_members(out@, k) == chunk_members(before, k));
                            assert(chunk_combined(
                                before,
                                self.containers@,
                                other.containers@,
                                op,
                                k,
                            ));
                        }
                    }
                }
            }
        }
        let out = RoaringBitmap { containers: out };
        proof {
            assert(out.chunks() == out.containers@);
            assert forall|key: u16|
                chunk_combined(out.chunks(), self.chunks(), other.chunks(), op, key) by {
                if !self.chunks().contains_key(key) && !other.chunks().contains_key(key) {
                    assert(!out.chunks().contains_key(key));
                }
            }
        }
        out
    }

    proof fn lemma_combined(self, lhs: RoaringBitmap, rhs: RoaringBitmap, op: Operation)
        requires
            forall|key: u16| chunk_combined(self.chunks(), lhs.chunks(), rhs.chunks(), op, key),
        ensures
            forall|x: u32| self@.contains(x) == op.keeps(lhs@.contains(x), rhs@.contains(x)),
    {
        assert forall|x: u32| self@.contains(x) == op.keeps(lhs@.contains(x), rhs@.contains(x)) by {
            assert(chunk_combined(self.chunks(), lhs.chunks(), rhs.chunks(), op, chunk_key(x)));
        }
    }

    /// The values that are members of `self`, of `other`, or of both.
    pub fn union(&self, other: &RoaringBitmap) -> (out: RoaringBitmap)
        requires
            self.wf(),
            other.wf(),
        ensures
            out.wf(),
            out@ == self@.union(other@),
            forall|key: u16|
                chunk_combined(out.chunks(), self.chunks(), other.chunks(), Operation::Union, key),
    {
        let out = self.combine(other, Operation::Union);
        proof {
            out.lemma_combined(*self, *other, Operation::Union);
            assert(out@ =~= self@.union(other@));
        }
        out
    }

    /// The values that are members of both `self` and `other`.
    pub fn intersection(&self, other: &RoaringBitmap) -> (out: RoaringBitmap)
        requires
            self.wf(),
            other.wf(),
        ensures
            out.wf(),
            out@ == self@.intersect(other@),
            forall|key: u16|
                chunk_combined(out.chunks(), self.chunks(), other.chunks(), Operation::Intersection, key),
    {
        let out = self.combine(other, Operation::Intersection);
        proof {
            out.lemma_combined(*self, *other, Operation::Intersection);
            assert(out@ =~= self@.intersect(other@));
        }
        out
    }

    /// The members of `self` that are not members of `other`.
    pub fn difference(&self, other: &RoaringBitmap) -> (out: RoaringBitmap)
        requires
            self.wf(),
            other.wf(),
        ensures
            out.wf(),
            out@ == self@.difference(other@),
            forall|key: u16|
                chunk_combined(out.chunks(), self.chunks(), other.chunks(), Operation::Difference, key),
    {
        let out = self.combine(other, Operation::Difference);
        proof {
            out.lemma_combined(*self, *other, Operation::Difference);
            assert(out@ =~= self@.difference(other@));
        }
        out
    }

    /// The values that are members of exactly one of `self` and `other`.
    pub fn symmetric_difference(&self, other: &RoaringBitmap) -> (out: RoaringBitmap)
        requires
            self.wf(),
            other.wf(),
        ensures
            out.wf(),
            out@ == self@.difference(other@).union(other@.difference(self@)),
            forall|key: u16|
                chunk_combined(out.chunks(), self.chunks(), other.chunks(), Operation::SymmetricDifference, key),
    {
        let out = self.combine(other, Operation::SymmetricDifference);
        proof {
            out.lemma_combined(*self, *other, Operation::SymmetricDifference);
            assert(out@ =~= self@.difference(other@).union(other@.difference(self@)));
        }
        out
    }
}

} // verus!
