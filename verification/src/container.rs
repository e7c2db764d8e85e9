//! One chunk of a set: the low 16 bits of the members that share their high
//! 16 bits, held in whichever of two encodings is the smaller one.

use crate::array::lemma_ascending_unique;
use crate::array::ArrayContainer;
use crate::bitmap::lemma_members_unique;
use crate::bitmap::BitmapContainer;
use vstd::prelude::*;
use vstd::set_lib::lemma_len_subset;

verus! {

/// The largest number of members that is held as a list. A row of bits takes
/// 8192 bytes, as much as a list of 4096 values of two bytes each, so up to
/// here the list is the smaller encoding.
pub const THRESHOLD: usize = 4096;

/// The members of one chunk: a list while they are few, a row of bits once
/// they are many.
pub enum Container {
    /// At most `THRESHOLD` members, in ascending order.
    Array(ArrayContainer),
    /// More than `THRESHOLD` members, one bit for each possible value.
    Bitmap(BitmapContainer),
}

impl View for Container {
    type V = Set<u16>;

    /// The set of members.
    open spec fn view(&self) -> Set<u16> {
        match self {
            Container::Array(a) => a@,
            Container::Bitmap(b) => b@,
        }
    }
}

impl Clone for Container {
    fn clone(&self) -> (copy: Self)
        ensures
            copy.same_encoding(self),
            copy@ == self@,
            self.wf() ==> copy.wf(),
    {
        match self {
            Container::Array(a) => Container::Array(a.clone()),
            Container::Bitmap(b) => Container::Bitmap(b.clone()),
        }
    }
}

/// The four ways of combining two sets.
#[derive(Clone, Copy)]
pub enum Operation {
    /// What is in either set.
    Union,
    /// What is in both sets.
    Intersection,
    /// What is in the left set and not in the right one.
    Difference,
    /// What is in exactly one of the sets.
    SymmetricDifference,
}

impl Operation {
    /// Whether a value is in the result, given whether it is in the left set
    /// and whether it is in the right one.
    #[verifier::when_used_as_spec(spec_keeps)]
    pub fn keeps(&self, left: bool, right: bool) -> (kept: bool)
        ensures
            kept == self.spec_keeps(left, right),
    {
        match self {
            Operation::Union => left || right,
            Operation::Intersection => left && right,
            Operation::Difference => left && !right,
            Operation::SymmetricDifference => left != right,
        }
    }

    /// Whether a value is in the result, given whether it is in the left set
    /// and whether it is in the right one.
    pub open spec fn spec_keeps(&self, left: bool, right: bool) -> bool {
        match self {
            Operation::Union => left || right,
            Operation::Intersection => left && right,
            Operation::Difference => left && !right,
            Operation::SymmetricDifference => left != right,
        }
    }
}

/// The members of an operand that may be absent: an absent one has none.
pub open spec fn members_of(operand: Option<&Container>) -> Set<u16> {
    match operand {
        Some(c) => c@,
        None => Set::empty(),
    }
}

/// An operand that is present is well formed.
pub open spec fn wf_if_present(operand: Option<&Container>) -> bool {
    match operand {
        Some(c) => c.wf(),
        None => true,
    }
}

impl Container {
    /// The encoding is sound in itself and is the one that the number of
    /// members calls for: a list of at most `THRESHOLD` members, or a row of
    /// bits with more than `THRESHOLD` of them set.
    pub open spec fn wf(&self) -> bool {
        match self {
            Container::Array(a) => a.wf() && a@.len() <= THRESHOLD,
            Container::Bitmap(b) => b.wf() && b@.len() > THRESHOLD,
        }
    }

    /// Both containers use the same encoding and store the same data in it.
    pub open spec fn same_encoding(&self, other: &Container) -> bool {
        match (self, other) {
            (Container::Array(a), Container::Array(b)) => a.elements() == b.elements(),
            (Container::Bitmap(a), Container::Bitmap(b)) => a.words() == b.words(),
            _ => false,
        }
    }

    /// The members of a well-formed container decide its encoding and what is
    /// stored in it: no set has two encodings.
    pub proof fn lemma_encoding_unique(self, other: Container)
        requires
            self.wf(),
            other.wf(),
            self@ == other@,
        ensures
            self.same_encoding(&other),
    {
        match (self, other) {
            (Container::Array(a), Container::Array(b)) => {
                lemma_ascending_unique(a.elements(), b.elements());
            },
            (Container::Bitmap(a), Container::Bitmap(b)) => {
                lemma_members_unique(a.words(), b.words());
            },
            _ => {},
        }
    }

    /// A container has finitely many members, at most one for each 16-bit
    /// value.
    pub proof fn lemma_finite(self)
        requires
            self.wf(),
        ensures
            self@.finite(),
            self@.len() <= 65536,
    {
        match self {
            Container::Array(a) => {
                crate::array::lemma_ascending_len(a.elements());
            },
            Container::Bitmap(b) => {
                b.lemma_finite();
            },
        }
    }

    /// A container without members.
    pub fn new() -> (c: Self)
        ensures
            c.wf(),
            c@ == Set::<u16>::empty(),
            c is Array,
    {
        Container::Array(ArrayContainer::new())
    }

    /// The container that holds the members of `array`: the list itself, or
    /// a row of bits where they are more than `THRESHOLD`.
    pub fn from_array(array: ArrayContainer) -> (c: Self)
        requires
            array.wf(),
        ensures
            c.wf(),
            c@ == array@,
    {
        if array.len() > THRESHOLD {
            Container::Bitmap(BitmapContainer::from(&array))
        } else {
            Container::Array(array)
        }
    }

    /// The container that holds the members of `bitmap`: the row itself, or
    /// a list where they are no more than `THRESHOLD`.
    pub fn from_bitmap(bitmap: BitmapContainer) -> (c: Self)
        requires
            bitmap.wf(),
        ensures
            c.wf(),
            c@ == bitmap@,
    {
        if bitmap.weight() <= THRESHOLD as u32 {
            Container::Array(ArrayContainer::from(&bitmap))
        } else {
            Container::Bitmap(bitmap)
        }
    }

    /// The number of members.
    pub fn len(&self) -> (n: usize)
        requires
            self.wf(),
        ensures
            n == self@.len(),
            n <= 65536,
    {
        match self {
            Container::Array(a) => a.len(),
            Container::Bitmap(b) => b.weight() as usize,
        }
    }

    /// Whether there is no member.
    pub fn is_empty(&self) -> (empty: bool)
        requires
            self.wf(),
        ensures
            empty == (self@ == Set::<u16>::empty()),
            empty == (self@.len() == 0),
    {
        match self {
            Container::Array(a) => {
                let n: usize = a.len();
                proof {
                    if n == 0 {
                        assert(a@ =~= Set::<u16>::empty());
                    }
                }
                n == 0
            },
            Container::Bitmap(_) => false,
        }
    }

    /// Whether `value` is a member.
    pub fn contains(&self, value: u16) -> (found: bool)
        requires
            self.wf(),
        ensures
            found == self@.contains(value),
    {
        match self {
            Container::Array(a) => a.contains(value),
            Container::Bitmap(b) => b.is_set(value),
        }
    }

    /// The members in ascending order.
    pub fn to_vec(&self) -> (members: Vec<u16>)
        requires
            self.wf(),
        ensures
            crate::array::ascending(members@),
            members@.to_set() == self@,
    {
        match self {
            Container::Array(a) => a.to_vec(),
            Container::Bitmap(b) => ArrayContainer::from(b).to_vec(),
        }
    }

    /// Makes `value` a member. A list that grows beyond `THRESHOLD` members
    /// becomes a row of bits.
    pub fn insert(&mut self, value: u16)
        requires
            old(self).wf(),
        ensures
            final(self).wf(),
            final(self)@ == old(self)@.insert(value),
            old(self)@.contains(value) ==> final(self).same_encoding(old(self)),
    {
        match self {
            Container::Array(array) => {
                array.insert(value);
                if array.len() > THRESHOLD {
                    *self = Container::Bitmap(BitmapContainer::from(&*array));
                }
            },
            Container::Bitmap(bitmap) => {
                bitmap.set(value);
            },
        }
    }

    /// Takes `value` out of the members. A row of bits that shrinks to
    /// `THRESHOLD` members becomes a list.
    pub fn remove(&mut self, value: u16)
        requires
            old(self).wf(),
        ensures
            final(self).wf(),
            final(self)@ == old(self)@.remove(value),
            !old(self)@.contains(value) ==> final(self).same_encoding(old(self)),
    {
        match self {
            Container::Array(array) => {
                proof {
                    crate::array::lemma_ascending_len(array.elements());
                }
                array.remove(value);
            },
            Container::Bitmap(bitmap) => {
                bitmap.unset(value);
                if bitmap.weight() <= THRESHOLD as u32 {
                    *self = Container::Array(ArrayContainer::from(&*bitmap));
                }
            },
        }
    }

    /// The values that are members of either operand. An absent operand
    /// counts as one without members.
    pub fn union(lhs: Option<&Container>, rhs: Option<&Container>) -> (out: Self)
        requires
            lhs is Some || rhs is Some,
            wf_if_present(lhs),
            wf_if_present(rhs),
        ensures
            out.wf(),
            out@ == members_of(lhs).union(members_of(rhs)),
    {
        let out = match (lhs, rhs) {
            (Some(c1), Some(c2)) => match (c1, c2) {
                (Container::Array(a1), Container::Array(a2)) => Container::from_array(
                    a1.union(a2),
                ),
                (Container::Array(a), Container::Bitmap(b)) => Container::from_bitmap(
                    b.union_array(a),
                ),
                (Container::Bitmap(b), Container::Array(a)) => Container::from_bitmap(
                    b.union_array(a),
                ),
                (Container::Bitmap(b1), Container::Bitmap(b2)) => Container::from_bitmap(
                    BitmapContainer::or(b1, b2),
                ),
            },
            (Some(c), None) => c.clone(),
            (None, Some(c)) => c.clone(),
            (None, None) => unreached(),
        };
        assert(out@ =~= members_of(lhs).union(members_of(rhs)));
        out
    }

    /// The values that are members of both operands. An absent operand
    /// counts as one without members, so the result with it has none.
    pub fn intersection(lhs: Option<&Container>, rhs: Option<&Container>) -> (out: Self)
        requires
            lhs is Some || rhs is Some,
            wf_if_present(lhs),
            wf_if_present(rhs),
        ensures
            out.wf(),
            out@ == members_of(lhs).intersect(members_of(rhs)),
    {
        let out = match (lhs, rhs) {
            (Some(c1), Some(c2)) => match (c1, c2) {
                (Container::Array(a1), Container::Array(a2)) => {
                    let a = a1.intersection(a2);
                    proof {
                        lemma_len_subset(a@, a1@);
                    }
                    Container::Array(a)
                },
                (Container::Array(a), Container::Bitmap(b)) => {
                    let kept = a.intersection_bitmap(b);
                    proof {
                        lemma_len_subset(kept@, a@);
                    }
                    Container::Array(kept)
                },
                (Container::Bitmap(b), Container::Array(a)) => {
                    let kept = a.intersection_bitmap(b);
                    proof {
                        lemma_len_subset(kept@, a@);
                    }
                    Container::Array(kept)
                },
                (Container::Bitmap(b1), Container::Bitmap(b2)) => Container::from_bitmap(
                    BitmapContainer::and(b1, b2),
                ),
            },
            (Some(_), None) => Container::new(),
            (None, Some(_)) => Container::new(),
            (None, None) => unreached(),
        };
        assert(out@ =~= members_of(lhs).intersect(members_of(rhs)));
        out
    }

    /// The members of `lhs` that are not members of `rhs`. An absent operand
    /// counts as one without members.
    pub fn difference(lhs: Option<&Container>, rhs: Option<&Container>) -> (out: Self)
        requires
            lhs is Some || rhs is Some,
            wf_if_present(lhs),
            wf_if_present(rhs),
        ensures
            out.wf(),
            out@ == members_of(lhs).difference(members_of(rhs)),
    {
        let out = match (lhs, rhs) {
            (Some(c1), Some(c2)) => match (c1, c2) {
                (Container::Array(a1), Container::Array(a2)) => {
                    let a = a1.difference(a2);
                    proof {
                        lemma_len_subset(a@, a1@);
                    }
                    Container::Array(a)
                },
                (Container::Array(a), Container::Bitmap(b)) => {
                    let kept = a.difference_bitmap(b);
                    proof {
                        lemma_len_subset(kept@, a@);
                    }
                    Container::Array(kept)
                },
                (Container::Bitmap(b), Container::Array(a)) => Container::from_bitmap(
                    b.difference_array(a),
                ),
                (Container::Bitmap(b1), Container::Bitmap(b2)) => Container::from_bitmap(
                    BitmapContainer::and_not(b1, b2),
                ),
            },
            (Some(c), None) => c.clone(),
            (None, Some(_)) => Container::new(),
            (None, None) => unreached(),
        };
        assert(out@ =~= members_of(lhs).difference(members_of(rhs)));
        out
    }

    /// The values that are members of exactly one operand. An absent operand
    /// counts as one without members.
    pub fn symmetric_difference(lhs: Option<&Container>, rhs: Option<&Container>) -> (out: Self)
        requires
            lhs is Some || rhs is Some,
            wf_if_present(lhs),
            wf_if_present(rhs),
        ensures
            out.wf(),
            out@ == members_of(lhs).difference(members_of(rhs)).union(
                members_of(rhs).difference(members_of(lhs)),
            ),
    {
        let out = match (lhs, rhs) {
            (Some(c1), Some(c2)) => match (c1, c2) {
                (Container::Array(a1), Container::Array(a2)) => Container::from_array(
                    a1.symmetric_difference(a2),
                ),
                (Container::Array(a), Container::Bitmap(b)) => Container::from_bitmap(
                    b.symmetric_difference_array(a),
                ),
                (Container::Bitmap(b), Container::Array(a)) => Container::from_bitmap(
                    b.symmetric_difference_array(a),
                ),
                (Container::Bitmap(b1), Container::Bitmap(b2)) => Container::from_bitmap(
                    BitmapContainer::xor(b1, b2),
                ),
            },
            (Some(c), None) => c.clone(),
            (None, Some(c)) => c.clone(),
            (None, None) => unreached(),
        };
        assert(out@ =~= members_of(lhs).difference(members_of(rhs)).union(
            members_of(rhs).difference(members_of(lhs)),
        ));
        out
    }
    /// Combines two operands in the way that `op` names.
    pub fn combine(op: Operation, lhs: Option<&Container>, rhs: Option<&Container>) -> (out: Self)
        requires
            lhs is Some || rhs is Some,
            wf_if_present(lhs),
            wf_if_present(rhs),
        ensures
            out.wf(),
            forall|v: u16|
                out@.contains(v) == op.keeps(
                    members_of(lhs).contains(v),
                    members_of(rhs).contains(v),
                ),
    {
        match op {
            Operation::Union => Container::union(lhs, rhs),
            Operation::Intersection => Container::intersection(lhs, rhs),
            Operation::Difference => Container::difference(lhs, rhs),
            Operation::SymmetricDifference => Container::symmetric_difference(lhs, rhs),
        }
    }
}

} // verus!
