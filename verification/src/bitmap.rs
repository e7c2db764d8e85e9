//! The dense encoding: the members of one chunk as a row of 65536 bits.

use crate::array::among_first;
use crate::array::lemma_among_first_all;
use crate::array::lemma_among_first_step;
use crate::array::ArrayContainer;
use crate::word::bit;
use crate::word::count_bits;
use crate::word::highest_bit;
use crate::word::lemma_clear_bit;
use crate::word::lemma_combine_bits;
use crate::word::lemma_same_bits_same_word;
use crate::word::lemma_set_bit;
use crate::word::lemma_zero_bit;
use crate::word::lowest_bit;
use crate::word::popcount;
use vstd::prelude::*;

verus! {

/// Number of words in a row: 1024 words of 64 bits give one bit for each
/// 16-bit value.
pub const WORDS: usize = 1024;

/// Whether the bit that stands for `v` is set in the row `words`: bit
/// `v % 64` of word `v / 64`.
pub open spec fn marked(words: Seq<u64>, v: int) -> bool {
    bit(words[v / 64], (v % 64) as u64)
}

/// The values whose bit is set.
pub open spec fn members(words: Seq<u64>) -> Set<u16> {
    Set::new(|v: u16| marked(words, v as int))
}

/// The values below `n` whose bit is set.
pub open spec fn members_below(words: Seq<u64>, n: int) -> Set<u16> {
    Set::new(|v: u16| (v as int) < n && marked(words, v as int))
}

/// How many values below `n` have their bit set.
pub open spec fn count_below(words: Seq<u64>, n: nat) -> nat
    decreases n,
{
    if n == 0 {
        0
    } else {
        count_below(words, (n - 1) as nat) + if marked(words, n - 1) {
            1nat
        } else {
            0nat
        }
    }
}

/// How many bits are set in the first `k` words.
pub open spec fn count_words(words: Seq<u64>, k: nat) -> nat
    decreases k,
{
    if k == 0 {
        0
    } else {
        count_words(words, (k - 1) as nat) + count_bits(words[k - 1], 64)
    }
}

proof fn lemma_members_below(words: Seq<u64>, n: nat)
    requires
        n <= 65536,
    ensures
        members_below(words, n as int).finite(),
        members_below(words, n as int).len() == count_below(words, n),
        count_below(words, n) <= n,
    decreases n,
{
    if n == 0 {
        assert(members_below(words, 0) =~= Set::<u16>::empty());
    } else {
        lemma_members_below(words, (n - 1) as nat);
        let lower = members_below(words, n - 1);
        let top = (n - 1) as u16;
        if marked(words, n - 1) {
            assert(members_below(words, n as int) =~= lower.insert(top));
        } else {
            assert(members_below(words, n as int) =~= lower);
        }
    }
}

proof fn lemma_count_split(words: Seq<u64>, k: nat, j: nat)
    requires
        words.len() == WORDS,
        k <= WORDS,
        j <= 64,
        k < WORDS || j == 0,
    ensures
        count_below(words, 64 * k + j) == count_words(words, k) + if j == 0 {
            0
        } else {
            count_bits(words[k as int], j)
        },
    decreases k, j,
{
    if j == 0 {
        if k > 0 {
            lemma_count_split(words, (k - 1) as nat, 64);
        }
    } else {
        lemma_count_split(words, k, (j - 1) as nat);
        let v = 64 * k + j - 1;
        assert(v / 64 == k && v % 64 == j - 1);
    }
}

/// The set bits of all words together are as many as the row has members.
pub proof fn lemma_population(words: Seq<u64>)
    requires
        words.len() == WORDS,
    ensures
        members(words).finite(),
        members(words).len() == count_words(words, WORDS as nat),
        members(words).len() <= 65536,
{
    lemma_members_below(words, 65536);
    lemma_count_split(words, WORDS as nat, 0);
    assert(members(words) =~= members_below(words, 65536));
}

proof fn lemma_count_words_agree(s: Seq<u64>, t: Seq<u64>, k: nat)
    requires
        k <= s.len(),
        k <= t.len(),
        forall|i: int| 0 <= i < k ==> s[i] == t[i],
    ensures
        count_words(s, k) == count_words(t, k),
    decreases k,
{
    if k > 0 {
        lemma_count_words_agree(s, t, (k - 1) as nat);
    }
}

/// A row is determined by its members.
pub proof fn lemma_members_unique(s: Seq<u64>, t: Seq<u64>)
    requires
        s.len() == WORDS,
        t.len() == WORDS,
        members(s) == members(t),
    ensures
        s == t,
{
    assert forall|k: int| 0 <= k < WORDS implies s[k] == t[k] by {
        assert forall|j: u64| j < 64 implies bit(s[k], j) == bit(t[k], j) by {
            let v = (64 * k + j) as u16;
            assert((v as int) / 64 == k && (v as int) % 64 == j);
            assert(members(s).contains(v) == marked(s, v as int));
            assert(members(t).contains(v) == marked(t, v as int));
        }
        lemma_same_bits_same_word(s[k], t[k]);
    }
    assert(s =~= t);
}

proof fn lemma_place(v: u16)
    by (bit_vector)
    ensures
        (v >> 6) == v / 64,
        (v & 63) == v % 64,
        (v >> 6) < 1024,
        (v & 63) < 64,
{
}

/// How two words are combined, position by position.
#[derive(Clone, Copy)]
pub enum Bitwise {
    /// Set where either word is set.
    Or,
    /// Set where both words are set.
    And,
    /// Set where the left word is set and the right one is not.
    AndNot,
    /// Set where exactly one of the words is set.
    Xor,
}

impl Bitwise {
    /// Whether a position is set in the result, given whether it is set on the
    /// left and on the right.
    pub open spec fn keeps(&self, left: bool, right: bool) -> bool {
        match self {
            Bitwise::Or => left || right,
            Bitwise::And => left && right,
            Bitwise::AndNot => left && !right,
            Bitwise::Xor => left != right,
        }
    }

    /// Combines two words.
    pub fn apply(&self, a: u64, b: u64) -> (w: u64)
        ensures
            forall|j: u64| j < 64 ==> bit(w, j) == self.keeps(bit(a, j), bit(b, j)),
    {
        proof {
            assert forall|j: u64| j < 64 implies bit(a | b, j) == (bit(a, j) || bit(b, j)) && bit(
                a & b,
                j,
            ) == (bit(a, j) && bit(b, j)) && bit(a & !b, j) == (bit(a, j) && !bit(b, j)) && bit(
                a ^ b,
                j,
            ) == (bit(a, j) != bit(b, j)) by {
                lemma_combine_bits(a, b, j);
            }
        }
        match self {
            Bitwise::Or => a | b,
            Bitwise::And => a & b,
            Bitwise::AndNot => a & !b,
            Bitwise::Xor => a ^ b,
        }
    }
}

/// The members of one chunk, one bit for each 16-bit value, with the number
/// of set bits kept beside them.
pub struct BitmapContainer {
    words: Vec<u64>,
    ones: u32,
}

impl View for BitmapContainer {
    type V = Set<u16>;

    /// The set of members.
    open spec fn view(&self) -> Set<u16> {
        members(self.words())
    }
}

impl Clone for BitmapContainer {
    fn clone(&self) -> (copy: Self)
        ensures
            copy.words() == self.words(),
            copy.ones() == self.ones(),
    {
        BitmapContainer { words: self.words.clone(), ones: self.ones }
    }
}

impl BitmapContainer {
    /// The row of words.
    pub closed spec fn words(&self) -> Seq<u64> {
        self.words@
    }

    /// The number that is kept as the count of set bits.
    pub closed spec fn ones(&self) -> nat {
        self.ones as nat
    }

    /// The row has its full length, and the count that is kept is the number
    /// of members.
    pub open spec fn wf(&self) -> bool {
        &&& self.words().len() == WORDS
        &&& self.ones() == self@.len()
    }

    /// A row has finitely many members, at most one for each 16-bit value.
    pub proof fn lemma_finite(self)
        requires
            self.wf(),
        ensures
            self@.finite(),
            self@.len() <= 65536,
    {
        lemma_population(self.words@);
    }

    /// A row without members.
    pub fn new() -> (b: Self)
        ensures
            b.wf(),
            b@ == Set::<u16>::empty(),
    {
        let mut words: Vec<u64> = Vec::new();
        let mut k: usize = 0;
        while k < WORDS
            invariant
                k <= WORDS,
                words@.len() == k,
                forall|i: int| 0 <= i < k ==> words@[i] == 0,
            decreases WORDS - k,
        {
            words.push(0);
            k += 1;
        }
        let b = BitmapContainer { words, ones: 0 };
        proof {
            assert forall|v: u16| !marked(b.words@, v as int) by {
                lemma_zero_bit((v % 64) as u64);
            }
            assert(b@ =~= Set::<u16>::empty());
        }
        b
    }

    /// Whether `value` is a member.
    pub fn is_set(&self, value: u16) -> (found: bool)
        requires
            self.wf(),
        ensures
            found == self@.contains(value),
    {
        proof {
            lemma_place(value);
        }
        let k: usize = (value >> 6) as usize;
        let j: u64 = (value & 63) as u64;
        (self.words[k] >> j) & 1 == 1
    }

    /// The number of members.
    pub fn weight(&self) -> (n: u32)
        requires
            self.wf(),
        ensures
            n == self@.len(),
            n <= 65536,
    {
        proof {
            lemma_population(self.words@);
        }
        self.ones
    }

    /// Makes `value` a member. Says whether it was new.
    pub fn set(&mut self, value: u16) -> (added: bool)
        requires
            old(self).wf(),
        ensures
            final(self).wf(),
            final(self)@ == old(self)@.insert(value),
            added == !old(self)@.contains(value),
            !added ==> final(self).words() == old(self).words(),
            final(self)@.len() == old(self)@.len() + if added {
                1int
            } else {
                0int
            },
    {
        proof {
            lemma_place(value);
            lemma_population(self.words@);
        }
        let k: usize = (value >> 6) as usize;
        let j: u64 = (value & 63) as u64;
        let w: u64 = self.words[k];
        if (w >> j) & 1 == 1 {
            assert(self@ =~= self@.insert(value));
            return false;
        }
        let ghost before = self.words@;
        self.words[k] = w | (1u64 << j);
        self.ones = self.ones + 1;
        proof {
            let after = self.words@;
            assert forall|u: u16| marked(after, u as int) == (marked(before, u as int) || u
                == value) by {
                if (u as int) / 64 == k {
                    lemma_set_bit(w, j, (u % 64) as u64);
                }
            }
            assert(members(after) =~= members(before).insert(value));
        }
        true
    }

    /// Takes `value` out of the members. Says whether it was one.
    pub fn unset(&mut self, value: u16) -> (removed: bool)
        requires
            old(self).wf(),
        ensures
            final(self).wf(),
            final(self)@ == old(self)@.remove(value),
            removed == old(self)@.contains(value),
            !removed ==> final(self).words() == old(self).words(),
            final(self)@.len() == old(self)@.len() - if removed {
                1int
            } else {
                0int
            },
    {
        proof {
            lemma_place(value);
            lemma_population(self.words@);
        }
        let k: usize = (value >> 6) as usize;
        let j: u64 = (value & 63) as u64;
        let w: u64 = self.words[k];
        if (w >> j) & 1 != 1 {
            assert(self@ =~= self@.remove(value));
            return false;
        }
        let ghost before = self.words@;
        assert(self.ones > 0) by {
            assert(self@.contains(value));
        }
        self.words[k] = w & !(1u64 << j);
        self.ones = self.ones - 1;
        proof {
            let after = self.words@;
            assert forall|u: u16| marked(after, u as int) == (marked(before, u as int) && u
                != value) by {
                if (u as int) / 64 == k {
                    lemma_clear_bit(w, j, (u % 64) as u64);
                }
            }
            assert(members(after) =~= members(before).remove(value));
        }
        true
    }

    /// The smallest member, if there is any.
    pub fn first(&self) -> (least: Option<u16>)
        requires
            self.wf(),
        ensures
            match least {
                Some(v) => self@.contains(v) && forall|u: u16| self@.contains(u) ==> v <= u,
                None => self@ == Set::<u16>::empty(),
            },
    {
        let mut k: usize = 0;
        while k < WORDS && self.words[k] == 0
            invariant
                k <= WORDS,
                self.words@.len() == WORDS,
                forall|i: int| 0 <= i < k ==> self.words@[i] == 0,
            decreases WORDS - k,
        {
            k += 1;
        }
        proof {
            assert forall|u: u16| (u as int) / 64 < k implies !marked(self.words@, u as int) by {
                lemma_zero_bit((u % 64) as u64);
            }
        }
        if k == WORDS {
            assert(self@ =~= Set::<u16>::empty());
            return None;
        }
        let j: u32 = lowest_bit(self.words[k]);
        let v: u16 = (k * 64 + j as usize) as u16;
        proof {
            assert((v as int) / 64 == k && (v as int) % 64 == j);
            assert forall|u: u16| self@.contains(u) implies v <= u by {
                if u < v {
                    if (u as int) / 64 == k {
                        let i = (u % 64) as u64;
                        assert(i < j);
                        assert(!bit(self.words@[k as int], i));
                    }
                }
            }
        }
        Some(v)
    }

    /// The largest member, if there is any.
    pub fn last(&self) -> (greatest: Option<u16>)
        requires
            self.wf(),
        ensures
            match greatest {
                Some(v) => self@.contains(v) && forall|u: u16| self@.contains(u) ==> u <= v,
                None => self@ == Set::<u16>::empty(),
            },
    {
        let mut k: usize = WORDS;
        while k > 0 && self.words[k - 1] == 0
            invariant
                k <= WORDS,
                self.words@.len() == WORDS,
                forall|i: int| k <= i < WORDS ==> self.words@[i] == 0,
            decreases k,
        {
            k -= 1;
        }
        proof {
            assert forall|u: u16| (u as int) / 64 >= k implies !marked(self.words@, u as int) by {
                lemma_zero_bit((u % 64) as u64);
            }
        }
        if k == 0 {
            assert(self@ =~= Set::<u16>::empty());
            return None;
        }
        let j: u32 = highest_bit(self.words[k - 1]);
        let v: u16 = ((k - 1) * 64 + j as usize) as u16;
        proof {
            assert((v as int) / 64 == k - 1 && (v as int) % 64 == j);
            assert forall|u: u16| self@.contains(u) implies u <= v by {
                if u > v {
                    if (u as int) / 64 == k - 1 {
                        let i = (u % 64) as u64;
                        assert(j < i < 64);
                        assert(!bit(self.words@[k - 1], i));
                    }
                }
            }
        }
        Some(v)
    }

    /// Combines two rows word by word and counts the bits of the result.
    fn zip(lhs: &BitmapContainer, rhs: &BitmapContainer, op: Bitwise) -> (out: BitmapContainer)
        requires
            lhs.wf(),
            rhs.wf(),
        ensures
            out.wf(),
            forall|v: u16| out@.contains(v) == op.keeps(lhs@.contains(v), rhs@.contains(v)),
    {
        let mut words: Vec<u64> = Vec::new();
        let mut ones: u32 = 0;
        let mut k: usize = 0;
        while k < WORDS
            invariant
                k <= WORDS,
                lhs.words@.len() == WORDS,
                rhs.words@.len() == WORDS,
                words@.len() == k,
                forall|i: int, j: u64|
                    0 <= i < k && j < 64 ==> bit(#[trigger] words@[i], j) == #[trigger] op.keeps(
                        bit(lhs.words@[i], j),
                        bit(rhs.words@[i], j),
                    ),
                ones == count_words(words@, k as nat),
                ones <= 64 * k,
            decreases WORDS - k,
        {
            let w: u64 = op.apply(lhs.words[k], rhs.words[k]);
            let ghost before = words@;
            words.push(w);
            proof {
                lemma_count_words_agree(before, words@, k as nat);
            }
            ones = ones + popcount(w);
            k += 1;
        }
        let out = BitmapContainer { words, ones };
        proof {
            lemma_population(out.words@);
            assert forall|v: u16|
                out@.contains(v) == op.keeps(lhs@.contains(v), rhs@.contains(v)) by {
                let i = (v as int) / 64;
                let j = (v % 64) as u64;
                assert(bit(out.words@[i], j) == op.keeps(
                    bit(lhs.words@[i], j),
                    bit(rhs.words@[i], j),
                ));
            }
        }
        out
    }

    /// The values that are members of `lhs`, of `rhs`, or of both.
    pub fn or(lhs: &BitmapContainer, rhs: &BitmapContainer) -> (out: BitmapContainer)
        requires
            lhs.wf(),
            rhs.wf(),
        ensures
            out.wf(),
            out@ == lhs@.union(rhs@),
    {
        let out = BitmapContainer::zip(lhs, rhs, Bitwise::Or);
        assert(out@ =~= lhs@.union(rhs@));
        out
    }

    /// The values that are members of both `lhs` and `rhs`.
    pub fn and(lhs: &BitmapContainer, rhs: &BitmapContainer) -> (out: BitmapContainer)
        requires
            lhs.wf(),
            rhs.wf(),
        ensures
            out.wf(),
            out@ == lhs@.intersect(rhs@),
    {
        let out = BitmapContainer::zip(lhs, rhs, Bitwise::And);
        assert(out@ =~= lhs@.intersect(rhs@));
        out
    }

    /// The members of `lhs` that are not members of `rhs`.
    pub fn and_not(lhs: &BitmapContainer, rhs: &BitmapContainer) -> (out: BitmapContainer)
        requires
            lhs.wf(),
            rhs.wf(),
        ensures
            out.wf(),
            out@ == lhs@.difference(rhs@),
    {
        let out = BitmapContainer::zip(lhs, rhs, Bitwise::AndNot);
        assert(out@ =~= lhs@.difference(rhs@));
        out
    }

    /// The values that are members of exactly one of `lhs` and `rhs`.
    pub fn xor(lhs: &BitmapContainer, rhs: &BitmapContainer) -> (out: BitmapContainer)
        requires
            lhs.wf(),
            rhs.wf(),
        ensures
            out.wf(),
            out@ == lhs@.difference(rhs@).union(rhs@.difference(lhs@)),
    {
        let out = BitmapContainer::zip(lhs, rhs, Bitwise::Xor);
        assert(out@ =~= lhs@.difference(rhs@).union(rhs@.difference(lhs@)));
        out
    }
    /// Makes `value` a member if it is none, and takes it out if it is one.
    /// Says whether it is a member afterwards.
    pub fn flip(&mut self, value: u16) -> (member: bool)
        requires
            old(self).wf(),
        ensures
            final(self).wf(),
            member == !old(self)@.contains(value),
            final(self)@ == if member {
                old(self)@.insert(value)
            } else {
                old(self)@.remove(value)
            },
    {
        if self.is_set(value) {
            self.unset(value);
            false
        } else {
            self.set(value);
            true
        }
    }

    /// The row that has the members of `array`.
    pub fn from(array: &ArrayContainer) -> (out: BitmapContainer)
        requires
            array.wf(),
        ensures
            out.wf(),
            out@ == array@,
    {
        let empty = BitmapContainer::new();
        let out = empty.union_array(array);
        assert(out@ =~= array@);
        out
    }

    /// The members of `self` together with those of `array`.
    pub fn union_array(&self, array: &ArrayContainer) -> (out: BitmapContainer)
        requires
            self.wf(),
            array.wf(),
        ensures
            out.wf(),
            out@ == self@.union(array@),
    {
        let mut out = self.clone();
        let n: usize = array.len();
        let mut i: usize = 0;
        while i < n
            invariant
                self.wf(),
                array.wf(),
                out.wf(),
                n == array.elements().len(),
                i <= n,
                forall|v: u16|
                    out@.contains(v) == (self@.contains(v) || among_first(
                        array.elements(),
                        i as int,
                        v,
                    )),
            decreases n - i,
        {
            let x: u16 = array.get(i);
            let ghost before = out@;
            out.set(x);
            proof {
                assert forall|v: u16|
                    out@.contains(v) == (self@.contains(v) || among_first(
                        array.elements(),
                        i + 1,
                        v,
                    )) by {
                    lemma_among_first_step(array.elements(), i as int, v);
                    assert(out@.contains(v) == (before.contains(v) || v == x));
                }
            }
            i += 1;
        }
        proof {
            assert forall|v: u16| out@.contains(v) == (self@.contains(v) || array@.contains(v)) by {
                lemma_among_first_all(array.elements(), v);
            }
            assert(out@ =~= self@.union(array@));
        }
        out
    }

    /// The members of `self` that are not members of `array`.
    pub fn difference_array(&self, array: &ArrayContainer) -> (out: BitmapContainer)
        requires
            self.wf(),
            array.wf(),
        ensures
            out.wf(),
            out@ == self@.difference(array@),
    {
        let mut out = self.clone();
        let n: usize = array.len();
        let mut i: usize = 0;
        while i < n
            invariant
                self.wf(),
                array.wf(),
                out.wf(),
                n == array.elements().len(),
                i <= n,
                forall|v: u16|
                    out@.contains(v) == (self@.contains(v) && !among_first(
                        array.elements(),
                        i as int,
                        v,
                    )),
            decreases n - i,
        {
            let x: u16 = array.get(i);
            let ghost before = out@;
            out.unset(x);
            proof {
                assert forall|v: u16|
                    out@.contains(v) == (self@.contains(v) && !among_first(
                        array.elements(),
                        i + 1,
                        v,
                    )) by {
                    lemma_among_first_step(array.elements(), i as int, v);
                    assert(out@.contains(v) == (before.contains(v) && v != x));
                }
            }
            i += 1;
        }
        proof {
            assert forall|v: u16|
                out@.contains(v) == (self@.contains(v) && !array@.contains(v)) by {
                lemma_among_first_all(array.elements(), v);
            }
            assert(out@ =~= self@.difference(array@));
        }
        out
    }

    /// The values that are members of exactly one of `self` and `array`.
    pub fn symmetric_difference_array(&self, array: &ArrayContainer) -> (out: BitmapContainer)
        requires
            self.wf(),
            array.wf(),
        ensures
            out.wf(),
            out@ == self@.difference(array@).union(array@.difference(self@)),
    {
        let mut out = self.clone();
        let n: usize = array.len();
        let mut i: usize = 0;
        while i < n
            invariant
                self.wf(),
                array.wf(),
                out.wf(),
                n == array.elements().len(),
                i <= n,
                forall|v: u16|
                    out@.contains(v) == (self@.contains(v) != among_first(
                        array.elements(),
                        i as int,
                        v,
                    )),
            decreases n - i,
        {
            let x: u16 = array.get(i);
            let ghost before = out@;
            proof {
                if among_first(array.elements(), i as int, x) {
                    let k = choose|k: int|
                        0 <= k < i && k < array.elements().len() && array.elements()[k] == x;
                    assert(array.elements()[k] < array.elements()[i as int]);
                }
            }
            out.flip(x);
            proof {
                assert forall|v: u16|
                    out@.contains(v) == (self@.contains(v) != among_first(
                        array.elements(),
                        i + 1,
                        v,
                    )) by {
                    lemma_among_first_step(array.elements(), i as int, v);
                    assert(out@.contains(v) == (before.contains(v) != (v == x)));
                }
            }
            i += 1;
        }
        proof {
            assert forall|v: u16|
                out@.contains(v) == (self@.contains(v) != array@.contains(v)) by {
                lemma_among_first_all(array.elements(), v);
            }
            assert(out@ =~= self@.difference(array@).union(array@.difference(self@)));
        }
        out
    }
}

} // verus!
