//! Single 64-bit words seen as sets of bit positions.
//!
//! A dense container is a row of such words. Everything the containers need to
//! know about one word is stated here: which positions a bitwise operation
//! leaves set, how many positions are set, and where the lowest and the highest
//! of them lie.

use vstd::prelude::*;

verus! {

/// Whether position `i` of `w` is set. Positions run from 0, the least
/// significant bit, to 63.
pub open spec fn bit(w: u64, i: u64) -> bool {
    (w >> i) & 1 == 1
}

/// How many of the `n` lowest positions of `w` are set.
pub open spec fn count_bits(w: u64, n: nat) -> nat
    decreases n,
{
    if n == 0 {
        0
    } else {
        count_bits(w, (n - 1) as nat) + if bit(w, (n - 1) as u64) {
            1nat
        } else {
            0nat
        }
    }
}

/// `w` with every position from `n` upwards cleared.
spec fn low_part(w: u64, n: u64) -> u64 {
    if n >= 64 {
        w
    } else {
        w & (((1u64 << n) - 1) as u64)
    }
}

spec fn sum_pairs(w: u64) -> u64 {
    ((w & 0x5555_5555_5555_5555) + ((w >> 1) & 0x5555_5555_5555_5555)) as u64
}

spec fn sum_nibbles(w: u64) -> u64 {
    let p = sum_pairs(w);
    ((p & 0x3333_3333_3333_3333) + ((p >> 2) & 0x3333_3333_3333_3333)) as u64
}

spec fn sum_bytes(w: u64) -> u64 {
    let p = sum_nibbles(w);
    ((p & 0x0f0f_0f0f_0f0f_0f0f) + ((p >> 4) & 0x0f0f_0f0f_0f0f_0f0f)) as u64
}

spec fn sum_shorts(w: u64) -> u64 {
    let p = sum_bytes(w);
    ((p & 0x00ff_00ff_00ff_00ff) + ((p >> 8) & 0x00ff_00ff_00ff_00ff)) as u64
}

spec fn sum_halves(w: u64) -> u64 {
    let p = sum_shorts(w);
    ((p & 0x0000_ffff_0000_ffff) + ((p >> 16) & 0x0000_ffff_0000_ffff)) as u64
}

/// The sum of all 64 one-bit fields of `w`, computed by adding neighbouring
/// fields of doubling width.
spec fn sum_fields(w: u64) -> u64 {
    let p = sum_halves(w);
    ((p & 0x0000_0000_ffff_ffff) + ((p >> 32) & 0x0000_0000_ffff_ffff)) as u64
}

/// Clearing one position lowers the field sum by what stood there.
proof fn lemma_sum_fields_peel(w: u64, i: u64)
    by (bit_vector)
    requires
        i < 64,
    ensures
        sum_fields(w) == sum_fields(w & !(1u64 << i)) + ((w >> i) & 1),
        (w >> i) & 1 == 0 || (w >> i) & 1 == 1,
{
}

proof fn lemma_sum_fields_zero()
    by (bit_vector)
    ensures
        sum_fields(0) == 0,
{
}

proof fn lemma_low_part_step(w: u64, i: u64)
    by (bit_vector)
    requires
        i < 64,
    ensures
        low_part(w, (i + 1) as u64) & !(1u64 << i) == low_part(w, i),
        (low_part(w, (i + 1) as u64) >> i) & 1 == (w >> i) & 1,
        low_part(w, 0) == 0,
{
}

/// The field sum of the `n` lowest positions is the number of them that are set.
proof fn lemma_sum_fields_counts(w: u64, n: nat)
    requires
        n <= 64,
    ensures
        sum_fields(low_part(w, n as u64)) == count_bits(w, n),
    decreases n,
{
    if n == 0 {
        lemma_low_part_step(w, 0);
        lemma_sum_fields_zero();
    } else {
        let i = (n - 1) as u64;
        lemma_sum_fields_counts(w, (n - 1) as nat);
        lemma_low_part_step(w, i);
        lemma_sum_fields_peel(low_part(w, n as u64), i);
    }
}

/// At most `n` of the `n` lowest positions are set.
pub proof fn lemma_count_bits_bound(w: u64, n: nat)
    ensures
        count_bits(w, n) <= n,
    decreases n,
{
    if n > 0 {
        lemma_count_bits_bound(w, (n - 1) as nat);
    }
}

/// The empty word has no position set.
pub proof fn lemma_zero_bit(j: u64)
    by (bit_vector)
    requires
        j < 64,
    ensures
        !bit(0, j),
{
}

/// Setting position `i` adds `i` and changes nothing else.
pub proof fn lemma_set_bit(w: u64, i: u64, j: u64)
    by (bit_vector)
    requires
        i < 64,
        j < 64,
    ensures
        bit(w | (1u64 << i), j) == (bit(w, j) || i == j),
{
}

/// Clearing position `i` takes `i` away and changes nothing else.
pub proof fn lemma_clear_bit(w: u64, i: u64, j: u64)
    by (bit_vector)
    requires
        i < 64,
        j < 64,
    ensures
        bit(w & !(1u64 << i), j) == (bit(w, j) && i != j),
{
}

/// Position by position, `|` is "or", `&` is "and", `& !` is "and not" and
/// `^` is "exactly one".
pub proof fn lemma_combine_bits(a: u64, b: u64, j: u64)
    by (bit_vector)
    requires
        j < 64,
    ensures
        bit(a | b, j) == (bit(a, j) || bit(b, j)),
        bit(a & b, j) == (bit(a, j) && bit(b, j)),
        bit(a & !b, j) == (bit(a, j) && !bit(b, j)),
        bit(a ^ b, j) == (bit(a, j) != bit(b, j)),
{
}

proof fn lemma_differing_bit(a: u64, b: u64, j: u64)
    by (bit_vector)
    requires
        j < 64,
        ((a ^ b) >> j) & 1 == 1,
    ensures
        bit(a, j) != bit(b, j),
{
}

proof fn lemma_xor_zero(a: u64, b: u64)
    by (bit_vector)
    requires
        a ^ b == 0,
    ensures
        a == b,
{
}

/// A word is determined by the positions that are set in it.
pub proof fn lemma_same_bits_same_word(a: u64, b: u64)
    requires
        forall|j: u64| j < 64 ==> bit(a, j) == bit(b, j),
    ensures
        a == b,
{
    let x = a ^ b;
    vstd::std_specs::bits::axiom_u64_trailing_zeros(x);
    if x != 0 {
        let j = vstd::std_specs::bits::u64_trailing_zeros(x) as u64;
        lemma_differing_bit(a, b, j);
        assert(false);
    }
    lemma_xor_zero(a, b);
}

/// The number of positions set in `w`.
pub fn popcount(w: u64) -> (n: u32)
    ensures
        n == count_bits(w, 64),
        n <= 64,
{
    proof {
        lemma_sum_fields_counts(w, 64);
        lemma_count_bits_bound(w, 64);
    }
    let m1: u64 = 0x5555_5555_5555_5555;
    let m2: u64 = 0x3333_3333_3333_3333;
    let m4: u64 = 0x0f0f_0f0f_0f0f_0f0f;
    let m8: u64 = 0x00ff_00ff_00ff_00ff;
    let m16: u64 = 0x0000_ffff_0000_ffff;
    let m32: u64 = 0x0000_0000_ffff_ffff;
    assert((w & m1) + ((w >> 1) & m1) <= u64::MAX) by (bit_vector)
        requires
            m1 == 0x5555_5555_5555_5555u64,
    ;
    let pairs: u64 = (w & m1) + ((w >> 1) & m1);
    assert((pairs & m2) + ((pairs >> 2) & m2) <= u64::MAX) by (bit_vector)
        requires
            m2 == 0x3333_3333_3333_3333u64,
    ;
    let nibbles: u64 = (pairs & m2) + ((pairs >> 2) & m2);
    assert((nibbles & m4) + ((nibbles >> 4) & m4) <= u64::MAX) by (bit_vector)
        requires
            m4 == 0x0f0f_0f0f_0f0f_0f0fu64,
    ;
    let bytes: u64 = (nibbles & m4) + ((nibbles >> 4) & m4);
    assert((bytes & m8) + ((bytes >> 8) & m8) <= u64::MAX) by (bit_vector)
        requires
            m8 == 0x00ff_00ff_00ff_00ffu64,
    ;
    let shorts: u64 = (bytes & m8) + ((bytes >> 8) & m8);
    assert((shorts & m16) + ((shorts >> 16) & m16) <= u64::MAX) by (bit_vector)
        requires
            m16 == 0x0000_ffff_0000_ffffu64,
    ;
    let halves: u64 = (shorts & m16) + ((shorts >> 16) & m16);
    assert((halves & m32) + ((halves >> 32) & m32) <= u64::MAX) by (bit_vector)
        requires
            m32 == 0x0000_0000_ffff_ffffu64,
    ;
    let total: u64 = (halves & m32) + ((halves >> 32) & m32);
    assert(total == sum_fields(w));
    total as u32
}

/// The lowest position set in a word that is not empty.
pub fn lowest_bit(w: u64) -> (i: u32)
    requires
        w != 0,
    ensures
        i < 64,
        bit(w, i as u64),
        forall|j: u64| j < i ==> !bit(w, j),
{
    proof {
        vstd::std_specs::bits::axiom_u64_trailing_zeros(w);
    }
    w.trailing_zeros()
}

/// The highest position set in a word that is not empty.
pub fn highest_bit(w: u64) -> (i: u32)
    requires
        w != 0,
    ensures
        i < 64,
        bit(w, i as u64),
        forall|j: u64| i < j < 64 ==> !bit(w, j),
{
    let zeros: u32 = w.leading_zeros();
    proof {
        vstd::std_specs::bits::axiom_u64_leading_zeros(w);
        let k = (63 - zeros) as u64;
        assert((w >> k) & 1 != 0 ==> (w >> k) & 1 == 1) by (bit_vector);
    }
    63 - zeros
}

} // verus!
