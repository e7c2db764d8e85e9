use roaring_bitmap::word::highest_bit;
use roaring_bitmap::word::lowest_bit;
use roaring_bitmap::word::popcount;

fn next_word(state: &mut u64) -> u64 {
    *state = state.wrapping_mul(6364136223846793005).wrapping_add(1442695040888963407);
    *state ^ (*state >> 29)
}

#[test]
fn popcount_of_chosen_words() {
    assert_eq!(popcount(0), 0);
    assert_eq!(popcount(1), 1);
    assert_eq!(popcount(0b1011), 3);
    assert_eq!(popcount(1u64 << 63), 1);
    assert_eq!(popcount(0x5555_5555_5555_5555), 32);
    assert_eq!(popcount(0xffff_0000_0000_ffff), 32);
    assert_eq!(popcount(u64::MAX - 1), 63);
    assert_eq!(popcount(u64::MAX), 64);
}

#[test]
fn popcount_of_single_bits() {
    for i in 0..64 {
        assert_eq!(popcount(1u64 << i), 1);
        assert_eq!(popcount(!(1u64 << i)), 63);
    }
}

#[test]
fn popcount_agrees_with_std_on_many_words() {
    let mut state: u64 = 12345;
    for _ in 0..20000 {
        let w = next_word(&mut state);
        assert_eq!(popcount(w), w.count_ones());
    }
}

#[test]
fn lowest_bit_of_chosen_words() {
    assert_eq!(lowest_bit(1), 0);
    assert_eq!(lowest_bit(0b1000), 3);
    assert_eq!(lowest_bit(0b1010_0000), 5);
    assert_eq!(lowest_bit(1u64 << 63), 63);
    assert_eq!(lowest_bit(u64::MAX), 0);
}

#[test]
fn highest_bit_of_chosen_words() {
    assert_eq!(highest_bit(1), 0);
    assert_eq!(highest_bit(0b1000), 3);
    assert_eq!(highest_bit(0b1010_0000), 7);
    assert_eq!(highest_bit(1u64 << 63), 63);
    assert_eq!(highest_bit(u64::MAX), 63);
}

#[test]
fn lowest_and_highest_bit_of_two_bit_words() {
    for lo in 0..64u32 {
        for hi in lo..64u32 {
            let w = (1u64 << lo) | (1u64 << hi);
            assert_eq!(lowest_bit(w), lo);
            assert_eq!(highest_bit(w), hi);
        }
    }
}
