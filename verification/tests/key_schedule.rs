use feistel::bits::{count_ones, rotate_byte_left};
use feistel::key_schedule::{popcount_sum_mod8, subkey, Direction};

#[test]
fn count_ones_agrees_with_the_machine() {
    for b in 0..=255u8 {
        assert_eq!(count_ones(b) as u32, b.count_ones());
    }
    assert_eq!(count_ones(0x00), 0);
    assert_eq!(count_ones(0x81), 2);
    assert_eq!(count_ones(0xFF), 8);
}

#[test]
fn rotation_wraps_the_high_bits_around() {
    assert_eq!(rotate_byte_left(0x81, 1), 0x03);
    assert_eq!(rotate_byte_left(0x81, 7), 0xc0);
    assert_eq!(rotate_byte_left(0x0f, 4), 0xf0);
    assert_eq!(rotate_byte_left(0xa5, 0), 0xa5);
}

#[test]
fn rotation_amount_counts_modulo_eight() {
    assert_eq!(rotate_byte_left(0x81, 8), 0x81);
    assert_eq!(rotate_byte_left(0x81, 9), 0x03);
    assert_eq!(rotate_byte_left(0x01, u32::MAX), 0x80);
    for b in 0..=255u8 {
        for amount in 0..40u32 {
            assert_eq!(rotate_byte_left(b, amount), b.rotate_left(amount));
        }
    }
}

#[test]
fn popcount_residue_of_a_key() {
    assert_eq!(popcount_sum_mod8(&[]), 0);
    assert_eq!(popcount_sum_mod8(&[0x81, 0x0f, 0x01]), 7);
    assert_eq!(popcount_sum_mod8(&[0xFF; 8]), 0);
    assert_eq!(popcount_sum_mod8(&[0xFF, 0x01]), 1);
}

#[test]
fn subkey_rotates_every_byte_by_the_salt() {
    let key = [0x81u8, 0x0f, 0x01];
    assert_eq!(subkey(&key, 0, 1, Direction::Forward), vec![0xc0u8, 0x87, 0x80]);
    assert_eq!(subkey(&key, 5, 6, Direction::Forward), vec![0x18u8, 0xf0, 0x10]);
    assert_eq!(subkey(&key, 0, 6, Direction::Reverse), vec![0x18u8, 0xf0, 0x10]);
}

#[test]
fn subkey_of_an_empty_key_is_empty() {
    assert_eq!(subkey(&[], 0, 3, Direction::Forward), Vec::<u8>::new());
    assert_eq!(subkey(&[], 2, 3, Direction::Reverse), Vec::<u8>::new());
}

#[test]
fn subkey_is_as_long_as_the_key() {
    for len in 0..20usize {
        let key = vec![0x5au8; len];
        assert_eq!(subkey(&key, 1, 4, Direction::Forward).len(), len);
    }
}

#[test]
fn schedule_is_symmetric() {
    let key = [0x12u8, 0x34, 0x56, 0x78, 0x9a];
    for rounds in 1..20u32 {
        for j in 0..rounds {
            assert_eq!(
                subkey(&key, j, rounds, Direction::Forward),
                subkey(&key, rounds - 1 - j, rounds, Direction::Reverse)
            );
        }
    }
}

#[test]
fn schedule_repeats_every_eight_rounds() {
    let key = [0x12u8, 0x34, 0x56];
    assert_eq!(
        subkey(&key, 1, 20, Direction::Forward),
        subkey(&key, 9, 20, Direction::Forward)
    );
}

#[test]
fn large_round_numbers_do_not_overflow() {
    let key = [0xFFu8; 16];
    let last = subkey(&key, u32::MAX - 1, u32::MAX, Direction::Forward);
    // 128 set bits and round 4294967294: the salt is 6 modulo 8.
    assert_eq!(last, vec![0xFFu8; 16]);
    let one = subkey(&[0x01u8], u32::MAX - 1, u32::MAX, Direction::Forward);
    // one set bit and round 4294967294: the salt is 7 modulo 8.
    assert_eq!(one, vec![0x80u8]);
}
