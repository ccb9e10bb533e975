use bitboard_chess::bits::{count_bits, get_bit, get_lsb_index, pop_bit, set_bit};

#[test]
fn count_bits_of_three_squares() {
    let b: u64 = (1u64 << 0) | (1u64 << 5) | (1u64 << 63);
    assert_eq!(count_bits(b), 3);
}

#[test]
fn count_bits_of_empty_board() {
    assert_eq!(count_bits(0), 0);
}

#[test]
fn count_bits_of_full_board() {
    assert_eq!(count_bits(u64::MAX), 64);
}

#[test]
fn lsb_index_of_single_bit() {
    assert_eq!(get_lsb_index(1u64 << 5), Ok(5));
}

#[test]
fn lsb_index_of_several_bits() {
    assert_eq!(get_lsb_index((1u64 << 63) | (1u64 << 17) | (1u64 << 40)), Ok(17));
    assert_eq!(get_lsb_index(1u64 << 63), Ok(63));
    assert_eq!(get_lsb_index(1), Ok(0));
}

#[test]
fn lsb_index_of_empty_board_fails() {
    assert!(get_lsb_index(0).is_err());
}

#[test]
fn set_then_get_reports_set() {
    for sq in 0..64u64 {
        let b = set_bit(0x1234_5678_9abc_def0, sq);
        assert!(get_bit(b, sq) != 0);
        assert_eq!(get_bit(b, sq), 1u64 << sq);
        assert_eq!(set_bit(b, sq), b);
    }
}

#[test]
fn pop_unset_square_keeps_board() {
    let b: u64 = 0b1010;
    assert_eq!(pop_bit(b, 0), b);
    assert_eq!(pop_bit(b, 2), b);
    assert_eq!(pop_bit(b, 63), b);
}

#[test]
fn pop_set_square_clears_it() {
    let b: u64 = 0b1010;
    assert_eq!(pop_bit(b, 1), 0b1000);
    assert_eq!(pop_bit(b, 3), 0b0010);
}

#[test]
fn get_bit_of_unset_square_is_zero() {
    assert_eq!(get_bit(0b1010, 0), 0);
    assert_eq!(get_bit(0b1010, 1), 2);
}
