use bitboard_chess::bits::count_bits;
use bitboard_chess::leapers::{mask_king_attacks, mask_knight_attacks, mask_pawn_attacks, Color};
use bitboard_chess::occupancy::set_occupancies;
use bitboard_chess::rays::{
    dynamic_bishop_attacks, dynamic_rook_attacks, mask_bishop_attacks, mask_rook_attacks,
};

fn board(squares: &[u64]) -> u64 {
    squares.iter().fold(0u64, |b, s| b | (1u64 << s))
}

#[test]
fn knight_in_corner() {
    // a8 is square 0: b6 (17) and c7 (10).
    assert_eq!(mask_knight_attacks(0), board(&[10, 17]));
    // h1 is square 63: g3 (46) and f2 (53).
    assert_eq!(mask_knight_attacks(63), board(&[46, 53]));
}

#[test]
fn knight_in_centre_has_eight_targets() {
    assert_eq!(mask_knight_attacks(27), board(&[10, 12, 17, 21, 33, 37, 42, 44]));
}

#[test]
fn king_on_edge_and_centre() {
    assert_eq!(mask_king_attacks(0), board(&[1, 8, 9]));
    assert_eq!(mask_king_attacks(7), board(&[6, 14, 15]));
    assert_eq!(count_bits(mask_king_attacks(27)), 8);
}

#[test]
fn pawn_captures_by_side() {
    // e4 is square 36; white captures towards rank 5 (d5 = 27, f5 = 29).
    assert_eq!(mask_pawn_attacks(36, Color::White), board(&[27, 29]));
    assert_eq!(mask_pawn_attacks(36, Color::Black), board(&[43, 45]));
    // An a-file pawn captures on one side only.
    assert_eq!(mask_pawn_attacks(32, Color::White), board(&[25]));
    assert_eq!(mask_pawn_attacks(39, Color::Black), board(&[46]));
}

#[test]
fn relevance_masks_leave_out_edges() {
    assert_eq!(mask_rook_attacks(0), board(&[1, 2, 3, 4, 5, 6, 8, 16, 24, 32, 40, 48]));
    assert_eq!(count_bits(mask_rook_attacks(27)), 10);
    assert_eq!(mask_bishop_attacks(0), board(&[9, 18, 27, 36, 45, 54]));
    assert_eq!(count_bits(mask_bishop_attacks(27)), 9);
}

#[test]
fn rook_rays_stop_at_blockers() {
    // Rook on a8 with a blocker on d8 and on a6.
    let attacks = dynamic_rook_attacks(0, board(&[3, 16]));
    assert_eq!(attacks, board(&[1, 2, 3, 8, 16]));
    // Empty board from d4 (35): whole rank and file.
    assert_eq!(count_bits(dynamic_rook_attacks(35, 0)), 14);
}

#[test]
fn rook_rays_on_edge_squares_exclude_origin() {
    for sq in 0..64u64 {
        assert_eq!(dynamic_rook_attacks(sq, 0) & (1u64 << sq), 0);
        assert_eq!(dynamic_bishop_attacks(sq, 0) & (1u64 << sq), 0);
        assert_eq!(count_bits(dynamic_rook_attacks(sq, 0)), 14);
    }
}

#[test]
fn bishop_rays_stop_at_blockers() {
    // Bishop on a8 with a blocker on c6 (18).
    assert_eq!(dynamic_bishop_attacks(0, board(&[18])), board(&[9, 18]));
    // Bishop on h8 (7) on an empty board: the long diagonal.
    assert_eq!(dynamic_bishop_attacks(7, 0), board(&[14, 21, 28, 35, 42, 49, 56]));
}

#[test]
fn occupancy_enumeration_follows_index_bits() {
    let mask = board(&[3, 10, 40]);
    assert_eq!(set_occupancies(0, 3, mask), 0);
    assert_eq!(set_occupancies(1, 3, mask), board(&[3]));
    assert_eq!(set_occupancies(2, 3, mask), board(&[10]));
    assert_eq!(set_occupancies(5, 3, mask), board(&[3, 40]));
    assert_eq!(set_occupancies(7, 3, mask), mask);
}

#[test]
fn occupancy_enumeration_is_a_bijection() {
    let mask = mask_rook_attacks(0);
    let bits = count_bits(mask);
    let mut seen: Vec<u64> = Vec::new();
    for index in 0..(1usize << bits) {
        let occ = set_occupancies(index, bits, mask);
        assert_eq!(occ & !mask, 0);
        seen.push(occ);
    }
    seen.sort();
    seen.dedup();
    assert_eq!(seen.len(), 1usize << bits);
}
