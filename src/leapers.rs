//! Attack sets of the pieces that jump to fixed offsets: pawns (captures
//! only), knights and kings.
use vstd::prelude::*;
use crate::bits::{bit, single};
use crate::rays::{on_board, square_at};

verus! {

/// Every square but those of file A.
pub const NOT_FILE_A: u64 = 18374403900871474942;

/// Every square but those of file B.
pub const NOT_FILE_B: u64 = 18302063728033398269;

/// Every square but those of files A and B.
pub const NOT_FILE_AB: u64 = 18229723555195321596;

/// Every square but those of file G.
pub const NOT_FILE_G: u64 = 13816973012072644543;

/// Every square but those of file H.
pub const NOT_FILE_H: u64 = 9187201950435737471;

/// Every square but those of files G and H.
pub const NOT_FILE_GH: u64 = 4557430888798830399;

/// Every square but those of rank 8.
pub const NOT_RANK_8: u64 = 18446744073709551360;

/// Every square but those of rank 7.
pub const NOT_RANK_7: u64 = 18446744073709486335;

/// Every square but those of rank 2.
pub const NOT_RANK_2: u64 = 18374967954648334335;

/// Every square but those of rank 1.
pub const NOT_RANK_1: u64 = 72057594037927935;

/// The side that moves first, or the one that moves second.
#[derive(Clone, Copy, Debug, PartialEq, Eq, Structural)]
pub enum Color {
    White,
    Black,
}

impl Color {
    /// Index of the side in per-side tables.
    pub fn idx(&self) -> (r: usize)
        ensures
            r == (if *self == Color::White { 0usize } else { 1usize }),
    {
        match self {
            Color::White => 0,
            Color::Black => 1,
        }
    }
}

/// The board holding the square `(dr, df)` away from `sq`, or no square when
/// that lies off the board.
pub open spec fn jump(sq: u64, dr: int, df: int) -> u64 {
    let r = (sq / 8) as int + dr;
    let f = (sq % 8) as int + df;
    if on_board(r, f) {
        single(square_at(r, f))
    } else {
        0
    }
}

/// Squares a pawn of `side` on `sq` captures on: one rank forward, one file
/// to either side. White moves towards rank index 0.
pub open spec fn pawn_targets(sq: u64, side: Color) -> u64 {
    match side {
        Color::White => jump(sq, -1, 1) | jump(sq, -1, -1),
        Color::Black => jump(sq, 1, 1) | jump(sq, 1, -1),
    }
}

/// Squares a knight on `sq` attacks.
pub open spec fn knight_targets(sq: u64) -> u64 {
    jump(sq, -1, -2) | jump(sq, -2, -1) | jump(sq, -1, 2) | jump(sq, -2, 1) | jump(sq, 1, -2)
        | jump(sq, 2, -1) | jump(sq, 1, 2) | jump(sq, 2, 1)
}

/// Squares a king on `sq` attacks.
pub open spec fn king_targets(sq: u64) -> u64 {
    jump(sq, -1, -1) | jump(sq, -1, 0) | jump(sq, -1, 1) | jump(sq, 0, -1) | jump(sq, 0, 1)
        | jump(sq, 1, -1) | jump(sq, 1, 0) | jump(sq, 1, 1)
}

proof fn lemma_shift_single(sq: u64, k: u64, m: u64)
    by (bit_vector)
    requires
        sq < 64,
        k < 64,
    ensures
        ((1u64 << sq) >> k) & m == (if sq >= k && (m >> ((sq - k) as u64)) & 1 == 1 {
            1u64 << ((sq - k) as u64)
        } else {
            0u64
        }),
        ((1u64 << sq) << k) & m == (if sq + k < 64 && (m >> ((sq + k) as u64)) & 1 == 1 {
            1u64 << ((sq + k) as u64)
        } else {
            0u64
        }),
{
}

proof fn lemma_file_masks(t: u64)
    by (bit_vector)
    requires
        t < 64,
    ensures
        bit(NOT_FILE_A, t) == (t % 8 != 0),
        bit(NOT_FILE_AB, t) == (t % 8 >= 2),
        bit(NOT_FILE_H, t) == (t % 8 != 7),
        bit(NOT_FILE_GH, t) == (t % 8 < 6),
        bit(0xffff_ffff_ffff_ffffu64, t),
{
}

/// Shifting the single-square board of `sq` down the indices by `k` and
/// keeping the files of `m` is the jump by `(dr, df)`.
proof fn lemma_jump_down(sq: u64, k: u64, m: u64, dr: int, df: int)
    requires
        sq < 64,
        k < 64,
        k == -(dr * 8 + df),
        -2 <= dr <= 0,
        -2 <= df <= 2,
        forall|t: u64|
            t < 64 ==> (bit(m, t) == (0 <= (t % 8) as int - df < 8)),
    ensures
        ((1u64 << sq) >> k) & m == jump(sq, dr, df),
{
    lemma_shift_single(sq, k, m);
    if sq >= k {
        let t = (sq - k) as u64;
        assert(bit(m, t) == (0 <= (t % 8) as int - df < 8));
    }
}

/// Shifting the single-square board of `sq` up the indices by `k` and
/// keeping the files of `m` is the jump by `(dr, df)`.
proof fn lemma_jump_up(sq: u64, k: u64, m: u64, dr: int, df: int)
    requires
        sq < 64,
        k < 64,
        k == dr * 8 + df,
        0 <= dr <= 2,
        -2 <= df <= 2,
        forall|t: u64|
            t < 64 ==> (bit(m, t) == (0 <= (t % 8) as int - df < 8)),
    ensures
        ((1u64 << sq) << k) & m == jump(sq, dr, df),
{
    lemma_shift_single(sq, k, m);
    if sq + k < 64 {
        let t = (sq + k) as u64;
        assert(bit(m, t) == (0 <= (t % 8) as int - df < 8));
    }
}

proof fn lemma_masks_by_file()
    ensures
        forall|t: u64| t < 64 ==> (bit(NOT_FILE_A, t) == (0 <= (t % 8) as int - 1 < 8)),
        forall|t: u64| t < 64 ==> (bit(NOT_FILE_AB, t) == (0 <= (t % 8) as int - 2 < 8)),
        forall|t: u64| t < 64 ==> (bit(NOT_FILE_H, t) == (0 <= (t % 8) as int + 1 < 8)),
        forall|t: u64| t < 64 ==> (bit(NOT_FILE_GH, t) == (0 <= (t % 8) as int + 2 < 8)),
        forall|t: u64| t < 64 ==> (bit(0xffff_ffff_ffff_ffffu64, t) == (0 <= ((t % 8) as int) < 8)),
{
    assert forall|t: u64| t < 64 implies (bit(NOT_FILE_A, t) == (0 <= (t % 8) as int - 1 < 8))
        && (bit(NOT_FILE_AB, t) == (0 <= (t % 8) as int - 2 < 8)) && (bit(NOT_FILE_H, t) == (0
        <= (t % 8) as int + 1 < 8)) && (bit(NOT_FILE_GH, t) == (0 <= (t % 8) as int + 2 < 8))
        && (bit(0xffff_ffff_ffff_ffffu64, t) == (0 <= ((t % 8) as int) < 8)) by {
        lemma_file_masks(t);
    }
}

/// Squares a pawn of `side` on `square` captures on.
pub fn mask_pawn_attacks(square: u64, side: Color) -> (r: u64)
    requires
        square < 64,
    ensures
        r == pawn_targets(square, side),
{
    let mut attacks: u64 = 0;
    let bitboard: u64 = 1u64 << square;
    proof {
        lemma_masks_by_file();
        crate::bits::lemma_or_facts(jump(square, -1, 1), 0, 0);
        crate::bits::lemma_or_facts(jump(square, 1, 1), 0, 0);
    }
    match side {
        Color::White => {
            proof {
                lemma_jump_down(square, 7, NOT_FILE_A, -1, 1);
                lemma_jump_down(square, 9, NOT_FILE_H, -1, -1);
            }
            attacks = attacks | ((bitboard >> 7u64) & NOT_FILE_A);
            attacks = attacks | ((bitboard >> 9u64) & NOT_FILE_H);
        },
        Color::Black => {
            proof {
                lemma_jump_up(square, 9, NOT_FILE_A, 1, 1);
                lemma_jump_up(square, 7, NOT_FILE_H, 1, -1);
            }
            attacks = attacks | ((bitboard << 9u64) & NOT_FILE_A);
            attacks = attacks | ((bitboard << 7u64) & NOT_FILE_H);
        },
    }
    attacks
}

/// Squares a knight on `square` attacks.
pub fn mask_knight_attacks(square: u64) -> (r: u64)
    requires
        square < 64,
    ensures
        r == knight_targets(square),
{
    let bitboard: u64 = 1u64 << square;
    proof {
        lemma_masks_by_file();
        lemma_jump_down(square, 10, NOT_FILE_GH, -1, -2);
        lemma_jump_down(square, 17, NOT_FILE_H, -2, -1);
        lemma_jump_down(square, 6, NOT_FILE_AB, -1, 2);
        lemma_jump_down(square, 15, NOT_FILE_A, -2, 1);
        lemma_jump_up(square, 6, NOT_FILE_GH, 1, -2);
        lemma_jump_up(square, 15, NOT_FILE_H, 2, -1);
        lemma_jump_up(square, 10, NOT_FILE_AB, 1, 2);
        lemma_jump_up(square, 17, NOT_FILE_A, 2, 1);
    }
    let mut attacks: u64 = (bitboard >> 10u64) & NOT_FILE_GH;
    attacks = attacks | ((bitboard >> 17u64) & NOT_FILE_H);
    attacks = attacks | ((bitboard >> 6u64) & NOT_FILE_AB);
    attacks = attacks | ((bitboard >> 15u64) & NOT_FILE_A);
    attacks = attacks | ((bitboard << 6u64) & NOT_FILE_GH);
    attacks = attacks | ((bitboard << 15u64) & NOT_FILE_H);
    attacks = attacks | ((bitboard << 10u64) & NOT_FILE_AB);
    attacks = attacks | ((bitboard << 17u64) & NOT_FILE_A);
    attacks
}

/// Squares a king on `square` attacks.
pub fn mask_king_attacks(square: u64) -> (r: u64)
    requires
        square < 64,
    ensures
        r == king_targets(square),
{
    let bitboard: u64 = 1u64 << square;
    let all: u64 = 0xffff_ffff_ffff_ffff;
    proof {
        lemma_masks_by_file();
        lemma_jump_down(square, 9, NOT_FILE_H, -1, -1);
        lemma_jump_down(square, 8, all, -1, 0);
        lemma_jump_down(square, 7, NOT_FILE_A, -1, 1);
        lemma_jump_down(square, 1, NOT_FILE_H, 0, -1);
        lemma_jump_up(square, 1, NOT_FILE_A, 0, 1);
        lemma_jump_up(square, 7, NOT_FILE_H, 1, -1);
        lemma_jump_up(square, 8, all, 1, 0);
        lemma_jump_up(square, 9, NOT_FILE_A, 1, 1);
        let b = bitboard;
        assert((b >> 8u64) & all == b >> 8u64 && (b << 8u64) & all == b << 8u64) by (bit_vector)
            requires
                all == 0xffff_ffff_ffff_ffffu64,
        ;
    }
    let mut attacks: u64 = (bitboard >> 9u64) & NOT_FILE_H;
    attacks = attacks | (bitboard >> 8u64);
    attacks = attacks | ((bitboard >> 7u64) & NOT_FILE_A);
    attacks = attacks | ((bitboard >> 1u64) & NOT_FILE_H);
    attacks = attacks | ((bitboard << 1u64) & NOT_FILE_A);
    attacks = attacks | ((bitboard << 7u64) & NOT_FILE_H);
    attacks = attacks | (bitboard << 8u64);
    attacks = attacks | ((bitboard << 9u64) & NOT_FILE_A);
    attacks
}

} // verus!
