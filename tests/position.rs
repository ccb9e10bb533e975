use bitboard_chess::bits::count_bits;
use bitboard_chess::fen::{str_coord_to_square, CoordError, FenError};
use bitboard_chess::leapers::Color;
use bitboard_chess::magic::{get_bishop_attacks, get_queen_attacks, get_rook_attacks, Constants};
use bitboard_chess::position::{ChessGame, PieceType};
use bitboard_chess::rays::{dynamic_bishop_attacks, dynamic_rook_attacks};

const START: &str = "rnbqkbnr/pppppppp/8/8/8/8/PPPPPPPP/RNBQKBNR w KQkq - 0 1";

#[test]
fn empty_fen_gives_empty_position() {
    let c = Constants::new();
    let mut g = ChessGame::new(&c);
    assert_eq!(g.import_fen("8/8/8/8/8/8/8/8 w - - 0 1"), Ok(()));
    assert_eq!(g.white_occupancies, 0);
    assert_eq!(g.black_occupancies, 0);
    assert_eq!(g.all_occupancies, 0);
    assert!(g.white_to_move);
    assert!(!g.can_white_castle_long);
    assert!(!g.can_white_castle_short);
    assert!(!g.can_black_castle_long);
    assert!(!g.can_black_castle_short);
    assert_eq!(g.en_passant_target, None);
}

#[test]
fn start_position_counts() {
    let c = Constants::new();
    let mut g = ChessGame::new(&c);
    assert_eq!(g.import_fen(START), Ok(()));
    assert_eq!(count_bits(g.white_occupancies), 16);
    assert_eq!(count_bits(g.black_occupancies), 16);
    assert_eq!(count_bits(g.all_occupancies), 32);
    assert!(g.can_white_castle_long);
    assert!(g.can_white_castle_short);
    assert!(g.can_black_castle_long);
    assert!(g.can_black_castle_short);
    assert_eq!(g.white_pawns, 0x00ff_0000_0000_0000);
    assert_eq!(g.black_pawns, 0x0000_0000_0000_ff00);
    assert_eq!(g.black_king, 1u64 << 4);
    assert_eq!(g.white_king, 1u64 << 60);
}

#[test]
fn start_position_pieces() {
    let c = Constants::new();
    let mut g = ChessGame::new(&c);
    g.import_fen(START).unwrap();
    assert_eq!(g.get_piece_at_square(0), Some((PieceType::Rook, Color::Black)));
    assert_eq!(g.get_piece_at_square(3), Some((PieceType::Queen, Color::Black)));
    assert_eq!(g.get_piece_at_square(60), Some((PieceType::King, Color::White)));
    assert_eq!(g.get_piece_at_square(57), Some((PieceType::Knight, Color::White)));
    assert_eq!(g.get_piece_at_square(50), Some((PieceType::Pawn, Color::White)));
    assert_eq!(g.get_piece_at_square(35), None);
}

#[test]
fn short_rank_fails_with_column_count() {
    let c = Constants::new();
    let mut g = ChessGame::new(&c);
    let r = g.import_fen("rnbqkbnr/ppppppp/8/8/8/8/PPPPPPPP/RNBQKBNR w KQkq - 0 1");
    assert_eq!(r, Err(FenError::ColumnCount(7)));
    let r = g.import_fen("8/8/8/4p4/8/8/8/8 w - - 0 1");
    assert_eq!(r, Err(FenError::ColumnCount(9)));
    assert_eq!(g.all_occupancies, 0);
}

#[test]
fn seven_ranks_fail_with_row_count() {
    let c = Constants::new();
    let mut g = ChessGame::new(&c);
    let r = g.import_fen("8/8/8/8/8/8/8 w - - 0 1");
    assert_eq!(r, Err(FenError::RowCount(7)));
}

#[test]
fn bad_digit_and_letter_fail() {
    let c = Constants::new();
    let mut g = ChessGame::new(&c);
    assert_eq!(g.import_fen("9/8/8/8/8/8/8/8 w - - 0 1"), Err(FenError::InvalidEmptyCount(9)));
    assert_eq!(g.import_fen("0/8/8/8/8/8/8/8 w - - 0 1"), Err(FenError::InvalidEmptyCount(0)));
    assert_eq!(g.import_fen("7x/8/8/8/8/8/8/8 w - - 0 1"), Err(FenError::UnexpectedPiece('x')));
}

#[test]
fn side_to_move_field_is_checked() {
    let c = Constants::new();
    let mut g = ChessGame::new(&c);
    assert_eq!(g.import_fen("8/8/8/8/8/8/8/8"), Err(FenError::MissingSideToMove));
    assert_eq!(g.import_fen("8/8/8/8/8/8/8/8 x"), Err(FenError::InvalidSideToMove));
    assert_eq!(g.import_fen("8/8/8/8/8/8/8/8 B"), Ok(()));
    assert!(!g.white_to_move);
    assert_eq!(g.import_fen("8/8/8/8/8/8/8/8 W"), Ok(()));
    assert!(g.white_to_move);
}

#[test]
fn failed_import_leaves_board_empty_and_flags_unchanged() {
    let c = Constants::new();
    let mut g = ChessGame::new(&c);
    g.import_fen("8/8/8/8/8/8/8/8 b - -").unwrap();
    assert_eq!(g.import_fen("rnbqkbnr/pppppppp/8/8/8/8/PPPPPPPP/RNBQKBNR q KQkq - 0 1"), Err(FenError::InvalidSideToMove));
    assert_eq!(g.all_occupancies, 0);
    assert_eq!(g.white_pawns, 0);
    assert!(!g.white_to_move);
    assert!(!g.can_white_castle_short);
}

#[test]
fn missing_castling_field_keeps_rights() {
    let c = Constants::new();
    let mut g = ChessGame::new(&c);
    assert_eq!(g.import_fen("8/8/8/8/8/8/8/8 w"), Ok(()));
    assert!(g.can_white_castle_long && g.can_black_castle_short);
    assert_eq!(g.import_fen("8/8/8/8/8/8/8/8 w Kq"), Ok(()));
    assert!(g.can_white_castle_short);
    assert!(!g.can_white_castle_long);
    assert!(!g.can_black_castle_short);
    assert!(g.can_black_castle_long);
}

#[test]
fn en_passant_field() {
    let c = Constants::new();
    let mut g = ChessGame::new(&c);
    let fen = "rnbqkbnr/pppppppp/8/8/4P3/8/PPPP1PPP/RNBQKBNR b KQkq e3 0 1";
    assert_eq!(g.import_fen(fen), Ok(()));
    assert_eq!(g.en_passant_target, Some(44));
    assert_eq!(g.import_fen("8/8/8/8/8/8/8/8 w - zz 0 1"), Ok(()));
    assert_eq!(g.en_passant_target, None);
}

#[test]
fn missing_en_passant_field_clears_target() {
    let c = Constants::new();
    let mut g = ChessGame::new(&c);
    g.import_fen("8/8/8/8/4P3/8/8/8 b KQkq e3 0 1").unwrap();
    assert_eq!(g.en_passant_target, Some(44));
    assert_eq!(g.import_fen("8/8/8/8/8/8/8/8 b"), Ok(()));
    assert!(!g.white_to_move);
    assert!(g.can_white_castle_long && g.can_white_castle_short);
    assert!(g.can_black_castle_long && g.can_black_castle_short);
    assert_eq!(g.en_passant_target, None);
    g.import_fen("8/8/8/8/4P3/8/8/8 b KQkq e3 0 1").unwrap();
    assert_eq!(g.import_fen("8/8/8/8/8/8/8/8 w Qk"), Ok(()));
    assert_eq!(g.en_passant_target, None);
}

#[test]
fn surrounding_whitespace_is_ignored() {
    let c = Constants::new();
    let mut g = ChessGame::new(&c);
    assert_eq!(g.import_fen("  \t8/8/8/8/8/8/8/8 b - - 0 1\n "), Ok(()));
    assert!(!g.white_to_move);
}

#[test]
fn load_fen_text_takes_text_as_given() {
    let c = Constants::new();
    let mut g = ChessGame::new(&c);
    assert_eq!(g.load_fen_text(" 8/8/8/8/8/8/8/8 w"), Err(FenError::ColumnCount(0)));
    assert_eq!(g.load_fen_text("8/8/8/8/8/8/8/8 w"), Ok(()));
}

#[test]
fn coordinates() {
    assert_eq!(str_coord_to_square("a8"), Ok(0));
    assert_eq!(str_coord_to_square("h1"), Ok(63));
    assert_eq!(str_coord_to_square("e3"), Ok(44));
    assert_eq!(str_coord_to_square("E3"), Ok(44));
    assert_eq!(str_coord_to_square("e"), Err(CoordError::Length(1)));
    assert_eq!(str_coord_to_square("e33"), Err(CoordError::Length(3)));
    assert_eq!(str_coord_to_square("i3"), Err(CoordError::File('i')));
    assert_eq!(str_coord_to_square("ex"), Err(CoordError::Rank('x')));
    assert_eq!(str_coord_to_square("e9"), Err(CoordError::Rank('9')));
}

#[test]
fn piece_letters() {
    assert_eq!(PieceType::King.to_char(Color::White), 'K');
    assert_eq!(PieceType::Knight.to_char(Color::Black), 'n');
    assert_eq!(PieceType::Pawn.to_char(Color::White), 'P');
    assert_eq!(Color::White.idx(), 0);
    assert_eq!(Color::Black.idx(), 1);
}

#[test]
fn lone_rook_attacks_its_lines() {
    let c = Constants::new();
    let rook: u64 = 27;
    let mut g = ChessGame::new(&c);
    g.place_piece_on_board(Color::Black, PieceType::Rook, rook);
    for t in 0..64u64 {
        if t == rook {
            continue;
        }
        let on_lines = t / 8 == rook / 8 || t % 8 == rook % 8;
        assert_eq!(g.is_square_attacked(t as usize, Color::Black), on_lines);
        assert!(!g.is_square_attacked(t as usize, Color::White));
    }
}

#[test]
fn blocker_cuts_rook_line() {
    let c = Constants::new();
    let mut g = ChessGame::new(&c);
    g.place_piece_on_board(Color::White, PieceType::Rook, 0);
    for t in 1..8usize {
        assert!(g.is_square_attacked(t, Color::White));
    }
    g.place_piece_on_board(Color::Black, PieceType::Pawn, 3);
    for t in 1..4usize {
        assert!(g.is_square_attacked(t, Color::White));
    }
    for t in 4..8usize {
        assert!(!g.is_square_attacked(t, Color::White));
    }
    let raw = get_rook_attacks(&c, 0, g.all_occupancies);
    assert_eq!(raw & 0xff, 0b1110);
}

#[test]
fn blocker_cuts_bishop_attack() {
    let c = Constants::new();
    let mut g = ChessGame::new(&c);
    g.place_piece_on_board(Color::Black, PieceType::Bishop, 0);
    for t in [9usize, 18, 27, 36, 45, 54, 63] {
        assert!(g.is_square_attacked(t, Color::Black));
    }
    g.place_piece_on_board(Color::White, PieceType::Knight, 27);
    for t in [9usize, 18, 27] {
        assert!(g.is_square_attacked(t, Color::Black));
    }
    for t in [36usize, 45, 54, 63] {
        assert!(!g.is_square_attacked(t, Color::Black));
    }
}

#[test]
fn blocker_cuts_bishop_diagonal() {
    let c = Constants::new();
    assert_eq!(get_bishop_attacks(&c, 0, 0) & (1u64 << 63), 1u64 << 63);
    let blocked = get_bishop_attacks(&c, 0, 1u64 << 36);
    assert_eq!(blocked, (1u64 << 9) | (1u64 << 18) | (1u64 << 27) | (1u64 << 36));
}

#[test]
fn other_attackers() {
    let c = Constants::new();
    let mut g = ChessGame::new(&c);
    g.place_piece_on_board(Color::White, PieceType::Pawn, 36);
    assert!(g.is_square_attacked(27, Color::White));
    assert!(g.is_square_attacked(29, Color::White));
    assert!(!g.is_square_attacked(28, Color::White));
    g.place_piece_on_board(Color::Black, PieceType::Knight, 0);
    assert!(g.is_square_attacked(10, Color::Black));
    assert!(g.is_square_attacked(17, Color::Black));
    g.place_piece_on_board(Color::Black, PieceType::King, 63);
    assert!(g.is_square_attacked(54, Color::Black));
    g.place_piece_on_board(Color::White, PieceType::Queen, 7);
    assert!(g.is_square_attacked(56, Color::White));
    assert!(g.is_square_attacked(0, Color::White));
    g.place_piece_on_board(Color::Black, PieceType::Bishop, 62);
    assert!(g.is_square_attacked(53, Color::Black));
}

#[test]
fn clear_board_removes_pieces() {
    let c = Constants::new();
    let mut g = ChessGame::new(&c);
    g.import_fen(START).unwrap();
    g.clear_board();
    assert_eq!(g.all_occupancies, 0);
    assert_eq!(g.white_queens, 0);
    assert_eq!(g.get_piece_at_square(0), None);
}

#[test]
fn magic_tables_match_ray_walk_exhaustively() {
    let c = Constants::new();
    assert!(c.tables_checked);
    for sq in 0..64usize {
        for (mask, bits, rook) in [
            (c.bishop_masks[sq], c.bishop_relevant_bits[sq] as usize, false),
            (c.rook_masks[sq], c.rook_relevant_bits[sq] as usize, true),
        ] {
            for index in 0..(1usize << bits) {
                let occ = bitboard_chess::occupancy::set_occupancies(index, bits, mask);
                if rook {
                    assert_eq!(get_rook_attacks(&c, sq, occ), dynamic_rook_attacks(sq as u64, occ));
                } else {
                    assert_eq!(get_bishop_attacks(&c, sq, occ), dynamic_bishop_attacks(sq as u64, occ));
                }
            }
        }
    }
}

#[test]
fn lookups_ignore_irrelevant_blockers() {
    let c = Constants::new();
    let occ: u64 = 0x8100_0000_0000_0081 | (1u64 << 20) | (1u64 << 45);
    for sq in 0..64usize {
        assert_eq!(get_rook_attacks(&c, sq, occ), dynamic_rook_attacks(sq as u64, occ));
        assert_eq!(get_bishop_attacks(&c, sq, occ), dynamic_bishop_attacks(sq as u64, occ));
        assert_eq!(
            get_queen_attacks(&c, sq, occ),
            dynamic_rook_attacks(sq as u64, occ) | dynamic_bishop_attacks(sq as u64, occ)
        );
    }
}

#[test]
fn game_methods_match_free_lookups() {
    let c = Constants::new();
    let g = ChessGame::new(&c);
    assert_eq!(g.get_rook_attacks(35, 1u64 << 38), get_rook_attacks(&c, 35, 1u64 << 38));
    assert_eq!(g.get_bishop_attacks(35, 0), get_bishop_attacks(&c, 35, 0));
    assert_eq!(g.get_queen_attacks(35, 0), get_queen_attacks(&c, 35, 0));
}
