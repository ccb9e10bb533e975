//! The game position: one bitboard per piece kind and side, the derived
//! occupancy boards, and the side-to-move, castling and en-passant flags.
use vstd::prelude::*;
use crate::bits::{bit, single, get_bit, set_bit, lemma_bit_ops};
use crate::leapers::{Color, pawn_targets, knight_targets, king_targets};
use crate::rays::{
    bishop_rays, rook_rays, lemma_rook_sees_lone_piece, on_line, is_step, distance,
    lemma_rook_line_of_sight, lemma_bishop_line_of_sight, lemma_clear_between,
};
use crate::magic::{Constants, get_bishop_attacks, get_rook_attacks, get_queen_attacks};

verus! {

/// The six kinds of piece.
#[derive(Clone, Copy, Debug, PartialEq, Eq, Structural)]
pub enum PieceType {
    King,
    Queen,
    Rook,
    Bishop,
    Knight,
    Pawn,
}

/// The letter of a piece: `k q r b n p`, upper case for white.
pub open spec fn piece_char(kind: PieceType, side: Color) -> char {
    let c = match kind {
        PieceType::King => 'k',
        PieceType::Queen => 'q',
        PieceType::Rook => 'r',
        PieceType::Bishop => 'b',
        PieceType::Knight => 'n',
        PieceType::Pawn => 'p',
    };
    match side {
        Color::White => ((c as u32) - 32) as char,
        Color::Black => c,
    }
}

impl PieceType {
    /// The letter of this piece for `side`: lower case for black, upper case for white.
    pub fn to_char(&self, side: Color) -> (r: char)
        ensures
            r == piece_char(*self, side),
    {
        match side {
            Color::White => match self {
                PieceType::King => 'K',
                PieceType::Queen => 'Q',
                PieceType::Rook => 'R',
                PieceType::Bishop => 'B',
                PieceType::Knight => 'N',
                PieceType::Pawn => 'P',
            },
            Color::Black => match self {
                PieceType::King => 'k',
                PieceType::Queen => 'q',
                PieceType::Rook => 'r',
                PieceType::Bishop => 'b',
                PieceType::Knight => 'n',
                PieceType::Pawn => 'p',
            },
        }
    }
}

/// The other side.
pub open spec fn opponent(side: Color) -> Color {
    match side {
        Color::White => Color::Black,
        Color::Black => Color::White,
    }
}

/// A position, reading its attack tables from a shared `Constants`.
pub struct ChessGame<'a> {
    pub bitboard_constants: &'a Constants,
    /// Square behind a pawn that has just advanced two squares, if any.
    pub en_passant_target: Option<usize>,
    pub white_to_move: bool,
    pub can_white_castle_long: bool,
    pub can_white_castle_short: bool,
    pub can_black_castle_long: bool,
    pub can_black_castle_short: bool,
    pub white_pawns: u64,
    pub white_bishops: u64,
    pub white_rooks: u64,
    pub white_knights: u64,
    pub white_queens: u64,
    pub white_king: u64,
    pub black_pawns: u64,
    pub black_bishops: u64,
    pub black_rooks: u64,
    pub black_knights: u64,
    pub black_queens: u64,
    pub black_king: u64,
    /// Union of the white boards.
    pub white_occupancies: u64,
    /// Union of the black boards.
    pub black_occupancies: u64,
    /// Union of all twelve boards.
    pub all_occupancies: u64,
}

/// The union of six boards.
pub open spec fn union6(a: u64, b: u64, c: u64, d: u64, e: u64, f: u64) -> u64 {
    a | b | c | d | e | f
}

/// Setting a bit on one of six boards sets it on their union.
proof fn lemma_union6_set(a: u64, b: u64, c: u64, d: u64, e: u64, f: u64, x: u64)
    by (bit_vector)
    ensures
        union6(a | x, b, c, d, e, f) == union6(a, b, c, d, e, f) | x,
        union6(a, b | x, c, d, e, f) == union6(a, b, c, d, e, f) | x,
        union6(a, b, c | x, d, e, f) == union6(a, b, c, d, e, f) | x,
        union6(a, b, c, d | x, e, f) == union6(a, b, c, d, e, f) | x,
        union6(a, b, c, d, e | x, f) == union6(a, b, c, d, e, f) | x,
        union6(a, b, c, d, e, f | x) == union6(a, b, c, d, e, f) | x,
        (a | x) | (b | x) == (a | b) | x,
        (a | x) | b == (a | b) | x,
        a | (b | x) == (a | b) | x,
        union6(0, 0, 0, 0, 0, 0) == 0,
        0u64 | 0u64 == 0,
{
}

impl<'a> ChessGame<'a> {
    /// The board of `side`'s pieces of `kind`.
    pub open spec fn board(&self, side: Color, kind: PieceType) -> u64 {
        match side {
            Color::White => match kind {
                PieceType::Pawn => self.white_pawns,
                PieceType::Bishop => self.white_bishops,
                PieceType::Rook => self.white_rooks,
                PieceType::Knight => self.white_knights,
                PieceType::Queen => self.white_queens,
                PieceType::King => self.white_king,
            },
            Color::Black => match kind {
                PieceType::Pawn => self.black_pawns,
                PieceType::Bishop => self.black_bishops,
                PieceType::Rook => self.black_rooks,
                PieceType::Knight => self.black_knights,
                PieceType::Queen => self.black_queens,
                PieceType::King => self.black_king,
            },
        }
    }

    /// The union of `side`'s six boards.
    pub open spec fn side_union(&self, side: Color) -> u64 {
        union6(
            self.board(side, PieceType::Pawn),
            self.board(side, PieceType::Bishop),
            self.board(side, PieceType::Rook),
            self.board(side, PieceType::Knight),
            self.board(side, PieceType::Queen),
            self.board(side, PieceType::King),
        )
    }

    /// The occupancy boards are the unions of the piece boards, and the
    /// attack tables are well formed.
    pub open spec fn wf(&self) -> bool {
        &&& self.bitboard_constants.wf()
        &&& self.white_occupancies == self.side_union(Color::White)
        &&& self.black_occupancies == self.side_union(Color::Black)
        &&& self.all_occupancies == self.white_occupancies | self.black_occupancies
    }

    /// The flags of two positions agree.
    pub open spec fn same_flags(&self, other: &ChessGame) -> bool {
        &&& self.en_passant_target == other.en_passant_target
        &&& self.white_to_move == other.white_to_move
        &&& self.can_white_castle_long == other.can_white_castle_long
        &&& self.can_white_castle_short == other.can_white_castle_short
        &&& self.can_black_castle_long == other.can_black_castle_long
        &&& self.can_black_castle_short == other.can_black_castle_short
    }

    /// No piece is on the board.
    pub open spec fn is_empty(&self) -> bool {
        &&& forall|side: Color, kind: PieceType| #[trigger] self.board(side, kind) == 0
        &&& self.white_occupancies == 0
        &&& self.black_occupancies == 0
        &&& self.all_occupancies == 0
    }

    /// An empty position: white to move, every castling right, no
    /// en-passant target.
    pub fn new(c: &'a Constants) -> (g: Self)
        requires
            c.wf(),
        ensures
            g.wf(),
            g.is_empty(),
            g.bitboard_constants == c,
            g.en_passant_target is None,
            g.white_to_move,
            g.can_white_castle_long,
            g.can_white_castle_short,
            g.can_black_castle_long,
            g.can_black_castle_short,
    {
        proof {
            lemma_union6_set(0, 0, 0, 0, 0, 0, 0);
        }
        ChessGame {
            bitboard_constants: c,
            en_passant_target: None,
            white_to_move: true,
            can_white_castle_long: true,
            can_white_castle_short: true,
            can_black_castle_long: true,
            can_black_castle_short: true,
            white_pawns: 0,
            white_bishops: 0,
            white_rooks: 0,
            white_knights: 0,
            white_queens: 0,
            white_king: 0,
            black_pawns: 0,
            black_bishops: 0,
            black_rooks: 0,
            black_knights: 0,
            black_queens: 0,
            black_king: 0,
            white_occupancies: 0,
            black_occupancies: 0,
            all_occupancies: 0,
        }
    }

    /// Takes every piece off the board; the flags stay.
    pub fn clear_board(&mut self)
        requires
            old(self).wf(),
        ensures
            final(self).wf(),
            final(self).is_empty(),
            final(self).same_flags(old(self)),
            final(self).bitboard_constants == old(self).bitboard_constants,
    {
        self.white_pawns = 0;
        self.white_bishops = 0;
        self.white_rooks = 0;
        self.white_knights = 0;
        self.white_queens = 0;
        self.white_king = 0;
        self.black_pawns = 0;
        self.black_bishops = 0;
        self.black_rooks = 0;
        self.black_knights = 0;
        self.black_queens = 0;
        self.black_king = 0;
        self.white_occupancies = 0;
        self.black_occupancies = 0;
        self.all_occupancies = 0;
        proof {
            lemma_union6_set(0, 0, 0, 0, 0, 0, 0);
        }
    }

    /// Puts a piece of `side` and `piece_type` on `square`: sets its bit on
    /// that piece's board, on the side's occupancy and on the full occupancy.
    pub fn place_piece_on_board(&mut self, side: Color, piece_type: PieceType, square: u64)
        requires
            old(self).wf(),
            square < 64,
        ensures
            final(self).wf(),
            final(self).same_flags(old(self)),
            final(self).bitboard_constants == old(self).bitboard_constants,
            forall|s: Color, k: PieceType|
                #[trigger] final(self).board(s, k) == if s == side && k == piece_type {
                    old(self).board(s, k) | single(square)
                } else {
                    old(self).board(s, k)
                },
            final(self).all_occupancies == old(self).all_occupancies | single(square),
    {
        let ghost g0 = *self;
        let ghost x = single(square);
        proof {
            lemma_union6_set(
                self.board(side, PieceType::Pawn),
                self.board(side, PieceType::Bishop),
                self.board(side, PieceType::Rook),
                self.board(side, PieceType::Knight),
                self.board(side, PieceType::Queen),
                self.board(side, PieceType::King),
                x,
            );
            lemma_union6_set(self.white_occupancies, self.black_occupancies, 0, 0, 0, 0, x);
        }
        match side {
            Color::White => {
                match piece_type {
                    PieceType::Pawn => self.white_pawns = set_bit(self.white_pawns, square),
                    PieceType::Bishop => self.white_bishops = set_bit(self.white_bishops, square),
                    PieceType::Knight => self.white_knights = set_bit(self.white_knights, square),
                    PieceType::Rook => self.white_rooks = set_bit(self.white_rooks, square),
                    PieceType::Queen => self.white_queens = set_bit(self.white_queens, square),
                    PieceType::King => self.white_king = set_bit(self.white_king, square),
                }
                self.white_occupancies = set_bit(self.white_occupancies, square);
            },
            Color::Black => {
                match piece_type {
                    PieceType::Pawn => self.black_pawns = set_bit(self.black_pawns, square),
                    PieceType::Bishop => self.black_bishops = set_bit(self.black_bishops, square),
                    PieceType::Knight => self.black_knights = set_bit(self.black_knights, square),
                    PieceType::Rook => self.black_rooks = set_bit(self.black_rooks, square),
                    PieceType::Queen => self.black_queens = set_bit(self.black_queens, square),
                    PieceType::King => self.black_king = set_bit(self.black_king, square),
                }
                self.black_occupancies = set_bit(self.black_occupancies, square);
            },
        }
        self.all_occupancies = set_bit(self.all_occupancies, square);
    }

    /// The first of `side`'s kinds whose board has `sq`, in the order pawn,
    /// bishop, knight, rook, queen, king.
    pub open spec fn kind_at(&self, side: Color, sq: u64) -> PieceType {
        if bit(self.board(side, PieceType::Pawn), sq) {
            PieceType::Pawn
        } else if bit(self.board(side, PieceType::Bishop), sq) {
            PieceType::Bishop
        } else if bit(self.board(side, PieceType::Knight), sq) {
            PieceType::Knight
        } else if bit(self.board(side, PieceType::Rook), sq) {
            PieceType::Rook
        } else if bit(self.board(side, PieceType::Queen), sq) {
            PieceType::Queen
        } else {
            PieceType::King
        }
    }

    /// The piece on `sq` and its side, if any (white first should both
    /// sides claim the square).
    pub open spec fn piece_at(&self, sq: u64) -> Option<(PieceType, Color)> {
        if !bit(self.all_occupancies, sq) {
            None
        } else if bit(self.white_occupancies, sq) {
            Some((self.kind_at(Color::White, sq), Color::White))
        } else {
            Some((self.kind_at(Color::Black, sq), Color::Black))
        }
    }

    /// Whether `side` attacks `sq` with any of its pieces, sliders being
    /// blocked by every piece on the board.
    pub open spec fn attacked_by(&self, sq: u64, side: Color) -> bool {
        let occ = self.all_occupancies;
        ||| pawn_targets(sq, opponent(side)) & self.board(side, PieceType::Pawn) != 0
        ||| knight_targets(sq) & self.board(side, PieceType::Knight) != 0
        ||| bishop_rays(sq, occ) & self.board(side, PieceType::Bishop) != 0
        ||| rook_rays(sq, occ) & self.board(side, PieceType::Rook) != 0
        ||| (bishop_rays(sq, occ) | rook_rays(sq, occ)) & self.board(side, PieceType::Queen) != 0
        ||| king_targets(sq) & self.board(side, PieceType::King) != 0
    }

    /// Which piece stands on `square`, and of which side.
    pub fn get_piece_at_square(&self, square: u64) -> (r: Option<(PieceType, Color)>)
        requires
            self.wf(),
            square < 64,
        ensures
            r == self.piece_at(square),
            r matches Some((k, c)) ==> bit(self.board(c, k), square),
    {
        if get_bit(self.all_occupancies, square) == 0 {
            return None;
        }
        proof {
            lemma_bit_ops(self.white_occupancies, self.black_occupancies, square);
            lemma_union_bit(self, Color::White, square);
            lemma_union_bit(self, Color::Black, square);
        }
        if get_bit(self.white_occupancies, square) != 0 {
            if get_bit(self.white_pawns, square) != 0 {
                Some((PieceType::Pawn, Color::White))
            } else if get_bit(self.white_bishops, square) != 0 {
                Some((PieceType::Bishop, Color::White))
            } else if get_bit(self.white_knights, square) != 0 {
                Some((PieceType::Knight, Color::White))
            } else if get_bit(self.white_rooks, square) != 0 {
                Some((PieceType::Rook, Color::White))
            } else if get_bit(self.white_queens, square) != 0 {
                Some((PieceType::Queen, Color::White))
            } else {
                Some((PieceType::King, Color::White))
            }
        } else {
            if get_bit(self.black_pawns, square) != 0 {
                Some((PieceType::Pawn, Color::Black))
            } else if get_bit(self.black_bishops, square) != 0 {
                Some((PieceType::Bishop, Color::Black))
            } else if get_bit(self.black_knights, square) != 0 {
                Some((PieceType::Knight, Color::Black))
            } else if get_bit(self.black_rooks, square) != 0 {
                Some((PieceType::Rook, Color::Black))
            } else if get_bit(self.black_queens, square) != 0 {
                Some((PieceType::Queen, Color::Black))
            } else {
                Some((PieceType::King, Color::Black))
            }
        }
    }

    /// Whether `who_is_attacking` attacks `square`.
    pub fn is_square_attacked(&self, square: usize, who_is_attacking: Color) -> (r: bool)
        requires
            self.wf(),
            square < 64,
        ensures
            r == self.attacked_by(square as u64, who_is_attacking),
    {
        let c = self.bitboard_constants;
        let sq = square as u64;
        proof {
            assert(c.pawn_attacks[0][sq as int] == pawn_targets(sq, Color::White));
            assert(c.pawn_attacks[1][sq as int] == pawn_targets(sq, Color::Black));
            assert(c.knight_attacks[sq as int] == knight_targets(sq));
            assert(c.king_attacks[sq as int] == king_targets(sq));
        }
        match who_is_attacking {
            Color::White => {
                if c.pawn_attacks[Color::Black.idx()][square] & self.white_pawns != 0 {
                    return true;
                }
                if c.knight_attacks[square] & self.white_knights != 0 {
                    return true;
                }
                if self.get_bishop_attacks(square, self.all_occupancies) & self.white_bishops != 0 {
                    return true;
                }
                if self.get_rook_attacks(square, self.all_occupancies) & self.white_rooks != 0 {
                    return true;
                }
                if self.get_queen_attacks(square, self.all_occupancies) & self.white_queens != 0 {
                    return true;
                }
                if c.king_attacks[square] & self.white_king != 0 {
                    return true;
                }
            },
            Color::Black => {
                if c.pawn_attacks[Color::White.idx()][square] & self.black_pawns != 0 {
                    return true;
                }
                if c.knight_attacks[square] & self.black_knights != 0 {
                    return true;
                }
                if self.get_bishop_attacks(square, self.all_occupancies) & self.black_bishops != 0 {
                    return true;
                }
                if self.get_rook_attacks(square, self.all_occupancies) & self.black_rooks != 0 {
                    return true;
                }
                if self.get_queen_attacks(square, self.all_occupancies) & self.black_queens != 0 {
                    return true;
                }
                if c.king_attacks[square] & self.black_king != 0 {
                    return true;
                }
            },
        }
        false
    }

    /// Squares a bishop on `square` attacks with the blockers `occupancy`.
    pub fn get_bishop_attacks(&self, square: usize, occupancy: u64) -> (r: u64)
        requires
            self.wf(),
            square < 64,
        ensures
            r == bishop_rays(square as u64, occupancy),
    {
        get_bishop_attacks(self.bitboard_constants, square, occupancy)
    }

    /// Squares a rook on `square` attacks with the blockers `occupancy`.
    pub fn get_rook_attacks(&self, square: usize, occupancy: u64) -> (r: u64)
        requires
            self.wf(),
            square < 64,
        ensures
            r == rook_rays(square as u64, occupancy),
    {
        get_rook_attacks(self.bitboard_constants, square, occupancy)
    }

    /// Squares a queen on `square` attacks with the blockers `occupancy`.
    pub fn get_queen_attacks(&self, square: usize, occupancy: u64) -> (r: u64)
        requires
            self.wf(),
            square < 64,
        ensures
            r == bishop_rays(square as u64, occupancy) | rook_rays(square as u64, occupancy),
    {
        get_queen_attacks(self.bitboard_constants, square, occupancy)
    }
}

/// A square of a side's occupancy lies on one of its six boards.
proof fn lemma_union_bit(g: &ChessGame, side: Color, sq: u64)
    requires
        sq < 64,
    ensures
        bit(g.side_union(side), sq) ==> (bit(g.board(side, PieceType::Pawn), sq) || bit(
            g.board(side, PieceType::Bishop),
            sq,
        ) || bit(g.board(side, PieceType::Rook), sq) || bit(g.board(side, PieceType::Knight), sq)
            || bit(g.board(side, PieceType::Queen), sq) || bit(g.board(side, PieceType::King), sq)),
{
    let a = g.board(side, PieceType::Pawn);
    let b = g.board(side, PieceType::Bishop);
    let c = g.board(side, PieceType::Rook);
    let d = g.board(side, PieceType::Knight);
    let e = g.board(side, PieceType::Queen);
    let f = g.board(side, PieceType::King);
    lemma_bit_ops(a, b, sq);
    lemma_bit_ops(a | b, c, sq);
    lemma_bit_ops(a | b | c, d, sq);
    lemma_bit_ops(a | b | c | d, e, sq);
    lemma_bit_ops(a | b | c | d | e, f, sq);
}

proof fn lemma_lone_board_facts(x: u64, y: u64)
    by (bit_vector)
    ensures
        union6(0, 0, x, 0, 0, 0) == x,
        union6(0, 0, 0, 0, 0, 0) == 0,
        x | 0 == x,
        0 | x == x,
        y & 0 == 0,
{
}

/// A lone rook sees its whole rank and file. On a board whose only piece
/// is a rook of `side` on `q`, `side` attacks every other square `t` of
/// `q`'s rank and file, and no square off them.
pub proof fn lemma_lone_rook_attacks(g: &ChessGame, side: Color, q: u64, t: u64)
    requires
        g.wf(),
        q < 64,
        t < 64,
        t != q,
        forall|s: Color, k: PieceType|
            #[trigger] g.board(s, k) == if s == side && k == PieceType::Rook {
                single(q)
            } else {
                0
            },
    ensures
        g.attacked_by(t, side) <==> (t / 8 == q / 8 || t % 8 == q % 8),
{
    let occ = single(q);
    let rk = rook_rays(t, occ);
    lemma_lone_board_facts(occ, pawn_targets(t, opponent(side)));
    lemma_lone_board_facts(occ, knight_targets(t));
    lemma_lone_board_facts(occ, bishop_rays(t, occ));
    lemma_lone_board_facts(occ, bishop_rays(t, occ) | rk);
    lemma_lone_board_facts(occ, king_targets(t));
    assert(g.board(side, PieceType::Pawn) == 0);
    assert(g.board(side, PieceType::Knight) == 0);
    assert(g.board(side, PieceType::Bishop) == 0);
    assert(g.board(side, PieceType::Queen) == 0);
    assert(g.board(side, PieceType::King) == 0);
    assert(g.board(side, PieceType::Rook) == occ);
    assert(g.board(opponent(side), PieceType::Rook) == 0);
    assert(g.all_occupancies == occ) by {
        assert(g.side_union(side) == occ);
        assert(g.side_union(opponent(side)) == 0);
        assert(g.board(Color::White, PieceType::Pawn) == 0);
        assert(g.board(Color::Black, PieceType::Pawn) == 0);
        assert(g.board(Color::White, PieceType::Bishop) == 0);
        assert(g.board(Color::Black, PieceType::Bishop) == 0);
        assert(g.board(Color::White, PieceType::Knight) == 0);
        assert(g.board(Color::Black, PieceType::Knight) == 0);
        assert(g.board(Color::White, PieceType::Queen) == 0);
        assert(g.board(Color::Black, PieceType::Queen) == 0);
        assert(g.board(Color::White, PieceType::King) == 0);
        assert(g.board(Color::Black, PieceType::King) == 0);
    }
    assert(((rk & occ) != 0) == bit(rk, q)) by {
        crate::bits::lemma_and_single(rk, q);
    }
    lemma_rook_sees_lone_piece(t, q);
}

/// A blocker cuts a slider's line. Let `side`'s only piece be a rook or a
/// bishop on `a`, let `t` lie on one of its lines from `a`, and let the
/// occupied squares be `a` and, when `has_blocker`, a square `b` on the same
/// line beyond `a`. Then `side` attacks `t` exactly when there is no blocker
/// or `t` is no farther from `a` than `b`: squares beyond the blocker are
/// not attacked, squares up to and including it are.
pub proof fn lemma_blocker_cuts_attack(
    g: &ChessGame,
    side: Color,
    kind: PieceType,
    a: u64,
    b: u64,
    t: u64,
    dr: int,
    df: int,
    has_blocker: bool,
)
    requires
        g.wf(),
        a < 64,
        b < 64,
        is_step(dr, df),
        kind == PieceType::Rook ==> (dr == 0 || df == 0),
        kind == PieceType::Bishop ==> (dr != 0 && df != 0),
        kind == PieceType::Rook || kind == PieceType::Bishop,
        forall|k: PieceType|
            #[trigger] g.board(side, k) == if k == kind {
                single(a)
            } else {
                0
            },
        g.all_occupancies == single(a) | (if has_blocker { single(b) } else { 0 }),
        on_line((a / 8) as int, (a % 8) as int, dr, df, t),
        has_blocker ==> on_line((a / 8) as int, (a % 8) as int, dr, df, b),
    ensures
        g.attacked_by(t, side) <==> (!has_blocker || distance((a / 8) as int, (a % 8) as int, t)
            <= distance((a / 8) as int, (a % 8) as int, b)),
{
    let occ = g.all_occupancies;
    let sa = single(a);
    let bs = bishop_rays(t, occ);
    let rs = rook_rays(t, occ);
    lemma_lone_board_facts(sa, pawn_targets(t, opponent(side)));
    lemma_lone_board_facts(sa, knight_targets(t));
    lemma_lone_board_facts(sa, bs | rs);
    lemma_lone_board_facts(sa, king_targets(t));
    lemma_lone_board_facts(sa, bs);
    lemma_lone_board_facts(sa, rs);
    assert(g.board(side, PieceType::Pawn) == 0);
    assert(g.board(side, PieceType::Knight) == 0);
    assert(g.board(side, PieceType::Queen) == 0);
    assert(g.board(side, PieceType::King) == 0);
    assert(g.board(side, PieceType::Rook) == if kind == PieceType::Rook { sa } else { 0 });
    assert(g.board(side, PieceType::Bishop) == if kind == PieceType::Bishop { sa } else { 0 });
    crate::bits::lemma_and_single(bs, a);
    crate::bits::lemma_and_single(rs, a);
    lemma_clear_between(a, b, t, dr, df, has_blocker);
    if kind == PieceType::Rook {
        lemma_rook_line_of_sight(a, t, dr, df, occ);
    } else {
        lemma_bishop_line_of_sight(a, t, dr, df, occ);
    }
}

} // verus!
