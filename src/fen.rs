//! Loading a position from FEN text: piece placement, side to move,
//! castling rights and en-passant target, separated by spaces.
use vstd::prelude::*;
use crate::leapers::Color;
use crate::position::{PieceType, ChessGame};
use crate::bits::{bit, single, lemma_bit_ops, lemma_single_bit};

verus! {

/// Why a square coordinate could not be read.
#[derive(Clone, Copy, Debug, PartialEq, Eq, Structural)]
pub enum CoordError {
    /// The text does not have exactly two characters; holds how many it has.
    Length(usize),
    /// The first character is not a file letter `a`..`h`.
    File(char),
    /// The second character is not a rank digit `1`..`8`.
    Rank(char),
}

/// Whether `c` is one of `'0'..='9'`.
pub open spec fn is_digit(c: char) -> bool {
    '0' <= c <= '9'
}

/// The value of a decimal digit.
pub open spec fn digit_value(c: char) -> u32 {
    ((c as u32) - ('0' as u32)) as u32
}

/// The file index of a file letter, either case; `None` for any other character.
pub open spec fn file_of(c: char) -> Option<usize> {
    if 'a' <= c <= 'h' {
        Some(((c as u32) - ('a' as u32)) as usize)
    } else if 'A' <= c <= 'H' {
        Some(((c as u32) - ('A' as u32)) as usize)
    } else {
        None
    }
}

/// The square that the two-character coordinate `s` names: file letter
/// `a`..`h` (either case) then rank digit `1`..`8`, rank 8 being index 0.
pub open spec fn coord_square(s: Seq<char>) -> Result<usize, CoordError> {
    if s.len() != 2 {
        Err(CoordError::Length(s.len() as usize))
    } else if file_of(s[0]) is None {
        Err(CoordError::File(s[0]))
    } else if !('1' <= s[1] <= '8') {
        Err(CoordError::Rank(s[1]))
    } else {
        Ok(((8 - digit_value(s[1])) * 8 + file_of(s[0])->0) as usize)
    }
}

/// The characters of `s`.
pub fn chars_of(s: &str) -> (r: Vec<char>)
    ensures
        r@ == s@,
{
    let n = s.unicode_len();
    let mut r: Vec<char> = Vec::new();
    let mut i: usize = 0;
    while i < n
        invariant
            n == s@.len(),
            i <= n,
            r@ == s@.take(i as int),
        decreases n - i,
    {
        r.push(s.get_char(i));
        i = i + 1;
        proof {
            assert(r@ =~= s@.take(i as int));
        }
    }
    proof {
        assert(r@ =~= s@);
    }
    r
}

/// The file index of a file letter, either case.
fn file_index(c: char) -> (r: Option<usize>)
    ensures
        r == file_of(c),
{
    if 'a' <= c && c <= 'h' {
        Some((c as u32 - 'a' as u32) as usize)
    } else if 'A' <= c && c <= 'H' {
        Some((c as u32 - 'A' as u32) as usize)
    } else {
        None
    }
}

/// Reads a square coordinate, given as characters.
pub fn coord_from_chars(chars: &Vec<char>) -> (r: Result<usize, CoordError>)
    ensures
        r == coord_square(chars@),
{
    if chars.len() != 2 {
        return Err(CoordError::Length(chars.len()));
    }
    let file = match file_index(chars[0]) {
        Some(f) => f,
        None => {
            return Err(CoordError::File(chars[0]));
        },
    };
    let rank_char = chars[1];
    if !('1' <= rank_char && rank_char <= '8') {
        return Err(CoordError::Rank(rank_char));
    }
    let rank: usize = (8 - (rank_char as u32 - '0' as u32)) as usize;
    Ok(rank * 8 + file)
}

/// Reads a square coordinate such as `e3`.
pub fn str_coord_to_square(s: &str) -> (r: Result<usize, CoordError>)
    ensures
        r == coord_square(s@),
{
    coord_from_chars(&chars_of(s))
}

/// The pieces `s` splits into at each `sep`, as `str::split` gives them:
/// empty pieces are kept, and there is always at least one.
pub open spec fn split_seq(s: Seq<char>, sep: char) -> Seq<Seq<char>>
    decreases s.len(),
{
    if s.len() == 0 {
        seq![Seq::empty()]
    } else {
        let prev = split_seq(s.drop_last(), sep);
        if s.last() == sep {
            prev.push(Seq::empty())
        } else {
            prev.update(prev.len() - 1, prev.last().push(s.last()))
        }
    }
}

proof fn lemma_split_nonempty(s: Seq<char>, sep: char)
    ensures
        split_seq(s, sep).len() >= 1,
    decreases s.len(),
{
    if s.len() > 0 {
        lemma_split_nonempty(s.drop_last(), sep);
    }
}

/// The views of a sequence of character vectors.
pub open spec fn views(v: Seq<Vec<char>>) -> Seq<Seq<char>> {
    v.map_values(|x: Vec<char>| x@)
}

/// Splits `s` at each `sep`.
pub fn split_chars(s: &Vec<char>, sep: char) -> (r: Vec<Vec<char>>)
    ensures
        views(r@) == split_seq(s@, sep),
        r@.len() >= 1,
{
    let mut parts: Vec<Vec<char>> = Vec::new();
    let mut cur: Vec<char> = Vec::new();
    let mut i: usize = 0;
    proof {
        assert(s@.take(0) =~= Seq::<char>::empty());
        assert(views(parts@).push(cur@) =~= split_seq(s@.take(0), sep));
    }
    while i < s.len()
        invariant
            i <= s@.len(),
            views(parts@).push(cur@) == split_seq(s@.take(i as int), sep),
        decreases s@.len() - i,
    {
        let c = s[i];
        proof {
            assert(s@.take(i + 1).drop_last() =~= s@.take(i as int));
            assert(s@.take(i + 1).last() == c);
            lemma_split_nonempty(s@.take(i as int), sep);
        }
        if c == sep {
            let mut done: Vec<char> = Vec::new();
            std::mem::swap(&mut cur, &mut done);
            parts.push(done);
            proof {
                assert(views(parts@).push(cur@) =~= split_seq(s@.take(i + 1), sep));
            }
        } else {
            cur.push(c);
            proof {
                assert(views(parts@).push(cur@) =~= split_seq(s@.take(i + 1), sep));
            }
        }
        i = i + 1;
    }
    parts.push(cur);
    proof {
        assert(s@.take(s@.len() as int) =~= s@);
        assert(views(parts@) =~= split_seq(s@, sep));
    }
    parts
}

/// Why FEN text could not be loaded.
#[derive(Clone, Copy, Debug, PartialEq, Eq, Structural)]
pub enum FenError {
    /// A run of empty squares outside `1..=8`; holds the digit's value.
    InvalidEmptyCount(u32),
    /// A character of the placement that is neither a digit nor a piece letter.
    UnexpectedPiece(char),
    /// A rank that does not describe exactly 8 squares; holds how many it does.
    ColumnCount(usize),
    /// A placement that does not have exactly 8 ranks; holds how many it has.
    RowCount(usize),
    /// The side-to-move field is missing.
    MissingSideToMove,
    /// The side-to-move field is neither `w` nor `b` (either case).
    InvalidSideToMove,
}

/// One square of a placement: the piece on it and its side, if any.
pub type Cell = Option<(PieceType, Color)>;

/// The piece that a FEN letter stands for: upper case white, lower case black.
pub open spec fn piece_of_char(c: char) -> Cell {
    match c {
        'K' => Some((PieceType::King, Color::White)),
        'Q' => Some((PieceType::Queen, Color::White)),
        'R' => Some((PieceType::Rook, Color::White)),
        'B' => Some((PieceType::Bishop, Color::White)),
        'N' => Some((PieceType::Knight, Color::White)),
        'P' => Some((PieceType::Pawn, Color::White)),
        'k' => Some((PieceType::King, Color::Black)),
        'q' => Some((PieceType::Queen, Color::Black)),
        'r' => Some((PieceType::Rook, Color::Black)),
        'b' => Some((PieceType::Bishop, Color::Black)),
        'n' => Some((PieceType::Knight, Color::Black)),
        'p' => Some((PieceType::Pawn, Color::Black)),
        _ => None,
    }
}

/// The squares one placement character describes: a digit `1`..`8` that
/// many empty squares, a piece letter one square with that piece.
pub open spec fn char_cells(c: char) -> Result<Seq<Cell>, FenError> {
    if is_digit(c) {
        let n = digit_value(c);
        if 1 <= n <= 8 {
            Ok(Seq::new(n as nat, |i: int| None))
        } else {
            Err(FenError::InvalidEmptyCount(n))
        }
    } else if piece_of_char(c) is Some {
        Ok(seq![piece_of_char(c)])
    } else {
        Err(FenError::UnexpectedPiece(c))
    }
}

/// The squares a rank's characters describe, or the first bad character's error.
pub open spec fn row_cells(row: Seq<char>) -> Result<Seq<Cell>, FenError>
    decreases row.len(),
{
    if row.len() == 0 {
        Ok(Seq::empty())
    } else {
        match row_cells(row.drop_last()) {
            Err(e) => Err(e),
            Ok(prev) => match char_cells(row.last()) {
                Err(e) => Err(e),
                Ok(more) => Ok(prev + more),
            },
        }
    }
}

/// The eight squares of a rank, or why the rank is malformed.
pub open spec fn parse_rank(row: Seq<char>) -> Result<Seq<Cell>, FenError> {
    match row_cells(row) {
        Err(e) => Err(e),
        Ok(cells) => if cells.len() == 8 {
            Ok(cells)
        } else {
            Err(FenError::ColumnCount(cells.len() as usize))
        },
    }
}

/// The squares of the ranks in order, or the first malformed rank's error.
pub open spec fn ranks_cells(rows: Seq<Seq<char>>) -> Result<Seq<Cell>, FenError>
    decreases rows.len(),
{
    if rows.len() == 0 {
        Ok(Seq::empty())
    } else {
        match ranks_cells(rows.drop_last()) {
            Err(e) => Err(e),
            Ok(prev) => match parse_rank(rows.last()) {
                Err(e) => Err(e),
                Ok(more) => Ok(prev + more),
            },
        }
    }
}

/// The 64 squares of a placement field, ranks separated by `/`, or why it
/// is malformed.
pub open spec fn parse_placement(text: Seq<char>) -> Result<Seq<Cell>, FenError> {
    let rows = split_seq(text, '/');
    match ranks_cells(rows) {
        Err(e) => Err(e),
        Ok(cells) => if rows.len() == 8 {
            Ok(cells)
        } else {
            Err(FenError::RowCount(rows.len() as usize))
        },
    }
}

proof fn lemma_ranks_len(rows: Seq<Seq<char>>)
    ensures
        ranks_cells(rows) matches Ok(c) ==> c.len() == 8 * rows.len(),
    decreases rows.len(),
{
    if rows.len() > 0 {
        lemma_ranks_len(rows.drop_last());
    }
}

/// The piece that a FEN letter stands for.
fn piece_for_char(c: char) -> (r: Cell)
    ensures
        r == piece_of_char(c),
{
    match c {
        'K' => Some((PieceType::King, Color::White)),
        'Q' => Some((PieceType::Queen, Color::White)),
        'R' => Some((PieceType::Rook, Color::White)),
        'B' => Some((PieceType::Bishop, Color::White)),
        'N' => Some((PieceType::Knight, Color::White)),
        'P' => Some((PieceType::Pawn, Color::White)),
        'k' => Some((PieceType::King, Color::Black)),
        'q' => Some((PieceType::Queen, Color::Black)),
        'r' => Some((PieceType::Rook, Color::Black)),
        'b' => Some((PieceType::Bishop, Color::Black)),
        'n' => Some((PieceType::Knight, Color::Black)),
        'p' => Some((PieceType::Pawn, Color::Black)),
        _ => None,
    }
}

/// Reads one rank of a placement.
fn parse_rank_chars(row: &Vec<char>) -> (r: Result<Vec<Cell>, FenError>)
    ensures
        r matches Ok(v) ==> parse_rank(row@) == Ok::<Seq<Cell>, FenError>(v@),
        r matches Err(e) ==> parse_rank(row@) == Err::<Seq<Cell>, FenError>(e),
{
    let mut cells: Vec<Cell> = Vec::new();
    let mut i: usize = 0;
    proof {
        assert(row@.take(0) =~= Seq::<char>::empty());
    }
    while i < row.len()
        invariant
            i <= row@.len(),
            row_cells(row@.take(i as int)) == Ok::<Seq<Cell>, FenError>(cells@),
        decreases row@.len() - i,
    {
        let c = row[i];
        proof {
            assert(row@.take(i + 1).drop_last() =~= row@.take(i as int));
            assert(row@.take(i + 1).last() == c);
        }
        if '0' <= c && c <= '9' {
            let n: u32 = c as u32 - '0' as u32;
            if n < 1 || n > 8 {
                proof {
                    lemma_row_error_stays(row@, (i + 1) as int);
                }
                return Err(FenError::InvalidEmptyCount(n));
            }
            let ghost before = cells@;
            proof {
                assert(is_digit(c) && digit_value(c) == n);
                assert(char_cells(c) == Ok::<Seq<Cell>, FenError>(
                    Seq::new(n as nat, |j: int| None::<(PieceType, Color)>),
                ));
                assert(before + Seq::new(0, |j: int| None::<(PieceType, Color)>) =~= before);
            }
            let mut k: u32 = 0;
            while k < n
                invariant
                    k <= n,
                    n <= 8,
                    cells@ == before + Seq::new(k as nat, |j: int| None::<(PieceType, Color)>),
                decreases n - k,
            {
                cells.push(None);
                k = k + 1;
                proof {
                    assert(cells@ =~= before + Seq::new(k as nat, |j: int| None::<(PieceType, Color)>));
                }
            }
        } else {
            match piece_for_char(c) {
                Some(p) => {
                    let ghost before = cells@;
                    cells.push(Some(p));
                    proof {
                        assert(!is_digit(c));
                        assert(cells@ =~= before + seq![piece_of_char(c)]);
                    }
                },
                None => {
                    proof {
                        lemma_row_error_stays(row@, (i + 1) as int);
                    }
                    return Err(FenError::UnexpectedPiece(c));
                },
            }
        }
        i = i + 1;
    }
    proof {
        assert(row@.take(row@.len() as int) =~= row@);
    }
    if cells.len() != 8 {
        return Err(FenError::ColumnCount(cells.len()));
    }
    Ok(cells)
}

/// Once a prefix of a rank fails, the whole rank fails the same way.
proof fn lemma_row_error_stays(row: Seq<char>, i: int)
    requires
        0 <= i <= row.len(),
        row_cells(row.take(i)) is Err,
    ensures
        row_cells(row) == row_cells(row.take(i)),
        parse_rank(row) == row_cells(row.take(i)),
    decreases row.len() - i,
{
    if i < row.len() {
        assert(row.take(i + 1).drop_last() =~= row.take(i));
        lemma_row_error_stays(row, i + 1);
    } else {
        assert(row.take(i) =~= row);
    }
}

/// Once a prefix of the ranks fails, all of them fail the same way.
proof fn lemma_ranks_error_stays(rows: Seq<Seq<char>>, i: int)
    requires
        0 <= i <= rows.len(),
        ranks_cells(rows.take(i)) is Err,
    ensures
        ranks_cells(rows) == ranks_cells(rows.take(i)),
    decreases rows.len() - i,
{
    if i < rows.len() {
        assert(rows.take(i + 1).drop_last() =~= rows.take(i));
        lemma_ranks_error_stays(rows, i + 1);
    } else {
        assert(rows.take(i) =~= rows);
    }
}

/// Reads the placement field: the 64 squares in index order.
pub fn parse_placement_chars(text: &Vec<char>) -> (r: Result<Vec<Cell>, FenError>)
    ensures
        r matches Ok(v) ==> parse_placement(text@) == Ok::<Seq<Cell>, FenError>(v@),
        r matches Err(e) ==> parse_placement(text@) == Err::<Seq<Cell>, FenError>(e),
        r matches Ok(v) ==> v@.len() == 64,
{
    let rows = split_chars(text, '/');
    let ghost rs = views(rows@);
    let mut cells: Vec<Cell> = Vec::new();
    let mut y: usize = 0;
    proof {
        assert(rs.take(0) =~= Seq::<Seq<char>>::empty());
    }
    while y < rows.len()
        invariant
            rs == views(rows@),
            rs == split_seq(text@, '/'),
            y <= rows@.len(),
            ranks_cells(rs.take(y as int)) == Ok::<Seq<Cell>, FenError>(cells@),
        decreases rows@.len() - y,
    {
        proof {
            assert(rs.take(y + 1).drop_last() =~= rs.take(y as int));
            assert(rs.take(y + 1).last() == rows@[y as int]@);
        }
        match parse_rank_chars(&rows[y]) {
            Ok(more) => {
                let mut more = more;
                cells.append(&mut more);
            },
            Err(e) => {
                proof {
                    lemma_ranks_error_stays(rs, (y + 1) as int);
                }
                return Err(e);
            },
        }
        y = y + 1;
    }
    proof {
        assert(rs.take(rs.len() as int) =~= rs);
        lemma_ranks_len(rs);
    }
    if rows.len() != 8 {
        return Err(FenError::RowCount(rows.len()));
    }
    Ok(cells)
}

/// Field `i` of `fields`, if there is one.
pub open spec fn field(fields: Seq<Seq<char>>, i: int) -> Option<Seq<char>> {
    if 0 <= i < fields.len() {
        Some(fields[i])
    } else {
        None
    }
}

/// What FEN text says, field by field (fields are separated by single
/// spaces): the 64 squares of the placement; whether white is to move; the
/// castling field and the en-passant field, each if present. Or the first
/// error met.
pub open spec fn parse_fen(text: Seq<char>) -> Result<
    (Seq<Cell>, bool, Option<Seq<char>>, Option<Seq<char>>),
    FenError,
> {
    let fields = split_seq(text, ' ');
    match parse_placement(fields[0]) {
        Err(e) => Err(e),
        Ok(cells) => if fields.len() < 2 {
            Err(FenError::MissingSideToMove)
        } else if fields[1] == seq!['w'] || fields[1] == seq!['W'] {
            Ok((cells, true, field(fields, 2), field(fields, 3)))
        } else if fields[1] == seq!['b'] || fields[1] == seq!['B'] {
            Ok((cells, false, field(fields, 2), field(fields, 3)))
        } else {
            Err(FenError::InvalidSideToMove)
        },
    }
}

/// The en-passant target that an en-passant field gives: its square, or
/// none when it is not a coordinate.
pub open spec fn en_passant_of(f: Seq<char>) -> Option<usize> {
    match coord_square(f) {
        Ok(sq) => Some(sq),
        Err(_) => None,
    }
}

proof fn lemma_contains_push(s: Seq<char>, c: char, x: char)
    ensures
        s.push(c).contains(x) == (s.contains(x) || c == x),
{
    if s.contains(x) {
        let j = choose|j: int| 0 <= j < s.len() && s[j] == x;
        assert(s.push(c)[j] == x);
    } else if c == x {
        assert(s.push(c)[s.len() as int] == x);
    } else {
        assert forall|j: int| 0 <= j < s.push(c).len() implies s.push(c)[j] != x by {
            if j < s.len() {
                assert(s.push(c)[j] == s[j]);
            }
        }
    }
}

impl<'a> ChessGame<'a> {
    /// The piece boards show exactly the pieces of `cells`.
    pub open spec fn shows(&self, cells: Seq<Cell>) -> bool {
        forall|side: Color, kind: PieceType, t: u64|
            t < 64 ==> #[trigger] bit(self.board(side, kind), t) == (cells[t as int] == Some(
                (kind, side),
            ))
    }

    /// The flags after loading: the side to move, the castling rights when
    /// the castling field is present (a right for each of `K Q k q` found in
    /// it), and the en-passant target: the square of the en-passant field
    /// when that field is a coordinate, none otherwise or when it is absent.
    pub open spec fn loaded_flags(
        &self,
        before: &ChessGame,
        white: bool,
        castling: Option<Seq<char>>,
        en_passant: Option<Seq<char>>,
    ) -> bool {
        &&& self.white_to_move == white
        &&& match castling {
            None => {
                &&& self.can_white_castle_short == before.can_white_castle_short
                &&& self.can_white_castle_long == before.can_white_castle_long
                &&& self.can_black_castle_short == before.can_black_castle_short
                &&& self.can_black_castle_long == before.can_black_castle_long
            },
            Some(f) => {
                &&& self.can_white_castle_short == f.contains('K')
                &&& self.can_white_castle_long == f.contains('Q')
                &&& self.can_black_castle_short == f.contains('k')
                &&& self.can_black_castle_long == f.contains('q')
            },
        }
        &&& match (castling, en_passant) {
            (Some(_), Some(f)) => self.en_passant_target == en_passant_of(f),
            _ => self.en_passant_target is None,
        }
    }

    /// Puts the pieces of `cells` on an empty board.
    fn place_cells(&mut self, cells: &Vec<Cell>)
        requires
            old(self).wf(),
            old(self).is_empty(),
            cells@.len() == 64,
        ensures
            final(self).wf(),
            final(self).shows(cells@),
            final(self).same_flags(old(self)),
            final(self).bitboard_constants == old(self).bitboard_constants,
    {
        let mut square: usize = 0;
        proof {
            assert forall|side: Color, kind: PieceType, t: u64|
                t < 64 implies #[trigger] bit(self.board(side, kind), t) == (t < 0 && cells@[t as int]
                == Some((kind, side))) by {
                assert(self.board(side, kind) == 0);
                lemma_single_bit(0, t);
            }
        }
        while square < 64
            invariant
                square <= 64,
                cells@.len() == 64,
                self.wf(),
                self.same_flags(old(self)),
                self.bitboard_constants == old(self).bitboard_constants,
                forall|side: Color, kind: PieceType, t: u64|
                    t < 64 ==> #[trigger] bit(self.board(side, kind), t) == (t < square
                        && cells@[t as int] == Some((kind, side))),
            decreases 64 - square,
        {
            let ghost before = *self;
            match cells[square] {
                Some((kind, side)) => {
                    self.place_piece_on_board(side, kind, square as u64);
                },
                None => {},
            }
            proof {
                assert forall|s: Color, k: PieceType, t: u64|
                    t < 64 implies #[trigger] bit(self.board(s, k), t) == (t < square + 1
                        && cells@[t as int] == Some((k, s))) by {
                    lemma_bit_ops(before.board(s, k), single(square as u64), t);
                    lemma_single_bit(square as u64, t);
                    assert(bit(before.board(s, k), t) == (t < square && cells@[t as int] == Some(
                        (k, s),
                    )));
                }
            }
            square = square + 1;
        }
    }

    /// Loads FEN text whose ends carry no whitespace. The board is cleared
    /// first; on an error it stays empty and the flags keep their values.
    pub fn load_fen_text(&mut self, text: &str) -> (r: Result<(), FenError>)
        requires
            old(self).wf(),
        ensures
            final(self).wf(),
            final(self).bitboard_constants == old(self).bitboard_constants,
            match parse_fen(text@) {
                Err(e) => {
                    &&& r == Err::<(), FenError>(e)
                    &&& final(self).is_empty()
                    &&& final(self).same_flags(old(self))
                },
                Ok((cells, white, castling, en_passant)) => {
                    &&& r is Ok
                    &&& final(self).shows(cells)
                    &&& final(self).loaded_flags(old(self), white, castling, en_passant)
                },
            },
    {
        self.clear_board();
        let chars = chars_of(text);
        let fields = split_chars(&chars, ' ');
        let ghost fs = views(fields@);
        proof {
            assert(fs[0] == fields@[0]@);
        }
        let cells = match parse_placement_chars(&fields[0]) {
            Ok(c) => c,
            Err(e) => {
                return Err(e);
            },
        };
        if fields.len() < 2 {
            return Err(FenError::MissingSideToMove);
        }
        let side = &fields[1];
        proof {
            assert(fs[1] == side@);
            assert(side@.len() == 1 ==> (side@ == seq![side@[0]]));
        }
        let white = if side.len() == 1 && (side[0] == 'w' || side[0] == 'W') {
            true
        } else if side.len() == 1 && (side[0] == 'b' || side[0] == 'B') {
            false
        } else {
            proof {
                assert(side@ != seq!['w'] && side@ != seq!['W'] && side@ != seq!['b'] && side@
                    != seq!['B']) by {
                    if side@.len() == 1 {
                        assert(seq!['w'][0] == 'w');
                        assert(seq!['W'][0] == 'W');
                        assert(seq!['b'][0] == 'b');
                        assert(seq!['B'][0] == 'B');
                    }
                }
            }
            return Err(FenError::InvalidSideToMove);
        };
        self.place_cells(&cells);
        self.white_to_move = white;
        self.en_passant_target = None;
        if fields.len() < 3 {
            return Ok(());
        }
        let castling = &fields[2];
        proof {
            assert(fs[2] == castling@);
        }
        self.can_white_castle_long = false;
        self.can_white_castle_short = false;
        self.can_black_castle_long = false;
        self.can_black_castle_short = false;
        let mut i: usize = 0;
        proof {
            assert(castling@.take(0) =~= Seq::<char>::empty());
        }
        while i < castling.len()
            invariant
                i <= castling@.len(),
                self.wf(),
                self.shows(cells@),
                self.white_to_move == white,
                self.en_passant_target is None,
                self.bitboard_constants == old(self).bitboard_constants,
                self.can_white_castle_short == castling@.take(i as int).contains('K'),
                self.can_white_castle_long == castling@.take(i as int).contains('Q'),
                self.can_black_castle_short == castling@.take(i as int).contains('k'),
                self.can_black_castle_long == castling@.take(i as int).contains('q'),
            decreases castling@.len() - i,
        {
            let c = castling[i];
            proof {
                assert(castling@.take(i + 1) =~= castling@.take(i as int).push(c));
                lemma_contains_push(castling@.take(i as int), c, 'K');
                lemma_contains_push(castling@.take(i as int), c, 'Q');
                lemma_contains_push(castling@.take(i as int), c, 'k');
                lemma_contains_push(castling@.take(i as int), c, 'q');
            }
            if c == 'K' {
                self.can_white_castle_short = true;
            } else if c == 'Q' {
                self.can_white_castle_long = true;
            } else if c == 'k' {
                self.can_black_castle_short = true;
            } else if c == 'q' {
                self.can_black_castle_long = true;
            }
            i = i + 1;
        }
        proof {
            assert(castling@.take(castling@.len() as int) =~= castling@);
        }
        if fields.len() < 4 {
            return Ok(());
        }
        proof {
            assert(fs[3] == fields@[3]@);
        }
        self.en_passant_target = match coord_from_chars(&fields[3]) {
            Ok(sq) => Some(sq),
            Err(_) => None,
        };
        Ok(())
    }
}

/// `s` without its leading and trailing whitespace.
pub uninterp spec fn trimmed(s: Seq<char>) -> Seq<char>;

/// Relies on `str::trim`: the whitespace-stripped text, a function of the
/// characters of `s` alone.
#[verifier::external_body]
fn trim_text(s: &str) -> (r: &str)
    ensures
        r@ == trimmed(s@),
{
    s.trim()
}

impl<'a> ChessGame<'a> {
    /// Loads a position from FEN text, ignoring whitespace around it (see
    /// `load_fen_text`). The board is cleared first; on an error it stays
    /// empty and the flags keep their values.
    pub fn import_fen(&mut self, fen: &str) -> (r: Result<(), FenError>)
        requires
            old(self).wf(),
        ensures
            final(self).wf(),
            final(self).bitboard_constants == old(self).bitboard_constants,
            match parse_fen(trimmed(fen@)) {
                Err(e) => {
                    &&& r == Err::<(), FenError>(e)
                    &&& final(self).is_empty()
                    &&& final(self).same_flags(old(self))
                },
                Ok((cells, white, castling, en_passant)) => {
                    &&& r is Ok
                    &&& final(self).shows(cells)
                    &&& final(self).loaded_flags(old(self), white, castling, en_passant)
                },
            },
    {
        let text = trim_text(fen);
        self.load_fen_text(text)
    }
}

} // verus!
