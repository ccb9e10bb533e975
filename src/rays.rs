//! Sliding-piece geometry: the squares a bishop or rook reaches from a square
//! given a set of blockers, and the relevance masks of those blockers.
use vstd::prelude::*;
use crate::bits::{popcount, lemma_popcount_or, lemma_popcount_single, lemma_popcount_nonzero, bit, single, lemma_bit_ops, lemma_single_bit, lemma_or_facts, lemma_and_single};

verus! {

/// Whether rank `r` and file `f` lie on the board.
pub open spec fn on_board(r: int, f: int) -> bool {
    0 <= r < 8 && 0 <= f < 8
}

/// The square index of rank `r`, file `f`.
pub open spec fn square_at(r: int, f: int) -> u64 {
    (r * 8 + f) as u64
}

/// How many steps of `(dr, df)` are left before leaving the board from `(r, f)`.
pub open spec fn steps_left(r: int, f: int, dr: int, df: int) -> int {
    (if dr > 0 { 8 - r } else if dr < 0 { r + 1 } else { 0 }) + (if df > 0 {
        8 - f
    } else if df < 0 {
        f + 1
    } else {
        0
    })
}

/// A unit step in one of the eight directions.
pub open spec fn is_step(dr: int, df: int) -> bool {
    -1 <= dr <= 1 && -1 <= df <= 1 && !(dr == 0 && df == 0)
}

/// The squares reached by walking from `(r, f)` in steps of `(dr, df)`:
/// every square up to the board edge, stopping after (and including) the
/// first square that is set in `block`.
pub open spec fn ray(r: int, f: int, dr: int, df: int, block: u64) -> u64
    decreases steps_left(r, f, dr, df),
{
    let nr = r + dr;
    let nf = f + df;
    if !is_step(dr, df) || !on_board(nr, nf) || !on_board(r, f) {
        0
    } else if bit(block, square_at(nr, nf)) {
        single(square_at(nr, nf))
    } else {
        single(square_at(nr, nf)) | ray(nr, nf, dr, df, block)
    }
}

/// The squares walking from `(r, f)` in steps of `(dr, df)` that have a
/// further square beyond them on the board: the ray without its edge square.
pub open spec fn inner_ray(r: int, f: int, dr: int, df: int) -> u64
    decreases steps_left(r, f, dr, df),
{
    let nr = r + dr;
    let nf = f + df;
    if !is_step(dr, df) || !on_board(nr + dr, nf + df) || !on_board(r, f) {
        0
    } else {
        single(square_at(nr, nf)) | inner_ray(nr, nf, dr, df)
    }
}

/// Squares a bishop on `sq` attacks when the squares of `block` are occupied.
pub open spec fn bishop_rays(sq: u64, block: u64) -> u64 {
    let r = sq / 8;
    let f = sq % 8;
    ray(r as int, f as int, 1, 1, block) | ray(r as int, f as int, 1, -1, block) | ray(
        r as int,
        f as int,
        -1,
        1,
        block,
    ) | ray(r as int, f as int, -1, -1, block)
}

/// Squares a rook on `sq` attacks when the squares of `block` are occupied.
pub open spec fn rook_rays(sq: u64, block: u64) -> u64 {
    let r = sq / 8;
    let f = sq % 8;
    ray(r as int, f as int, 0, 1, block) | ray(r as int, f as int, 0, -1, block) | ray(
        r as int,
        f as int,
        -1,
        0,
        block,
    ) | ray(r as int, f as int, 1, 0, block)
}

/// The squares whose occupancy can change what a bishop on `sq` attacks.
pub open spec fn bishop_mask(sq: u64) -> u64 {
    let r = sq / 8;
    let f = sq % 8;
    inner_ray(r as int, f as int, 1, 1) | inner_ray(r as int, f as int, 1, -1) | inner_ray(
        r as int,
        f as int,
        -1,
        1,
    ) | inner_ray(r as int, f as int, -1, -1)
}

/// The squares whose occupancy can change what a rook on `sq` attacks.
pub open spec fn rook_mask(sq: u64) -> u64 {
    let r = sq / 8;
    let f = sq % 8;
    inner_ray(r as int, f as int, 0, 1) | inner_ray(r as int, f as int, 0, -1) | inner_ray(
        r as int,
        f as int,
        -1,
        0,
    ) | inner_ray(r as int, f as int, 1, 0)
}

/// The board with square `(r, f)` alone.
fn square_board(r: i64, f: i64) -> (b: u64)
    requires
        on_board(r as int, f as int),
    ensures
        b == single(square_at(r as int, f as int)),
{
    1u64 << ((r * 8 + f) as u64)
}

/// Walks from `(r, f)` in steps of `(dr, df)` up to the edge or the first blocker.
fn walk_ray(r: i64, f: i64, dr: i64, df: i64, block: u64) -> (out: u64)
    requires
        on_board(r as int, f as int),
        is_step(dr as int, df as int),
    ensures
        out == ray(r as int, f as int, dr as int, df as int, block),
{
    let mut acc: u64 = 0;
    let mut cr: i64 = r;
    let mut cf: i64 = f;
    proof {
        let whole = ray(r as int, f as int, dr as int, df as int, block);
        lemma_or_facts(whole, whole, whole);
    }
    while on_board_exec(cr + dr, cf + df)
        invariant
            on_board(cr as int, cf as int),
            is_step(dr as int, df as int),
            acc | ray(cr as int, cf as int, dr as int, df as int, block) == ray(
                r as int,
                f as int,
                dr as int,
                df as int,
                block,
            ),
        decreases steps_left(cr as int, cf as int, dr as int, df as int),
    {
        let nr = cr + dr;
        let nf = cf + df;
        let focus = square_board(nr, nf);
        let ghost rest = ray(nr as int, nf as int, dr as int, df as int, block);
        let ghost old_acc = acc;
        acc = acc | focus;
        if focus & block != 0 {
            proof {
                lemma_blocked(focus, block, nr as u64, nf as u64);
                lemma_or_facts(focus, focus, focus);
            }
            return acc;
        }
        proof {
            lemma_not_blocked(focus, block, nr as u64, nf as u64);
            lemma_or_facts(old_acc, focus, rest);
        }
        cr = nr;
        cf = nf;
    }
    proof {
        lemma_or_facts(acc, acc, acc);
    }
    acc
}

fn on_board_exec(r: i64, f: i64) -> (b: bool)
    requires
        -2 <= r <= 9,
        -2 <= f <= 9,
    ensures
        b == on_board(r as int, f as int),
{
    0 <= r && r < 8 && 0 <= f && f < 8
}

proof fn lemma_blocked(focus: u64, block: u64, nr: u64, nf: u64)
    requires
        nr < 8,
        nf < 8,
        focus == single(square_at(nr as int, nf as int)),
        focus & block != 0,
    ensures
        bit(block, square_at(nr as int, nf as int)),
{
    let s = square_at(nr as int, nf as int);
    lemma_and_single(block, s);
    assert((1u64 << s) & block == block & (1u64 << s)) by (bit_vector);
}

proof fn lemma_not_blocked(focus: u64, block: u64, nr: u64, nf: u64)
    requires
        nr < 8,
        nf < 8,
        focus == single(square_at(nr as int, nf as int)),
        focus & block == 0,
    ensures
        !bit(block, square_at(nr as int, nf as int)),
{
    let s = square_at(nr as int, nf as int);
    lemma_and_single(block, s);
    assert((1u64 << s) & block == block & (1u64 << s)) by (bit_vector);
}

/// Walks from `(r, f)` in steps of `(dr, df)`, keeping each square that has
/// another square beyond it on the board.
fn walk_inner_ray(r: i64, f: i64, dr: i64, df: i64) -> (out: u64)
    requires
        on_board(r as int, f as int),
        is_step(dr as int, df as int),
    ensures
        out == inner_ray(r as int, f as int, dr as int, df as int),
{
    let mut acc: u64 = 0;
    let mut cr: i64 = r;
    let mut cf: i64 = f;
    proof {
        let whole = inner_ray(r as int, f as int, dr as int, df as int);
        lemma_or_facts(whole, whole, whole);
    }
    while on_board_exec(cr + dr + dr, cf + df + df)
        invariant
            on_board(cr as int, cf as int),
            is_step(dr as int, df as int),
            acc | inner_ray(cr as int, cf as int, dr as int, df as int) == inner_ray(
                r as int,
                f as int,
                dr as int,
                df as int,
            ),
        decreases steps_left(cr as int, cf as int, dr as int, df as int),
    {
        let nr = cr + dr;
        let nf = cf + df;
        let focus = square_board(nr, nf);
        let ghost rest = inner_ray(nr as int, nf as int, dr as int, df as int);
        let ghost old_acc = acc;
        acc = acc | focus;
        proof {
            lemma_or_facts(old_acc, focus, rest);
        }
        cr = nr;
        cf = nf;
    }
    proof {
        lemma_or_facts(acc, acc, acc);
    }
    acc
}

/// The relevance mask of a bishop on `square`: its diagonals without the
/// edge squares.
pub fn mask_bishop_attacks(square: u64) -> (r: u64)
    requires
        square < 64,
    ensures
        r == bishop_mask(square),
{
    let rank = (square / 8) as i64;
    let file = (square % 8) as i64;
    walk_inner_ray(rank, file, 1, 1) | walk_inner_ray(rank, file, 1, -1) | walk_inner_ray(
        rank,
        file,
        -1,
        1,
    ) | walk_inner_ray(rank, file, -1, -1)
}

/// The relevance mask of a rook on `square`: its rank and file without the
/// edge squares.
pub fn mask_rook_attacks(square: u64) -> (r: u64)
    requires
        square < 64,
    ensures
        r == rook_mask(square),
{
    let rank = (square / 8) as i64;
    let file = (square % 8) as i64;
    walk_inner_ray(rank, file, 0, 1) | walk_inner_ray(rank, file, 0, -1) | walk_inner_ray(
        rank,
        file,
        -1,
        0,
    ) | walk_inner_ray(rank, file, 1, 0)
}

/// What a bishop on `square` attacks when the squares of `block` are occupied.
pub fn dynamic_bishop_attacks(square: u64, block: u64) -> (r: u64)
    requires
        square < 64,
    ensures
        r == bishop_rays(square, block),
{
    let rank = (square / 8) as i64;
    let file = (square % 8) as i64;
    walk_ray(rank, file, 1, 1, block) | walk_ray(rank, file, 1, -1, block) | walk_ray(
        rank,
        file,
        -1,
        1,
        block,
    ) | walk_ray(rank, file, -1, -1, block)
}

/// What a rook on `square` attacks when the squares of `block` are occupied.
pub fn dynamic_rook_attacks(square: u64, block: u64) -> (r: u64)
    requires
        square < 64,
    ensures
        r == rook_rays(square, block),
{
    let rank = (square / 8) as i64;
    let file = (square % 8) as i64;
    walk_ray(rank, file, 0, 1, block) | walk_ray(rank, file, 0, -1, block) | walk_ray(
        rank,
        file,
        -1,
        0,
        block,
    ) | walk_ray(rank, file, 1, 0, block)
}

/// Only the blockers on the inner part of a ray matter: keeping any superset
/// of those squares leaves the ray unchanged.
pub proof fn lemma_ray_relevance(r: int, f: int, dr: int, df: int, block: u64, mask: u64)
    requires
        forall|t: u64| t < 64 && #[trigger] bit(inner_ray(r, f, dr, df), t) ==> bit(mask, t),
    ensures
        ray(r, f, dr, df, block & mask) == ray(r, f, dr, df, block),
    decreases steps_left(r, f, dr, df),
{
    let nr = r + dr;
    let nf = f + df;
    if !is_step(dr, df) || !on_board(nr, nf) || !on_board(r, f) {
    } else {
        let n = square_at(nr, nf);
        if on_board(nr + dr, nf + df) {
            let rest = inner_ray(nr, nf, dr, df);
            assert(inner_ray(r, f, dr, df) == single(n) | rest);
            assert forall|t: u64| t < 64 && #[trigger] bit(rest, t) implies bit(mask, t) by {
                lemma_bit_ops(single(n), rest, t);
            }
            lemma_bit_ops(single(n), rest, n);
            lemma_single_bit(n, n);
            lemma_bit_ops(block, mask, n);
            lemma_ray_relevance(nr, nf, dr, df, block, mask);
        } else {
            assert(ray(nr, nf, dr, df, block) == 0);
            assert(ray(nr, nf, dr, df, block & mask) == 0);
            let sn = single(n);
            lemma_or_facts(sn, sn, sn);
        }
    }
}

/// Each inner ray of a piece lies within the union of its four inner rays.
proof fn lemma_union_covers(a: u64, b: u64, c: u64, d: u64)
    ensures
        forall|t: u64| t < 64 && #[trigger] bit(a, t) ==> bit(a | b | c | d, t),
        forall|t: u64| t < 64 && #[trigger] bit(b, t) ==> bit(a | b | c | d, t),
        forall|t: u64| t < 64 && #[trigger] bit(c, t) ==> bit(a | b | c | d, t),
        forall|t: u64| t < 64 && #[trigger] bit(d, t) ==> bit(a | b | c | d, t),
{
    assert forall|t: u64| t < 64 && (bit(a, t) || bit(b, t) || bit(c, t) || bit(d, t)) implies bit(
        a | b | c | d,
        t,
    ) by {
        lemma_bit_ops(a, b, t);
        lemma_bit_ops(a | b, c, t);
        lemma_bit_ops(a | b | c, d, t);
    }
}

/// A bishop's attacks depend on the blockers within its relevance mask only.
pub proof fn lemma_bishop_relevance(sq: u64, block: u64)
    ensures
        bishop_rays(sq, block & bishop_mask(sq)) == bishop_rays(sq, block),
{
    let r = (sq / 8) as int;
    let f = (sq % 8) as int;
    let m = bishop_mask(sq);
    lemma_union_covers(
        inner_ray(r, f, 1, 1),
        inner_ray(r, f, 1, -1),
        inner_ray(r, f, -1, 1),
        inner_ray(r, f, -1, -1),
    );
    lemma_ray_relevance(r, f, 1, 1, block, m);
    lemma_ray_relevance(r, f, 1, -1, block, m);
    lemma_ray_relevance(r, f, -1, 1, block, m);
    lemma_ray_relevance(r, f, -1, -1, block, m);
}

/// A rook's attacks depend on the blockers within its relevance mask only.
pub proof fn lemma_rook_relevance(sq: u64, block: u64)
    ensures
        rook_rays(sq, block & rook_mask(sq)) == rook_rays(sq, block),
{
    let r = (sq / 8) as int;
    let f = (sq % 8) as int;
    let m = rook_mask(sq);
    lemma_union_covers(
        inner_ray(r, f, 0, 1),
        inner_ray(r, f, 0, -1),
        inner_ray(r, f, -1, 0),
        inner_ray(r, f, 1, 0),
    );
    lemma_ray_relevance(r, f, 0, 1, block, m);
    lemma_ray_relevance(r, f, 0, -1, block, m);
    lemma_ray_relevance(r, f, -1, 0, block, m);
    lemma_ray_relevance(r, f, 1, 0, block, m);
}

/// Absolute difference.
pub open spec fn abs_diff(a: int, b: int) -> int {
    if a > b {
        a - b
    } else {
        b - a
    }
}

/// Square `x` lies strictly beyond `(r, f)` on the line of steps `(dr, df)`.
pub open spec fn on_line(r: int, f: int, dr: int, df: int, x: u64) -> bool {
    let xr = (x / 8) as int;
    let xf = (x % 8) as int;
    &&& x < 64
    &&& if dr == 0 {
        xr == r
    } else if dr > 0 {
        xr > r
    } else {
        xr < r
    }
    &&& if df == 0 {
        xf == f
    } else if df > 0 {
        xf > f
    } else {
        xf < f
    }
    &&& (dr != 0 && df != 0 ==> abs_diff(xr, r) == abs_diff(xf, f))
}

/// How many king steps separate `(r, f)` from square `x`.
pub open spec fn distance(r: int, f: int, x: u64) -> int {
    let dr = abs_diff((x / 8) as int, r);
    let df = abs_diff((x % 8) as int, f);
    if dr > df {
        dr
    } else {
        df
    }
}

/// One step along a line: what lies beyond `(r, f)` is the next square and
/// what lies beyond it, one step farther.
proof fn lemma_line_step(r: int, f: int, dr: int, df: int, x: u64)
    requires
        on_board(r, f),
        is_step(dr, df),
        x < 64,
    ensures
        !on_board(r + dr, f + df) ==> !on_line(r, f, dr, df, x),
        on_board(r + dr, f + df) ==> (on_line(r, f, dr, df, x) <==> (x == square_at(
            r + dr,
            f + df,
        ) || on_line(r + dr, f + df, dr, df, x))),
        on_board(r + dr, f + df) && on_line(r + dr, f + df, dr, df, x) ==> distance(r, f, x)
            == distance(r + dr, f + df, x) + 1,
        on_board(r + dr, f + df) && x == square_at(r + dr, f + df) ==> distance(r, f, x) == 1,
{
    let xr = (x / 8) as int;
    let xf = (x % 8) as int;
    let nr = r + dr;
    let nf = f + df;
    assert(x == 8 * xr + xf && 0 <= xf < 8 && 0 <= xr < 8);
    if on_board(nr, nf) {
        assert((x == square_at(nr, nf)) == (xr == nr && xf == nf));
    }
}

/// With at most one blocker `b` on the board, the walk from `(r, f)` in
/// steps of `(dr, df)` reaches exactly the squares of that line up to the
/// blocker, the blocker included.
pub proof fn lemma_ray_one_blocker(
    r: int,
    f: int,
    dr: int,
    df: int,
    has_blocker: bool,
    b: u64,
    x: u64,
)
    requires
        on_board(r, f),
        is_step(dr, df),
        b < 64,
        x < 64,
    ensures
        bit(ray(r, f, dr, df, if has_blocker { single(b) } else { 0 }), x) <==> (on_line(
            r,
            f,
            dr,
            df,
            x,
        ) && (has_blocker && on_line(r, f, dr, df, b) ==> distance(r, f, x) <= distance(
            r,
            f,
            b,
        ))),
    decreases steps_left(r, f, dr, df),
{
    let block = if has_blocker {
        single(b)
    } else {
        0
    };
    let nr = r + dr;
    let nf = f + df;
    if !on_board(nr, nf) {
        lemma_single_bit(0, x);
        lemma_line_step(r, f, dr, df, x);
    } else {
        lemma_line_step(r, f, dr, df, x);
        lemma_line_step(r, f, dr, df, b);
        let n = square_at(nr, nf);
        lemma_single_bit(b, n);
        lemma_single_bit(0, n);
        lemma_single_bit(n, x);
        assert(bit(block, n) == (has_blocker && n == b));
        if bit(block, n) {
        } else {
            let rest = ray(nr, nf, dr, df, block);
            lemma_bit_ops(single(n), rest, x);
            lemma_ray_one_blocker(nr, nf, dr, df, has_blocker, b, x);
        }
    }
}

/// A square is in the union of four boards exactly when it is in one of them.
proof fn lemma_bit_union4(a: u64, b: u64, c: u64, d: u64, x: u64)
    requires
        x < 64,
    ensures
        bit(a | b | c | d, x) == (bit(a, x) || bit(b, x) || bit(c, x) || bit(d, x)),
{
    lemma_bit_ops(a, b, x);
    lemma_bit_ops(a | b, c, x);
    lemma_bit_ops(a | b | c, d, x);
}

/// A blocker cuts a rook's line. Let `x` and `b` lie on one rank or file
/// beyond `sq`, on the same side of it. On an empty board the rook on `sq`
/// attacks `x`; with `b` the only occupied square it attacks `x` exactly
/// when `x` is no farther from `sq` than `b`.
pub proof fn lemma_rook_blocker(sq: u64, b: u64, x: u64, dr: int, df: int)
    requires
        sq < 64,
        is_step(dr, df),
        dr == 0 || df == 0,
        on_line((sq / 8) as int, (sq % 8) as int, dr, df, b),
        on_line((sq / 8) as int, (sq % 8) as int, dr, df, x),
    ensures
        bit(rook_rays(sq, 0), x),
        bit(rook_rays(sq, single(b)), x) <==> distance((sq / 8) as int, (sq % 8) as int, x)
            <= distance((sq / 8) as int, (sq % 8) as int, b),
{
    let r = (sq / 8) as int;
    let f = (sq % 8) as int;
    let one = single(b);
    lemma_bit_union4(ray(r, f, 0, 1, one), ray(r, f, 0, -1, one), ray(r, f, -1, 0, one), ray(r, f, 1, 0, one), x);
    lemma_bit_union4(ray(r, f, 0, 1, 0), ray(r, f, 0, -1, 0), ray(r, f, -1, 0, 0), ray(r, f, 1, 0, 0), x);
    lemma_ray_one_blocker(r, f, 0, 1, true, b, x);
    lemma_ray_one_blocker(r, f, 0, -1, true, b, x);
    lemma_ray_one_blocker(r, f, -1, 0, true, b, x);
    lemma_ray_one_blocker(r, f, 1, 0, true, b, x);
    lemma_ray_one_blocker(r, f, 0, 1, false, b, x);
    lemma_ray_one_blocker(r, f, 0, -1, false, b, x);
    lemma_ray_one_blocker(r, f, -1, 0, false, b, x);
    lemma_ray_one_blocker(r, f, 1, 0, false, b, x);
}

/// A blocker cuts a bishop's diagonal. Let `x` and `b` lie on one diagonal
/// beyond `sq`, on the same side of it. On an empty board the bishop on
/// `sq` attacks `x`; with `b` the only occupied square it attacks `x`
/// exactly when `x` is no farther from `sq` than `b`.
pub proof fn lemma_bishop_blocker(sq: u64, b: u64, x: u64, dr: int, df: int)
    requires
        sq < 64,
        is_step(dr, df),
        dr != 0 && df != 0,
        on_line((sq / 8) as int, (sq % 8) as int, dr, df, b),
        on_line((sq / 8) as int, (sq % 8) as int, dr, df, x),
    ensures
        bit(bishop_rays(sq, 0), x),
        bit(bishop_rays(sq, single(b)), x) <==> distance((sq / 8) as int, (sq % 8) as int, x)
            <= distance((sq / 8) as int, (sq % 8) as int, b),
{
    let r = (sq / 8) as int;
    let f = (sq % 8) as int;
    let one = single(b);
    lemma_bit_union4(ray(r, f, 1, 1, one), ray(r, f, 1, -1, one), ray(r, f, -1, 1, one), ray(r, f, -1, -1, one), x);
    lemma_bit_union4(ray(r, f, 1, 1, 0), ray(r, f, 1, -1, 0), ray(r, f, -1, 1, 0), ray(r, f, -1, -1, 0), x);
    lemma_ray_one_blocker(r, f, 1, 1, true, b, x);
    lemma_ray_one_blocker(r, f, 1, -1, true, b, x);
    lemma_ray_one_blocker(r, f, -1, 1, true, b, x);
    lemma_ray_one_blocker(r, f, -1, -1, true, b, x);
    lemma_ray_one_blocker(r, f, 1, 1, false, b, x);
    lemma_ray_one_blocker(r, f, 1, -1, false, b, x);
    lemma_ray_one_blocker(r, f, -1, 1, false, b, x);
    lemma_ray_one_blocker(r, f, -1, -1, false, b, x);
}

/// With a single occupied square `q`, a rook on `t` attacks `q` exactly
/// when they share a rank or a file.
pub proof fn lemma_rook_sees_lone_piece(t: u64, q: u64)
    requires
        t < 64,
        q < 64,
        t != q,
    ensures
        bit(rook_rays(t, single(q)), q) <==> (t / 8 == q / 8 || t % 8 == q % 8),
{
    let r = (t / 8) as int;
    let f = (t % 8) as int;
    let one = single(q);
    lemma_bit_union4(ray(r, f, 0, 1, one), ray(r, f, 0, -1, one), ray(r, f, -1, 0, one), ray(r, f, 1, 0, one), q);
    lemma_ray_one_blocker(r, f, 0, 1, true, q, q);
    lemma_ray_one_blocker(r, f, 0, -1, true, q, q);
    lemma_ray_one_blocker(r, f, -1, 0, true, q, q);
    lemma_ray_one_blocker(r, f, 1, 0, true, q, q);
    assert(t == 8 * (t / 8) + t % 8);
    assert(q == 8 * (q / 8) + q % 8);
}

/// No square of `block` lies on the line from `(r, f)` in steps of
/// `(dr, df)` nearer than `d` steps.
pub open spec fn clear_before(r: int, f: int, dr: int, df: int, block: u64, d: int) -> bool {
    forall|y: u64|
        #[trigger] on_line(r, f, dr, df, y) && distance(r, f, y) < d ==> !bit(block, y)
}

/// The walk from `(r, f)` in steps of `(dr, df)` reaches exactly the squares
/// of that line with no blocker strictly nearer.
pub proof fn lemma_ray_reach(r: int, f: int, dr: int, df: int, block: u64, x: u64)
    requires
        on_board(r, f),
        is_step(dr, df),
        x < 64,
    ensures
        bit(ray(r, f, dr, df, block), x) <==> (on_line(r, f, dr, df, x) && clear_before(
            r,
            f,
            dr,
            df,
            block,
            distance(r, f, x),
        )),
    decreases steps_left(r, f, dr, df),
{
    let nr = r + dr;
    let nf = f + df;
    lemma_line_step(r, f, dr, df, x);
    if !on_board(nr, nf) {
        lemma_single_bit(0, x);
    } else {
        let n = square_at(nr, nf);
        lemma_single_bit(n, x);
        lemma_line_step(r, f, dr, df, n);
        assert(on_line(r, f, dr, df, n) && distance(r, f, n) == 1);
        lemma_bit_ops(single(n), ray(nr, nf, dr, df, block), x);
        if x == n {
            assert forall|y: u64|
                #[trigger] on_line(r, f, dr, df, y) && distance(r, f, y) < distance(r, f, x)
                    implies !bit(block, y) by {
                lemma_line_step(r, f, dr, df, y);
                if y != n {
                    lemma_line_step(nr, nf, dr, df, y);
                }
            }
        } else if bit(block, n) {
            if on_line(r, f, dr, df, x) {
                assert(on_line(nr, nf, dr, df, x));
                lemma_line_distance_positive(nr, nf, dr, df, x);
                assert(distance(r, f, n) < distance(r, f, x));
                assert(!clear_before(r, f, dr, df, block, distance(r, f, x)));
            }
        } else {
            let rest = ray(nr, nf, dr, df, block);
            lemma_bit_ops(single(n), rest, x);
            lemma_ray_reach(nr, nf, dr, df, block, x);
            if on_line(nr, nf, dr, df, x) {
                let dx = distance(r, f, x);
                if clear_before(nr, nf, dr, df, block, distance(nr, nf, x)) {
                    assert forall|y: u64|
                        #[trigger] on_line(r, f, dr, df, y) && distance(r, f, y) < dx implies !bit(
                        block,
                        y,
                    ) by {
                        lemma_line_step(r, f, dr, df, y);
                        if y != n {
                            assert(on_line(nr, nf, dr, df, y));
                            assert(distance(nr, nf, y) < distance(nr, nf, x));
                        }
                    }
                }
                if clear_before(r, f, dr, df, block, dx) {
                    assert forall|y: u64|
                        #[trigger] on_line(nr, nf, dr, df, y) && distance(nr, nf, y) < distance(
                            nr,
                            nf,
                            x,
                        ) implies !bit(block, y) by {
                        lemma_line_step(r, f, dr, df, y);
                        assert(on_line(r, f, dr, df, y));
                    }
                }
            }
        }
    }
}

/// A square beyond `(r, f)` on a line is at least one step away.
proof fn lemma_line_distance_positive(r: int, f: int, dr: int, df: int, x: u64)
    requires
        on_line(r, f, dr, df, x),
        is_step(dr, df),
    ensures
        distance(r, f, x) >= 1,
{
}

/// Seen from `t`, a square `a` from which `t` lies on the line of steps
/// `(dr, df)` lies on the line of the opposite steps, as far away; the
/// squares between them are the same seen from either end.
proof fn lemma_reverse_line(a: u64, t: u64, dr: int, df: int, y: u64)
    requires
        a < 64,
        is_step(dr, df),
        on_line((a / 8) as int, (a % 8) as int, dr, df, t),
        y < 64,
    ensures
        on_line((t / 8) as int, (t % 8) as int, -dr, -df, a),
        distance((t / 8) as int, (t % 8) as int, a) == distance((a / 8) as int, (a % 8) as int, t),
        (on_line((t / 8) as int, (t % 8) as int, -dr, -df, y) && distance(
            (t / 8) as int,
            (t % 8) as int,
            y,
        ) < distance((t / 8) as int, (t % 8) as int, a)) <==> (on_line(
            (a / 8) as int,
            (a % 8) as int,
            dr,
            df,
            y,
        ) && distance((a / 8) as int, (a % 8) as int, y) < distance(
            (a / 8) as int,
            (a % 8) as int,
            t,
        )),
{
}

/// The walks from `t` in the other directions of a piece do not meet `a`,
/// which lies on the line of steps `(dr, df)` from `t`.
proof fn lemma_other_directions(t: u64, a: u64, dr: int, df: int, er: int, ef: int, block: u64)
    requires
        t < 64,
        a < 64,
        is_step(dr, df),
        is_step(er, ef),
        !(dr == er && df == ef),
        on_line((t / 8) as int, (t % 8) as int, dr, df, a),
    ensures
        !bit(ray((t / 8) as int, (t % 8) as int, er, ef, block), a),
{
    lemma_ray_reach((t / 8) as int, (t % 8) as int, er, ef, block, a);
}

/// A rook on `t` sees `a`, from which `t` lies along a rank or file in
/// steps of `(dr, df)`, exactly when no square of `block` lies strictly
/// between them.
pub proof fn lemma_rook_line_of_sight(a: u64, t: u64, dr: int, df: int, block: u64)
    requires
        a < 64,
        is_step(dr, df),
        dr == 0 || df == 0,
        on_line((a / 8) as int, (a % 8) as int, dr, df, t),
    ensures
        bit(rook_rays(t, block), a) <==> clear_before(
            (t / 8) as int,
            (t % 8) as int,
            -dr,
            -df,
            block,
            distance((t / 8) as int, (t % 8) as int, a),
        ),
{
    let r = (t / 8) as int;
    let f = (t % 8) as int;
    lemma_reverse_line(a, t, dr, df, a);
    lemma_bit_union4(ray(r, f, 0, 1, block), ray(r, f, 0, -1, block), ray(r, f, -1, 0, block), ray(r, f, 1, 0, block), a);
    lemma_ray_reach(r, f, -dr, -df, block, a);
    if !(dr == 0 && df == -1) { lemma_other_directions(t, a, -dr, -df, 0, 1, block); }
    if !(dr == 0 && df == 1) { lemma_other_directions(t, a, -dr, -df, 0, -1, block); }
    if !(dr == 1 && df == 0) { lemma_other_directions(t, a, -dr, -df, -1, 0, block); }
    if !(dr == -1 && df == 0) { lemma_other_directions(t, a, -dr, -df, 1, 0, block); }
}

/// A bishop on `t` sees `a`, from which `t` lies along a diagonal in steps
/// of `(dr, df)`, exactly when no square of `block` lies strictly between
/// them.
pub proof fn lemma_bishop_line_of_sight(a: u64, t: u64, dr: int, df: int, block: u64)
    requires
        a < 64,
        is_step(dr, df),
        dr != 0 && df != 0,
        on_line((a / 8) as int, (a % 8) as int, dr, df, t),
    ensures
        bit(bishop_rays(t, block), a) <==> clear_before(
            (t / 8) as int,
            (t % 8) as int,
            -dr,
            -df,
            block,
            distance((t / 8) as int, (t % 8) as int, a),
        ),
{
    let r = (t / 8) as int;
    let f = (t % 8) as int;
    lemma_reverse_line(a, t, dr, df, a);
    lemma_bit_union4(ray(r, f, 1, 1, block), ray(r, f, 1, -1, block), ray(r, f, -1, 1, block), ray(r, f, -1, -1, block), a);
    lemma_ray_reach(r, f, -dr, -df, block, a);
    if !(dr == -1 && df == -1) { lemma_other_directions(t, a, -dr, -df, 1, 1, block); }
    if !(dr == -1 && df == 1) { lemma_other_directions(t, a, -dr, -df, 1, -1, block); }
    if !(dr == 1 && df == -1) { lemma_other_directions(t, a, -dr, -df, -1, 1, block); }
    if !(dr == 1 && df == 1) { lemma_other_directions(t, a, -dr, -df, -1, -1, block); }
}

/// With the pieces on `a` and, when `has_blocker`, on `b` the only occupied
/// squares, and `t` and `b` on one line from `a`, nothing lies strictly
/// between `a` and `t` exactly when there is no blocker or `t` is no
/// farther from `a` than `b`.
pub proof fn lemma_clear_between(a: u64, b: u64, t: u64, dr: int, df: int, has_blocker: bool)
    requires
        a < 64,
        b < 64,
        is_step(dr, df),
        on_line((a / 8) as int, (a % 8) as int, dr, df, t),
        has_blocker ==> on_line((a / 8) as int, (a % 8) as int, dr, df, b),
    ensures
        clear_before(
            (t / 8) as int,
            (t % 8) as int,
            -dr,
            -df,
            single(a) | (if has_blocker { single(b) } else { 0 }),
            distance((t / 8) as int, (t % 8) as int, a),
        ) <==> (!has_blocker || distance((a / 8) as int, (a % 8) as int, t) <= distance(
            (a / 8) as int,
            (a % 8) as int,
            b,
        )),
{
    let tr = (t / 8) as int;
    let tf = (t % 8) as int;
    let occ = single(a) | (if has_blocker { single(b) } else { 0 });
    let da = distance(tr, tf, a);
    lemma_reverse_line(a, t, dr, df, a);
    assert forall|y: u64| y < 64 implies bit(occ, y) == (y == a || (has_blocker && y == b)) by {
        lemma_bit_ops(single(a), if has_blocker { single(b) } else { 0 }, y);
        lemma_single_bit(a, y);
        lemma_single_bit(b, y);
    }
    if has_blocker && distance((a / 8) as int, (a % 8) as int, t) > distance(
        (a / 8) as int,
        (a % 8) as int,
        b,
    ) {
        lemma_reverse_line(a, t, dr, df, b);
        assert(on_line(tr, tf, -dr, -df, b) && distance(tr, tf, b) < da);
        assert(bit(occ, b));
    } else {
        assert forall|y: u64|
            #[trigger] on_line(tr, tf, -dr, -df, y) && distance(tr, tf, y) < da implies !bit(
            occ,
            y,
        ) by {
            lemma_reverse_line(a, t, dr, df, y);
            if has_blocker {
                lemma_reverse_line(a, t, dr, df, b);
            }
        }
    }
}

/// Steps from coordinate `x` to the edge in direction `d` (unbounded when
/// the direction does not move along that coordinate).
pub open spec fn room(x: int, d: int) -> int {
    if d > 0 {
        7 - x
    } else if d < 0 {
        x
    } else {
        100
    }
}

/// Number of squares of `inner_ray(r, f, dr, df)`.
pub open spec fn inner_len(r: int, f: int, dr: int, df: int) -> int {
    let m = if room(r, dr) < room(f, df) {
        room(r, dr)
    } else {
        room(f, df)
    };
    if m >= 1 {
        m - 1
    } else {
        0
    }
}

/// An inner ray has at most `inner_len` squares, and at least one when
/// `inner_len` is positive.
proof fn lemma_inner_ray_count(r: int, f: int, dr: int, df: int)
    requires
        on_board(r, f),
        is_step(dr, df),
    ensures
        popcount(inner_ray(r, f, dr, df)) <= inner_len(r, f, dr, df),
        inner_len(r, f, dr, df) >= 1 ==> inner_ray(r, f, dr, df) != 0,
    decreases steps_left(r, f, dr, df),
{
    let nr = r + dr;
    let nf = f + df;
    if on_board(nr + dr, nf + df) {
        let n = square_at(nr, nf);
        let rest = inner_ray(nr, nf, dr, df);
        lemma_inner_ray_count(nr, nf, dr, df);
        lemma_popcount_or(single(n), rest);
        lemma_popcount_single(n);
        lemma_bit_ops(single(n), rest, n);
        lemma_single_bit(n, n);
        lemma_single_bit(0, n);
    }
}

/// The relevance mask of a bishop has between 1 and 9 squares.
pub proof fn lemma_bishop_mask_size(sq: u64)
    requires
        sq < 64,
    ensures
        1 <= popcount(bishop_mask(sq)) <= 9,
{
    let r = (sq / 8) as int;
    let f = (sq % 8) as int;
    let a = inner_ray(r, f, 1, 1);
    let b = inner_ray(r, f, 1, -1);
    let c = inner_ray(r, f, -1, 1);
    let d = inner_ray(r, f, -1, -1);
    lemma_inner_ray_count(r, f, 1, 1);
    lemma_inner_ray_count(r, f, 1, -1);
    lemma_inner_ray_count(r, f, -1, 1);
    lemma_inner_ray_count(r, f, -1, -1);
    lemma_popcount_or(a, b);
    lemma_popcount_or(a | b, c);
    lemma_popcount_or(a | b | c, d);
    lemma_four_nonzero(a, b, c, d);
}

/// The relevance mask of a rook has between 1 and 12 squares.
pub proof fn lemma_rook_mask_size(sq: u64)
    requires
        sq < 64,
    ensures
        1 <= popcount(rook_mask(sq)) <= 12,
{
    let r = (sq / 8) as int;
    let f = (sq % 8) as int;
    let a = inner_ray(r, f, 0, 1);
    let b = inner_ray(r, f, 0, -1);
    let c = inner_ray(r, f, -1, 0);
    let d = inner_ray(r, f, 1, 0);
    lemma_inner_ray_count(r, f, 0, 1);
    lemma_inner_ray_count(r, f, 0, -1);
    lemma_inner_ray_count(r, f, -1, 0);
    lemma_inner_ray_count(r, f, 1, 0);
    lemma_popcount_or(a, b);
    lemma_popcount_or(a | b, c);
    lemma_popcount_or(a | b | c, d);
    lemma_four_nonzero(a, b, c, d);
}

/// A union of four boards, one of them nonempty, has a square.
proof fn lemma_four_nonzero(a: u64, b: u64, c: u64, d: u64)
    ensures
        (a != 0 || b != 0 || c != 0 || d != 0) ==> popcount(a | b | c | d) >= 1,
{
    if a != 0 || b != 0 || c != 0 || d != 0 {
        assert(a | b | c | d != 0) by (bit_vector)
            requires
                a != 0 || b != 0 || c != 0 || d != 0,
        ;
        lemma_popcount_nonzero(a | b | c | d);
    }
}

} // verus!
