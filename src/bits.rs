//! Single-bit operations on bitboards: a `u64` whose bit `i` stands for
//! square `i` (0 is the top-left corner, rank-major order).
use vstd::prelude::*;

verus! {

/// Whether square `sq` is set on `b`.
pub open spec fn bit(b: u64, sq: u64) -> bool {
    (b >> sq) & 1 == 1
}

/// The board holding only square `sq`.
pub open spec fn single(sq: u64) -> u64 {
    1u64 << sq
}

/// Number of set bits of `b`.
pub open spec fn popcount(b: u64) -> nat
    decreases b,
{
    if b == 0 {
        0
    } else {
        (b % 2) as nat + popcount(b / 2)
    }
}

/// Identities of `|`, `&` and `>>` with zero, and regrouping of `|`.
pub proof fn lemma_or_facts(a: u64, b: u64, c: u64)
    by (bit_vector)
    ensures
        0u64 | a == a,
        a | 0u64 == a,
        a & 0u64 == 0,
        a >> 0u64 == a,
        a | (b | c) == (a | b) | c,
{
}

/// Masking with a single square tests that square.
pub proof fn lemma_and_single(y: u64, s: u64)
    by (bit_vector)
    requires
        s < 64,
    ensures
        ((y & (1u64 << s)) != 0) == ((y >> s) & 1 == 1),
        (y & (1u64 << s)) == (if (y >> s) & 1 == 1 { 1u64 << s } else { 0 }),
        (1u64 << s) != 0,
{
}

/// Two boards with the same bits are equal.
pub proof fn lemma_bits_ext(a: u64, b: u64)
    requires
        forall|i: u64| i < 64 ==> bit(a, i) == bit(b, i),
    ensures
        a == b,
{
    assert forall|i: u64| i < 64 implies #[trigger] ((a >> i) & 1) == (b >> i) & 1 by {
        assert(bit(a, i) == bit(b, i));
        assert(((a >> i) & 1 == 1) == ((a >> i) & 1 != 0) && ((b >> i) & 1 == 1) == ((b >> i) & 1
            != 0) && (a >> i) & 1 <= 1 && (b >> i) & 1 <= 1) by (bit_vector);
    }
    lemma_bits_ext_raw(a, b);
}

proof fn lemma_bits_ext_raw(a: u64, b: u64)
    requires
        forall|i: u64| i < 64 ==> #[trigger] ((a >> i) & 1) == (b >> i) & 1,
    ensures
        a == b,
{
    lemma_shift_ext(a, b, 0);
    lemma_or_facts(a, a, a);
    lemma_or_facts(b, b, b);
}

proof fn lemma_shift_ext(a: u64, b: u64, k: u64)
    requires
        k < 64,
        forall|i: u64| i < 64 ==> #[trigger] ((a >> i) & 1) == (b >> i) & 1,
    ensures
        a >> k == b >> k,
    decreases 64 - k,
{
    if k < 63 {
        lemma_shift_ext(a, b, (k + 1) as u64);
    }
    assert((a >> k) & 1 == (b >> k) & 1);
    assert(a >> k == b >> k) by (bit_vector)
        requires
            k < 64,
            k == 63 || a >> ((k + 1) as u64) == b >> ((k + 1) as u64),
            (a >> k) & 1 == (b >> k) & 1,
    ;
}

/// What the bitwise operators do to a single square.
pub proof fn lemma_bit_ops(a: u64, b: u64, i: u64)
    requires
        i < 64,
    ensures
        bit(a | b, i) == (bit(a, i) || bit(b, i)),
        bit(a & b, i) == (bit(a, i) && bit(b, i)),
        bit(a & !b, i) == (bit(a, i) && !bit(b, i)),
        bit(a ^ b, i) == (bit(a, i) != bit(b, i)),
{
    assert(((a | b) >> i) & 1 == 1 <==> ((a >> i) & 1 == 1 || (b >> i) & 1 == 1)) by (bit_vector)
        requires
            i < 64,
    ;
    assert(((a & b) >> i) & 1 == 1 <==> ((a >> i) & 1 == 1 && (b >> i) & 1 == 1)) by (bit_vector)
        requires
            i < 64,
    ;
    assert(((a & !b) >> i) & 1 == 1 <==> ((a >> i) & 1 == 1 && (b >> i) & 1 != 1)) by (bit_vector)
        requires
            i < 64,
    ;
    assert(((a ^ b) >> i) & 1 == 1 <==> ((a >> i) & 1 == 1) != ((b >> i) & 1 == 1)) by (bit_vector)
        requires
            i < 64,
    ;
}

/// The single-square board of `s` has square `s` alone; the empty board has none.
pub proof fn lemma_single_bit(s: u64, i: u64)
    requires
        i < 64,
    ensures
        s < 64 ==> (bit(single(s), i) == (i == s)),
        !bit(0, i),
{
    if s < 64 {
        assert(((1u64 << s) >> i) & 1 == 1 <==> i == s) by (bit_vector)
            requires
                i < 64,
                s < 64,
        ;
    }
    assert((0u64 >> i) & 1 != 1) by (bit_vector);
}

/// A board is empty exactly when no square is set.
pub proof fn lemma_zero_iff_no_bits(b: u64)
    ensures
        (b == 0) <==> forall|i: u64| i < 64 ==> !bit(b, i),
{
    if b == 0 {
        assert forall|i: u64| i < 64 implies !bit(b, i) by {
            lemma_single_bit(b, i);
        }
    } else if forall|i: u64| i < 64 ==> !bit(b, i) {
        assert forall|i: u64| i < 64 implies bit(b, i) == bit(0, i) by {
            lemma_single_bit(b, i);
        }
        lemma_bits_ext(b, 0);
    }
}

/// The square `sq` of `bitboard` alone: nonzero exactly when it is set.
pub fn get_bit(bitboard: u64, square: u64) -> (r: u64)
    requires
        square < 64,
    ensures
        r == (if bit(bitboard, square) { single(square) } else { 0 }),
        (r != 0) == bit(bitboard, square),
{
    let r = bitboard & (1u64 << square);
    proof {
        let b = bitboard;
        let s = square;
        lemma_and_single(b, s);
    }
    r
}

/// `bitboard` with square `square` set.
pub fn set_bit(bitboard: u64, square: u64) -> (r: u64)
    requires
        square < 64,
    ensures
        forall|i: u64| i < 64 ==> #[trigger] bit(r, i) == (i == square || bit(bitboard, i)),
        r == bitboard | single(square),
{
    let r = bitboard | (1u64 << square);
    proof {
        assert forall|i: u64| i < 64 implies #[trigger] bit(r, i) == (i == square || bit(
            bitboard,
            i,
        )) by {
            lemma_bit_ops(bitboard, single(square), i);
            lemma_single_bit(square, i);
        }
    }
    r
}

/// `bitboard` with square `square` cleared.
pub fn pop_bit(bitboard: u64, square: u64) -> (r: u64)
    requires
        square < 64,
    ensures
        forall|i: u64| i < 64 ==> #[trigger] bit(r, i) == (i != square && bit(bitboard, i)),
        r == bitboard & !single(square),
        !bit(bitboard, square) ==> r == bitboard,
{
    proof {
        lemma_pop_is_and_not(bitboard, square);
    }
    if get_bit(bitboard, square) != 0 {
        let r = bitboard ^ (1u64 << square);
        proof {
            assert forall|i: u64| i < 64 implies #[trigger] bit(r, i) == (i != square && bit(
                bitboard,
                i,
            )) by {
                lemma_bit_ops(bitboard, single(square), i);
                lemma_single_bit(square, i);
            }
            lemma_bits_ext(r, bitboard & !single(square));
        }
        r
    } else {
        proof {
            assert forall|i: u64| i < 64 implies #[trigger] bit(bitboard, i) == (i != square
                && bit(bitboard, i)) by {}
            lemma_bits_ext(bitboard, bitboard & !single(square));
        }
        bitboard
    }
}

/// Clearing the lowest set bit removes exactly one from the count.
pub proof fn lemma_popcount_clear_lowest(b: u64)
    requires
        b != 0,
    ensures
        popcount(b & ((b - 1) as u64)) + 1 == popcount(b),
    decreases b,
{
    let c = b & ((b - 1) as u64);
    if b % 2 == 1 {
        assert(c / 2 == b / 2 && c % 2 == 0) by (bit_vector)
            requires
                b % 2 == 1,
                c == b & ((b - 1) as u64),
        ;
        assert(popcount(c) == popcount(c / 2));
    } else {
        let h = b / 2;
        assert(h != 0 && c / 2 == (h & ((h - 1) as u64)) && c % 2 == 0) by (bit_vector)
            requires
                b % 2 == 0,
                b != 0,
                h == b / 2,
                c == b & ((b - 1) as u64),
        ;
        lemma_popcount_clear_lowest(h);
        assert(popcount(c) == popcount(c / 2));
    }
}

/// Number of set squares of `bitboard`.
pub fn count_bits(bitboard: u64) -> (r: usize)
    ensures
        r == popcount(bitboard),
{
    let mut b: u64 = bitboard;
    let mut bit_count: usize = 0;
    proof {
        lemma_popcount_le_64(bitboard);
    }
    while b != 0
        invariant
            bit_count + popcount(b) == popcount(bitboard),
            popcount(bitboard) <= 64,
        decreases popcount(b),
    {
        proof {
            lemma_popcount_clear_lowest(b);
        }
        bit_count += 1;
        b = b & (b - 1);
    }
    bit_count
}

/// A board has at most 64 set bits.
pub proof fn lemma_popcount_le_64(b: u64)
    ensures
        popcount(b) <= 64,
{
    lemma_popcount_bound(b, 64);
}

proof fn lemma_popcount_bound(b: u64, n: u64)
    requires
        n <= 64,
        n < 64 ==> b < (1u64 << n),
    ensures
        popcount(b) <= n,
    decreases n,
{
    if b != 0 {
        assert(n != 0) by (bit_vector)
            requires
                n < 64 ==> b < (1u64 << n),
                b != 0,
        ;
        let m = (n - 1) as u64;
        assert(m < 64 ==> b / 2 < (1u64 << m)) by (bit_vector)
            requires
                n < 64 ==> b < (1u64 << n),
                n != 0,
                n <= 64,
                m == n - 1,
        ;
        lemma_popcount_bound(b / 2, m);
    }
}

/// `i` is the lowest set square of `b`.
pub open spec fn is_lowest(b: u64, i: u64) -> bool {
    &&& i < 64
    &&& bit(b, i)
    &&& forall|j: u64| j < i ==> !bit(b, j)
}

/// A board whose set bits are exactly the lowest few is `2^n - 1`,
/// with `n` its count.
proof fn lemma_low_mask(p: u64)
    requires
        p & ((p + 1) as u64) == 0,
        p != 0xffff_ffff_ffff_ffffu64,
    ensures
        popcount(p) < 64,
        p == ((1u64 << popcount(p)) - 1) as u64,
    decreases p,
{
    if p == 0 {
        assert(0u64 == ((1u64 << 0u64) - 1) as u64) by (bit_vector);
    } else {
        let h = p / 2;
        assert(p % 2 == 1 && h & ((h + 1) as u64) == 0 && h != 0xffff_ffff_ffff_ffffu64)
            by (bit_vector)
            requires
                p & ((p + 1) as u64) == 0,
                p != 0xffff_ffff_ffff_ffffu64,
                p != 0,
                h == p / 2,
        ;
        lemma_low_mask(h);
        let c = popcount(h) as u64;
        assert(c < 63 && p == ((1u64 << ((c + 1) as u64)) - 1) as u64) by (bit_vector)
            requires
                h == ((1u64 << c) - 1) as u64,
                c < 64,
                p % 2 == 1,
                h == p / 2,
                p != 0xffff_ffff_ffff_ffffu64,
        ;
    }
}

/// Index of the lowest set square of `bitboard`; an error when it is empty.
pub fn get_lsb_index(bitboard: u64) -> (r: Result<usize, String>)
    ensures
        r is Err <==> bitboard == 0,
        r matches Ok(i) ==> is_lowest(bitboard, i as u64),
{
    if bitboard == 0 {
        return Err("Illegal index requested.".to_string());
    }
    let b = bitboard;
    proof {
        assert(!b != 0xffff_ffff_ffff_ffffu64 && b & ((!b + 1) as u64) != 0) by (bit_vector)
            requires
                b != 0,
        ;
    }
    let lsb: u64 = bitboard & (!bitboard + 1);
    let populated: u64 = lsb - 1;
    let count = count_bits(populated);
    proof {
        let p = populated;
        assert(p & ((p + 1) as u64) == 0 && p != 0xffff_ffff_ffff_ffffu64) by (bit_vector)
            requires
                b != 0,
                p == ((b & ((!b + 1) as u64)) - 1) as u64,
        ;
        lemma_low_mask(p);
        let r = count as u64;
        assert((b >> r) & 1 == 1 && b & (((1u64 << r) - 1) as u64) == 0) by (bit_vector)
            requires
                b != 0,
                r < 64,
                p == ((b & ((!b + 1) as u64)) - 1) as u64,
                p == ((1u64 << r) - 1) as u64,
        ;
        assert forall|j: u64| j < r implies !bit(b, j) by {
            assert((b >> j) & 1 != 1) by (bit_vector)
                requires
                    b & (((1u64 << r) - 1) as u64) == 0,
                    j < r,
                    r < 64,
            ;
        }
    }
    Ok(count)
}

proof fn lemma_pop_is_and_not(b: u64, s: u64)
    requires
        s < 64,
    ensures
        forall|i: u64| i < 64 ==> #[trigger] bit(b & !single(s), i) == (i != s && bit(b, i)),
{
    assert forall|i: u64| i < 64 implies #[trigger] bit(b & !single(s), i) == (i != s && bit(b, i)) by {
        lemma_bit_ops(b, single(s), i);
        lemma_single_bit(s, i);
    }
}

/// The lowest set square of a nonempty board.
pub open spec fn lowest_square(b: u64) -> u64 {
    choose|i: u64| is_lowest(b, i)
}

/// A nonempty board has exactly one lowest set square.
pub proof fn lemma_lowest_square(b: u64)
    requires
        b != 0,
    ensures
        is_lowest(b, lowest_square(b)),
        forall|i: u64| #[trigger] is_lowest(b, i) ==> i == lowest_square(b),
{
    lemma_zero_iff_no_bits(b);
    lemma_lowest_from(b, 0);
    assert forall|i: u64| #[trigger] is_lowest(b, i) implies i == lowest_square(b) by {
        let l = lowest_square(b);
        if i < l {
            assert(!bit(b, i));
        } else if l < i {
            assert(!bit(b, l));
        }
    }
}

proof fn lemma_lowest_from(b: u64, j: u64)
    requires
        j <= 64,
        forall|i: u64| i < j ==> !bit(b, i),
        exists|i: u64| i < 64 && bit(b, i),
    ensures
        exists|i: u64| is_lowest(b, i),
    decreases 64 - j,
{
    if j == 64 {
        let w = choose|i: u64| i < 64 && bit(b, i);
        assert(!bit(b, w));
    } else if bit(b, j) {
        assert(is_lowest(b, j));
    } else {
        assert forall|i: u64| i < j + 1 implies !bit(b, i) by {
            if i < j {
            }
        }
        lemma_lowest_from(b, (j + 1) as u64);
    }
}

/// Clearing the lowest set square is `b & (b - 1)`, and drops the count by one.
pub proof fn lemma_clear_lowest(b: u64)
    requires
        b != 0,
    ensures
        b & !single(lowest_square(b)) == b & ((b - 1) as u64),
        popcount(b & !single(lowest_square(b))) + 1 == popcount(b),
        bit(b, lowest_square(b)),
        lowest_square(b) < 64,
{
    lemma_lowest_square(b);
    let s = lowest_square(b);
    let low = ((1u64 << s) - 1) as u64;
    assert forall|i: u64| i < 64 implies bit(b & low, i) == bit(0, i) by {
        lemma_bit_ops(b, low, i);
        lemma_single_bit(b, i);
        assert(((low >> i) & 1 == 1) == (i < s)) by (bit_vector)
            requires
                s < 64,
                i < 64,
                low == ((1u64 << s) - 1) as u64,
        ;
        if i < s {
            assert(!bit(b, i));
        }
    }
    lemma_bits_ext(b & low, 0);
    lemma_pop_is_and_not(b, s);
    assert forall|i: u64| i < 64 implies bit(b & !single(s), i) == bit(b & ((b - 1) as u64), i) by {
        assert((((b & ((b - 1) as u64)) >> i) & 1 == 1) == ((b >> i) & 1 == 1 && i != s))
            by (bit_vector)
            requires
                (b >> s) & 1 == 1,
                b & low == 0,
                low == ((1u64 << s) - 1) as u64,
                s < 64,
                i < 64,
        ;
    }
    lemma_bits_ext(b & !single(s), b & ((b - 1) as u64));
    lemma_popcount_clear_lowest(b);
}

/// Setting a square that is already set changes nothing, and a set square
/// reads as set.
pub proof fn lemma_set_bit_idempotent(b: u64, sq: u64)
    requires
        sq < 64,
    ensures
        (b | single(sq)) | single(sq) == b | single(sq),
        bit(b | single(sq), sq),
{
    assert forall|i: u64| i < 64 implies bit((b | single(sq)) | single(sq), i) == bit(
        b | single(sq),
        i,
    ) by {
        lemma_bit_ops(b | single(sq), single(sq), i);
        lemma_bit_ops(b, single(sq), i);
    }
    lemma_bits_ext((b | single(sq)) | single(sq), b | single(sq));
    lemma_bit_ops(b, single(sq), sq);
    lemma_single_bit(sq, sq);
}

proof fn lemma_halves(a: u64, b: u64)
    by (bit_vector)
    ensures
        (a | b) / 2 == (a / 2) | (b / 2),
        (a | b) % 2 <= a % 2 + b % 2,
        (a | b) == 0 ==> a == 0,
{
}

/// The count of a union is at most the sum of the counts.
pub proof fn lemma_popcount_or(a: u64, b: u64)
    ensures
        popcount(a | b) <= popcount(a) + popcount(b),
    decreases a,
{
    lemma_halves(a, b);
    lemma_halves(b, a);
    if a != 0 {
        lemma_popcount_or(a / 2, b / 2);
    } else {
        lemma_or_facts(b, b, b);
        assert(0u64 | b == b);
    }
}

/// A single-square board has one square.
pub proof fn lemma_popcount_single(s: u64)
    requires
        s < 64,
    ensures
        popcount(single(s)) == 1,
    decreases s,
{
    if s == 0 {
        assert(1u64 << 0u64 == 1) by (bit_vector);
        assert(popcount(0) == 0);
    } else {
        let t = (s - 1) as u64;
        assert((1u64 << s) / 2 == 1u64 << t && (1u64 << s) % 2 == 0 && (1u64 << s) != 0)
            by (bit_vector)
            requires
                s < 64,
                s >= 1,
                t == s - 1,
        ;
        lemma_popcount_single(t);
    }
}

/// A nonempty board has at least one square.
pub proof fn lemma_popcount_nonzero(b: u64)
    requires
        b != 0,
    ensures
        popcount(b) >= 1,
    decreases b,
{
    if b % 2 == 0 {
        lemma_popcount_nonzero(b / 2);
    }
}

} // verus!
