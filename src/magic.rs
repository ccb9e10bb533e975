//! The attack tables shared by every position: direct tables for pawns,
//! knights and kings, and magic-number perfect-hash tables for bishops and
//! rooks.
use vstd::prelude::*;
use vstd::arithmetic::power2::pow2;
use crate::bits::{popcount, count_bits};
use crate::leapers::{
    Color, pawn_targets, knight_targets, king_targets, mask_pawn_attacks, mask_knight_attacks,
    mask_king_attacks,
};
use crate::rays::{
    bishop_rays, rook_rays, bishop_mask, rook_mask, mask_bishop_attacks, mask_rook_attacks,
    dynamic_bishop_attacks, dynamic_rook_attacks, lemma_bishop_relevance, lemma_rook_relevance,
    lemma_bishop_mask_size, lemma_rook_mask_size,
};
use crate::occupancy::{occupancy_subset, subset_index, set_occupancies, lemma_enumeration_onto};

verus! {

/// Entries per square of the bishop table.
pub const BISHOP_TABLE_SIZE: usize = 512;

/// Entries per square of the rook table.
pub const ROOK_TABLE_SIZE: usize = 4096;

/// What a bishop (`is_bishop`) or a rook on `sq` attacks given the blockers `block`.
pub open spec fn slider_rays(is_bishop: bool, sq: u64, block: u64) -> u64 {
    if is_bishop {
        bishop_rays(sq, block)
    } else {
        rook_rays(sq, block)
    }
}

/// The relevance mask of a bishop (`is_bishop`) or a rook on `sq`.
pub open spec fn slider_mask(is_bishop: bool, sq: u64) -> u64 {
    if is_bishop {
        bishop_mask(sq)
    } else {
        rook_mask(sq)
    }
}

/// Entries per square of the table of a bishop (`is_bishop`) or a rook.
pub open spec fn table_size(is_bishop: bool) -> nat {
    if is_bishop {
        512
    } else {
        4096
    }
}

/// The largest relevant-bit count that the table of the kind can index.
pub open spec fn max_bits(is_bishop: bool) -> u64 {
    if is_bishop {
        9
    } else {
        12
    }
}

/// `occ * magic`, discarding what overflows 64 bits.
pub open spec fn hash_product(occ: u64, magic: u64) -> u64 {
    ((occ as nat * magic as nat) % 0x1_0000_0000_0000_0000) as u64
}

/// The table slot of the blockers `occ`: the top `bits` bits of `occ * magic`.
pub open spec fn magic_index(occ: u64, magic: u64, bits: u64) -> u64 {
    hash_product(occ, magic) >> ((64 - bits) as u64)
}

/// The entry that the table holds for square `s` and the blockers `occ`,
/// after masking them with `mask`.
pub open spec fn table_entry(
    table: Seq<Vec<u64>>,
    magic: u64,
    bits: u64,
    mask: u64,
    s: u64,
    occ: u64,
) -> u64 {
    table[s as int]@[magic_index(occ & mask, magic, bits) as int]
}

/// The table of the kind has, for every square and every blocker set, the
/// attacks of that blocker set within the relevance mask.
pub open spec fn table_agrees(
    is_bishop: bool,
    table: Seq<Vec<u64>>,
    magics: Seq<u64>,
    bits: Seq<u64>,
) -> bool {
    forall|s: u64, occ: u64|
        s < 64 ==> #[trigger] table_entry(
            table,
            magics[s as int],
            bits[s as int],
            slider_mask(is_bishop, s),
            s,
            occ,
        ) == slider_rays(is_bishop, s, occ & slider_mask(is_bishop, s))
}

/// `table` has 64 rows of `size` entries.
pub open spec fn table_shape(table: Seq<Vec<u64>>, size: nat) -> bool {
    &&& table.len() == 64
    &&& forall|s: int| 0 <= s < 64 ==> (#[trigger] table[s])@.len() == size
}

/// The magic number of square `s` for the kind.
pub open spec fn magic_of(is_bishop: bool, s: u64) -> u64 {
    if is_bishop {
        BISHOP_MAGIC_NUMBERS[s as int]
    } else {
        ROOK_MAGIC_NUMBERS[s as int]
    }
}

/// The multiplier that hashes the bishop blockers of `square` or the rook
/// blockers of `square`.
fn magic_number(is_bishop: bool, square: usize) -> (r: u64)
    requires
        square < 64,
    ensures
        r == magic_of(is_bishop, square as u64),
{
    if is_bishop {
        BISHOP_MAGIC_NUMBERS[square]
    } else {
        ROOK_MAGIC_NUMBERS[square]
    }
}

/// The top `bits` bits of a product index a table of `2^bits` entries.
proof fn lemma_slot_bound(x: u64, bits: u64)
    by (bit_vector)
    requires
        1 <= bits <= 12,
    ensures
        x >> ((64 - bits) as u64) < 4096,
        bits <= 9 ==> x >> ((64 - bits) as u64) < 512,
{
}

/// A slot of a table of the kind.
proof fn lemma_magic_index_bound(is_bishop: bool, occ: u64, magic: u64, bits: u64)
    requires
        1 <= bits <= max_bits(is_bishop),
    ensures
        magic_index(occ, magic, bits) < table_size(is_bishop),
{
    lemma_slot_bound(hash_product(occ, magic), bits);
}

/// The table slot of `occ`: the top `bits` bits of `occ * magic`.
fn magic_index_of(occ: u64, magic: u64, bits: u64) -> (r: u64)
    requires
        1 <= bits <= 12,
    ensures
        r == magic_index(occ, magic, bits),
        r < 4096,
        bits <= 9 ==> r < 512,
{
    let product = occ.wrapping_mul(magic);
    let r = product >> (64 - bits);
    proof {
        lemma_slot_bound(product, bits);
    }
    r
}

/// The relevance mask of `square` for the kind.
fn relevance_mask(is_bishop: bool, square: u64) -> (r: u64)
    requires
        square < 64,
    ensures
        r == slider_mask(is_bishop, square),
{
    if is_bishop {
        mask_bishop_attacks(square)
    } else {
        mask_rook_attacks(square)
    }
}

/// The ray walk of the kind from `square` with the blockers `block`.
fn slider_walk(is_bishop: bool, square: u64, block: u64) -> (r: u64)
    requires
        square < 64,
    ensures
        r == slider_rays(is_bishop, square, block),
{
    if is_bishop {
        dynamic_bishop_attacks(square, block)
    } else {
        dynamic_rook_attacks(square, block)
    }
}

/// A table of `rows` rows of `size` zeros.
fn zero_table(rows: usize, size: usize) -> (t: Vec<Vec<u64>>)
    ensures
        t@.len() == rows,
        forall|s: int| 0 <= s < rows ==> (#[trigger] t@[s])@.len() == size,
{
    let mut t: Vec<Vec<u64>> = Vec::new();
    let mut i: usize = 0;
    while i < rows
        invariant
            i <= rows,
            t@.len() == i,
            forall|s: int| 0 <= s < i ==> (#[trigger] t@[s])@.len() == size,
        decreases rows - i,
    {
        t.push(vec![0u64; size]);
        i = i + 1;
    }
    t
}

/// The occupancy that index `n` enumerates from the relevance mask of `s`.
pub open spec fn enumerated(is_bishop: bool, s: u64, n: nat) -> u64 {
    let mask = slider_mask(is_bishop, s);
    occupancy_subset(n, popcount(mask), mask)
}

/// Number of relevant bits of `s` for the kind.
pub open spec fn relevant_bits(is_bishop: bool, s: u64) -> nat {
    popcount(slider_mask(is_bishop, s))
}

/// The slot that enumerated occupancy `n` hashes to under `magic` holds the
/// ray walk of some enumerated occupancy hashing to that same slot.
pub open spec fn filled_slot(is_bishop: bool, row: Seq<u64>, s: u64, magic: u64, n: nat) -> bool {
    let k = relevant_bits(is_bishop, s);
    let h = magic_index(enumerated(is_bishop, s, n), magic, k as u64);
    exists|m: nat|
        m < pow2(k) && magic_index(enumerated(is_bishop, s, m), magic, k as u64) == h && row[h as int]
            == slider_rays(is_bishop, s, enumerated(is_bishop, s, m))
}

/// Every square has between 1 and `max_bits` relevant bits.
pub proof fn lemma_mask_fits(is_bishop: bool, s: u64)
    requires
        s < 64,
    ensures
        1 <= relevant_bits(is_bishop, s) <= max_bits(is_bishop),
{
    if is_bishop {
        lemma_bishop_mask_size(s);
    } else {
        lemma_rook_mask_size(s);
    }
}

/// Every enumerated occupancy of `s` finds its slot of `row` filled.
pub open spec fn row_filled(is_bishop: bool, row: Seq<u64>, s: u64, magic: u64) -> bool {
    forall|n: nat| n < pow2(relevant_bits(is_bishop, s)) ==> #[trigger] filled_slot(is_bishop, row, s, magic, n)
}

/// Every square below `upto` has its row of `tables` filled under its own
/// magic number.
pub open spec fn rows_filled(is_bishop: bool, tables: Seq<Vec<u64>>, upto: int) -> bool {
    forall|s: u64|
        s < upto ==> row_filled(
            is_bishop,
            (#[trigger] tables[s as int])@,
            s,
            magic_of(is_bishop, s),
        )
}

/// The magic number of `s` has no harmful collision: enumerated occupancies
/// that hash to one slot have the same ray walk.
pub open spec fn magic_sound(is_bishop: bool, s: u64) -> bool {
    let k = relevant_bits(is_bishop, s);
    let magic = magic_of(is_bishop, s);
    forall|n: nat, m: nat|
        n < pow2(k) && m < pow2(k) && #[trigger] magic_index(enumerated(is_bishop, s, n), magic, k as u64)
            == #[trigger] magic_index(enumerated(is_bishop, s, m), magic, k as u64) ==> slider_rays(
            is_bishop,
            s,
            enumerated(is_bishop, s, n),
        ) == slider_rays(is_bishop, s, enumerated(is_bishop, s, m))
}

/// The row of `s` holds, in the slot that each enumerated occupancy hashes
/// to under the square's magic number, the ray walk of that occupancy.
pub open spec fn row_exact(is_bishop: bool, row: Seq<u64>, s: u64) -> bool {
    let k = relevant_bits(is_bishop, s);
    forall|n: nat|
        n < pow2(k) ==> row[magic_index(enumerated(is_bishop, s, n), magic_of(is_bishop, s), k as u64) as int]
            == slider_rays(is_bishop, s, #[trigger] enumerated(is_bishop, s, n))
}

/// A filled row of a square whose magic number is sound is exact.
pub proof fn lemma_sound_row_exact(is_bishop: bool, row: Seq<u64>, s: u64)
    requires
        row_filled(is_bishop, row, s, magic_of(is_bishop, s)),
        magic_sound(is_bishop, s),
    ensures
        row_exact(is_bishop, row, s),
{
    let k = relevant_bits(is_bishop, s);
    let magic = magic_of(is_bishop, s);
    assert forall|n: nat| n < pow2(k) implies row[magic_index(
        enumerated(is_bishop, s, n),
        magic,
        k as u64,
    ) as int] == slider_rays(is_bishop, s, #[trigger] enumerated(is_bishop, s, n)) by {
        assert(filled_slot(is_bishop, row, s, magic, n));
        let h = magic_index(enumerated(is_bishop, s, n), magic, k as u64);
        let m = choose|m: nat|
            m < pow2(k) && magic_index(#[trigger] enumerated(is_bishop, s, m), magic, k as u64) == h
                && row[h as int] == slider_rays(is_bishop, s, enumerated(is_bishop, s, m));
        assert(magic_index(enumerated(is_bishop, s, n), magic, k as u64) == magic_index(
            enumerated(is_bishop, s, m),
            magic,
            k as u64,
        ));
    }
}

/// The table of the kind among the two.
pub open spec fn pick(is_bishop: bool, bishop: Seq<Vec<u64>>, rook: Seq<Vec<u64>>) -> Seq<Vec<u64>> {
    if is_bishop {
        bishop
    } else {
        rook
    }
}

/// Fills the table of the kind: for every square and every blocker subset
/// of its relevance mask, the slot that the subset hashes to under the
/// square's magic number receives the ray walk for that subset. Where two
/// subsets share a slot the later one stays, so each slot holds the ray walk
/// of one of the subsets hashing to it; where the square's magic number is
/// sound, that is the ray walk of every such subset.
pub fn init_slider_attacks(
    is_bishop: bool,
    bishop_attacks: &mut Vec<Vec<u64>>,
    rook_attacks: &mut Vec<Vec<u64>>,
)
    requires
        table_shape(old(bishop_attacks)@, 512),
        table_shape(old(rook_attacks)@, 4096),
    ensures
        table_shape(final(bishop_attacks)@, 512),
        table_shape(final(rook_attacks)@, 4096),
        is_bishop ==> final(rook_attacks)@ == old(rook_attacks)@,
        !is_bishop ==> final(bishop_attacks)@ == old(bishop_attacks)@,
        rows_filled(is_bishop, pick(is_bishop, final(bishop_attacks)@, final(rook_attacks)@), 64),
        forall|s: u64|
            s < 64 && magic_sound(
                is_bishop,
                s,
            ) ==> row_exact(
                is_bishop,
                (#[trigger] pick(is_bishop, final(bishop_attacks)@, final(rook_attacks)@)[s as int])@,
                s,
            ),
{
    let mut square: usize = 0;
    while square < 64
        invariant
            square <= 64,
            table_shape(bishop_attacks@, 512),
            table_shape(rook_attacks@, 4096),
            is_bishop ==> rook_attacks@ == old(rook_attacks)@,
            !is_bishop ==> bishop_attacks@ == old(bishop_attacks)@,
            rows_filled(is_bishop, pick(is_bishop, bishop_attacks@, rook_attacks@), square as int),
        decreases 64 - square,
    {
        let attack_mask = relevance_mask(is_bishop, square as u64);
        let relevant_bits_count = count_bits(attack_mask);
        let magic = magic_number(is_bishop, square);
        let ghost before = pick(is_bishop, bishop_attacks@, rook_attacks@);
        proof {
            lemma_mask_fits(is_bishop, square as u64);
            vstd::bits::lemma_usize_pow2_no_overflow(relevant_bits_count as nat);
            vstd::bits::lemma_usize_shl_is_mul(1, relevant_bits_count);
        }
        let occupancy_indices: usize = 1usize << relevant_bits_count;
        let mut index: usize = 0;
        while index < occupancy_indices
            invariant
                square < 64,
                1 <= relevant_bits_count <= max_bits(is_bishop),
                relevant_bits_count == popcount(attack_mask),
                attack_mask == slider_mask(is_bishop, square as u64),
                occupancy_indices == pow2(relevant_bits_count as nat),
                table_shape(bishop_attacks@, 512),
                table_shape(rook_attacks@, 4096),
                before.len() == 64,
                is_bishop ==> rook_attacks@ == old(rook_attacks)@,
                !is_bishop ==> bishop_attacks@ == old(bishop_attacks)@,
                forall|s: int|
                    0 <= s < 64 && s != square ==> #[trigger] pick(
                        is_bishop,
                        bishop_attacks@,
                        rook_attacks@,
                    )[s] == before[s],
                forall|n: nat|
                    n < index ==> #[trigger] filled_slot(
                        is_bishop,
                        pick(is_bishop, bishop_attacks@, rook_attacks@)[square as int]@,
                        square as u64,
                        magic,
                        n,
                    ),
            decreases occupancy_indices - index,
        {
            let occupancy = set_occupancies(index, relevant_bits_count, attack_mask);
            let slot = magic_index_of(occupancy, magic, relevant_bits_count as u64);
            let attacks = slider_walk(is_bishop, square as u64, occupancy);
            let ghost old_row = pick(is_bishop, bishop_attacks@, rook_attacks@)[square as int]@;
            let ghost old_tables = pick(is_bishop, bishop_attacks@, rook_attacks@);
            if is_bishop {
                bishop_attacks[square][slot as usize] = attacks;
            } else {
                rook_attacks[square][slot as usize] = attacks;
            }
            proof {
                let new_row = pick(is_bishop, bishop_attacks@, rook_attacks@)[square as int]@;
                assert(new_row == old_row.update(slot as int, attacks));
                assert(occupancy == enumerated(is_bishop, square as u64, index as nat));
                assert forall|n: nat| n < index + 1 implies #[trigger] filled_slot(
                    is_bishop,
                    new_row,
                    square as u64,
                    magic,
                    n,
                ) by {
                    let k = relevant_bits(is_bishop, square as u64);
                    let h = magic_index(enumerated(is_bishop, square as u64, n), magic, k as u64);
                    lemma_magic_index_bound(is_bishop, enumerated(is_bishop, square as u64, n), magic, k as u64);
                    if h == slot {
                        assert(magic_index(enumerated(is_bishop, square as u64, index as nat), magic, k as u64) == h);
                        assert(new_row[h as int] == slider_rays(is_bishop, square as u64, enumerated(is_bishop, square as u64, index as nat)));
                    } else {
                        assert(filled_slot(is_bishop, old_row, square as u64, magic, n));
                        let m = choose|m: nat|
                            m < pow2(k) && magic_index(#[trigger] enumerated(is_bishop, square as u64, m), magic, k as u64) == h
                                && old_row[h as int] == slider_rays(is_bishop, square as u64, enumerated(is_bishop, square as u64, m));
                        assert(new_row[h as int] == old_row[h as int]);
                        assert(m < pow2(k) && magic_index(enumerated(is_bishop, square as u64, m), magic, k as u64) == h
                            && new_row[h as int] == slider_rays(is_bishop, square as u64, enumerated(is_bishop, square as u64, m)));
                    }
                }
                assert forall|s: int|
                    0 <= s < 64 && s != square implies #[trigger] pick(
                        is_bishop,
                        bishop_attacks@,
                        rook_attacks@,
                    )[s] == before[s] by {
                    assert(old_tables[s] == before[s]);
                }
            }
            index = index + 1;
        }
        proof {
            let row = pick(is_bishop, bishop_attacks@, rook_attacks@)[square as int]@;
            assert(row_filled(is_bishop, row, square as u64, magic));
        }
        proof {
            let tables = pick(is_bishop, bishop_attacks@, rook_attacks@);
            assert forall|s: u64|
                s < square + 1 implies row_filled(
                is_bishop,
                (#[trigger] tables[s as int])@,
                s,
                magic_of(is_bishop, s),
            ) by {
                if s == square as u64 {
                    assert(relevant_bits_count == relevant_bits(is_bishop, s));
                    assert(row_filled(is_bishop, tables[s as int]@, s, magic));
                } else {
                    assert(tables[s as int] == before[s as int]);
                }
            }
        }
        square = square + 1;
    }
    proof {
        let tables = pick(is_bishop, bishop_attacks@, rook_attacks@);
        assert forall|s: u64|
            s < 64 && magic_sound(
                is_bishop,
                s,
            ) implies row_exact(is_bishop, (#[trigger] tables[s as int])@, s) by {
            lemma_sound_row_exact(is_bishop, tables[s as int]@, s);
        }
    }
}

/// Masks, relevant-bit counts and magic numbers of the kind, per square.
pub open spec fn slider_data_ok(
    is_bishop: bool,
    masks: Seq<u64>,
    magics: Seq<u64>,
    bits: Seq<u64>,
) -> bool {
    &&& masks.len() == 64
    &&& magics.len() == 64
    &&& bits.len() == 64
    &&& forall|s: u64| s < 64 ==> #[trigger] masks[s as int] == slider_mask(is_bishop, s)
    &&& forall|s: u64| s < 64 ==> #[trigger] bits[s as int] == popcount(masks[s as int])
    &&& forall|s: u64| s < 64 ==> #[trigger] magics[s as int] == magic_of(is_bishop, s)
}

/// Checks the table of the kind against the ray walk, for every square and
/// every blocker subset of its relevance mask. On success the table answers
/// every blocker set correctly.
fn table_is_sound(
    is_bishop: bool,
    table: &Vec<Vec<u64>>,
    masks: &Vec<u64>,
    magics: &Vec<u64>,
    bits: &Vec<u64>,
) -> (ok: bool)
    requires
        table_shape(table@, table_size(is_bishop)),
        slider_data_ok(is_bishop, masks@, magics@, bits@),
    ensures
        ok ==> table_agrees(is_bishop, table@, magics@, bits@),
{
    let mut square: usize = 0;
    while square < 64
        invariant
            square <= 64,
            table_shape(table@, table_size(is_bishop)),
            slider_data_ok(is_bishop, masks@, magics@, bits@),
            forall|s: u64, occ: u64|
                s < square ==> #[trigger] table_entry(
                    table@,
                    magics@[s as int],
                    bits@[s as int],
                    slider_mask(is_bishop, s),
                    s,
                    occ,
                ) == slider_rays(is_bishop, s, occ & slider_mask(is_bishop, s)),
        decreases 64 - square,
    {
        let mask = masks[square];
        let magic = magics[square];
        let count = bits[square];
        proof {
            assert(masks@[square as u64 as int] == slider_mask(is_bishop, square as u64));
            assert(bits@[square as u64 as int] == popcount(masks@[square as u64 as int]));
        }
        proof {
            lemma_mask_fits(is_bishop, square as u64);
            vstd::bits::lemma_u64_pow2_no_overflow(count as nat);
            vstd::bits::lemma_u64_shl_is_mul(1, count);
            assert(1u64 << count <= 4096) by (bit_vector)
                requires
                    count <= 12,
            ;
        }
        let total: u64 = 1u64 << count;
        let mut n: u64 = 0;
        while n < total
            invariant
                square < 64,
                1 <= count <= max_bits(is_bishop),
                count == popcount(mask),
                mask == slider_mask(is_bishop, square as u64),
                total == pow2(count as nat),
                total <= 4096,
                table_shape(table@, table_size(is_bishop)),
                forall|j: nat|
                    j < n ==> #[trigger] table@[square as int]@[magic_index(
                        occupancy_subset(j, count as nat, mask),
                        magic,
                        count,
                    ) as int] == slider_rays(
                        is_bishop,
                        square as u64,
                        occupancy_subset(j, count as nat, mask),
                    ),
            decreases total - n,
        {
            let occupancy = set_occupancies(n as usize, count as usize, mask);
            let index = magic_index_of(occupancy, magic, count);
            proof {
                if is_bishop {
                    assert(table@[square as int]@.len() == 512);
                } else {
                    assert(table@[square as int]@.len() == 4096);
                }
            }
            if table[square][index as usize] != slider_walk(is_bishop, square as u64, occupancy) {
                return false;
            }
            n = n + 1;
        }
        proof {
            assert forall|occ: u64|
                #[trigger] table_entry(
                    table@,
                    magics@[square as u64 as int],
                    bits@[square as u64 as int],
                    slider_mask(is_bishop, square as u64),
                    square as u64,
                    occ,
                ) == slider_rays(
                    is_bishop,
                    square as u64,
                    occ & slider_mask(is_bishop, square as u64),
                ) by {
                lemma_enumeration_onto(occ, mask);
                let j = subset_index(occ, mask);
                assert(j < n);
                assert(occupancy_subset(j, count as nat, mask) == occ & mask);
            }
            assert forall|s: u64, occ: u64|
                s < square + 1 implies #[trigger] table_entry(
                    table@,
                    magics@[s as int],
                    bits@[s as int],
                    slider_mask(is_bishop, s),
                    s,
                    occ,
                ) == slider_rays(is_bishop, s, occ & slider_mask(is_bishop, s)) by {
                if s == square as u64 {
                } else {
                }
            }
        }
        square = square + 1;
    }
    true
}

/// The attack tables, built once and shared read-only by every position.
pub struct Constants {
    /// Capture squares of a pawn, by side and square.
    pub pawn_attacks: [[u64; 64]; 2],
    /// Squares a knight attacks, by square.
    pub knight_attacks: [u64; 64],
    /// Squares a king attacks, by square.
    pub king_attacks: [u64; 64],
    /// Bishop attacks, by square and magic index.
    pub bishop_attacks: Vec<Vec<u64>>,
    /// Rook attacks, by square and magic index.
    pub rook_attacks: Vec<Vec<u64>>,
    /// Bishop relevance masks, by square.
    pub bishop_masks: Vec<u64>,
    /// Rook relevance masks, by square.
    pub rook_masks: Vec<u64>,
    /// Bishop magic numbers, by square.
    pub bishop_magics: Vec<u64>,
    /// Rook magic numbers, by square.
    pub rook_magics: Vec<u64>,
    /// Number of squares in each bishop relevance mask.
    pub bishop_relevant_bits: Vec<u64>,
    /// Number of squares in each rook relevance mask.
    pub rook_relevant_bits: Vec<u64>,
    /// Whether both slider tables were checked against the ray walk for
    /// every blocker subset; the lookups use the tables only then.
    pub tables_checked: bool,
}

impl Constants {
    /// The tables hold what their fields promise.
    pub open spec fn wf(&self) -> bool {
        &&& forall|s: u64|
            s < 64 ==> #[trigger] self.pawn_attacks[0][s as int] == pawn_targets(s, Color::White)
        &&& forall|s: u64|
            s < 64 ==> #[trigger] self.pawn_attacks[1][s as int] == pawn_targets(s, Color::Black)
        &&& forall|s: u64| s < 64 ==> #[trigger] self.knight_attacks[s as int] == knight_targets(s)
        &&& forall|s: u64| s < 64 ==> #[trigger] self.king_attacks[s as int] == king_targets(s)
        &&& table_shape(self.bishop_attacks@, 512)
        &&& table_shape(self.rook_attacks@, 4096)
        &&& slider_data_ok(true, self.bishop_masks@, self.bishop_magics@, self.bishop_relevant_bits@)
        &&& slider_data_ok(false, self.rook_masks@, self.rook_magics@, self.rook_relevant_bits@)
        &&& self.tables_checked ==> {
            &&& table_agrees(
                true,
                self.bishop_attacks@,
                self.bishop_magics@,
                self.bishop_relevant_bits@,
            )
            &&& table_agrees(false, self.rook_attacks@, self.rook_magics@, self.rook_relevant_bits@)
        }
    }

    /// Builds every table: the direct ones square by square, the slider ones
    /// by magic hashing, and then checks the slider tables.
    pub fn new() -> (c: Self)
        ensures
            c.wf(),
            rows_filled(true, c.bishop_attacks@, 64),
            rows_filled(false, c.rook_attacks@, 64),
    {
        let mut pawn_attacks: [[u64; 64]; 2] = [[0u64; 64]; 2];
        let mut knight_attacks: [u64; 64] = [0u64; 64];
        let mut king_attacks: [u64; 64] = [0u64; 64];
        let mut square: usize = 0;
        while square < 64
            invariant
                square <= 64,
                forall|s: u64|
                    s < square ==> #[trigger] pawn_attacks[0][s as int] == pawn_targets(
                        s,
                        Color::White,
                    ),
                forall|s: u64|
                    s < square ==> #[trigger] pawn_attacks[1][s as int] == pawn_targets(
                        s,
                        Color::Black,
                    ),
                forall|s: u64| s < square ==> #[trigger] knight_attacks[s as int] == knight_targets(s),
                forall|s: u64| s < square ==> #[trigger] king_attacks[s as int] == king_targets(s),
            decreases 64 - square,
        {
            pawn_attacks[0][square] = mask_pawn_attacks(square as u64, Color::White);
            pawn_attacks[1][square] = mask_pawn_attacks(square as u64, Color::Black);
            knight_attacks[square] = mask_knight_attacks(square as u64);
            king_attacks[square] = mask_king_attacks(square as u64);
            square = square + 1;
        }
        let mut bishop_attacks = zero_table(64, BISHOP_TABLE_SIZE);
        let mut rook_attacks = zero_table(64, ROOK_TABLE_SIZE);
        init_slider_attacks(true, &mut bishop_attacks, &mut rook_attacks);
        init_slider_attacks(false, &mut bishop_attacks, &mut rook_attacks);
        let (bishop_masks, bishop_magics, bishop_relevant_bits) = slider_data(true);
        let (rook_masks, rook_magics, rook_relevant_bits) = slider_data(false);
        let bishops_ok = table_is_sound(
            true,
            &bishop_attacks,
            &bishop_masks,
            &bishop_magics,
            &bishop_relevant_bits,
        );
        let rooks_ok = table_is_sound(
            false,
            &rook_attacks,
            &rook_masks,
            &rook_magics,
            &rook_relevant_bits,
        );
        Constants {
            pawn_attacks,
            knight_attacks,
            king_attacks,
            bishop_attacks,
            rook_attacks,
            bishop_masks,
            rook_masks,
            bishop_magics,
            rook_magics,
            bishop_relevant_bits,
            rook_relevant_bits,
            tables_checked: bishops_ok && rooks_ok,
        }
    }
}

/// The relevance masks, magic numbers and relevant-bit counts of the kind.
fn slider_data(is_bishop: bool) -> (r: (Vec<u64>, Vec<u64>, Vec<u64>))
    ensures
        slider_data_ok(is_bishop, r.0@, r.1@, r.2@),
{
    let mut masks: Vec<u64> = Vec::new();
    let mut magics: Vec<u64> = Vec::new();
    let mut bits: Vec<u64> = Vec::new();
    let mut square: usize = 0;
    while square < 64
        invariant
            square <= 64,
            masks@.len() == square,
            magics@.len() == square,
            bits@.len() == square,
            forall|s: u64| s < square ==> #[trigger] masks@[s as int] == slider_mask(is_bishop, s),
            forall|s: u64| s < square ==> #[trigger] bits@[s as int] == popcount(masks@[s as int]),
            forall|s: u64| s < square ==> #[trigger] magics@[s as int] == magic_of(is_bishop, s),
        decreases 64 - square,
    {
        let mask = relevance_mask(is_bishop, square as u64);
        masks.push(mask);
        magics.push(magic_number(is_bishop, square));
        bits.push(count_bits(mask) as u64);
        square = square + 1;
    }
    (masks, magics, bits)
}

/// Squares a bishop on `square` attacks when the squares of `occupancy` are
/// occupied, looked up in the magic table.
pub fn get_bishop_attacks(c: &Constants, square: usize, occupancy: u64) -> (r: u64)
    requires
        c.wf(),
        square < 64,
    ensures
        r == bishop_rays(square as u64, occupancy),
{
    proof {
        lemma_bishop_relevance(square as u64, occupancy);
        assert(c.bishop_masks@[square as u64 as int] == slider_mask(true, square as u64));
    }
    if c.tables_checked {
        let masked = occupancy & c.bishop_masks[square];
        let bits = c.bishop_relevant_bits[square];
        proof {
            lemma_mask_fits(true, square as u64);
            assert(c.bishop_relevant_bits@[square as u64 as int] == popcount(c.bishop_masks@[square as u64 as int]));
            assert(table_entry(
                c.bishop_attacks@,
                c.bishop_magics@[square as u64 as int],
                c.bishop_relevant_bits@[square as u64 as int],
                slider_mask(true, square as u64),
                square as u64,
                occupancy,
            ) == slider_rays(true, square as u64, occupancy & slider_mask(true, square as u64)));
            assert(c.bishop_attacks@[square as int]@.len() == 512);
        }
        let index = magic_index_of(masked, c.bishop_magics[square], bits);
        c.bishop_attacks[square][index as usize]
    } else {
        dynamic_bishop_attacks(square as u64, occupancy)
    }
}

/// Squares a rook on `square` attacks when the squares of `occupancy` are
/// occupied, looked up in the magic table.
pub fn get_rook_attacks(c: &Constants, square: usize, occupancy: u64) -> (r: u64)
    requires
        c.wf(),
        square < 64,
    ensures
        r == rook_rays(square as u64, occupancy),
{
    proof {
        lemma_rook_relevance(square as u64, occupancy);
        assert(c.rook_masks@[square as u64 as int] == slider_mask(false, square as u64));
    }
    if c.tables_checked {
        let masked = occupancy & c.rook_masks[square];
        let bits = c.rook_relevant_bits[square];
        proof {
            lemma_mask_fits(false, square as u64);
            assert(c.rook_relevant_bits@[square as u64 as int] == popcount(c.rook_masks@[square as u64 as int]));
            assert(table_entry(
                c.rook_attacks@,
                c.rook_magics@[square as u64 as int],
                c.rook_relevant_bits@[square as u64 as int],
                slider_mask(false, square as u64),
                square as u64,
                occupancy,
            ) == slider_rays(false, square as u64, occupancy & slider_mask(false, square as u64)));
            assert(c.rook_attacks@[square as int]@.len() == 4096);
        }
        let index = magic_index_of(masked, c.rook_magics[square], bits);
        c.rook_attacks[square][index as usize]
    } else {
        dynamic_rook_attacks(square as u64, occupancy)
    }
}

/// Squares a queen on `square` attacks: the bishop and the rook attacks together.
pub fn get_queen_attacks(c: &Constants, square: usize, occupancy: u64) -> (r: u64)
    requires
        c.wf(),
        square < 64,
    ensures
        r == bishop_rays(square as u64, occupancy) | rook_rays(square as u64, occupancy),
{
    get_bishop_attacks(c, square, occupancy) | get_rook_attacks(c, square, occupancy)
}

// The magic numbers below were found offline by a brute-force search over
// sparse random candidates; `Constants::new` checks the tables they give
// against the ray walk before using them.

/// Per square, the multiplier that hashes rook blockers.
pub const ROOK_MAGIC_NUMBERS: [u64; 64] = [
    0x8a80104000800020, 0x0140002000100040, 0x02801880a0017001, 0x0100081001000420,
    0x0200020010080420, 0x03001c0002010008, 0x8480008002000100, 0x2080088004402900,
    0x0000800098204000, 0x2024401000200040, 0x0100802000801000, 0x0120800800801000,
    0x0208808088000400, 0x0002802200800400, 0x2200800100020080, 0x0801000060821100,
    0x0080044006422000, 0x0100808020004000, 0x12108a0010204200, 0x0140848010000802,
    0x0481828014002800, 0x8094004002004100, 0x4010040010010802, 0x0000020008806104,
    0x0100400080208000, 0x2040002120081000, 0x0021200680100081, 0x0020100080080080,
    0x0002000a00200410, 0x0000020080800400, 0x0080088400100102, 0x0080004600042881,
    0x4040008040800020, 0x0440003000200801, 0x0004200011004500, 0x0188020010100100,
    0x0014800401802800, 0x2080040080800200, 0x0124080204001001, 0x0200046502000484,
    0x0480400080088020, 0x1000422010034000, 0x0030200100110040, 0x0000100021010009,
    0x2002080100110004, 0x0202008004008002, 0x0020020004010100, 0x2048440040820001,
    0x0101002200408200, 0x0040802000401080, 0x4008142004410100, 0x02060820c0120200,
    0x0001001004080100, 0x020c020080040080, 0x2935610830022400, 0x0044440041009200,
    0x0280001040802101, 0x2100190040002085, 0x80c0084100102001, 0x4024081001000421,
    0x00020030a0244872, 0x0012001008414402, 0x02006104900a0804, 0x0001004081002402,
];

/// Per square, the multiplier that hashes bishop blockers.
pub const BISHOP_MAGIC_NUMBERS: [u64; 64] = [
    0x0040040844404084, 0x002004208a004208, 0x0010190041080202, 0x0108060845042010,
    0x0581104180800210, 0x2112080446200010, 0x1080820820060210, 0x03c0808410220200,
    0x0004050404440404, 0x0000021001420088, 0x24d0080801082102, 0x0001020a0a020400,
    0x0000040308200402, 0x0004011002100800, 0x0401484104104005, 0x0801010402020200,
    0x00400210c3880100, 0x0404022024108200, 0x0810018200204102, 0x0004002801a02003,
    0x0085040820080400, 0x810102c808880400, 0x000e900410884800, 0x8002020480840102,
    0x0220200865090201, 0x2010100a02021202, 0x0152048408022401, 0x0020080002081110,
    0x4001001021004000, 0x800040400a011002, 0x00e4004081011002, 0x001c004001012080,
    0x8004200962a00220, 0x8422100208500202, 0x2000402200300c08, 0x8646020080080080,
    0x80020a0200100808, 0x2010004880111000, 0x623000a080011400, 0x42008c0340209202,
    0x0209188240001000, 0x400408a884001800, 0x00110400a6080400, 0x1840060a44020800,
    0x0090080104000041, 0x0201011000808101, 0x1a2208080504f080, 0x8012020600211212,
    0x0500861011240000, 0x0180806108200800, 0x4000020e01040044, 0x300000261044000a,
    0x0802241102020002, 0x0020906061210001, 0x5a84841004010310, 0x0004010801011c04,
    0x000a010109502200, 0x0000004a02012000, 0x500201010098b028, 0x8040002811040900,
    0x0028000010020204, 0x06000020202d0240, 0x8918844842082200, 0x4010011029020020,
];

} // verus!
