//! Enumeration of the blocker configurations of a relevance mask: index `n`
//! picks the subset whose members follow the binary digits of `n`, taken
//! against the mask's squares in ascending order.
use vstd::prelude::*;
use vstd::arithmetic::power2::pow2;
use crate::bits::{
    bit, single, popcount, lowest_square, lemma_clear_lowest, lemma_lowest_square,
    lemma_bit_ops, lemma_single_bit, lemma_bits_ext, get_lsb_index, pop_bit,
};

verus! {

/// The occupancy that index `index` selects from the lowest `k` squares of `mask`.
pub open spec fn occupancy_subset(index: nat, k: nat, mask: u64) -> u64
    decreases k,
{
    if k == 0 || mask == 0 {
        0
    } else {
        let s = lowest_square(mask);
        let rest = occupancy_subset(index / 2, (k - 1) as nat, mask & !single(s));
        if index % 2 == 1 {
            single(s) | rest
        } else {
            rest
        }
    }
}

/// The index under which the enumeration of `mask` yields `occ & mask`.
pub open spec fn subset_index(occ: u64, mask: u64) -> nat
    decreases mask,
    via subset_index_decreases
{
    if mask == 0 {
        0
    } else {
        let s = lowest_square(mask);
        (if bit(occ, s) {
            1nat
        } else {
            0nat
        }) + 2 * subset_index(occ, mask & !single(s))
    }
}

#[via_fn]
proof fn subset_index_decreases(occ: u64, mask: u64) {
    if mask != 0 {
        lemma_clear_lowest_smaller(mask);
    }
}

proof fn lemma_clear_lowest_smaller(mask: u64)
    requires
        mask != 0,
    ensures
        (mask & !single(lowest_square(mask))) < mask,
{
    lemma_clear_lowest(mask);
    assert((mask & ((mask - 1) as u64)) < mask) by (bit_vector)
        requires
            mask != 0,
    ;
}

/// Every subset of a mask is enumerated: `subset_index` finds the index
/// below `2^popcount(mask)` that yields `occ & mask`.
pub proof fn lemma_enumeration_onto(occ: u64, mask: u64)
    ensures
        subset_index(occ, mask) < pow2(popcount(mask)),
        occupancy_subset(subset_index(occ, mask), popcount(mask), mask) == occ & mask,
    decreases mask,
{
    if mask == 0 {
        crate::bits::lemma_or_facts(occ, occ, occ);
        vstd::arithmetic::power2::lemma2_to64();
    } else {
        lemma_clear_lowest(mask);
        lemma_clear_lowest_smaller(mask);
        let s = lowest_square(mask);
        let m2 = mask & !single(s);
        lemma_enumeration_onto(occ, m2);
        let k = popcount(mask);
        let n = subset_index(occ, mask);
        let n2 = subset_index(occ, m2);
        assert(n / 2 == n2 && (n % 2 == 1) == bit(occ, s));
        vstd::arithmetic::power2::lemma_pow2_unfold(k);
        assert(popcount(m2) == (k - 1) as nat);
        let rest = occupancy_subset(n2, (k - 1) as nat, m2);
        assert(rest == occ & m2);
        let whole = if n % 2 == 1 { single(s) | rest } else { rest };
        assert forall|i: u64| i < 64 implies bit(whole, i) == bit(occ & mask, i) by {
            lemma_bit_ops(occ, mask, i);
            lemma_bit_ops(occ, m2, i);
            lemma_bit_ops(single(s), rest, i);
            lemma_bit_ops(mask, single(s), i);
            lemma_single_bit(s, i);
        }
        lemma_bits_ext(whole, occ & mask);
    }
}

/// The occupancy of `attack_mask` that `index` selects (see
/// `occupancy_subset`), over its lowest `bits_in_mask` squares.
pub fn set_occupancies(index: usize, bits_in_mask: usize, attack_mask: u64) -> (r: u64)
    requires
        bits_in_mask <= popcount(attack_mask),
    ensures
        r == occupancy_subset(index as nat, bits_in_mask as nat, attack_mask),
{
    let mut occupancy: u64 = 0;
    let mut mask: u64 = attack_mask;
    let mut count: usize = 0;
    let ghost mut rest: nat = index as nat;
    proof {
        crate::bits::lemma_popcount_le_64(attack_mask);
        let whole = occupancy_subset(index as nat, bits_in_mask as nat, attack_mask);
        crate::bits::lemma_or_facts(whole, whole, whole);
        let x = index as u64;
        crate::bits::lemma_or_facts(x, x, x);
    }
    while count < bits_in_mask
        invariant
            count <= bits_in_mask,
            bits_in_mask <= 64,
            bits_in_mask - count <= popcount(mask),
            rest == ((index as u64) >> (count as u64)) as nat,
            occupancy | occupancy_subset(rest, (bits_in_mask - count) as nat, mask)
                == occupancy_subset(index as nat, bits_in_mask as nat, attack_mask),
        decreases bits_in_mask - count,
    {
        proof {
            if mask == 0 {
                assert(popcount(mask) == 0);
            }
            lemma_clear_lowest(mask);
            lemma_lowest_square(mask);
        }
        let square = match get_lsb_index(mask) {
            Ok(v) => v,
            Err(_) => {
                proof {
                    assert(false);
                }
                0
            },
        };
        let ghost old_occ = occupancy;
        mask = pop_bit(mask, square as u64);
        let ghost tail = occupancy_subset(rest / 2, (bits_in_mask - count - 1) as nat, mask);
        let x = index as u64;
        let c = count as u64;
        proof {
            assert(((x >> c) % 2 == 1) == (x & (1u64 << c) != 0) && (x >> c) / 2 == x >> ((c
                + 1) as u64)) by (bit_vector)
                requires
                    c < 64,
            ;
        }
        if x & (1u64 << c) != 0 {
            occupancy = occupancy | (1u64 << (square as u64));
            proof {
                let sb = single(square as u64);
                crate::bits::lemma_or_facts(old_occ, sb, tail);
            }
        }
        count = count + 1;
        proof {
            rest = rest / 2;
        }
    }
    proof {
        crate::bits::lemma_or_facts(occupancy, occupancy, occupancy);
    }
    occupancy
}

} // verus!
