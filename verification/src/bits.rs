use vstd::prelude::*;

verus! {

use vstd::std_specs::bits::{u64_trailing_zeros, axiom_u64_trailing_zeros};

/// Bit `i` of `x` is set.
pub open spec fn bit_set(x: u64, i: u64) -> bool {
    (x >> i) & 1u64 == 1u64
}

pub proof fn lemma_set_bit(x: u64, s: u64, j: u64)
    by (bit_vector)
    requires
        s < 64,
        j < 64,
    ensures
        (((x | (1u64 << s)) >> j) & 1u64 == 1u64) == (((x >> j) & 1u64 == 1u64) || j == s),
{
}

pub proof fn lemma_clear_bit(x: u64, s: u64, j: u64)
    by (bit_vector)
    requires
        s < 64,
        j < 64,
    ensures
        (((x & !(1u64 << s)) >> j) & 1u64 == 1u64) == (((x >> j) & 1u64 == 1u64) && j != s),
{
}

pub proof fn lemma_mask_from(x: u64, t: u64, j: u64)
    by (bit_vector)
    requires
        t < 64,
        j < 64,
    ensures
        (((x & !(((1u64 << t) - 1u64) as u64)) >> j) & 1u64 == 1u64) == (((x >> j) & 1u64 == 1u64) && j >= t),
{
}

proof fn lemma_clear_lowest_bv(m: u64, t: u64, j: u64)
    by (bit_vector)
    requires
        t < 64,
        j < 64,
        (m >> t) & 1u64 == 1u64,
        m << ((64 - t) as u64) == 0u64,
    ensures
        (((m & ((m - 1u64) as u64)) >> j) & 1u64 == 1u64) == (((m >> j) & 1u64 == 1u64) && j != t),
{
}

pub proof fn lemma_shl_one_pos(t: u64)
    by (bit_vector)
    requires
        t < 64,
    ensures
        1u64 << t >= 1u64,
{
}

proof fn lemma_zero_bits(j: u64)
    by (bit_vector)
    ensures
        (0u64 >> j) & 1u64 != 1u64,
{
}

/// The position of the lowest set bit of a non-zero word: it is set, no bit
/// below it is, and clearing it with `m & (m - 1)` leaves every other bit.
pub proof fn lemma_lowest_bit(m: u64)
    requires
        m != 0,
    ensures
        u64_trailing_zeros(m) < 64,
        bit_set(m, u64_trailing_zeros(m) as u64),
        forall|j: u64| j < u64_trailing_zeros(m) ==> !bit_set(m, j),
        forall|j: u64|
            j < 64 ==> (bit_set(m & (m - 1u64) as u64, j) == (bit_set(m, j) && j != u64_trailing_zeros(
                m,
            ) as u64)),
{
    axiom_u64_trailing_zeros(m);
    let t = u64_trailing_zeros(m) as u64;
    assert forall|j: u64| j < 64 implies (bit_set(m & (m - 1u64) as u64, j) == (bit_set(m, j) && j
        != t)) by {
        lemma_clear_lowest_bv(m, t, j);
    }
}

/// A zero word has no bit set.
pub proof fn lemma_zero_word(j: u64)
    ensures
        !bit_set(0u64, j),
{
    lemma_zero_bits(j);
}

} // verus!
