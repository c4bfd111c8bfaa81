use vstd::prelude::*;

verus! {

use vstd::arithmetic::power2::{pow2, lemma_pow2_unfold, lemma_pow2_pos, lemma_pow2_strictly_increases, lemma_pow2_adds};
use vstd::bits::{lemma_u64_shr_is_div, lemma_u64_shl_is_mul, lemma_u64_pow2_no_overflow};
use vstd::arithmetic::div_mod::lemma_multiply_divide_lt;

/// Powers of two grow with the exponent.
pub proof fn lemma_pow2_le(a: nat, b: nat)
    requires
        a <= b,
    ensures
        pow2(a) <= pow2(b),
{
    if a < b {
        lemma_pow2_strictly_increases(a, b);
    }
}

/// Index of the highest set bit of `x` (0 for 0 and 1).
pub open spec fn highest_bit(x: u64) -> nat
    decreases x,
{
    if x <= 1 {
        0
    } else {
        1 + highest_bit(x / 2)
    }
}

/// First-level category of a size: how far its highest set bit lies above
/// `raw` (the exponent of the smallest category), or 0 below it.
pub open spec fn fl_of(size: u64, raw: u64) -> nat {
    if highest_bit(size) >= raw {
        (highest_bit(size) - raw) as nat
    } else {
        0
    }
}

/// Second-level category of a size: what lies below its highest set bit,
/// counted in steps of `2^fl_of(size, raw)`.
pub open spec fn sl_of(size: u64, raw: u64) -> nat {
    ((size - pow2(highest_bit(size))) / (pow2(fl_of(size, raw)) as int)) as nat
}

/// The category `(fl, sl)` of a size.
pub open spec fn category_of(size: u64, raw: u64) -> (u64, u64) {
    (fl_of(size, raw) as u64, sl_of(size, raw) as u64)
}

pub proof fn lemma_highest_bit_bounds(x: u64)
    requires
        x > 0,
    ensures
        highest_bit(x) < 64,
        pow2(highest_bit(x)) <= x,
        x < pow2(highest_bit(x) + 1),
    decreases x,
{
    if x <= 1 {
        vstd::arithmetic::power2::lemma2_to64();
    } else {
        lemma_highest_bit_bounds(x / 2);
        lemma_pow2_unfold(highest_bit(x));
        lemma_pow2_unfold(highest_bit(x) + 1);
        if highest_bit(x) >= 64 {
            vstd::arithmetic::power2::lemma2_to64();
            lemma_pow2_le(64, highest_bit(x));
        }
    }
}

pub proof fn lemma_highest_bit_below_64(x: u64)
    ensures
        highest_bit(x) < 64,
{
    if x > 0 {
        lemma_highest_bit_bounds(x);
    }
}

pub proof fn lemma_highest_bit_monotone(x: u64, y: u64)
    requires
        x <= y,
    ensures
        highest_bit(x) <= highest_bit(y),
    decreases y,
{
    if x > 1 {
        lemma_highest_bit_monotone(x / 2, y / 2);
    }
}

/// `63 - leading_zeros` is the highest set bit.
pub proof fn lemma_leading_zeros_highest_bit(x: u64)
    requires
        x > 0,
    ensures
        vstd::std_specs::bits::u64_leading_zeros(x) == 63 - highest_bit(x),
    decreases x,
{
    reveal_with_fuel(vstd::std_specs::bits::u64_leading_zeros, 2);
    if x > 1 {
        lemma_leading_zeros_highest_bit(x / 2);
    }
}

/// The category of any size lies inside the table of a maximum that is at
/// least that size, when there are at most 64 second-level classes.
pub proof fn lemma_category_bounds(size: u64, raw: u64)
    requires
        size > 0,
        raw <= 6,
    ensures
        fl_of(size, raw) < 64,
        sl_of(size, raw) < pow2(raw as nat),
        pow2(raw as nat) <= 64,
{
    lemma_highest_bit_bounds(size);
    let h = highest_bit(size);
    let f = fl_of(size, raw);
    vstd::arithmetic::power2::lemma2_to64();
    lemma_pow2_le(raw as nat, 6);
    lemma_pow2_unfold(h + 1);
    lemma_pow2_pos(f);
    if h >= raw {
        lemma_pow2_adds(f, raw as nat);
        assert(pow2(h) == pow2(f) * pow2(raw as nat));
        let d = size - pow2(h);
        assert(d < pow2(f) * pow2(raw as nat));
        lemma_multiply_divide_lt(d as int, pow2(f) as int, pow2(raw as nat) as int);
    } else {
        assert(pow2(f) == 1);
        if h < raw {
            lemma_pow2_le(h, raw as nat);
        }
    }
}

/// Sizes that are ordered have first-level categories that are ordered.
pub proof fn lemma_fl_monotone(x: u64, y: u64, raw: u64)
    requires
        x <= y,
    ensures
        fl_of(x, raw) <= fl_of(y, raw),
{
    lemma_highest_bit_monotone(x, y);
}

/// Among sizes of at least `2^raw`, a larger size never falls in an earlier
/// category.
pub proof fn lemma_category_monotone(x: u64, y: u64, raw: u64)
    requires
        pow2(raw as nat) <= x <= y,
    ensures
        fl_of(x, raw) < fl_of(y, raw) || (fl_of(x, raw) == fl_of(y, raw) && sl_of(x, raw) <= sl_of(
            y,
            raw,
        )),
{
    lemma_pow2_pos(raw as nat);
    lemma_highest_bit_bounds(x);
    lemma_highest_bit_bounds(y);
    lemma_highest_bit_monotone(x, y);
    let hx = highest_bit(x);
    let hy = highest_bit(y);
    if hx < raw {
        lemma_pow2_le(hx + 1, raw as nat);
    }
    if hx == hy {
        let f = fl_of(x, raw);
        lemma_pow2_pos(f);
        vstd::arithmetic::div_mod::lemma_div_is_ordered(
            (x - pow2(hx)) as int,
            (y - pow2(hy)) as int,
            pow2(f) as int,
        );
    }
}

proof fn lemma_xor_highest(size: u64, h: u64)
    by (bit_vector)
    requires
        h < 64,
        size >> h == 1u64,
    ensures
        size ^ (1u64 << h) == size - (1u64 << h),
        1u64 << h <= size,
{
}

/// Computes the first- and second-level category of `size`, where the
/// smallest category spans `2^minimum_size_raw` sizes.
pub fn get_fl_sl(size: u64, minimum_size: u64, second_level_count: u64, minimum_size_raw: u64) -> (r: (u64, u64))
    requires
        size > 0,
    ensures
        r == category_of(size, minimum_size_raw),
{
    let minimum = minimum_size_raw;
    proof {
        lemma_leading_zeros_highest_bit(size);
        lemma_highest_bit_bounds(size);
    }
    let fl = 63 - size.leading_zeros() as u64;
    let fl_idx = fl.saturating_sub(minimum);
    let shift = if fl >= minimum { fl - minimum } else { 0 };
    proof {
        let h = highest_bit(size);
        assert(fl == h);
        lemma_u64_shr_is_div(size, fl);
        lemma_pow2_unfold(h + 1);
        assert(size as nat / pow2(h) == 1) by {
            lemma_pow2_pos(h);
            lemma_multiply_divide_lt(size as int, pow2(h) as int, 2);
            vstd::arithmetic::div_mod::lemma_div_non_zero(size as int, pow2(h) as int);
        }
        lemma_xor_highest(size, fl);
        lemma_u64_pow2_no_overflow(h);
        lemma_u64_shl_is_mul(1, fl);
        assert(shift == fl_of(size, minimum_size_raw));
        lemma_u64_shr_is_div((size ^ (1u64 << fl)), shift);
    }
    let sl_idx = (size ^ (1u64 << fl)) >> shift;
    (fl_idx, sl_idx)
}

} // verus!
