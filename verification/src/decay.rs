//! The half-life decay multiplier, in fixed point.
//!
//! The engine relaxes every intensity toward zero with the formula
//! `new = max(current * 0.5^(elapsed / half_life) - linear_reduction, 0)`.
//! The multiplier `0.5^(elapsed / half_life)` is computed here in steps of
//! `SCALE`: each whole half-life halves the value, and the fractional part
//! `f` of the exponent (also in steps of `SCALE`) multiplies the value by
//! the quadratic `1 - A*f + B*f^2`, which is exactly `1` at `f = 0` and
//! exactly `1/2` at `f = 1`. After twenty half-lives the multiplier is
//! treated as zero outright: it is below one fixed-point step there anyway.

use vstd::arithmetic::div_mod::{
    lemma_div_is_ordered, lemma_div_nonincreasing, lemma_div_pos_is_pos, lemma_multiply_divide_le,
    lemma_multiply_divide_lt,
};
use vstd::arithmetic::mul::{lemma_mul_inequality, lemma_mul_nonnegative};
use vstd::prelude::*;

use crate::units::SCALE;

verus! {

/// Linear coefficient of the quadratic approximation of `0.5^f`, in steps
/// of `SCALE`.
pub const FRAC_A: i64 = 690_000;

/// Quadratic coefficient of the approximation of `0.5^f`, in steps of
/// `SCALE`.
pub const FRAC_B: i64 = 190_000;

/// Number of whole half-lives beyond which the multiplier is taken as zero.
pub const CUTOFF_HALF_LIVES: u64 = 20;

/// `2^k`.
pub open spec fn pow2(k: nat) -> nat
    decreases k,
{
    if k == 0 {
        1
    } else {
        2 * pow2((k - 1) as nat)
    }
}

/// The decay multiplier `0.5^(elapsed / half_life)` in steps of `SCALE`.
pub open spec fn spec_decay_factor(elapsed: int, half_life: int) -> int
    recommends
        0 <= elapsed,
        1 <= half_life,
{
    let q = elapsed / half_life;
    let f = ((elapsed % half_life) * (SCALE as int)) / half_life;
    let inner = (FRAC_A as int) - ((FRAC_B as int) * f) / (SCALE as int);
    let frac = (SCALE as int) - (f * inner) / (SCALE as int);
    if q >= CUTOFF_HALF_LIVES as int {
        0
    } else {
        frac / (pow2(q as nat) as int)
    }
}

/// The decay multiplier never leaves `[0, SCALE]`: decaying can only shrink
/// an intensity. With no time elapsed it is exactly `SCALE`, that is `1`.
pub proof fn lemma_decay_factor_bounds(elapsed: int, half_life: int)
    requires
        0 <= elapsed,
        1 <= half_life,
    ensures
        0 <= spec_decay_factor(elapsed, half_life) <= SCALE,
        elapsed == 0 ==> spec_decay_factor(elapsed, half_life) == SCALE,
{
    let q = elapsed / half_life;
    let r = elapsed % half_life;
    let f = (r * (SCALE as int)) / half_life;
    let inner = (FRAC_A as int) - ((FRAC_B as int) * f) / (SCALE as int);
    let frac = (SCALE as int) - (f * inner) / (SCALE as int);

    lemma_div_pos_is_pos(elapsed, half_life);
    assert(0 <= r < half_life);
    lemma_mul_nonnegative(r, SCALE as int);
    lemma_div_pos_is_pos(r * (SCALE as int), half_life);
    assert(r * (SCALE as int) <= half_life * (SCALE as int)) by {
        lemma_mul_inequality(r, half_life, SCALE as int);
    }
    assert(f <= SCALE) by {
        lemma_multiply_divide_le(r * (SCALE as int), half_life, SCALE as int);
    }

    lemma_mul_nonnegative(FRAC_B as int, f);
    lemma_div_pos_is_pos((FRAC_B as int) * f, SCALE as int);
    assert((FRAC_B as int) * f <= (SCALE as int) * (FRAC_B as int)) by {
        lemma_mul_inequality(f, SCALE as int, FRAC_B as int);
    }
    assert(((FRAC_B as int) * f) / (SCALE as int) <= FRAC_B) by {
        lemma_multiply_divide_le((FRAC_B as int) * f, SCALE as int, FRAC_B as int);
    }
    assert(FRAC_A - FRAC_B <= inner <= FRAC_A);

    lemma_mul_nonnegative(f, inner);
    lemma_div_pos_is_pos(f * inner, SCALE as int);
    assert(f * inner <= (SCALE as int) * inner) by {
        lemma_mul_inequality(f, SCALE as int, inner);
    }
    assert((f * inner) / (SCALE as int) <= inner) by {
        lemma_multiply_divide_le(f * inner, SCALE as int, inner);
    }
    assert(SCALE - FRAC_A <= frac <= SCALE);

    if q >= CUTOFF_HALF_LIVES {
        assert(0 <= spec_decay_factor(elapsed, half_life) <= SCALE);
    } else {
        lemma_pow2_pos(q as nat);
        lemma_div_pos_is_pos(frac, pow2(q as nat) as int);
        lemma_div_nonincreasing(frac, pow2(q as nat) as int);
        assert(0 <= spec_decay_factor(elapsed, half_life) <= SCALE);
    }

    if elapsed == 0 {
        vstd::arithmetic::div_mod::lemma_div_of0(half_life);
        vstd::arithmetic::div_mod::lemma_small_mod(0, half_life as nat);
        assert(q == 0 && r == 0);
        assert(0 * (SCALE as int) == 0) by (nonlinear_arith);
        assert(f == 0) by {
            vstd::arithmetic::div_mod::lemma_div_of0(half_life);
        }
        assert(FRAC_B * 0 == 0) by (nonlinear_arith);
        assert(0 * inner == 0) by (nonlinear_arith);
        assert((0int) / (SCALE as int) == 0) by {
            vstd::arithmetic::div_mod::lemma_div_of0(SCALE as int);
        }
        assert(frac == SCALE);
        assert(pow2(0) == 1);
        assert(SCALE as int / 1int == SCALE as int);
    }
}

/// One whole decay step: the intensity is multiplied by the decay factor,
/// the linear reduction is subtracted, and the result is clamped at zero.
pub open spec fn spec_decay(current: int, elapsed: int, linear: int, half_life: int) -> int
    recommends
        0 <= current,
        0 <= elapsed,
        0 <= linear,
        1 <= half_life,
{
    let scaled = (current * spec_decay_factor(elapsed, half_life)) / (SCALE as int);
    if scaled - linear <= 0 {
        0
    } else {
        scaled - linear
    }
}

/// Scaling a non-negative value by a factor of at most `SCALE` keeps it
/// between zero and the value itself.
pub proof fn lemma_scale_le(current: int, factor: int)
    requires
        0 <= current,
        0 <= factor <= SCALE,
    ensures
        0 <= (current * factor) / (SCALE as int) <= current,
{
    lemma_mul_nonnegative(current, factor);
    lemma_div_pos_is_pos(current * factor, SCALE as int);
    assert(current * factor <= current * (SCALE as int)) by {
        if current > 0 {
            vstd::arithmetic::mul::lemma_mul_left_inequality(current, factor, SCALE as int);
        } else {
            assert(0 * factor == 0) by (nonlinear_arith);
            assert(0 * (SCALE as int) == 0) by (nonlinear_arith);
        }
    }
    assert((current * factor) / (SCALE as int) <= current) by {
        vstd::arithmetic::mul::lemma_mul_is_commutative(current, SCALE as int);
        lemma_multiply_divide_le(current * factor, SCALE as int, current);
    }
}

/// Decaying a non-negative intensity with a non-negative linear reduction
/// can only shrink it, and never below zero.
pub proof fn lemma_decay_bounds(current: int, elapsed: int, linear: int, half_life: int)
    requires
        0 <= current,
        0 <= elapsed,
        0 <= linear,
        1 <= half_life,
    ensures
        0 <= spec_decay(current, elapsed, linear, half_life) <= current,
{
    lemma_decay_factor_bounds(elapsed, half_life);
    lemma_scale_le(current, spec_decay_factor(elapsed, half_life));
}

/// `2^k` is positive.
pub proof fn lemma_pow2_pos(k: nat)
    ensures
        pow2(k) >= 1,
    decreases k,
{
    if k > 0 {
        lemma_pow2_pos((k - 1) as nat);
    }
}

/// Computes the decay multiplier `0.5^(elapsed_us / half_life_us)` in steps
/// of `SCALE`.
pub fn decay_factor(elapsed_us: u64, half_life_us: u64) -> (r: u64)
    requires
        half_life_us >= 1,
    ensures
        r == spec_decay_factor(elapsed_us as int, half_life_us as int),
        0 <= r <= SCALE,
{
    proof {
        lemma_decay_factor_bounds(elapsed_us as int, half_life_us as int);
    }
    let q: u64 = elapsed_us / half_life_us;
    let rem: u64 = elapsed_us % half_life_us;
    let f_wide: u128 = (rem as u128) * (SCALE as u128) / (half_life_us as u128);
    proof {
        lemma_mul_nonnegative(rem as int, SCALE as int);
        assert((rem as int) * (SCALE as int) < (half_life_us as int) * (SCALE as int)) by {
            vstd::arithmetic::mul::lemma_mul_strict_inequality(
                rem as int,
                half_life_us as int,
                SCALE as int,
            );
        }
        assert(f_wide < SCALE) by {
            lemma_multiply_divide_lt((rem as int) * (SCALE as int), half_life_us as int, SCALE as int);
        }
    }
    let f: u64 = f_wide as u64;
    let bf: u64 = (FRAC_B as u64) * f;
    proof {
        assert((FRAC_B as int) * (f as int) <= (FRAC_B as int) * (SCALE as int)) by {
            vstd::arithmetic::mul::lemma_mul_left_inequality(FRAC_B as int, f as int, SCALE as int);
        }
        lemma_mul_nonnegative(FRAC_B as int, f as int);
        lemma_div_pos_is_pos((FRAC_B as int) * (f as int), SCALE as int);
        assert(((FRAC_B as int) * (f as int)) / (SCALE as int) <= FRAC_B) by {
            lemma_mul_inequality(f as int, SCALE as int, FRAC_B as int);
            lemma_multiply_divide_le((FRAC_B as int) * (f as int), SCALE as int, FRAC_B as int);
        }
    }
    let inner: u64 = (FRAC_A as u64) - bf / (SCALE as u64);
    proof {
        lemma_mul_nonnegative(f as int, inner as int);
        assert((f as int) * (inner as int) <= (SCALE as int) * (inner as int)) by {
            lemma_mul_inequality(f as int, SCALE as int, inner as int);
        }
        assert(((f as int) * (inner as int)) / (SCALE as int) <= inner) by {
            lemma_multiply_divide_le((f as int) * (inner as int), SCALE as int, inner as int);
        }
        lemma_div_pos_is_pos((f as int) * (inner as int), SCALE as int);
    }
    let t: u64 = f * inner / (SCALE as u64);
    let frac: u64 = (SCALE as u64) - t;
    if q >= CUTOFF_HALF_LIVES {
        0
    } else {
        let mut p: u64 = 1;
        let mut i: u64 = 0;
        proof {
            assert(pow2(19) == 524288) by {
                reveal_with_fuel(pow2, 20);
            }
        }
        while i < q
            invariant
                i <= q < CUTOFF_HALF_LIVES,
                p == pow2(i as nat),
                pow2(19) == 524288,
            decreases q - i,
        {
            proof {
                lemma_pow2_monotone((i + 1) as nat, 19);
            }
            p = p * 2;
            i = i + 1;
        }
        proof {
            lemma_pow2_pos(q as nat);
            lemma_div_is_ordered(frac as int, SCALE as int, pow2(q as nat) as int);
            lemma_div_nonincreasing(frac as int, pow2(q as nat) as int);
            lemma_div_pos_is_pos(frac as int, pow2(q as nat) as int);
        }
        frac / p
    }
}

/// `pow2` is monotone.
pub proof fn lemma_pow2_monotone(j: nat, k: nat)
    requires
        j <= k,
    ensures
        pow2(j) <= pow2(k),
    decreases k,
{
    if j < k && k > 0 {
        lemma_pow2_monotone(j, (k - 1) as nat);
        lemma_pow2_pos((k - 1) as nat);
    }
}

} // verus!
