//! Saturating fixed-point arithmetic for distance values.
//!
//! Distances are held as `u64` values that saturate at `u64::MAX`; the
//! saturation point plays the role of "unreachably far away".

use vstd::prelude::*;
use vstd::arithmetic::power::pow;
use vstd::arithmetic::mul::lemma_mul_inequality;
use vstd::arithmetic::div_mod::lemma_fundamental_div_mod;

verus! {

/// Clamp a mathematical integer into the `u64` range from above.
pub open spec fn sat64(v: int) -> int {
    if v > u64::MAX as int {
        u64::MAX as int
    } else {
        v
    }
}

/// Saturating sum of two distance values.
pub open spec fn sat_add_spec(a: int, b: int) -> int {
    sat64(a + b)
}

/// Saturating power `min(b^e, u64::MAX)`.
pub open spec fn sat_pow_spec(b: int, e: nat) -> int {
    sat64(pow(b, e))
}

/// Adds two distance values, saturating at `u64::MAX`.
pub fn sat_add(a: u64, b: u64) -> (r: u64)
    ensures
        r as int == sat_add_spec(a as int, b as int),
{
    if a > u64::MAX - b {
        u64::MAX
    } else {
        a + b
    }
}

/// A power with a non-negative base is non-negative.
pub proof fn lemma_pow_nonneg(b: int, e: nat)
    requires
        b >= 0,
    ensures
        pow(b, e) >= 0,
    decreases e,
{
    reveal(pow);
    if e > 0 {
        lemma_pow_nonneg(b, (e - 1) as nat);
        lemma_mul_inequality(0, pow(b, (e - 1) as nat), b);
    }
}

/// A power is monotone in its base, for non-negative bases.
pub proof fn lemma_pow_le_base(b1: int, b2: int, e: nat)
    requires
        0 <= b1 <= b2,
    ensures
        pow(b1, e) <= pow(b2, e),
    decreases e,
{
    reveal(pow);
    if e > 0 {
        lemma_pow_le_base(b1, b2, (e - 1) as nat);
        lemma_pow_nonneg(b1, (e - 1) as nat);
        assert(pow(b1, (e - 1) as nat) * b1 <= pow(b2, (e - 1) as nat) * b2) by (nonlinear_arith)
            requires
                0 <= pow(b1, (e - 1) as nat) <= pow(b2, (e - 1) as nat),
                0 <= b1 <= b2,
        {
        }
        assert(pow(b1, e) == pow(b1, (e - 1) as nat) * b1) by {
            assert(pow(b1, e) == b1 * pow(b1, (e - 1) as nat));
            vstd::arithmetic::mul::lemma_mul_is_commutative(b1, pow(b1, (e - 1) as nat));
        }
        assert(pow(b2, e) == pow(b2, (e - 1) as nat) * b2) by {
            assert(pow(b2, e) == b2 * pow(b2, (e - 1) as nat));
            vstd::arithmetic::mul::lemma_mul_is_commutative(b2, pow(b2, (e - 1) as nat));
        }
    }
}

/// The saturating power is monotone in its base.
pub proof fn lemma_sat_pow_le_base(b1: int, b2: int, e: nat)
    requires
        0 <= b1 <= b2,
    ensures
        0 <= sat_pow_spec(b1, e) <= sat_pow_spec(b2, e),
{
    lemma_pow_le_base(b1, b2, e);
    lemma_pow_nonneg(b1, e);
}

/// Raises a distance value to a power, saturating at `u64::MAX`.
pub fn sat_pow(b: u64, e: u64) -> (r: u64)
    ensures
        r as int == sat_pow_spec(b as int, e as nat),
{
    proof {
        reveal(pow);
    }
    let mut acc: u64 = 1;
    let mut i: u64 = 0;
    while i < e
        invariant
            0 <= i <= e,
            acc as int == sat_pow_spec(b as int, i as nat),
        decreases e - i,
    {
        let ghost powi = pow(b as int, i as nat);
        proof {
            reveal(pow);
            lemma_pow_nonneg(b as int, i as nat);
            assert(pow(b as int, (i + 1) as nat) == (b as int) * powi);
            assert(acc as int <= powi);
        }
        if b != 0 && acc > u64::MAX / b {
            proof {
                lemma_fundamental_div_mod(u64::MAX as int, b as int);
                let q = u64::MAX as int / b as int;
                assert((acc as int) * (b as int) > u64::MAX as int) by (nonlinear_arith)
                    requires
                        u64::MAX as int == (b as int) * q + u64::MAX as int % (b as int),
                        u64::MAX as int % (b as int) < b as int,
                        acc as int >= q + 1,
                        b as int >= 1,
                {
                }
                assert((b as int) * powi > u64::MAX as int) by (nonlinear_arith)
                    requires
                        acc as int <= powi,
                        (acc as int) * (b as int) > u64::MAX as int,
                        b as int >= 1,
                {
                }
            }
            acc = u64::MAX;
        } else {
            proof {
                if b != 0 {
                    lemma_fundamental_div_mod(u64::MAX as int, b as int);
                    let q = u64::MAX as int / b as int;
                    assert((acc as int) * (b as int) <= u64::MAX as int) by (nonlinear_arith)
                        requires
                            u64::MAX as int == (b as int) * q + u64::MAX as int % (b as int),
                            u64::MAX as int % (b as int) >= 0,
                            0 <= acc as int <= q,
                            b as int >= 1,
                    {
                    }
                    if (acc as int) < powi {
                        // acc saturated at MAX, yet acc <= MAX / b: only possible for
                        // b == 1, whose powers never exceed MAX.
                        assert(acc == u64::MAX);
                        assert(b as int == 1) by (nonlinear_arith)
                            requires
                                u64::MAX as int == (b as int) * q + u64::MAX as int % (b as int),
                                0 <= u64::MAX as int % (b as int) < b as int,
                                u64::MAX as int <= q,
                                b as int >= 1,
                        {
                        }
                        vstd::arithmetic::power::lemma1_pow(i as nat);
                        assert(false);
                    }
                }
            }
            acc = acc * b;
        }
        i = i + 1;
    }
    acc
}

} // verus!
