//! The integer radical inverse: the digits of a counter, reversed.
//!
//! `radical_inverse(k, base, factor)` reverses the base-`base` digit expansion
//! of `k` within the digit positions that `factor == base^scale` provides, and
//! reads the reversed digits back as an integer below `factor`.  It is the
//! mathematical meaning of every value a generator in this crate hands out.

use vstd::arithmetic::div_mod::lemma_basic_div;
use vstd::arithmetic::div_mod::lemma_div_decreases;
use vstd::arithmetic::div_mod::lemma_div_is_ordered;
use vstd::arithmetic::div_mod::lemma_div_multiples_vanish;
use vstd::arithmetic::div_mod::lemma_fundamental_div_mod;
use vstd::arithmetic::div_mod::lemma_fundamental_div_mod_converse;
use vstd::arithmetic::div_mod::lemma_mod_multiples_basic;
use vstd::arithmetic::div_mod::lemma_small_mod;
use vstd::arithmetic::mul::lemma_mul_inequality;
use vstd::arithmetic::power::lemma_pow_increases;
use vstd::arithmetic::power::lemma_pow_positive;
use vstd::arithmetic::power::pow;
use vstd::prelude::*;

verus! {

broadcast use lemma_div_decreases, vstd::arithmetic::mul::lemma_mul_is_commutative;

/// `base` raised to `exp`, as a natural number.
pub open spec fn pow_nat(base: nat, exp: nat) -> nat
    decreases exp,
{
    if exp == 0 {
        1
    } else {
        base * pow_nat(base, (exp - 1) as nat)
    }
}

/// The reversal of the base-`base` digits of `k`, laid out under `factor`.
///
/// The least significant digit of `k` lands on the most significant digit
/// position below `factor`, and so on downwards; digits of `k` beyond the
/// positions that `factor` provides fall off (their weight underflows to 0).
pub open spec fn radical_inverse(k: nat, base: nat, factor: nat) -> nat
    decreases k,
{
    if k == 0 || base < 2 {
        0
    } else {
        (k % base) * (factor / base) + radical_inverse(k / base, base, factor / base)
    }
}

/// `pow_nat` agrees with `pow` from vstd, so its lemmas carry over.
pub proof fn lemma_pow_nat_is_pow(base: nat, exp: nat)
    ensures
        pow_nat(base, exp) == pow(base as int, exp),
    decreases exp,
{
    reveal(pow);
    if exp > 0 {
        lemma_pow_nat_is_pow(base, (exp - 1) as nat);
    }
}

/// A power of a positive base is at least 1.
pub proof fn lemma_pow_nat_positive(base: nat, exp: nat)
    requires
        base >= 1,
    ensures
        pow_nat(base, exp) >= 1,
{
    lemma_pow_nat_is_pow(base, exp);
    lemma_pow_positive(base as int, exp);
}

/// Powers of a positive base never decrease as the exponent grows.
pub proof fn lemma_pow_nat_increases(base: nat, e1: nat, e2: nat)
    requires
        base >= 1,
        e1 <= e2,
    ensures
        pow_nat(base, e1) <= pow_nat(base, e2),
{
    lemma_pow_nat_is_pow(base, e1);
    lemma_pow_nat_is_pow(base, e2);
    lemma_pow_increases(base, e1, e2);
}

/// Dividing `base^scale` by `base` steps the exponent down by one, exactly.
pub proof fn lemma_pow_nat_div(base: nat, scale: nat)
    requires
        base >= 2,
        scale >= 1,
    ensures
        pow_nat(base, scale) / base == pow_nat(base, (scale - 1) as nat),
        pow_nat(base, scale) % base == 0,
{
    let m = pow_nat(base, (scale - 1) as nat);
    assert(pow_nat(base, scale) == base * m);
    lemma_div_multiples_vanish(m as int, base as int);
    lemma_mod_multiples_basic(m as int, base as int);
}

/// The radical inverse stays below the factor it is scaled by.
pub proof fn lemma_radical_inverse_bound(k: nat, base: nat, factor: nat)
    requires
        base >= 2,
    ensures
        factor >= 1 ==> radical_inverse(k, base, factor) < factor,
        factor == 0 ==> radical_inverse(k, base, factor) == 0,
    decreases k,
{
    if k > 0 {
        let q = factor / base;
        lemma_radical_inverse_bound(k / base, base, q);
        if factor >= 1 && q >= 1 {
            lemma_mul_inequality((k % base) as int, (base - 1) as int, q as int);
            assert((base - 1) * q + q == base * q) by (nonlinear_arith);
            lemma_fundamental_div_mod(factor as int, base as int);
        }
    }
}

/// A counter in `[1, base^scale)` has a nonzero radical inverse: some digit of
/// the counter lands on a digit position that is still represented.
pub proof fn lemma_radical_inverse_positive(k: nat, base: nat, scale: nat)
    requires
        base >= 2,
        1 <= k < pow_nat(base, scale),
    ensures
        radical_inverse(k, base, pow_nat(base, scale)) >= 1,
    decreases scale,
{
    let f = pow_nat(base, scale);
    if scale >= 1 {
        let m = pow_nat(base, (scale - 1) as nat);
        lemma_pow_nat_div(base, scale);
        lemma_pow_nat_positive(base, (scale - 1) as nat);
        let r = k % base;
        let q = k / base;
        // q <= (f - 1) / base == m - 1
        lemma_div_is_ordered(k as int, f as int - 1, base as int);
        assert((m as int - 1) * (base as int) + (base as int - 1) == base as int * m as int
            - 1) by (nonlinear_arith);
        lemma_fundamental_div_mod_converse(f as int - 1, base as int, m as int - 1, base as int - 1);
        if r >= 1 {
            lemma_mul_inequality(1, r as int, m as int);
        } else {
            lemma_fundamental_div_mod(k as int, base as int);
            assert(q >= 1) by (nonlinear_arith)
                requires
                    k as int == base as int * q as int,
                    base >= 2,
                    k >= 1,
                    q >= 0,
            ;
            lemma_radical_inverse_positive(q, base, (scale - 1) as nat);
        }
    }
}

/// The counter `base^scale` itself reverses to 0: its single nonzero digit
/// sits one position beyond those that the factor represents.
pub proof fn lemma_radical_inverse_at_factor(base: nat, scale: nat)
    requires
        base >= 2,
    ensures
        radical_inverse(pow_nat(base, scale), base, pow_nat(base, scale)) == 0,
    decreases scale,
{
    let f = pow_nat(base, scale);
    if scale == 0 {
        assert(f == 1);
        lemma_small_mod(1, base);
        lemma_basic_div(1, base as int);
        assert(radical_inverse(0, base, 0) == 0);
    } else {
        lemma_pow_nat_positive(base, (scale - 1) as nat);
        lemma_pow_nat_div(base, scale);
        lemma_radical_inverse_at_factor(base, (scale - 1) as nat);
    }
}

/// Digit reversal is injective on counters below `base^scale`: two distinct
/// counters whose digits all fit the represented positions reverse to two
/// distinct values.
pub proof fn lemma_radical_inverse_injective(base: nat, scale: nat, k1: nat, k2: nat)
    requires
        base >= 2,
        k1 < pow_nat(base, scale),
        k2 < pow_nat(base, scale),
        radical_inverse(k1, base, pow_nat(base, scale)) == radical_inverse(
            k2,
            base,
            pow_nat(base, scale),
        ),
    ensures
        k1 == k2,
    decreases scale,
{
    let f = pow_nat(base, scale);
    if scale == 0 {
        // both counters are below 1
    } else if k1 == 0 && k2 == 0 {
    } else if k1 == 0 {
        lemma_radical_inverse_positive(k2, base, scale);
    } else if k2 == 0 {
        lemma_radical_inverse_positive(k1, base, scale);
    } else {
        let m = pow_nat(base, (scale - 1) as nat);
        lemma_pow_nat_div(base, scale);
        lemma_pow_nat_positive(base, (scale - 1) as nat);
        let r1 = k1 % base;
        let q1 = k1 / base;
        let r2 = k2 % base;
        let q2 = k2 / base;
        let x1 = radical_inverse(q1, base, m);
        let x2 = radical_inverse(q2, base, m);
        lemma_radical_inverse_bound(q1, base, m);
        lemma_radical_inverse_bound(q2, base, m);
        let v = radical_inverse(k1, base, f);
        assert(v == r1 * m + x1);
        assert(v == r2 * m + x2);
        lemma_fundamental_div_mod_converse(v as int, m as int, r1 as int, x1 as int);
        lemma_fundamental_div_mod_converse(v as int, m as int, r2 as int, x2 as int);
        // now r1 == r2 and x1 == x2; the truncated quotients stay in range
        lemma_div_is_ordered(k1 as int, f as int - 1, base as int);
        lemma_div_is_ordered(k2 as int, f as int - 1, base as int);
        assert((m as int - 1) * (base as int) + (base as int - 1) == base as int * m as int
            - 1) by (nonlinear_arith);
        lemma_fundamental_div_mod_converse(f as int - 1, base as int, m as int - 1, base as int - 1);
        lemma_radical_inverse_injective(base, (scale - 1) as nat, q1, q2);
        lemma_fundamental_div_mod(k1 as int, base as int);
        lemma_fundamental_div_mod(k2 as int, base as int);
    }
}

/// Distinct counters in `[1, base^scale]` produce distinct radical inverses;
/// only counters beyond that window can collide with an earlier one.
pub proof fn lemma_radical_inverse_distinct(base: nat, scale: nat, k1: nat, k2: nat)
    requires
        base >= 2,
        1 <= k1 <= pow_nat(base, scale),
        1 <= k2 <= pow_nat(base, scale),
        k1 != k2,
    ensures
        radical_inverse(k1, base, pow_nat(base, scale)) != radical_inverse(
            k2,
            base,
            pow_nat(base, scale),
        ),
{
    let f = pow_nat(base, scale);
    if k1 == f {
        lemma_radical_inverse_at_factor(base, scale);
        lemma_radical_inverse_positive(k2, base, scale);
    } else if k2 == f {
        lemma_radical_inverse_at_factor(base, scale);
        lemma_radical_inverse_positive(k1, base, scale);
    } else {
        if radical_inverse(k1, base, f) == radical_inverse(k2, base, f) {
            lemma_radical_inverse_injective(base, scale, k1, k2);
        }
    }
}

} // verus!
