//! Reasoning about fractions: how the value that a fraction holds follows
//! from the values of the fractions it was computed from.

use crate::bignum::{divides, lowest_terms, normalized, ratio_denom, ratio_numer, represents};
use num::rational::Ratio;
use num::BigInt;
use vstd::arithmetic::div_mod::{
    lemma_fundamental_div_mod, lemma_mod_bound, lemma_mod_multiples_basic, lemma_small_mod,
};
use vstd::arithmetic::mul::lemma_mul_equality_converse;
use vstd::prelude::*;

verus! {

/// Two fractions of integers with the same value: if `r` holds one, it holds
/// the other.
pub proof fn lemma_represents_equal(r: Ratio<BigInt>, n: int, d: int, n2: int, d2: int)
    requires
        represents(r, n, d),
        d2 != 0,
        n * d2 == n2 * d,
    ensures
        represents(r, n2, d2),
{
    let rn = ratio_numer(r);
    let rd = ratio_denom(r);
    assert(d * (rn * d2) == d * (n2 * rd)) by (nonlinear_arith)
        requires
            rn * d == n * rd,
            n * d2 == n2 * d,
    ;
    lemma_mul_equality_converse(d, rn * d2, n2 * rd);
}

/// A fraction holds its own numerator over its own denominator.
pub proof fn lemma_represents_itself(r: Ratio<BigInt>)
    requires
        ratio_denom(r) != 0,
    ensures
        represents(r, ratio_numer(r), ratio_denom(r)),
{
}

/// The product of the fractions `n1 / d1` and `n2 / d2` is `(n1 * n2) / (d1 * d2)`.
pub proof fn lemma_represents_product(
    a: Ratio<BigInt>,
    b: Ratio<BigInt>,
    r: Ratio<BigInt>,
    n1: int,
    d1: int,
    n2: int,
    d2: int,
)
    requires
        represents(a, n1, d1),
        represents(b, n2, d2),
        represents(r, ratio_numer(a) * ratio_numer(b), ratio_denom(a) * ratio_denom(b)),
    ensures
        represents(r, n1 * n2, d1 * d2),
{
    let (an, ad) = (ratio_numer(a), ratio_denom(a));
    let (bn, bd) = (ratio_numer(b), ratio_denom(b));
    assert(d1 * d2 != 0) by (nonlinear_arith)
        requires
            d1 != 0,
            d2 != 0,
    ;
    let x = an * d1;
    let y = bn * d2;
    assert((an * bn) * (d1 * d2) == x * y) by (nonlinear_arith)
        requires
            x == an * d1,
            y == bn * d2,
    ;
    assert(x * y == (n1 * n2) * (ad * bd)) by (nonlinear_arith)
        requires
            x == n1 * ad,
            y == n2 * bd,
    ;
    lemma_represents_equal(r, an * bn, ad * bd, n1 * n2, d1 * d2);
}

/// The sum of the fractions `n1 / d1` and `n2 / d2` is
/// `(n1 * d2 + n2 * d1) / (d1 * d2)`.
pub proof fn lemma_represents_sum(
    a: Ratio<BigInt>,
    b: Ratio<BigInt>,
    r: Ratio<BigInt>,
    n1: int,
    d1: int,
    n2: int,
    d2: int,
)
    requires
        represents(a, n1, d1),
        represents(b, n2, d2),
        represents(
            r,
            ratio_numer(a) * ratio_denom(b) + ratio_numer(b) * ratio_denom(a),
            ratio_denom(a) * ratio_denom(b),
        ),
    ensures
        represents(r, n1 * d2 + n2 * d1, d1 * d2),
{
    let (an, ad) = (ratio_numer(a), ratio_denom(a));
    let (bn, bd) = (ratio_numer(b), ratio_denom(b));
    assert(d1 * d2 != 0) by (nonlinear_arith)
        requires
            d1 != 0,
            d2 != 0,
    ;
    let x = an * d1;
    let y = bn * d2;
    assert((an * bd) * (d1 * d2) == x * (bd * d2)) by (nonlinear_arith)
        requires
            x == an * d1,
    ;
    assert((bn * ad) * (d1 * d2) == y * (ad * d1)) by (nonlinear_arith)
        requires
            y == bn * d2,
    ;
    assert(x * (bd * d2) == (n1 * d2) * (ad * bd)) by (nonlinear_arith)
        requires
            x == n1 * ad,
    ;
    assert(y * (ad * d1) == (n2 * d1) * (ad * bd)) by (nonlinear_arith)
        requires
            y == n2 * bd,
    ;
    assert((an * bd + bn * ad) * (d1 * d2) == (an * bd) * (d1 * d2) + (bn * ad) * (d1 * d2))
        by (nonlinear_arith);
    assert((n1 * d2 + n2 * d1) * (ad * bd) == (n1 * d2) * (ad * bd) + (n2 * d1) * (ad * bd))
        by (nonlinear_arith);
    lemma_represents_equal(
        r,
        an * bd + bn * ad,
        ad * bd,
        n1 * d2 + n2 * d1,
        d1 * d2,
    );
}

/// A whole number over one is in lowest terms.
pub proof fn lemma_whole_is_normalized(r: Ratio<BigInt>)
    requires
        ratio_denom(r) == 1,
    ensures
        normalized(r),
{
    assert forall|k: int| k > 1 implies !(#[trigger] divides(k, ratio_numer(r)) && divides(
        k,
        ratio_denom(r),
    )) by {
        lemma_small_mod(1, k as nat);
    }
}

/// Changing the sign of the numerator keeps a fraction in lowest terms.
pub proof fn lemma_negation_is_normalized(r: Ratio<BigInt>, m: Ratio<BigInt>)
    requires
        normalized(r),
        ratio_numer(m) == -ratio_numer(r),
        ratio_denom(m) == ratio_denom(r),
    ensures
        normalized(m),
{
    let n = ratio_numer(r);
    assert forall|k: int| k > 1 implies !(#[trigger] divides(k, -n) && divides(
        k,
        ratio_denom(r),
    )) by {
        if divides(k, -n) {
            assert(n % k == 0) by (nonlinear_arith)
                requires
                    k > 1,
                    (-n) % k == 0,
            ;
            assert(divides(k, n));
        }
    }
}

/// A number with a factor `k` above zero leaves no remainder when divided by
/// `k`, and a number that leaves none has such a factor.
proof fn lemma_divides_iff_multiple(k: int, n: int, m: int)
    requires
        k > 0,
    ensures
        n == k * m ==> divides(k, n),
        divides(k, n) ==> n == k * (n / k),
{
    if n == k * m {
        lemma_mod_multiples_basic(m, k);
        assert(m * k == k * m) by (nonlinear_arith);
    }
    if divides(k, n) {
        lemma_fundamental_div_mod(n, k);
    }
}

/// For a fraction in lowest terms, some multiple of the numerator and some
/// multiple of the denominator add up to one.
proof fn lemma_combination_to_one(a: int, b: int) -> (xy: (int, int))
    requires
        b > 0,
        lowest_terms(a, b),
    ensures
        a * xy.0 + b * xy.1 == 1,
    decreases b,
{
    if b == 1 {
        assert(a * 0 + b * 1 == 1) by (nonlinear_arith)
            requires
                b == 1,
        ;
        (0, 1)
    } else {
        let q = a / b;
        let r = a % b;
        lemma_fundamental_div_mod(a, b);
        lemma_mod_bound(a, b);
        assert(r != 0) by {
            if r == 0 {
                lemma_divides_iff_multiple(b, b, 1);
                assert(divides(b, a) && divides(b, b));
            }
        }
        assert forall|k: int| k > 1 implies !(#[trigger] divides(k, b) && divides(k, r)) by {
            if divides(k, b) && divides(k, r) {
                lemma_divides_iff_multiple(k, b, 0);
                lemma_divides_iff_multiple(k, r, 0);
                let (bk, rk) = (b / k, r / k);
                assert(a == k * (bk * q + rk)) by (nonlinear_arith)
                    requires
                        a == b * q + r,
                        b == k * bk,
                        r == k * rk,
                ;
                lemma_divides_iff_multiple(k, a, bk * q + rk);
                assert(divides(k, a) && divides(k, b));
            }
        }
        let (x, y) = lemma_combination_to_one(b, r);
        assert(a * y + b * (x - q * y) == 1) by (nonlinear_arith)
            requires
                a == b * q + r,
                b * x + r * y == 1,
        ;
        (y, x - q * y)
    }
}

/// Where the denominator of a fraction in lowest terms divides a product
/// with the numerator, it divides the other factor.
proof fn lemma_denominator_divides(a: int, b: int, c: int, m: int)
    requires
        b > 0,
        lowest_terms(a, b),
        a * c == b * m,
    ensures
        divides(b, c),
{
    let (x, y) = lemma_combination_to_one(a, b);
    assert(c == b * (m * x + c * y)) by (nonlinear_arith)
        requires
            a * x + b * y == 1,
            a * c == b * m,
    ;
    lemma_divides_iff_multiple(b, c, m * x + c * y);
}

/// Two fractions in lowest terms, with positive denominators, that have the
/// same value have the same numerator and the same denominator.
pub proof fn lemma_lowest_terms_unique(n1: int, d1: int, n2: int, d2: int)
    requires
        d1 > 0,
        d2 > 0,
        lowest_terms(n1, d1),
        lowest_terms(n2, d2),
        n1 * d2 == n2 * d1,
    ensures
        n1 == n2,
        d1 == d2,
{
    assert(n1 * d2 == d1 * n2 && n2 * d1 == d2 * n1) by (nonlinear_arith)
        requires
            n1 * d2 == n2 * d1,
    ;
    lemma_denominator_divides(n1, d1, d2, n2);
    lemma_denominator_divides(n2, d2, d1, n1);
    lemma_divides_iff_multiple(d1, d2, 0);
    lemma_divides_iff_multiple(d2, d1, 0);
    let (u, v) = (d2 / d1, d1 / d2);
    assert(d1 == d2) by (nonlinear_arith)
        requires
            d1 > 0,
            d2 > 0,
            d2 == d1 * u,
            d1 == d2 * v,
    ;
    assert(d1 * n1 == d1 * n2) by (nonlinear_arith)
        requires
            n1 * d2 == n2 * d1,
            d1 == d2,
    ;
    lemma_mul_equality_converse(d1, n1, n2);
}

/// The value decides the fraction: two normalized fractions that hold the
/// same rational number are the same fraction.
pub proof fn lemma_same_value_same_fraction(a: Ratio<BigInt>, b: Ratio<BigInt>, n: int, d: int)
    requires
        normalized(a),
        normalized(b),
        represents(a, n, d),
        represents(b, n, d),
    ensures
        ratio_numer(a) == ratio_numer(b),
        ratio_denom(a) == ratio_denom(b),
{
    lemma_represents_equal(a, n, d, ratio_numer(b), ratio_denom(b));
    lemma_lowest_terms_unique(ratio_numer(a), ratio_denom(a), ratio_numer(b), ratio_denom(b));
}

} // verus!
