//! The Euclidean algorithm in `Z[i]`: its checked run, its mathematical result,
//! the greatest-common-divisor property, Bezout coefficients and coprimality.
use vstd::prelude::*;

use crate::arithmetic::{checked_spec, GaussianError};
use crate::division::{div_rem_spec, lemma_remainder_small, quotient_spec, remainder_spec};
use crate::ring::{
    canonical_spec, gadd, gdivides, gmul, gnorm, gone, gsub, gzero, is_canonical_spec,
    is_unit_spec, lemma_associated_divides, lemma_canonical_spec, lemma_canonical_associates_equal,
    lemma_divides_add, lemma_divides_mul_right, lemma_divides_refl, lemma_divides_trans,
    lemma_divides_unit, lemma_mul_assoc, lemma_mul_comm, lemma_mul_distrib_sub, lemma_mul_one,
    lemma_mul_zero, lemma_mutual_divides_associated, lemma_norm_nonneg, Gz,
};

verus! {

/// The checked Euclidean algorithm with `i64` coordinates: the last nonzero
/// remainder, or the first checked-division error met on the way.
pub open spec fn euclid_spec(a: Gz, b: Gz) -> Result<Gz, GaussianError>
    decreases gnorm(b),
{
    if b == gzero() {
        Ok(a)
    } else {
        match div_rem_spec(a, b) {
            Err(e) => Err(e),
            Ok((q, r)) => {
                proof {
                    lemma_remainder_small(a, b);
                    lemma_norm_nonneg(b);
                }
                euclid_spec(b, r)
            },
        }
    }
}

/// The checked normalized gcd: the canonical associate of the Euclidean result.
pub open spec fn gcd_spec(a: Gz, b: Gz) -> Result<Gz, GaussianError> {
    match euclid_spec(a, b) {
        Err(e) => Err(e),
        Ok(g) => checked_spec(canonical_spec(g), "canonical associate normalization"),
    }
}

/// The Euclidean algorithm on mathematical Gaussian integers.
pub open spec fn euclid_math(a: Gz, b: Gz) -> Gz
    decreases gnorm(b),
{
    if b == gzero() {
        a
    } else {
        proof {
            lemma_remainder_small(a, b);
            lemma_norm_nonneg(b);
        }
        euclid_math(b, remainder_spec(a, b))
    }
}

/// Bezout coefficients `(x, y)` with `a*x + b*y = euclid_math(a, b)`.
pub open spec fn bezout(a: Gz, b: Gz) -> (Gz, Gz)
    decreases gnorm(b),
{
    if b == gzero() {
        (gone(), gzero())
    } else {
        proof {
            lemma_remainder_small(a, b);
            lemma_norm_nonneg(b);
        }
        let c = bezout(b, remainder_spec(a, b));
        (c.1, gsub(c.0, gmul(quotient_spec(a, b), c.1)))
    }
}

/// `g` is the greatest common divisor of `a` and `b` in normalized form: a common
/// divisor that every common divisor divides, in the canonical sector (or zero).
pub open spec fn is_normalized_gcd(a: Gz, b: Gz, g: Gz) -> bool {
    &&& gdivides(g, a)
    &&& gdivides(g, b)
    &&& forall|d: Gz| #[trigger] gdivides(d, a) && #[trigger] gdivides(d, b) ==> gdivides(d, g)
    &&& (g == gzero() || is_canonical_spec(g))
}

/// `a` and `b` have no common divisor other than units.
pub open spec fn coprime_spec(a: Gz, b: Gz) -> bool {
    forall|d: Gz| #[trigger] gdivides(d, a) && #[trigger] gdivides(d, b) ==> is_unit_spec(d)
}

/// A successful checked run computes the mathematical Euclidean result.
pub proof fn lemma_euclid_spec_math(a: Gz, b: Gz)
    ensures
        euclid_spec(a, b) matches Ok(g) ==> g == euclid_math(a, b),
    decreases gnorm(b),
{
    if b != gzero() {
        lemma_remainder_small(a, b);
        lemma_norm_nonneg(b);
        if let Ok((q, r)) = div_rem_spec(a, b) {
            lemma_euclid_spec_math(b, r);
        }
    }
}

/// `a = b*q + r` for the Euclidean quotient and remainder.
pub proof fn lemma_quotient_remainder(a: Gz, b: Gz)
    ensures
        gadd(gmul(b, quotient_spec(a, b)), remainder_spec(a, b)) == a,
{
}

/// The Euclidean result divides both arguments, and every common divisor divides it.
pub proof fn lemma_euclid_math_gcd(a: Gz, b: Gz)
    ensures
        gdivides(euclid_math(a, b), a),
        gdivides(euclid_math(a, b), b),
        forall|d: Gz| #[trigger] gdivides(d, a) && #[trigger] gdivides(d, b) ==> gdivides(
            d,
            euclid_math(a, b),
        ),
    decreases gnorm(b),
{
    if b == gzero() {
        lemma_divides_refl(a);
    } else {
        lemma_remainder_small(a, b);
        lemma_norm_nonneg(b);
        let q = quotient_spec(a, b);
        let r = remainder_spec(a, b);
        let g = euclid_math(a, b);
        lemma_euclid_math_gcd(b, r);
        lemma_divides_mul_right(g, b, q);
        lemma_divides_add(g, gmul(b, q), r);
        lemma_quotient_remainder(a, b);
        assert forall|d: Gz| #[trigger] gdivides(d, a) && #[trigger] gdivides(d, b) implies gdivides(
            d,
            g,
        ) by {
            lemma_divides_mul_right(d, b, q);
            lemma_divides_add(d, a, gmul(b, q));
            assert(gdivides(d, r));
        }
    }
}

/// Bezout's identity: `a*x + b*y = euclid_math(a, b)`.
pub proof fn lemma_bezout(a: Gz, b: Gz)
    ensures
        gadd(gmul(a, bezout(a, b).0), gmul(b, bezout(a, b).1)) == euclid_math(a, b),
    decreases gnorm(b),
{
    if b == gzero() {
        lemma_mul_one(a);
        lemma_mul_zero(b);
    } else {
        lemma_remainder_small(a, b);
        lemma_norm_nonneg(b);
        let q = quotient_spec(a, b);
        let r = remainder_spec(a, b);
        let c = bezout(b, r);
        let (x, y) = (c.0, c.1);
        lemma_bezout(b, r);
        // a*y + b*(x - q*y) = b*x + (a - b*q)*y
        lemma_mul_distrib_sub(b, x, gmul(q, y));
        lemma_mul_assoc(b, q, y);
        lemma_mul_comm(r, y);
        lemma_mul_distrib_sub(y, a, gmul(b, q));
        lemma_mul_comm(y, a);
        lemma_mul_comm(y, gmul(b, q));
    }
}

/// The normalized gcd is unique.
pub proof fn lemma_normalized_gcd_unique(a: Gz, b: Gz, g: Gz, h: Gz)
    requires
        is_normalized_gcd(a, b, g),
        is_normalized_gcd(a, b, h),
    ensures
        g == h,
{
    assert(gdivides(g, a) && gdivides(g, b));
    assert(gdivides(h, a) && gdivides(h, b));
    assert(gdivides(g, h));
    assert(gdivides(h, g));
    if g == gzero() {
        let q = choose|q: Gz| #[trigger] gmul(g, q) == h;
        lemma_mul_zero(q);
    } else if h == gzero() {
        let q = choose|q: Gz| #[trigger] gmul(h, q) == g;
        lemma_mul_zero(q);
    } else {
        lemma_mutual_divides_associated(g, h);
        lemma_canonical_associates_equal(g, h);
    }
}

/// The canonical associate of the Euclidean result is the normalized gcd.
pub proof fn lemma_canonical_euclid_is_gcd(a: Gz, b: Gz)
    ensures
        is_normalized_gcd(a, b, canonical_spec(euclid_math(a, b))),
{
    let g = euclid_math(a, b);
    let c = canonical_spec(g);
    lemma_euclid_math_gcd(a, b);
    lemma_canonical_spec(g);
    lemma_associated_divides(g, c);
    lemma_divides_trans(c, g, a);
    lemma_divides_trans(c, g, b);
    assert forall|d: Gz| #[trigger] gdivides(d, a) && #[trigger] gdivides(d, b) implies gdivides(
        d,
        c,
    ) by {
        lemma_divides_trans(d, g, c);
    }
}

/// A successful checked gcd is the normalized gcd.
pub proof fn lemma_gcd_spec_correct(a: Gz, b: Gz)
    ensures
        gcd_spec(a, b) matches Ok(g) ==> is_normalized_gcd(a, b, g),
{
    lemma_euclid_spec_math(a, b);
    lemma_canonical_euclid_is_gcd(a, b);
}

/// Coprimality holds exactly when the gcd is a unit.
pub proof fn lemma_coprime_iff_gcd_unit(a: Gz, b: Gz, g: Gz)
    requires
        is_normalized_gcd(a, b, g),
    ensures
        coprime_spec(a, b) <==> is_unit_spec(g),
{
    if is_unit_spec(g) {
        assert forall|d: Gz| #[trigger] gdivides(d, a) && #[trigger] gdivides(d, b) implies is_unit_spec(
            d,
        ) by {
            lemma_divides_unit(d, g);
        }
    }
    if coprime_spec(a, b) {
        assert(gdivides(g, a) && gdivides(g, b));
    }
}

/// Coprimality in terms of the mathematical Euclidean result.
pub proof fn lemma_coprime_iff_euclid_unit(a: Gz, b: Gz)
    ensures
        coprime_spec(a, b) <==> is_unit_spec(euclid_math(a, b)),
{
    let g = euclid_math(a, b);
    lemma_euclid_math_gcd(a, b);
    if is_unit_spec(g) {
        assert forall|d: Gz| #[trigger] gdivides(d, a) && #[trigger] gdivides(d, b) implies is_unit_spec(
            d,
        ) by {
            lemma_divides_unit(d, g);
        }
    }
}

/// If `c` divides `a*b` and is coprime to `a`, it divides `b`.
pub proof fn lemma_coprime_divides_product(c: Gz, a: Gz, b: Gz)
    requires
        coprime_spec(a, c),
        gdivides(c, gmul(a, b)),
    ensures
        gdivides(c, b),
{
    let g = euclid_math(a, c);
    let (x, y) = bezout(a, c);
    lemma_bezout(a, c);
    lemma_coprime_iff_euclid_unit(a, c);
    // g*b = (a*x + c*y)*b = (a*b)*x + c*(y*b)
    lemma_mul_comm(gadd(gmul(a, x), gmul(c, y)), b);
    crate::ring::lemma_mul_distrib_add(b, gmul(a, x), gmul(c, y));
    lemma_mul_comm(b, gmul(a, x));
    lemma_mul_assoc(a, x, b);
    lemma_mul_comm(x, b);
    lemma_mul_assoc(a, b, x);
    lemma_mul_comm(b, gmul(c, y));
    lemma_mul_assoc(c, y, b);
    lemma_divides_mul_right(c, gmul(a, b), x);
    crate::ring::lemma_divides_of_mul(c, gmul(y, b));
    lemma_divides_add(c, gmul(gmul(a, b), x), gmul(c, gmul(y, b)));
    assert(gmul(g, b) == gadd(gmul(gmul(a, b), x), gmul(c, gmul(y, b))));
    // g is a unit, so b = g^{-1} * (g*b)
    crate::ring::lemma_unit_inverse(g);
    lemma_mul_assoc(crate::ring::gconj(g), g, b);
    lemma_mul_one(b);
    lemma_divides_mul_right(c, gmul(g, b), crate::ring::gconj(g));
}

} // verus!
