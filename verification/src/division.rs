//! Euclidean division in `Z[i]`: the rounded quotient, its remainder bound, and
//! the characterisation of exact division.
use vstd::prelude::*;

use crate::arithmetic::{overflow, GaussianError};
use crate::ring::{
    gconj, gdivides, gmul, gnorm, gsub, gz, gzero, lemma_mul_assoc, lemma_mul_comm, lemma_mul_conj,
    lemma_mul_distrib_sub, lemma_mul_scalar, lemma_norm_mul, lemma_norm_nonneg, representable, Gz,
};

verus! {

pub open spec fn fits_i128(x: int) -> bool {
    i128::MIN <= x <= i128::MAX
}

pub open spec fn abs_spec(x: int) -> int {
    if x < 0 {
        -x
    } else {
        x
    }
}

/// `n / d` rounded to a nearest integer, ties away from zero (`d > 0`).
pub open spec fn round_div(n: int, d: int) -> int {
    let m = abs_spec(n);
    let rounded = if m % d >= d - m % d {
        m / d + 1
    } else {
        m / d
    };
    if n < 0 {
        -rounded
    } else {
        rounded
    }
}

/// The numerators of `a / b = a * conj(b) / N(b)`.
pub open spec fn numerators(a: Gz, b: Gz) -> Gz {
    gmul(a, gconj(b))
}

/// The Euclidean quotient: each coordinate of `a / b` rounded to a nearest
/// integer, ties away from zero.
pub open spec fn quotient_spec(a: Gz, b: Gz) -> Gz {
    let n = numerators(a, b);
    let d = gnorm(b);
    (round_div(n.0, d), round_div(n.1, d))
}

/// The remainder `a - b*q` of the Euclidean quotient.
pub open spec fn remainder_spec(a: Gz, b: Gz) -> Gz {
    gsub(a, gmul(b, quotient_spec(a, b)))
}

/// Checked Euclidean division with `i64` coordinates: the rounded quotient and its
/// remainder, or the first step that is not representable.
pub open spec fn div_rem_spec(a: Gz, b: Gz) -> Result<(Gz, Gz), GaussianError> {
    let q = quotient_spec(a, b);
    if b == gzero() {
        Err(GaussianError::DivisionByZero)
    } else if !fits_i128(numerators(a, b).0) {
        Err(overflow("division numerator"))
    } else if !representable(q) {
        Err(overflow("Euclidean division"))
    } else if !representable(gmul(b, q)) {
        Err(overflow("multiplication"))
    } else if !representable(gsub(a, gmul(b, q))) {
        Err(overflow("subtraction"))
    } else {
        Ok((q, gsub(a, gmul(b, q))))
    }
}

/// The exact quotient `a * conj(b) / N(b)`, meaningful when `b` divides `a`.
pub open spec fn exact_quotient_spec(a: Gz, b: Gz) -> Gz {
    let n = numerators(a, b);
    let d = gnorm(b);
    (n.0 / d, n.1 / d)
}

/// Checked exact division with `i64` coordinates: `None` when `b` does not divide
/// `a`, else the exact quotient, or the first step that is not representable.
pub open spec fn exact_div_spec(a: Gz, b: Gz) -> Result<Option<Gz>, GaussianError> {
    if b == gzero() {
        Err(GaussianError::DivisionByZero)
    } else if !fits_i128(numerators(a, b).0) {
        Err(overflow("division numerator"))
    } else if !gdivides(b, a) {
        Ok(None)
    } else if !representable(exact_quotient_spec(a, b)) {
        Err(overflow("exact division"))
    } else {
        Ok(Some(exact_quotient_spec(a, b)))
    }
}

/// Rounding to nearest leaves an error of at most half the denominator.
pub proof fn lemma_round_div(n: int, d: int)
    requires
        d > 0,
    ensures
        -d <= 2 * (n - d * round_div(n, d)) <= d,
{
    let m = abs_spec(n);
    let q = m / d;
    let r = m % d;
    vstd::arithmetic::div_mod::lemma_fundamental_div_mod(m, d);
    vstd::arithmetic::div_mod::lemma_mod_bound(m, d);
    let rounded = if r >= d - r {
        q + 1
    } else {
        q
    };
    assert(d * (q + 1) == d * q + d) by (nonlinear_arith);
    assert(-d <= 2 * (m - d * rounded) <= d);
    if n < 0 {
        assert(d * (-rounded) == -(d * rounded)) by (nonlinear_arith);
    }
}

/// `(a - b*q) * conj(b) = a * conj(b) - N(b) * q`.
pub proof fn lemma_numerators_conj(a: Gz, b: Gz, q: Gz)
    ensures
        gmul(gsub(a, gmul(b, q)), gconj(b)) == gsub(
            numerators(a, b),
            gz(gnorm(b) * q.0, gnorm(b) * q.1),
        ),
{
    let bq = gmul(b, q);
    lemma_mul_comm(gsub(a, bq), gconj(b));
    lemma_mul_distrib_sub(gconj(b), a, bq);
    lemma_mul_comm(gconj(b), a);
    lemma_mul_assoc(gconj(b), b, q);
    lemma_mul_conj(b);
    lemma_mul_comm(gconj(b), b);
    lemma_mul_scalar(gnorm(b), q);
}

/// The Euclidean remainder has at most half the norm of the divisor.
pub proof fn lemma_remainder_small(a: Gz, b: Gz)
    requires
        b != gzero(),
    ensures
        2 * gnorm(remainder_spec(a, b)) <= gnorm(b),
        gnorm(remainder_spec(a, b)) < gnorm(b),
        gnorm(remainder_spec(a, b)) >= 0,
{
    let q = quotient_spec(a, b);
    let n = numerators(a, b);
    let d = gnorm(b);
    let r = remainder_spec(a, b);
    lemma_norm_nonneg(b);
    lemma_norm_nonneg(r);
    lemma_numerators_conj(a, b, q);
    lemma_mul_conj(b);
    lemma_norm_mul(r, gconj(b));
    let e0 = n.0 - d * q.0;
    let e1 = n.1 - d * q.1;
    lemma_round_div(n.0, d);
    lemma_round_div(n.1, d);
    assert(4 * (e0 * e0) <= d * d) by (nonlinear_arith)
        requires
            -d <= 2 * e0 <= d,
    ;
    assert(4 * (e1 * e1) <= d * d) by (nonlinear_arith)
        requires
            -d <= 2 * e1 <= d,
    ;
    let nr = gnorm(r);
    assert(nr * d == e0 * e0 + e1 * e1);
    assert(2 * nr <= d) by (nonlinear_arith)
        requires
            4 * (nr * d) <= 2 * (d * d),
            d > 0,
    ;
}

/// `b` divides `a` exactly when `N(b)` divides both numerators, and then the
/// exact quotient is the unique `q` with `b * q = a`.
pub proof fn lemma_exact_division(a: Gz, b: Gz)
    requires
        b != gzero(),
    ensures
        gdivides(b, a) <==> (numerators(a, b).0 % gnorm(b) == 0 && numerators(a, b).1 % gnorm(b)
            == 0),
        gdivides(b, a) ==> gmul(b, exact_quotient_spec(a, b)) == a,
        forall|q: Gz| #[trigger] gmul(b, q) == a ==> q == exact_quotient_spec(a, b),
{
    let n = numerators(a, b);
    let d = gnorm(b);
    lemma_norm_nonneg(b);
    assert forall|q: Gz| #[trigger] gmul(b, q) == a implies q == exact_quotient_spec(a, b)
        && n.0 % d == 0 && n.1 % d == 0 by {
        lemma_numerators_conj(a, b, q);
        lemma_mul_scalar(0, gconj(b));
        assert(gsub(a, gmul(b, q)) == gzero());
        assert(n == gz(d * q.0, d * q.1));
        vstd::arithmetic::div_mod::lemma_div_multiples_vanish(q.0, d);
        vstd::arithmetic::div_mod::lemma_div_multiples_vanish(q.1, d);
        vstd::arithmetic::div_mod::lemma_mod_multiples_basic(q.0, d);
        vstd::arithmetic::div_mod::lemma_mod_multiples_basic(q.1, d);
        assert(q.0 * d == d * q.0 && q.1 * d == d * q.1) by (nonlinear_arith);
    }
    if n.0 % d == 0 && n.1 % d == 0 {
        let q = exact_quotient_spec(a, b);
        vstd::arithmetic::div_mod::lemma_fundamental_div_mod(n.0, d);
        vstd::arithmetic::div_mod::lemma_fundamental_div_mod(n.1, d);
        lemma_numerators_conj(a, b, q);
        let r = gsub(a, gmul(b, q));
        assert(gmul(r, gconj(b)) == gzero());
        lemma_norm_mul(r, gconj(b));
        lemma_mul_conj(b);
        lemma_norm_nonneg(r);
        lemma_norm_nonneg(gzero());
        assert(gnorm(gmul(r, gconj(b))) == 0);
        let nr = gnorm(r);
        assert(nr == 0) by (nonlinear_arith)
            requires
                nr * d == 0,
                d > 0,
        ;
        assert(gmul(b, q) == a);
    }
}

} // verus!
