//! The classification of Gaussian primes: an element of `Z[i]` is irreducible
//! exactly when the library's primality test accepts it.
use vstd::prelude::*;

use crate::divisors::{is_prime_class, lemma_irreducible_divides_product};
use crate::factor::lemma_prime_spec_canonical;
use crate::primality::{
    axis_coordinate, irreducible_spec, is_gaussian_prime_spec, is_rational_prime_spec,
    lemma_euclid_prime, lemma_gaussian_prime_irreducible, lemma_prime_divisor,
};
use crate::ring::{
    canonical_spec, gconj, gdivides, gmul, gnorm, gz, gzero, is_unit_spec,
    lemma_associated_divides, lemma_associated_symm, lemma_canonical_spec, lemma_divides_norm,
    lemma_divides_refl, lemma_divides_trans, lemma_divisor_same_norm, lemma_mul_assoc,
    lemma_mul_conj, lemma_mul_one, lemma_mul_scalar, lemma_mul_zero, lemma_norm_mul,
    lemma_norm_nonneg, lemma_unit_cases, lemma_unit_factor, lemma_unit_inverse, Gz,
};
use crate::two_squares::lemma_two_squares;

verus! {

/// Every integer `n >= 2` has a rational prime divisor.
pub proof fn lemma_rational_prime_factor(n: int) -> (q: int)
    requires
        n >= 2,
    ensures
        is_rational_prime_spec(q),
        n % q == 0,
        q <= n,
    decreases n,
{
    if is_rational_prime_spec(n) {
        vstd::arithmetic::div_mod::lemma_mod_self_0(n);
        n
    } else {
        let d = choose|d: int| 2 <= d < n && #[trigger] (n % d) == 0;
        let q = lemma_rational_prime_factor(d);
        vstd::arithmetic::div_mod::lemma_fundamental_div_mod(n, d);
        vstd::arithmetic::div_mod::lemma_fundamental_div_mod(d, q);
        let k = n / d;
        let j = d / q;
        assert(n == (j * k) * q) by (nonlinear_arith)
            requires
                n == d * k + 0,
                d == q * j + 0,
        ;
        vstd::arithmetic::div_mod::lemma_mod_multiples_basic(j * k, q);
        q
    }
}

/// Conjugation is multiplicative.
pub proof fn lemma_conj_mul(a: Gz, b: Gz)
    ensures
        gconj(gmul(a, b)) == gmul(gconj(a), gconj(b)),
{
    assert(a.0 * b.0 - a.1 * b.1 == a.0 * b.0 - (-a.1) * (-b.1)) by (nonlinear_arith);
    assert(-(a.0 * b.1 + a.1 * b.0) == a.0 * (-b.1) + (-a.1) * b.0) by (nonlinear_arith);
}

/// Conjugation preserves divisibility.
proof fn lemma_conj_divides(d: Gz, z: Gz)
    requires
        gdivides(d, z),
    ensures
        gdivides(gconj(d), gconj(z)),
{
    let q = choose|q: Gz| #[trigger] gmul(d, q) == z;
    lemma_conj_mul(d, q);
    assert(gmul(gconj(d), gconj(q)) == gconj(z));
}

/// The conjugate of an irreducible element is irreducible.
proof fn lemma_conj_irreducible(p: Gz)
    requires
        irreducible_spec(p),
    ensures
        irreducible_spec(gconj(p)),
{
    lemma_mul_conj(p);
    assert forall|a: Gz, b: Gz| #[trigger] gmul(a, b) == gconj(p) implies is_unit_spec(a)
        || is_unit_spec(b) by {
        lemma_conj_mul(a, b);
        assert(gmul(gconj(a), gconj(b)) == p);
        lemma_mul_conj(a);
        lemma_mul_conj(b);
    }
}

/// A unit multiple of an irreducible element is irreducible.
proof fn lemma_associate_irreducible(u: Gz, w: Gz)
    requires
        is_unit_spec(u),
        irreducible_spec(gmul(u, w)),
    ensures
        irreducible_spec(w),
{
    lemma_norm_mul(u, w);
    let nw = gnorm(w);
    assert(gnorm(u) * nw == nw) by (nonlinear_arith)
        requires
            gnorm(u) == 1,
    ;
    if w == gzero() {
        lemma_mul_zero(u);
    }
    assert forall|a: Gz, b: Gz| #[trigger] gmul(a, b) == w implies is_unit_spec(a) || is_unit_spec(
        b,
    ) by {
        lemma_mul_assoc(u, a, b);
        assert(gmul(gmul(u, a), b) == gmul(u, w));
        if is_unit_spec(gmul(u, a)) {
            lemma_unit_factor(u, a);
        }
    }
}

/// A nonzero non-unit has an irreducible divisor; when it is not itself
/// irreducible, there is one whose squared norm is at most its norm.
pub proof fn lemma_irreducible_divisor(z: Gz) -> (p: Gz)
    requires
        z != gzero(),
        !is_unit_spec(z),
    ensures
        irreducible_spec(p),
        gdivides(p, z),
        gnorm(p) <= gnorm(z),
        !irreducible_spec(z) ==> gnorm(p) * gnorm(p) <= gnorm(z),
    decreases gnorm(z),
{
    if irreducible_spec(z) {
        lemma_divides_refl(z);
        z
    } else {
        let (a, b) = choose|a: Gz, b: Gz|
            #[trigger] gmul(a, b) == z && !is_unit_spec(a) && !is_unit_spec(b);
        lemma_norm_mul(a, b);
        lemma_norm_nonneg(a);
        lemma_norm_nonneg(b);
        if a == gzero() {
            lemma_mul_zero(b);
        }
        if b == gzero() {
            lemma_mul_zero(a);
        }
        let (na, nb) = (gnorm(a), gnorm(b));
        assert(na >= 2 && nb >= 2);
        crate::ring::lemma_divides_of_mul(a, b);
        if na <= nb {
            assert(na * na <= na * nb && na < na * nb) by (nonlinear_arith)
                requires
                    2 <= na <= nb,
            ;
            let p = lemma_irreducible_divisor(a);
            lemma_divides_trans(p, a, z);
            lemma_norm_nonneg(p);
            let np = gnorm(p);
            assert(np * np <= na * na) by (nonlinear_arith)
                requires
                    0 <= np <= na,
            ;
            p
        } else {
            assert(nb * nb <= na * nb && nb < na * nb) by (nonlinear_arith)
                requires
                    2 <= nb < na,
            ;
            let p = lemma_irreducible_divisor(b);
            lemma_divides_trans(p, b, z);
            lemma_norm_nonneg(p);
            let np = gnorm(p);
            assert(np * np <= nb * nb) by (nonlinear_arith)
                requires
                    0 <= np <= nb,
            ;
            p
        }
    }
}

/// If `a * b = q^2` for a rational prime `q` and `a >= 2`, then `a` is `q` or `q^2`.
proof fn lemma_divisor_of_prime_square(q: int, a: int, b: int)
    requires
        is_rational_prime_spec(q),
        a >= 2,
        b >= 1,
        a * b == q * q,
    ensures
        a == q || a == q * q,
{
    vstd::arithmetic::div_mod::lemma_mod_multiples_basic(q, q);
    lemma_euclid_prime(q, a, b);
    if a % q == 0 {
        vstd::arithmetic::div_mod::lemma_fundamental_div_mod(a, q);
        let k = a / q;
        assert(k * b == q && k >= 1) by (nonlinear_arith)
            requires
                a == q * k + 0,
                a * b == q * q,
                q >= 2,
                a >= 2,
                b >= 1,
        ;
        lemma_prime_divisor(q, k, b);
        assert(a == q || a == q * q) by (nonlinear_arith)
            requires
                a == q * k,
                k == 1 || k == q,
        ;
    } else {
        vstd::arithmetic::div_mod::lemma_fundamental_div_mod(b, q);
        let k = b / q;
        assert(a * k == q && k >= 1) by (nonlinear_arith)
            requires
                b == q * k + 0,
                a * b == q * q,
                q >= 2,
                a >= 2,
                b >= 1,
        ;
        lemma_prime_divisor(q, a, k);
    }
}

/// An irreducible element off the axes has a rational prime norm.
proof fn lemma_irreducible_off_axis(z: Gz)
    requires
        irreducible_spec(z),
        z.0 != 0,
        z.1 != 0,
    ensures
        is_rational_prime_spec(gnorm(z)),
{
    let n = gnorm(z);
    assert(n >= 2) by (nonlinear_arith)
        requires
            z.0 != 0,
            z.1 != 0,
            n == z.0 * z.0 + z.1 * z.1,
    ;
    if !is_rational_prime_spec(n) {
        let q = lemma_rational_prime_factor(n);
        let qg = gz(q, 0);
        assert(gnorm(qg) == q * q);
        assert(q * q >= 4) by (nonlinear_arith)
            requires
                q >= 2,
        ;
        let p = lemma_irreducible_divisor(qg);
        // q divides n, so q divides z * conj(z) = n
        vstd::arithmetic::div_mod::lemma_fundamental_div_mod(n, q);
        let m = n / q;
        lemma_mul_scalar(q, gz(m, 0));
        assert(gmul(qg, gz(m, 0)) == gz(n, 0));
        lemma_mul_conj(z);
        lemma_divides_trans(p, qg, gz(n, 0));
        lemma_irreducible_divides_product(p, z, gconj(z));
        // an irreducible s divides both z and q
        let s = if gdivides(p, z) {
            p
        } else {
            gconj(p)
        };
        if !gdivides(p, z) {
            lemma_conj_divides(p, gconj(z));
            lemma_conj_divides(p, qg);
            lemma_conj_irreducible(p);
        }
        assert(gdivides(s, z) && gdivides(s, qg) && irreducible_spec(s));
        // z is irreducible, so z is an associate of s and divides q
        let k = choose|k: Gz| #[trigger] gmul(s, k) == z;
        assert(is_unit_spec(s) || is_unit_spec(k));
        lemma_unit_inverse(k);
        lemma_mul_assoc(s, k, gconj(k));
        lemma_mul_one(s);
        assert(gmul(z, gconj(k)) == s);
        lemma_divides_trans(z, s, qg);
        lemma_divides_norm(z, qg);
        vstd::arithmetic::div_mod::lemma_fundamental_div_mod(q * q, n);
        let t = (q * q) / n;
        assert(t >= 1) by (nonlinear_arith)
            requires
                q * q == n * t + 0,
                n >= 2,
                q >= 2,
        ;
        lemma_divisor_of_prime_square(q, n, t);
        if n == q * q {
            // z has the norm of q: it is an associate of q, on an axis
            lemma_divisor_same_norm(z, qg);
            lemma_associated_symm(z, qg);
            let v = choose|v: Gz| is_unit_spec(v) && #[trigger] gmul(v, qg) == z;
            lemma_unit_cases(v);
        }
    }
}

/// The axis value `(c, 0)` with `c >= 2` is reducible unless `c` is a rational
/// prime congruent to `3 mod 4`.
proof fn lemma_irreducible_rational(c: int)
    requires
        c >= 2,
        irreducible_spec(gz(c, 0)),
    ensures
        is_rational_prime_spec(c),
        c % 4 == 3,
{
    let w = gz(c, 0);
    if !is_rational_prime_spec(c) {
        let d = choose|d: int| 2 <= d < c && #[trigger] (c % d) == 0;
        vstd::arithmetic::div_mod::lemma_fundamental_div_mod(c, d);
        let e = c / d;
        assert(e >= 2) by (nonlinear_arith)
            requires
                c == d * e + 0,
                2 <= d < c,
        ;
        lemma_mul_scalar(d, gz(e, 0));
        assert(gmul(gz(d, 0), gz(e, 0)) == w);
        assert(gnorm(gz(d, 0)) >= 4 && gnorm(gz(e, 0)) >= 4) by (nonlinear_arith)
            requires
                d >= 2,
                e >= 2,
        ;
    } else if c == 2 {
        assert(gmul(gz(1, 1), gz(1, -1)) == w);
    } else {
        if c % 2 == 0 {
            assert(c % 2 != 0);
        }
        vstd::arithmetic::div_mod::lemma_fundamental_div_mod(c, 4);
        vstd::arithmetic::div_mod::lemma_mod_bound(c, 4);
        let k = c / 4;
        if c % 4 == 0 || c % 4 == 2 {
            vstd::arithmetic::div_mod::lemma_mod_multiples_basic(2 * k + (c % 4) / 2, 2);
            assert(c == (2 * k + (c % 4) / 2) * 2);
        }
        if c % 4 == 1 {
            let (a, b) = lemma_two_squares(c);
            assert(gnorm(gz(a, -b)) == c) by (nonlinear_arith)
                requires
                    a * a + b * b == c,
            ;
            assert(gmul(gz(a, b), gz(a, -b)) == w) by (nonlinear_arith)
                requires
                    a * a + b * b == c,
                    w == gz(c, 0),
            ;
        }
    }
}

/// An irreducible element passes the primality test.
pub proof fn lemma_irreducible_is_gaussian_prime(z: Gz)
    requires
        irreducible_spec(z),
    ensures
        is_gaussian_prime_spec(z),
{
    if z.0 != 0 && z.1 != 0 {
        lemma_irreducible_off_axis(z);
    } else {
        let c = axis_coordinate(z);
        let w = gz(c, 0);
        // z is a unit multiple of (c, 0)
        let u = if z.0 > 0 {
            gz(1, 0)
        } else if z.0 < 0 {
            gz(-1, 0)
        } else if z.1 > 0 {
            gz(0, 1)
        } else {
            gz(0, -1)
        };
        lemma_unit_cases(u);
        assert(gmul(u, w) == z);
        lemma_associate_irreducible(u, w);
        lemma_irreducible_rational(c);
    }
}

/// Every nonzero non-unit is divisible by a canonical Gaussian prime of no larger norm.
pub proof fn lemma_prime_class_divisor(d: Gz) -> (c: Gz)
    requires
        d != gzero(),
        !is_unit_spec(d),
    ensures
        is_prime_class(c),
        gdivides(c, d),
        gnorm(c) <= gnorm(d),
{
    let p = lemma_irreducible_divisor(d);
    lemma_irreducible_is_gaussian_prime(p);
    lemma_prime_spec_canonical(p);
    lemma_canonical_spec(p);
    let c = canonical_spec(p);
    lemma_associated_divides(p, c);
    lemma_divides_trans(c, p, d);
    c
}

/// The primality test recognises exactly the irreducible elements of `Z[i]`.
pub proof fn lemma_gaussian_prime_iff_irreducible(z: Gz)
    ensures
        is_gaussian_prime_spec(z) <==> irreducible_spec(z),
{
    if is_gaussian_prime_spec(z) {
        lemma_gaussian_prime_irreducible(z);
    }
    if irreducible_spec(z) {
        lemma_irreducible_is_gaussian_prime(z);
    }
}

} // verus!
