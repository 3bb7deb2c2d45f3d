//! Rational and Gaussian primality: the characterisation used by the library, and
//! the proof that every value it accepts is irreducible in `Z[i]`.
use vstd::prelude::*;

use crate::division::abs_spec;
use crate::ring::{
    gmul, gnorm, gzero, is_unit_spec, lemma_mul_zero, lemma_norm_mul, lemma_norm_nonneg, Gz,
};

verus! {

/// A rational prime: at least two, with no divisor strictly between one and itself.
pub open spec fn is_rational_prime_spec(n: int) -> bool {
    n >= 2 && forall|d: int| 2 <= d < n ==> #[trigger] (n % d) != 0
}

/// The nonzero coordinate of a value on an axis.
pub open spec fn axis_coordinate(z: Gz) -> int {
    if z.0 == 0 {
        abs_spec(z.1)
    } else {
        abs_spec(z.0)
    }
}

/// The library's Gaussian-primality test: a non-axis value is prime exactly when its
/// norm is a rational prime; an axis value is prime exactly when its nonzero
/// coordinate is a rational prime congruent to `3 mod 4`. Zero and units are not prime.
pub open spec fn is_gaussian_prime_spec(z: Gz) -> bool {
    if z == gzero() || is_unit_spec(z) {
        false
    } else if z.0 == 0 || z.1 == 0 {
        axis_coordinate(z) % 4 == 3 && is_rational_prime_spec(axis_coordinate(z))
    } else {
        is_rational_prime_spec(gnorm(z))
    }
}

/// Irreducibility in `Z[i]`: nonzero, not a unit, and every factorisation has a unit factor.
pub open spec fn irreducible_spec(z: Gz) -> bool {
    &&& z != gzero()
    &&& !is_unit_spec(z)
    &&& forall|a: Gz, b: Gz| #[trigger] gmul(a, b) == z ==> is_unit_spec(a) || is_unit_spec(b)
}

/// A positive divisor of a rational prime is one or the prime itself.
pub proof fn lemma_prime_divisor(p: int, d: int, k: int)
    requires
        is_rational_prime_spec(p),
        d >= 1,
        k >= 1,
        d * k == p,
    ensures
        d == 1 || d == p,
{
    if d != 1 && d != p {
        assert(d <= p) by (nonlinear_arith)
            requires
                d * k == p,
                k >= 1,
                d >= 1,
        ;
        vstd::arithmetic::div_mod::lemma_mod_multiples_basic(k, d);
        assert(k * d == d * k) by (nonlinear_arith);
        assert(p % d == 0);
        assert(2 <= d < p);
    }
}

/// Euclid's lemma, reduced case: a prime dividing `a*y` with `0 < a < p` divides `y`.
proof fn lemma_euclid_reduced(p: int, a: int, y: int)
    requires
        is_rational_prime_spec(p),
        0 < a < p,
        (a * y) % p == 0,
    ensures
        y % p == 0,
    decreases a,
{
    if a == 1 {
        assert(a * y == y) by (nonlinear_arith)
            requires
                a == 1,
        ;
    } else {
        let q = p / a;
        let r = p % a;
        vstd::arithmetic::div_mod::lemma_fundamental_div_mod(p, a);
        vstd::arithmetic::div_mod::lemma_mod_bound(p, a);
        assert(r != 0) by {
            assert(2 <= a < p);
        }
        vstd::arithmetic::div_mod::lemma_fundamental_div_mod(a * y, p);
        let k = (a * y) / p;
        // r*y = p*y - q*(a*y) = p*(y - q*k)
        assert(r * y == p * (y - q * k)) by (nonlinear_arith)
            requires
                p == a * q + r,
                a * y == p * k,
        ;
        vstd::arithmetic::div_mod::lemma_mod_multiples_basic(y - q * k, p);
        assert((y - q * k) * p == p * (y - q * k)) by (nonlinear_arith);
        lemma_euclid_reduced(p, r, y);
    }
}

/// Euclid's lemma: a rational prime dividing a product divides a factor.
pub proof fn lemma_euclid_prime(p: int, x: int, y: int)
    requires
        is_rational_prime_spec(p),
        (x * y) % p == 0,
    ensures
        x % p == 0 || y % p == 0,
{
    let a = x % p;
    vstd::arithmetic::div_mod::lemma_mod_bound(x, p);
    if a != 0 {
        vstd::arithmetic::div_mod::lemma_mul_mod_noop_left(x, y, p);
        lemma_euclid_reduced(p, a, y);
    }
}

/// A square is `0` or `1` modulo `4`.
pub proof fn lemma_square_mod_4(x: int)
    ensures
        (x * x) % 4 == 0 || (x * x) % 4 == 1,
{
    let k = x / 4;
    let r = x % 4;
    vstd::arithmetic::div_mod::lemma_fundamental_div_mod(x, 4);
    vstd::arithmetic::div_mod::lemma_mod_bound(x, 4);
    assert(x * x == 4 * (4 * k * k + 2 * k * r) + r * r) by (nonlinear_arith)
        requires
            x == 4 * k + r,
    ;
    vstd::arithmetic::div_mod::lemma_mod_multiples_vanish(4 * k * k + 2 * k * r, r * r, 4);
    assert(r * r == 0 || r * r == 1 || r * r == 4 || r * r == 9) by (nonlinear_arith)
        requires
            0 <= r < 4,
    ;
}

/// A sum of two squares is never `3` modulo `4`.
pub proof fn lemma_two_squares_not_3_mod_4(z: Gz)
    ensures
        gnorm(z) % 4 != 3,
{
    lemma_square_mod_4(z.0);
    lemma_square_mod_4(z.1);
    vstd::arithmetic::div_mod::lemma_add_mod_noop(z.0 * z.0, z.1 * z.1, 4);
}

/// Norms of a nonzero product's factors are at least one.
proof fn lemma_factor_norms(a: Gz, b: Gz)
    requires
        gmul(a, b) != gzero(),
    ensures
        gnorm(a) >= 1,
        gnorm(b) >= 1,
        gnorm(gmul(a, b)) == gnorm(a) * gnorm(b),
{
    lemma_norm_mul(a, b);
    lemma_norm_nonneg(a);
    lemma_norm_nonneg(b);
    if a == gzero() {
        lemma_mul_zero(b);
    }
    if b == gzero() {
        lemma_mul_zero(a);
    }
}

/// Every value accepted by the primality test is irreducible in `Z[i]`.
pub proof fn lemma_gaussian_prime_irreducible(z: Gz)
    requires
        is_gaussian_prime_spec(z),
    ensures
        irreducible_spec(z),
{
    assert forall|a: Gz, b: Gz| #[trigger] gmul(a, b) == z implies is_unit_spec(a) || is_unit_spec(
        b,
    ) by {
        lemma_factor_norms(a, b);
        let (na, nb) = (gnorm(a), gnorm(b));
        if z.0 != 0 && z.1 != 0 {
            lemma_prime_divisor(gnorm(z), na, nb);
            if na != 1 {
                assert(nb == 1) by (nonlinear_arith)
                    requires
                        na * nb == na,
                        na >= 1,
                ;
            }
        } else {
            let c = axis_coordinate(z);
            assert(gnorm(z) == c * c) by (nonlinear_arith)
                requires
                    z.0 == 0 || z.1 == 0,
                    c == (if z.0 == 0 {
                        abs_spec(z.1)
                    } else {
                        abs_spec(z.0)
                    }),
            ;
            if na != 1 && nb != 1 {
                vstd::arithmetic::div_mod::lemma_mod_multiples_basic(c, c);
                assert(c * c == na * nb);
                lemma_euclid_prime(c, na, nb);
                if na % c == 0 {
                    vstd::arithmetic::div_mod::lemma_fundamental_div_mod(na, c);
                    let k = na / c;
                    assert(k * nb == c && k >= 1) by (nonlinear_arith)
                        requires
                            na == c * k,
                            c * c == na * nb,
                            c >= 2,
                            na >= 1,
                    ;
                    lemma_prime_divisor(c, nb, k);
                    assert(nb == c) by (nonlinear_arith)
                        requires
                            k * nb == c,
                            nb == 1 || nb == c,
                            nb != 1,
                    ;
                    lemma_two_squares_not_3_mod_4(b);
                } else {
                    vstd::arithmetic::div_mod::lemma_fundamental_div_mod(nb, c);
                    let k = nb / c;
                    assert(k * na == c && k >= 1) by (nonlinear_arith)
                        requires
                            nb == c * k,
                            c * c == na * nb,
                            c >= 2,
                            nb >= 1,
                    ;
                    lemma_prime_divisor(c, na, k);
                    lemma_two_squares_not_3_mod_4(a);
                }
            }
        }
    }
}

} // verus!
