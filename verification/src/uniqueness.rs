//! Unique factorization in `Z[i]`: a nonzero Gaussian integer has exactly one
//! factorization into a unit and increasing powers of canonical Gaussian primes.
use vstd::prelude::*;

use crate::divisors::{
    factorization_value, gpow, is_factorization_model, is_prime_class, lemma_gpow_add,
    lemma_irreducible_divides_powers, lemma_irreducible_divides_product,
    lemma_prime_class_divides_prime_class, lemma_product_middle, lemma_sorted_set_eq,
    lemma_support_is_prime_divisors, lex_lt, powers_product, primes_of,
};
use crate::factor::factorization_of;
use crate::primality::lemma_gaussian_prime_irreducible;
use crate::ring::{
    gdivides, gmul, gnorm, gsub, gzero, lemma_divides_of_mul, lemma_divides_trans,
    lemma_divides_unit, lemma_mul_assoc, lemma_mul_comm, lemma_mul_distrib_sub, lemma_norm_mul,
    lemma_norm_nonneg, Gz,
};

verus! {

/// A nonzero factor cancels: `a*b = a*c` with `a != 0` gives `b = c`.
pub proof fn lemma_mul_cancel(a: Gz, b: Gz, c: Gz)
    requires
        a != gzero(),
        gmul(a, b) == gmul(a, c),
    ensures
        b == c,
{
    let d = gsub(b, c);
    lemma_mul_distrib_sub(a, b, c);
    assert(gmul(a, d) == gzero());
    lemma_norm_mul(a, d);
    lemma_norm_nonneg(a);
    lemma_norm_nonneg(d);
    lemma_norm_nonneg(gmul(a, d));
    let (na, nd) = (gnorm(a), gnorm(d));
    assert(nd == 0) by (nonlinear_arith)
        requires
            na * nd == 0,
            na > 0,
            nd >= 0,
    ;
}

/// Powers of nonzero values are nonzero.
proof fn lemma_gpow_nonzero(p: Gz, e: nat)
    requires
        p != gzero(),
    ensures
        gpow(p, e) != gzero(),
    decreases e,
{
    if e > 0 {
        lemma_gpow_nonzero(p, (e - 1) as nat);
        let x = gpow(p, (e - 1) as nat);
        lemma_norm_mul(x, p);
        lemma_norm_nonneg(x);
        lemma_norm_nonneg(p);
        lemma_norm_nonneg(gpow(p, e));
        let (nx, np) = (gnorm(x), gnorm(p));
        assert(nx * np > 0) by (nonlinear_arith)
            requires
                nx > 0,
                np > 0,
        ;
    }
}

/// A product of powers of nonzero values is nonzero.
proof fn lemma_product_nonzero(s: Seq<(Gz, nat)>)
    requires
        forall|k: int| 0 <= k < s.len() ==> #[trigger] s[k].0 != gzero(),
    ensures
        powers_product(s) != gzero(),
    decreases s.len(),
{
    if s.len() > 0 {
        let t = s.drop_last();
        assert forall|k: int| 0 <= k < t.len() implies #[trigger] t[k].0 != gzero() by {
            assert(t[k] == s[k]);
        }
        lemma_product_nonzero(t);
        let last = s.last();
        assert(s[s.len() - 1] == last);
        lemma_gpow_nonzero(last.0, last.1);
        let (x, y) = (powers_product(t), gpow(last.0, last.1));
        lemma_norm_mul(x, y);
        lemma_norm_nonneg(x);
        lemma_norm_nonneg(y);
        lemma_norm_nonneg(gmul(x, y));
        let (nx, ny) = (gnorm(x), gnorm(y));
        assert(nx * ny > 0) by (nonlinear_arith)
            requires
                nx > 0,
                ny > 0,
        ;
    }
}

/// In a factored value each listed prime power divides exactly: `p_k^e_k` divides
/// the value and `p_k^(e_k + 1)` does not.
pub proof fn lemma_exact_power(unit: Gz, s: Seq<(Gz, nat)>, k: int)
    requires
        is_factorization_model(unit, s),
        0 <= k < s.len(),
    ensures
        gdivides(gpow(s[k].0, s[k].1), factorization_value(unit, s)),
        !gdivides(gpow(s[k].0, s[k].1 + 1), factorization_value(unit, s)),
{
    let (p, e) = s[k];
    let a = s.take(k);
    let b = s.skip(k + 1);
    let rest_list = a + b;
    let z = factorization_value(unit, s);
    assert(s =~= a + seq![(p, e)] + b);
    lemma_product_middle(a, (p, e), b);
    let rest = gmul(unit, powers_product(rest_list));
    let pe = gpow(p, e);
    // z = rest * p^e
    lemma_mul_assoc(unit, powers_product(rest_list), pe);
    assert(z == gmul(rest, pe));
    lemma_divides_of_mul(rest, pe);
    assert(is_prime_class(p) && s[k].1 >= 1);
    if gdivides(gpow(p, e + 1), z) {
        // z = p^e * (p * q), so p divides rest
        let q = choose|q: Gz| #[trigger] gmul(gpow(p, e + 1), q) == z;
        assert(gpow(p, e + 1) == gmul(pe, p));
        lemma_mul_assoc(pe, p, q);
        lemma_mul_comm(rest, pe);
        assert(p != gzero());
        lemma_gpow_nonzero(p, e);
        lemma_mul_cancel(pe, gmul(p, q), rest);
        lemma_divides_of_mul(p, q);
        assert(gdivides(p, rest));
        // p is irreducible: it divides the unit or one of the other listed primes
        lemma_gaussian_prime_irreducible(p);
        lemma_irreducible_divides_product(p, unit, powers_product(rest_list));
        if gdivides(p, unit) {
            lemma_divides_unit(p, unit);
        } else {
            lemma_irreducible_divides_powers(p, rest_list);
            let j = choose|j: int| 0 <= j < rest_list.len() && gdivides(p, #[trigger] rest_list[j].0);
            let jj = if j < k {
                j
            } else {
                j + 1
            };
            assert(rest_list[j] == s[jj]);
            assert(is_prime_class(s[jj].0));
            lemma_prime_class_divides_prime_class(p, s[jj].0);
            assert(primes_of(s)[jj] == s[jj].0 && primes_of(s)[k] == p);
            if jj < k {
                assert(lex_lt(primes_of(s)[jj], primes_of(s)[k]));
            } else {
                assert(lex_lt(primes_of(s)[k], primes_of(s)[jj]));
            }
        }
    }
}

/// Unique factorization: a Gaussian integer has at most one factorization into a
/// unit and strictly increasing canonical Gaussian primes with positive exponents.
pub proof fn lemma_factorization_unique(
    f: (Gz, Seq<(Gz, nat)>),
    g: (Gz, Seq<(Gz, nat)>),
    z: Gz,
)
    requires
        factorization_of(f, z),
        factorization_of(g, z),
    ensures
        f == g,
{
    let (u, s) = f;
    let (v, t) = g;
    // the same primes, in the same order
    lemma_support_is_prime_divisors(u, s);
    lemma_support_is_prime_divisors(v, t);
    lemma_sorted_set_eq(primes_of(s), primes_of(t));
    assert(s.len() == primes_of(s).len() && t.len() == primes_of(t).len());
    // the same exponents
    assert forall|k: int| 0 <= k < s.len() implies s[k] == t[k] by {
        assert(primes_of(s)[k] == s[k].0 && primes_of(t)[k] == t[k].0);
        let p = s[k].0;
        let (e, d) = (s[k].1, t[k].1);
        lemma_exact_power(u, s, k);
        lemma_exact_power(v, t, k);
        if e < d {
            lemma_gpow_add(p, e + 1, (d - e - 1) as nat);
            assert(e + 1 + (d - e - 1) as nat == d);
            lemma_divides_of_mul(gpow(p, e + 1), gpow(p, (d - e - 1) as nat));
            lemma_divides_trans(gpow(p, e + 1), gpow(p, d), z);
        } else if d < e {
            lemma_gpow_add(p, d + 1, (e - d - 1) as nat);
            assert(d + 1 + (e - d - 1) as nat == e);
            lemma_divides_of_mul(gpow(p, d + 1), gpow(p, (e - d - 1) as nat));
            lemma_divides_trans(gpow(p, d + 1), gpow(p, e), z);
        }
    }
    assert(s =~= t);
    // the same unit
    assert forall|k: int| 0 <= k < s.len() implies #[trigger] s[k].0 != gzero() by {
        assert(is_prime_class(s[k].0));
    }
    lemma_product_nonzero(s);
    let product = powers_product(s);
    lemma_mul_comm(u, product);
    lemma_mul_comm(v, product);
    lemma_mul_cancel(product, u, v);
}

} // verus!
