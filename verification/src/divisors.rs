//! Products of prime powers, prime divisors and supports: the mathematical model
//! of factorizations and the proof that a factorization's support is exactly the
//! set of canonical Gaussian primes dividing the factored value.
use vstd::prelude::*;

use crate::gcd::{coprime_spec, lemma_coprime_divides_product};
use crate::primality::{irreducible_spec, is_gaussian_prime_spec, lemma_gaussian_prime_irreducible};
use crate::ring::{
    associated, gdivides, gmul, gone, is_canonical_spec, is_unit_spec,
    lemma_canonical_associates_equal, lemma_divides_mul_right, lemma_divides_of_mul,
    lemma_divides_trans, lemma_divides_unit, lemma_mul_assoc, lemma_mul_comm, lemma_mul_one, Gz,
};

verus! {

/// `p^e`.
pub open spec fn gpow(p: Gz, e: nat) -> Gz
    decreases e,
{
    if e == 0 {
        gone()
    } else {
        gmul(gpow(p, (e - 1) as nat), p)
    }
}

/// The product of prime powers `p_1^e_1 * ... * p_n^e_n`, multiplied from the left.
pub open spec fn powers_product(s: Seq<(Gz, nat)>) -> Gz
    decreases s.len(),
{
    if s.len() == 0 {
        gone()
    } else {
        gmul(powers_product(s.drop_last()), gpow(s.last().0, s.last().1))
    }
}

/// The value `unit * p_1^e_1 * ... * p_n^e_n` represented by a factorization.
pub open spec fn factorization_value(unit: Gz, s: Seq<(Gz, nat)>) -> Gz {
    gmul(unit, powers_product(s))
}

/// Lexicographic order on `(re, im)`, the order of canonical representatives.
pub open spec fn lex_lt(a: Gz, b: Gz) -> bool {
    a.0 < b.0 || (a.0 == b.0 && a.1 < b.1)
}

/// Strictly increasing in lexicographic order (hence without repetition).
pub open spec fn strictly_sorted(s: Seq<Gz>) -> bool {
    forall|i: int, j: int| 0 <= i < j < s.len() ==> lex_lt(#[trigger] s[i], #[trigger] s[j])
}

/// A canonical representative of a Gaussian-prime associate class.
pub open spec fn is_prime_class(c: Gz) -> bool {
    is_canonical_spec(c) && is_gaussian_prime_spec(c)
}

/// The primes of a list of prime powers.
pub open spec fn primes_of(s: Seq<(Gz, nat)>) -> Seq<Gz> {
    s.map_values(|pp: (Gz, nat)| pp.0)
}

/// A well-formed factorization: a unit and strictly increasing canonical primes with
/// positive exponents.
pub open spec fn is_factorization_model(unit: Gz, s: Seq<(Gz, nat)>) -> bool {
    &&& is_unit_spec(unit)
    &&& strictly_sorted(primes_of(s))
    &&& forall|k: int| 0 <= k < s.len() ==> is_prime_class(#[trigger] s[k].0) && s[k].1 >= 1
}

/// The set of canonical Gaussian-prime classes dividing `z`: its prime support.
pub open spec fn prime_divisors(z: Gz) -> Set<Gz> {
    Set::new(|c: Gz| is_prime_class(c) && gdivides(c, z))
}

/// A sequence of canonical prime classes as a finite set.
pub open spec fn support_set(s: Seq<Gz>) -> Set<Gz> {
    s.to_set()
}

pub proof fn lemma_gpow_one(p: Gz)
    ensures
        gpow(p, 1) == p,
{
    assert(gpow(p, 0) == gone());
    lemma_mul_one(p);
}

/// `p` divides every positive power of `p`.
pub proof fn lemma_divides_gpow(p: Gz, e: nat)
    requires
        e >= 1,
    ensures
        gdivides(p, gpow(p, e)),
{
    assert(gdivides(p, gmul(gpow(p, (e - 1) as nat), p))) by {
        lemma_divides_of_mul(gpow(p, (e - 1) as nat), p);
    }
}

/// `product(s1 + s2) = product(s1) * product(s2)`.
pub proof fn lemma_product_append(s1: Seq<(Gz, nat)>, s2: Seq<(Gz, nat)>)
    ensures
        powers_product(s1 + s2) == gmul(powers_product(s1), powers_product(s2)),
    decreases s2.len(),
{
    if s2.len() == 0 {
        assert(s1 + s2 =~= s1);
        lemma_mul_one(powers_product(s1));
    } else {
        let t = s2.drop_last();
        let x = s2.last();
        assert((s1 + s2).drop_last() =~= s1 + t);
        assert((s1 + s2).last() == x);
        lemma_product_append(s1, t);
        lemma_mul_assoc(powers_product(s1), powers_product(t), gpow(x.0, x.1));
    }
}

/// The product of a one-element list is that power.
pub proof fn lemma_product_single(x: (Gz, nat))
    ensures
        powers_product(seq![x]) == gpow(x.0, x.1),
{
    assert(seq![x].drop_last() =~= Seq::<(Gz, nat)>::empty());
    assert(seq![x].last() == x);
    assert(powers_product(Seq::<(Gz, nat)>::empty()) == gone());
    lemma_mul_one(gpow(x.0, x.1));
}

/// `product(a + [x] + b) = product(a + b) * p^e`.
pub proof fn lemma_product_middle(a: Seq<(Gz, nat)>, x: (Gz, nat), b: Seq<(Gz, nat)>)
    ensures
        powers_product(a + seq![x] + b) == gmul(powers_product(a + b), gpow(x.0, x.1)),
{
    let (pa, px, pb) = (powers_product(a), gpow(x.0, x.1), powers_product(b));
    lemma_product_append(a + seq![x], b);
    lemma_product_append(a, seq![x]);
    lemma_product_single(x);
    lemma_product_append(a, b);
    lemma_mul_assoc(pa, px, pb);
    lemma_mul_comm(px, pb);
    lemma_mul_assoc(pa, pb, px);
}

/// Inserting a new prime with exponent one multiplies the product by the prime.
pub proof fn lemma_product_insert(s: Seq<(Gz, nat)>, i: int, p: Gz)
    requires
        0 <= i <= s.len(),
    ensures
        powers_product(s.insert(i, (p, 1nat))) == gmul(powers_product(s), p),
{
    assert(s.insert(i, (p, 1nat)) =~= s.take(i) + seq![(p, 1nat)] + s.skip(i));
    assert(s =~= s.take(i) + s.skip(i));
    lemma_product_middle(s.take(i), (p, 1nat), s.skip(i));
    lemma_gpow_one(p);
}

/// Raising the exponent of a listed prime by one multiplies the product by the prime.
pub proof fn lemma_product_increment(s: Seq<(Gz, nat)>, i: int)
    requires
        0 <= i < s.len(),
    ensures
        powers_product(s.update(i, (s[i].0, s[i].1 + 1))) == gmul(powers_product(s), s[i].0),
{
    let (p, e) = s[i];
    let a = s.take(i);
    let b = s.skip(i + 1);
    assert(s.update(i, (p, e + 1)) =~= a + seq![(p, (e + 1) as nat)] + b);
    assert(s =~= a + seq![(p, e)] + b);
    lemma_product_middle(a, (p, (e + 1) as nat), b);
    lemma_product_middle(a, (p, e), b);
    assert(gpow(p, (e + 1) as nat) == gmul(gpow(p, e), p));
    lemma_mul_assoc(powers_product(a + b), gpow(p, e), p);
}

/// `p^(j + k) = p^j * p^k`.
pub proof fn lemma_gpow_add(p: Gz, j: nat, k: nat)
    ensures
        gpow(p, j + k) == gmul(gpow(p, j), gpow(p, k)),
    decreases k,
{
    if k == 0 {
        lemma_mul_one(gpow(p, j));
    } else {
        lemma_gpow_add(p, j, (k - 1) as nat);
        assert(gpow(p, j + k) == gmul(gpow(p, (j + k - 1) as nat), p));
        assert((j + k - 1) as nat == j + (k - 1) as nat);
        lemma_mul_assoc(gpow(p, j), gpow(p, (k - 1) as nat), p);
    }
}

/// `y | z` implies `x*y | x*z`.
pub proof fn lemma_divides_mul_left(x: Gz, y: Gz, z: Gz)
    requires
        gdivides(y, z),
    ensures
        gdivides(gmul(x, y), gmul(x, z)),
{
    let q = choose|q: Gz| #[trigger] gmul(y, q) == z;
    lemma_mul_assoc(x, y, q);
    assert(gmul(gmul(x, y), q) == gmul(x, z));
}

/// The partial products formed while rebuilding a factorization divide its value:
/// `unit * p_1^e_1 * ... * p_{i-1}^e_{i-1} * p_i^j` divides the whole product for
/// `j <= e_i`.
pub proof fn lemma_prefix_divides(unit: Gz, s: Seq<(Gz, nat)>, i: int, j: nat)
    requires
        0 <= i < s.len(),
        j <= s[i].1,
    ensures
        gdivides(
            gmul(gmul(unit, powers_product(s.take(i))), gpow(s[i].0, j)),
            factorization_value(unit, s),
        ),
{
    let (p, e) = s[i];
    let a = s.take(i);
    let b = s.skip(i + 1);
    let (pa, pb) = (powers_product(a), powers_product(b));
    let ua = gmul(unit, pa);
    assert(s =~= a + seq![(p, e)] + b);
    lemma_product_append(a + seq![(p, e)], b);
    lemma_product_append(a, seq![(p, e)]);
    lemma_product_single((p, e));
    // product(s) = (pa * p^e) * pb, so the value is ((unit * pa) * p^e) * pb
    lemma_mul_assoc(unit, gmul(pa, gpow(p, e)), pb);
    lemma_mul_assoc(unit, pa, gpow(p, e));
    assert(factorization_value(unit, s) == gmul(gmul(ua, gpow(p, e)), pb));
    lemma_gpow_add(p, j, (e - j) as nat);
    assert(j + (e - j) as nat == e);
    lemma_divides_of_mul(gpow(p, j), gpow(p, (e - j) as nat));
    lemma_divides_mul_left(ua, gpow(p, j), gpow(p, e));
    lemma_divides_mul_right(gmul(ua, gpow(p, j)), gmul(ua, gpow(p, e)), pb);
}

/// Extending a prefix product by one more prime power.
pub proof fn lemma_prefix_step(unit: Gz, s: Seq<(Gz, nat)>, i: int)
    requires
        0 <= i < s.len(),
    ensures
        gmul(unit, powers_product(s.take(i + 1))) == gmul(
            gmul(unit, powers_product(s.take(i))),
            gpow(s[i].0, s[i].1),
        ),
{
    assert(s.take(i + 1).drop_last() =~= s.take(i));
    assert(s.take(i + 1).last() == s[i]);
    lemma_mul_assoc(unit, powers_product(s.take(i)), gpow(s[i].0, s[i].1));
}

/// Each listed power divides the product.
pub proof fn lemma_power_divides_product(s: Seq<(Gz, nat)>, k: int)
    requires
        0 <= k < s.len(),
    ensures
        gdivides(gpow(s[k].0, s[k].1), powers_product(s)),
    decreases s.len(),
{
    if k == s.len() - 1 {
        lemma_divides_of_mul(powers_product(s.drop_last()), gpow(s[k].0, s[k].1));
    } else {
        lemma_power_divides_product(s.drop_last(), k);
        lemma_divides_mul_right(
            gpow(s[k].0, s[k].1),
            powers_product(s.drop_last()),
            gpow(s.last().0, s.last().1),
        );
    }
}

/// An irreducible element that does not divide `x` is coprime to it.
pub proof fn lemma_irreducible_coprime(c: Gz, x: Gz)
    requires
        irreducible_spec(c),
        !gdivides(c, x),
    ensures
        coprime_spec(x, c),
{
    assert forall|d: Gz| #[trigger] gdivides(d, x) && #[trigger] gdivides(d, c) implies is_unit_spec(
        d,
    ) by {
        let k = choose|k: Gz| #[trigger] gmul(d, k) == c;
        assert(is_unit_spec(d) || is_unit_spec(k));
        if !is_unit_spec(d) {
            // c = d*k with k a unit, so c divides d and hence x
            crate::ring::lemma_unit_inverse(k);
            lemma_mul_assoc(c, crate::ring::gconj(k), k);
            lemma_mul_comm(d, k);
            lemma_mul_assoc(d, k, crate::ring::gconj(k));
            lemma_mul_one(d);
            assert(gmul(c, crate::ring::gconj(k)) == d);
            lemma_divides_trans(c, d, x);
        }
    }
}

/// An irreducible element is prime: dividing a product, it divides a factor.
pub proof fn lemma_irreducible_divides_product(c: Gz, x: Gz, y: Gz)
    requires
        irreducible_spec(c),
        gdivides(c, gmul(x, y)),
    ensures
        gdivides(c, x) || gdivides(c, y),
{
    if !gdivides(c, x) {
        lemma_irreducible_coprime(c, x);
        lemma_coprime_divides_product(c, x, y);
    }
}

/// A unit has empty prime support.
pub proof fn lemma_unit_support_empty(u: Gz)
    requires
        is_unit_spec(u),
    ensures
        prime_divisors(u) == Set::<Gz>::empty(),
{
    assert forall|c: Gz| !#[trigger] prime_divisors(u).contains(c) by {
        if prime_divisors(u).contains(c) {
            lemma_divides_unit(c, u);
        }
    }
    assert(prime_divisors(u) =~= Set::<Gz>::empty());
}

/// Two increasing listings of the support of `z` agree: in particular a
/// factorization's support is the listing returned by the support computation.
pub proof fn lemma_support_listing_unique(s: Seq<Gz>, t: Seq<Gz>, z: Gz)
    requires
        strictly_sorted(s),
        strictly_sorted(t),
        support_set(s) == prime_divisors(z),
        support_set(t) == prime_divisors(z),
    ensures
        s == t,
{
    lemma_sorted_set_eq(s, t);
}

/// An irreducible element dividing a product of prime powers divides one of the primes.
pub proof fn lemma_irreducible_divides_powers(c: Gz, s: Seq<(Gz, nat)>)
    requires
        irreducible_spec(c),
        gdivides(c, powers_product(s)),
    ensures
        exists|k: int| 0 <= k < s.len() && gdivides(c, #[trigger] s[k].0),
    decreases s.len(),
{
    if s.len() == 0 {
        crate::ring::lemma_unit_cases(gone());
        lemma_divides_unit(c, gone());
    } else {
        let last = s.last();
        lemma_irreducible_divides_product(c, powers_product(s.drop_last()), gpow(last.0, last.1));
        if gdivides(c, powers_product(s.drop_last())) {
            lemma_irreducible_divides_powers(c, s.drop_last());
            let k = choose|k: int| 0 <= k < s.drop_last().len() && gdivides(c, #[trigger] s.drop_last()[k].0);
            assert(s[k] == s.drop_last()[k]);
        } else {
            lemma_irreducible_divides_gpow(c, last.0, last.1);
            assert(s[s.len() - 1] == last);
        }
    }
}

/// An irreducible element dividing `p^e` divides `p`.
pub proof fn lemma_irreducible_divides_gpow(c: Gz, p: Gz, e: nat)
    requires
        irreducible_spec(c),
        gdivides(c, gpow(p, e)),
    ensures
        gdivides(c, p),
    decreases e,
{
    if e == 0 {
        crate::ring::lemma_unit_cases(gone());
        lemma_divides_unit(c, gone());
    } else {
        lemma_irreducible_divides_product(c, gpow(p, (e - 1) as nat), p);
        if !gdivides(c, p) {
            lemma_irreducible_divides_gpow(c, p, (e - 1) as nat);
        }
    }
}

/// A canonical prime class dividing another canonical prime class is that class.
pub proof fn lemma_prime_class_divides_prime_class(c: Gz, p: Gz)
    requires
        is_prime_class(c),
        is_prime_class(p),
        gdivides(c, p),
    ensures
        c == p,
{
    lemma_gaussian_prime_irreducible(c);
    lemma_gaussian_prime_irreducible(p);
    let k = choose|k: Gz| #[trigger] gmul(c, k) == p;
    assert(is_unit_spec(c) || is_unit_spec(k));
    lemma_mul_comm(c, k);
    assert(associated(c, p));
    lemma_canonical_associates_equal(c, p);
}

/// The support of a factorization of `z` is exactly the set of canonical Gaussian
/// primes dividing `z`.
pub proof fn lemma_support_is_prime_divisors(unit: Gz, s: Seq<(Gz, nat)>)
    requires
        is_factorization_model(unit, s),
    ensures
        support_set(primes_of(s)) == prime_divisors(factorization_value(unit, s)),
{
    let z = factorization_value(unit, s);
    let ps = primes_of(s);
    assert forall|c: Gz| #[trigger] support_set(ps).contains(c) implies prime_divisors(z).contains(
        c,
    ) by {
        let k = choose|k: int| 0 <= k < ps.len() && ps[k] == c;
        assert(is_prime_class(s[k].0) && s[k].1 >= 1);
        lemma_divides_gpow(c, s[k].1);
        lemma_power_divides_product(s, k);
        lemma_divides_trans(c, gpow(c, s[k].1), powers_product(s));
        lemma_divides_mul_right(c, powers_product(s), unit);
        lemma_mul_comm(powers_product(s), unit);
    }
    assert forall|c: Gz| #[trigger] prime_divisors(z).contains(c) implies support_set(ps).contains(
        c,
    ) by {
        lemma_gaussian_prime_irreducible(c);
        lemma_irreducible_divides_product(c, unit, powers_product(s));
        if gdivides(c, unit) {
            lemma_divides_unit(c, unit);
        }
        lemma_irreducible_divides_powers(c, s);
        let k = choose|k: int| 0 <= k < s.len() && gdivides(c, #[trigger] s[k].0);
        assert(is_prime_class(s[k].0));
        lemma_prime_class_divides_prime_class(c, s[k].0);
        assert(ps[k] == c);
    }
    assert(support_set(ps) =~= prime_divisors(z));
}

/// Two strictly sorted sequences with the same elements are equal.
pub proof fn lemma_sorted_set_eq(a: Seq<Gz>, b: Seq<Gz>)
    requires
        strictly_sorted(a),
        strictly_sorted(b),
        a.to_set() == b.to_set(),
    ensures
        a == b,
    decreases a.len(),
{
    if a.len() == 0 {
        if b.len() > 0 {
            assert(b.to_set().contains(b[0]));
            assert(!a.to_set().contains(b[0]));
        }
        assert(a =~= b);
    } else if b.len() == 0 {
        assert(a.to_set().contains(a[0]));
    } else {
        // the last elements are the maxima
        let (la, lb) = (a.last(), b.last());
        assert(a.to_set().contains(la));
        assert(b.to_set().contains(lb));
        assert(b.contains(la));
        assert(a.contains(lb));
        let i = choose|i: int| 0 <= i < b.len() && b[i] == la;
        let j = choose|j: int| 0 <= j < a.len() && a[j] == lb;
        if i < b.len() - 1 {
            assert(lex_lt(b[i], b[b.len() - 1]));
            if j < a.len() - 1 {
                assert(lex_lt(a[j], a[a.len() - 1]));
            }
        }
        if j < a.len() - 1 {
            assert(lex_lt(a[j], a[a.len() - 1]));
        }
        assert(la == lb);
        let (ta, tb) = (a.drop_last(), b.drop_last());
        assert forall|x: Gz| ta.to_set().contains(x) implies tb.to_set().contains(x) by {
            let k = choose|k: int| 0 <= k < ta.len() && ta[k] == x;
            assert(a[k] == x);
            assert(lex_lt(x, la));
            assert(b.to_set().contains(x));
            let m = choose|m: int| 0 <= m < b.len() && b[m] == x;
            assert(m != b.len() - 1);
            assert(tb[m] == x);
        }
        assert forall|x: Gz| tb.to_set().contains(x) implies ta.to_set().contains(x) by {
            let k = choose|k: int| 0 <= k < tb.len() && tb[k] == x;
            assert(b[k] == x);
            assert(lex_lt(x, lb));
            assert(a.to_set().contains(x));
            let m = choose|m: int| 0 <= m < a.len() && a[m] == x;
            assert(m != a.len() - 1);
            assert(ta[m] == x);
        }
        assert(ta.to_set() =~= tb.to_set());
        lemma_sorted_set_eq(ta, tb);
        assert(a =~= ta.push(la));
        assert(b =~= tb.push(lb));
    }
}

} // verus!
