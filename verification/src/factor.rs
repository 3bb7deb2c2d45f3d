//! Gaussian primality, prime classes, and exact factorization within a finite range.
use vstd::prelude::*;

use crate::arithmetic::{GaussianError, GaussianInt};
use crate::classification::{
    lemma_gaussian_prime_iff_irreducible, lemma_irreducible_divisor,
    lemma_irreducible_is_gaussian_prime,
};
use crate::division::{
    abs_spec, exact_div_spec, exact_quotient_spec, fits_i128, lemma_exact_division, numerators,
};
use crate::divisors::{
    factorization_value, gpow, is_factorization_model, is_prime_class, lemma_power_divides_product,
    lemma_product_increment, lemma_product_insert, lemma_support_is_prime_divisors, lex_lt,
    powers_product, prime_divisors, primes_of, strictly_sorted, support_set,
};
use crate::primality::{irreducible_spec, is_gaussian_prime_spec, is_rational_prime_spec};
use crate::ring::{
    canonical_spec, gconj, gdivides, gmul, gnorm, gzero, is_unit_spec, lemma_associated_divides,
    lemma_canonical_spec, lemma_divides_norm, lemma_divides_of_mul, lemma_divides_trans,
    lemma_mul_assoc, lemma_mul_comm, lemma_mul_conj, lemma_mul_zero, lemma_norm_mul,
    lemma_norm_nonneg, representable, Gz,
};

verus! {

/// Largest norm accepted by exact primality, factorization, and support routines.
///
/// Arithmetic and gcd operations are not subject to this limit. The factorizer uses
/// deterministic trial division, so this deliberately modest ceiling keeps runtime
/// predictable.
pub const MAX_FACTOR_NORM: u128 = 1_000_000_000;

/// The error for a norm beyond the factorization range.
pub open spec fn limit_error(norm: int) -> GaussianError {
    GaussianError::FactorizationLimitExceeded { norm: norm as u128, max_norm: MAX_FACTOR_NORM }
}

fn ensure_supported_norm(norm: u128) -> (r: Result<(), GaussianError>)
    ensures
        r is Ok <==> norm <= MAX_FACTOR_NORM,
        r matches Err(e) ==> e == limit_error(norm as int),
{
    if norm > MAX_FACTOR_NORM {
        Err(GaussianError::FactorizationLimitExceeded { norm, max_norm: MAX_FACTOR_NORM })
    } else {
        Ok(())
    }
}

/// Exact rational primality by trial division with odd divisors up to the square root.
pub fn is_rational_prime(value: u128) -> (r: bool)
    ensures
        r == is_rational_prime_spec(value as int),
{
    if value < 2 {
        return false;
    }
    if value % 2 == 0 {
        if value != 2 {
            assert((value as int) % 2 == 0 && 2 < value);
        }
        return value == 2;
    }
    let mut divisor: u128 = 3;
    while divisor <= value / divisor
        invariant
            3 <= divisor <= value + 2,
            divisor % 2 == 1,
            value % 2 == 1,
            value >= 3,
            forall|d: int| 2 <= d < divisor ==> #[trigger] ((value as int) % d) != 0,
        decreases value + 2 - divisor,
    {
        proof {
            lemma_le_div_square(divisor as int, value as int);
        }
        if value % divisor == 0 {
            assert(2 <= divisor < value) by (nonlinear_arith)
                requires
                    divisor * divisor <= value,
                    divisor >= 3,
            ;
            return false;
        }
        proof {
            // the next even candidate cannot divide an odd value
            let e = divisor + 1;
            if (value as int) % e == 0 {
                vstd::arithmetic::div_mod::lemma_fundamental_div_mod(value as int, e as int);
                let k = (value as int) / (e as int);
                let h = (e / 2) as int;
                assert(value == 2 * (h * k)) by (nonlinear_arith)
                    requires
                        value == e * k,
                        e == 2 * h,
                ;
                vstd::arithmetic::div_mod::lemma_mod_multiples_basic(h * k, 2);
                assert((h * k) * 2 == 2 * (h * k)) by (nonlinear_arith);
            }
            assert(divisor + 2 <= value + 2) by (nonlinear_arith)
                requires
                    divisor * divisor <= value,
                    divisor >= 3,
            ;
            assert(divisor < 0x1_0000_0000_0000_0000) by (nonlinear_arith)
                requires
                    divisor * divisor <= value,
                    value <= 0xffff_ffff_ffff_ffff_ffff_ffff_ffff_ffff,
                    divisor >= 3,
            ;
        }
        divisor = divisor + 2;
    }
    proof {
        lemma_le_div_square(divisor as int, value as int);
        assert forall|d: int| 2 <= d < value implies #[trigger] ((value as int) % d) != 0 by {
            if d >= divisor && (value as int) % d == 0 {
                vstd::arithmetic::div_mod::lemma_fundamental_div_mod(value as int, d);
                let k = (value as int) / d;
                vstd::arithmetic::div_mod::lemma_mod_multiples_basic(d, k);
                assert(2 <= k < divisor) by (nonlinear_arith)
                    requires
                        value == d * k,
                        d < value,
                        d >= divisor,
                        divisor * divisor > value,
                        divisor >= 3,
                ;
                assert(d * k == k * d) by (nonlinear_arith);
                assert((value as int) % k == 0);
            }
        }
    }
    true
}

/// `m <= v / m` exactly when `m * m <= v` (for `m >= 1`).
proof fn lemma_le_div_square(m: int, v: int)
    requires
        m >= 1,
        v >= 0,
    ensures
        (m <= v / m) <==> (m * m <= v),
{
    vstd::arithmetic::div_mod::lemma_fundamental_div_mod(v, m);
    vstd::arithmetic::div_mod::lemma_mod_bound(v, m);
    let q = v / m;
    let r = v % m;
    if m <= q {
        assert(m * m <= m * q) by (nonlinear_arith)
            requires
                m <= q,
                m >= 1,
        ;
    } else {
        assert(m * m > v) by (nonlinear_arith)
            requires
                q + 1 <= m,
                v == m * q + r,
                r < m,
                m >= 1,
        ;
    }
}

/// The integer square root: the largest `r` with `r * r <= value`.
pub open spec fn is_isqrt(value: int, r: int) -> bool {
    r >= 0 && r * r <= value && value < (r + 1) * (r + 1)
}

/// Integer square root by binary search.
fn integer_sqrt(value: u128) -> (r: u128)
    ensures
        is_isqrt(value as int, r as int),
{
    if value < 2 {
        assert(is_isqrt(value as int, value as int)) by (nonlinear_arith)
            requires
                value < 2,
        ;
        return value;
    }
    let mut low: u128 = 1;
    let mut high: u128 = value / 2 + 1;
    assert(value < (high + 1) * (high + 1)) by (nonlinear_arith)
        requires
            high == value / 2 + 1,
            value >= 2,
    ;
    while low <= high
        invariant
            1 <= low <= high + 1,
            high <= value / 2 + 1,
            value >= 2,
            (low - 1) * (low - 1) <= value,
            value < (high + 1) * (high + 1),
        decreases high + 1 - low,
    {
        let midpoint = low + (high - low) / 2;
        proof {
            lemma_le_div_square(midpoint as int, value as int);
        }
        if midpoint <= value / midpoint {
            low = midpoint + 1;
        } else {
            high = midpoint - 1;
        }
    }
    high
}

/// Tests Gaussian primality exactly within [`MAX_FACTOR_NORM`].
///
/// A non-axis value is prime exactly when its norm is a rational prime. An axis
/// value is prime exactly when its nonzero coordinate is a rational prime congruent
/// to `3 mod 4`. These are exactly the irreducible elements of `Z[i]`.
pub fn is_gaussian_prime(value: GaussianInt) -> (r: Result<bool, GaussianError>)
    ensures
        gnorm(value@) > MAX_FACTOR_NORM ==> r == Err::<bool, GaussianError>(
            limit_error(gnorm(value@)),
        ),
        gnorm(value@) <= MAX_FACTOR_NORM ==> r == Ok::<bool, GaussianError>(
            is_gaussian_prime_spec(value@),
        ),
        gnorm(value@) <= MAX_FACTOR_NORM ==> r == Ok::<bool, GaussianError>(
            irreducible_spec(value@),
        ),
{
    proof {
        lemma_gaussian_prime_iff_irreducible(value@);
    }
    ensure_supported_norm(value.norm())?;
    if value.is_zero() || value.is_unit() {
        return Ok(false);
    }
    if value.re == 0 || value.im == 0 {
        let coordinate = if value.re == 0 {
            unsigned_abs_i64(value.im)
        } else {
            unsigned_abs_i64(value.re)
        };
        return Ok(coordinate % 4 == 3 && is_rational_prime(coordinate));
    }
    Ok(is_rational_prime(value.norm()))
}

/// The magnitude of an `i64` coordinate.
fn unsigned_abs_i64(x: i64) -> (r: u128)
    ensures
        r as int == abs_spec(x as int),
{
    if x >= 0 {
        x as u128
    } else {
        (-(x as i128)) as u128
    }
}

/// Primality is shared by the four unit multiples, hence by the canonical associate.
pub proof fn lemma_prime_spec_canonical(z: Gz)
    requires
        is_gaussian_prime_spec(z),
    ensures
        is_prime_class(canonical_spec(z)),
{
    let c = canonical_spec(z);
    lemma_canonical_spec(z);
    assert((-z.0) * (-z.0) == z.0 * z.0 && (-z.1) * (-z.1) == z.1 * z.1) by (nonlinear_arith);
    assert(gnorm(c) == gnorm(z));
}

/// A value of norm at most `MAX_FACTOR_NORM` has small coordinates, and so do its
/// unit multiples.
pub proof fn lemma_small_norm_representable(z: Gz)
    requires
        gnorm(z) <= MAX_FACTOR_NORM,
    ensures
        -40000 < z.0 < 40000,
        -40000 < z.1 < 40000,
        representable(z),
        representable(canonical_spec(z)),
{
    lemma_norm_nonneg(z);
    assert(-40000 < z.0 < 40000) by (nonlinear_arith)
        requires
            z.0 * z.0 <= 1_000_000_000,
    ;
    assert(-40000 < z.1 < 40000) by (nonlinear_arith)
        requires
            z.1 * z.1 <= 1_000_000_000,
    ;
}

/// A canonical associate class of a Gaussian prime.
#[derive(Clone, Copy, Debug, PartialEq, Eq, Hash, PartialOrd, Ord)]
pub struct PrimeClass {
    representative: GaussianInt,
}

impl View for PrimeClass {
    type V = Gz;

    closed spec fn view(&self) -> Gz {
        self.representative@
    }
}

impl PrimeClass {
    #[verifier::type_invariant]
    spec fn is_valid(self) -> bool {
        is_prime_class(self.representative@)
    }

    /// Validates a Gaussian prime and returns its canonical associate class.
    ///
    /// Fails with the range error above [`MAX_FACTOR_NORM`], and with
    /// `NotGaussianPrime` for a composite, a unit or zero.
    pub fn new(value: GaussianInt) -> (r: Result<Self, GaussianError>)
        ensures
            gnorm(value@) > MAX_FACTOR_NORM ==> r == Err::<Self, GaussianError>(
                limit_error(gnorm(value@)),
            ),
            gnorm(value@) <= MAX_FACTOR_NORM && !is_gaussian_prime_spec(value@) ==> r == Err::<
                Self,
                GaussianError,
            >(GaussianError::NotGaussianPrime { value }),
            gnorm(value@) <= MAX_FACTOR_NORM && is_gaussian_prime_spec(value@) ==> (r matches Ok(
                c,
            ) && c@ == canonical_spec(value@)),
    {
        if !is_gaussian_prime(value)? {
            return Err(GaussianError::NotGaussianPrime { value });
        }
        proof {
            lemma_small_norm_representable(value@);
            lemma_prime_spec_canonical(value@);
        }
        let representative = match value.canonical_associate() {
            Ok(c) => c,
            Err(e) => return Err(e),
        };
        Ok(PrimeClass { representative })
    }

    /// Returns the representative with positive real and nonnegative imaginary part.
    pub fn representative(self) -> (r: GaussianInt)
        ensures
            r@ == self@,
            is_prime_class(r@),
    {
        proof {
            use_type_invariant(self);
        }
        self.representative
    }
}

/// One canonical prime class and its positive exponent in a factorization.
#[derive(Clone, Copy, Debug, PartialEq, Eq)]
pub struct PrimePower {
    prime: PrimeClass,
    exponent: u32,
}

impl View for PrimePower {
    type V = (Gz, nat);

    closed spec fn view(&self) -> (Gz, nat) {
        (self.prime@, self.exponent as nat)
    }
}

impl PrimePower {
    /// Returns the prime associate class.
    pub fn prime(self) -> (r: PrimeClass)
        ensures
            r@ == self@.0,
    {
        self.prime
    }

    /// Returns the exponent.
    pub fn exponent(self) -> (r: u32)
        ensures
            r as nat == self@.1,
    {
        self.exponent
    }
}

/// The models of a list of prime powers.
pub open spec fn powers_view(v: Seq<PrimePower>) -> Seq<(Gz, nat)> {
    v.map_values(|pp: PrimePower| pp@)
}

/// The models of a list of prime classes.
pub open spec fn class_views(v: Seq<PrimeClass>) -> Seq<Gz> {
    v.map_values(|c: PrimeClass| c@)
}

/// Strictly increasing canonical primes with positive exponents.
pub open spec fn is_powers_model(s: Seq<(Gz, nat)>) -> bool {
    &&& strictly_sorted(primes_of(s))
    &&& forall|k: int| 0 <= k < s.len() ==> is_prime_class(#[trigger] s[k].0) && s[k].1 >= 1
}

/// `f` is a well-formed factorization of `z`.
pub open spec fn factorization_of(f: (Gz, Seq<(Gz, nat)>), z: Gz) -> bool {
    is_factorization_model(f.0, f.1) && factorization_value(f.0, f.1) == z
}

/// A unit times sorted powers of canonical Gaussian-prime representatives.
#[derive(Debug, PartialEq, Eq)]
pub struct Factorization {
    unit: GaussianInt,
    factors: Vec<PrimePower>,
}

impl View for Factorization {
    type V = (Gz, Seq<(Gz, nat)>);

    closed spec fn view(&self) -> (Gz, Seq<(Gz, nat)>) {
        (self.unit@, powers_view(self.factors@))
    }
}

impl Clone for Factorization {
    fn clone(&self) -> (r: Self)
        ensures
            r@ == self@,
    {
        proof {
            use_type_invariant(self);
        }
        let mut factors: Vec<PrimePower> = Vec::new();
        let mut k: usize = 0;
        while k < self.factors.len()
            invariant
                k <= self.factors.len(),
                factors@ == self.factors@.take(k as int),
            decreases self.factors.len() - k,
        {
            factors.push(self.factors[k]);
            k = k + 1;
            assert(factors@ =~= self.factors@.take(k as int));
        }
        assert(self.factors@.take(self.factors.len() as int) =~= self.factors@);
        Factorization { unit: self.unit, factors }
    }
}

impl Factorization {
    #[verifier::type_invariant]
    spec fn is_valid(self) -> bool {
        &&& is_factorization_model(self@.0, self@.1)
        &&& 1 <= gnorm(factorization_value(self@.0, self@.1)) <= MAX_FACTOR_NORM
    }

    /// Returns the unit multiplier.
    pub fn unit(&self) -> (r: GaussianInt)
        ensures
            r@ == self@.0,
    {
        self.unit
    }

    /// Reconstructs the represented value `unit * p_1^e_1 * ... * p_n^e_n`.
    ///
    /// Every partial product divides the represented value, whose norm is within
    /// the factorization range, so no step overflows.
    pub fn reconstruct(&self) -> (r: Result<GaussianInt, GaussianError>)
        ensures
            r matches Ok(v) && v@ == factorization_value(self@.0, self@.1),
    {
        proof {
            use_type_invariant(self);
        }
        let ghost u = self@.0;
        let ghost s = self@.1;
        let ghost total = factorization_value(u, s);
        let mut value = self.unit;
        let mut i: usize = 0;
        proof {
            assert(s.take(0) =~= Seq::<(Gz, nat)>::empty());
            crate::ring::lemma_mul_one(u);
        }
        while i < self.factors.len()
            invariant
                i <= self.factors.len(),
                s == self@.1,
                u == self@.0,
                s.len() == self.factors.len(),
                total == factorization_value(u, s),
                1 <= gnorm(total) <= MAX_FACTOR_NORM,
                value@ == gmul(u, powers_product(s.take(i as int))),
            decreases self.factors.len() - i,
        {
            let factor = self.factors[i];
            assert(factor@ == s[i as int]);
            let prime = factor.prime.representative;
            let mut j: u32 = 0;
            proof {
                crate::ring::lemma_mul_one(value@);
            }
            while j < factor.exponent
                invariant
                    j <= factor.exponent,
                    i < s.len(),
                    factor@ == s[i as int],
                    prime@ == s[i as int].0,
                    total == factorization_value(u, s),
                    1 <= gnorm(total) <= MAX_FACTOR_NORM,
                    value@ == gmul(gmul(u, powers_product(s.take(i as int))), gpow(prime@, j as nat)),
                decreases factor.exponent - j,
            {
                proof {
                    crate::divisors::lemma_prefix_divides(u, s, i as int, (j + 1) as nat);
                    lemma_mul_assoc(
                        gmul(u, powers_product(s.take(i as int))),
                        gpow(prime@, j as nat),
                        prime@,
                    );
                    assert(gpow(prime@, (j + 1) as nat) == gmul(gpow(prime@, j as nat), prime@));
                    lemma_norm_nonneg(total);
                    crate::ring::lemma_divides_norm(gmul(value@, prime@), total);
                    lemma_small_norm_representable(gmul(value@, prime@));
                }
                value = match value.checked_mul(prime) {
                    Ok(v) => v,
                    Err(e) => return Err(e),
                };
                j = j + 1;
            }
            proof {
                crate::divisors::lemma_prefix_step(u, s, i as int);
            }
            i = i + 1;
        }
        assert(s.take(s.len() as int) =~= s);
        Ok(value)
    }

    /// Returns the factorization's finite prime support, in increasing order.
    pub fn support(&self) -> (r: Vec<PrimeClass>)
        ensures
            class_views(r@) == primes_of(self@.1),
    {
        let mut support: Vec<PrimeClass> = Vec::new();
        let mut k: usize = 0;
        while k < self.factors.len()
            invariant
                k <= self.factors.len(),
                support@.len() == k,
                self@.1 == powers_view(self.factors@),
                forall|j: int| 0 <= j < k ==> #[trigger] support@[j]@ == self.factors@[j].prime@,
            decreases self.factors.len() - k,
        {
            support.push(self.factors[k].prime);
            k = k + 1;
        }
        assert(class_views(support@) =~= primes_of(self@.1));
        support
    }

    /// Returns prime powers sorted by canonical representative.
    pub fn factors(&self) -> (r: &[PrimePower])
        ensures
            powers_view(r@) == self@.1,
    {
        self.factors.as_slice()
    }
}

/// Factors a nonzero Gaussian integer exactly within [`MAX_FACTOR_NORM`].
///
/// The result uses canonical prime representatives and a unit, and reconstructs the
/// input exactly; its support is exactly the set of canonical Gaussian primes
/// dividing the input. Such a factorization is unique
/// (`uniqueness::lemma_factorization_unique`). Trial division is deterministic.
pub fn factor(value: GaussianInt) -> (r: Result<Factorization, GaussianError>)
    ensures
        value@ == gzero() ==> r == Err::<Factorization, GaussianError>(
            GaussianError::ZeroOutsideTopology,
        ),
        value@ != gzero() && gnorm(value@) > MAX_FACTOR_NORM ==> r == Err::<
            Factorization,
            GaussianError,
        >(limit_error(gnorm(value@))),
        value@ != gzero() && gnorm(value@) <= MAX_FACTOR_NORM ==> (r matches Ok(f)
            && factorization_of(f@, value@) && support_set(primes_of(f@.1)) == prime_divisors(
            value@,
        )),
{
    if value.is_zero() {
        return Err(GaussianError::ZeroOutsideTopology);
    }
    ensure_supported_norm(value.norm())?;
    let mut remainder = value;
    let mut powers: Vec<PrimePower> = Vec::new();
    let norm = value.norm();
    let trial_norm_limit = integer_sqrt(norm);
    proof {
        assert(trial_norm_limit <= MAX_FACTOR_NORM) by (nonlinear_arith)
            requires
                trial_norm_limit * trial_norm_limit <= norm,
                norm <= MAX_FACTOR_NORM,
        ;
        assert(powers_view(powers@) =~= Seq::<(Gz, nat)>::empty());
        crate::ring::lemma_mul_one(value@);
        lemma_norm_nonneg(value@);
    }
    let primes = trial_primes(trial_norm_limit)?;
    let mut idx: usize = 0;
    while idx < primes.len() && !remainder.is_unit()
        invariant
            idx <= primes.len(),
            norm as int == gnorm(value@),
            is_isqrt(norm as int, trial_norm_limit as int),
            trial_norm_limit <= MAX_FACTOR_NORM,
            forall|k: int|
                0 <= k < primes.len() ==> is_prime_class(#[trigger] primes@[k]@) && gnorm(
                    primes@[k]@,
                ) <= trial_norm_limit,
            forall|c: Gz|
                is_prime_class(c) && gnorm(c) <= trial_norm_limit ==> #[trigger] class_views(
                    primes@,
                ).contains(c),
            forall|k: int| 0 <= k < idx ==> !gdivides(#[trigger] primes@[k]@, remainder@),
            value@ == gmul(remainder@, powers_product(powers_view(powers@))),
            is_powers_model(powers_view(powers@)),
            remainder@ != gzero(),
            value@ != gzero(),
            gnorm(remainder@) <= gnorm(value@) <= MAX_FACTOR_NORM,
        decreases primes.len() - idx,
    {
        let prime = primes[idx];
        let divisor = prime.representative();
        loop
            invariant
                idx < primes.len(),
                prime == primes@[idx as int],
                divisor@ == prime@,
                is_prime_class(prime@),
                gnorm(prime@) <= MAX_FACTOR_NORM,
                forall|k: int| 0 <= k < idx ==> !gdivides(#[trigger] primes@[k]@, remainder@),
                value@ == gmul(remainder@, powers_product(powers_view(powers@))),
                is_powers_model(powers_view(powers@)),
                remainder@ != gzero(),
                value@ != gzero(),
                gnorm(remainder@) <= gnorm(value@) <= MAX_FACTOR_NORM,
            ensures
                !gdivides(prime@, remainder@),
            decreases gnorm(remainder@),
        {
            proof {
                lemma_prime_class_norm(prime@);
                lemma_norm_nonneg(remainder@);
                lemma_exact_div_small(remainder@, divisor@);
            }
            let quotient = match remainder.checked_exact_div(divisor) {
                Ok(Some(q)) => q,
                Ok(None) => break,
                Err(e) => return Err(e),
            };
            proof {
                lemma_norm_mul(divisor@, quotient@);
                if quotient@ == gzero() {
                    lemma_mul_zero(divisor@);
                }
                lemma_norm_nonneg(quotient@);
                let (np, nq) = (gnorm(divisor@), gnorm(quotient@));
                assert(nq < np * nq) by (nonlinear_arith)
                    requires
                        np >= 2,
                        nq >= 1,
                ;
                let product = powers_product(powers_view(powers@));
                lemma_shift_factor(divisor@, quotient@, product);
                // the quotient divides the remainder, so earlier primes still do not divide it
                lemma_divides_of_mul(divisor@, quotient@);
                assert forall|k: int| 0 <= k < idx implies !gdivides(
                    #[trigger] primes@[k]@,
                    quotient@,
                ) by {
                    if gdivides(primes@[k]@, quotient@) {
                        lemma_divides_trans(primes@[k]@, quotient@, remainder@);
                    }
                }
                // the grown product of prime powers divides the value
                lemma_divides_of_mul(quotient@, gmul(product, prime@));
                if gmul(product, prime@) == gzero() {
                    lemma_mul_zero(quotient@);
                }
                lemma_divides_norm(gmul(product, prime@), value@);
            }
            remainder = quotient;
            add_power(&mut powers, prime)?;
        }
        idx = idx + 1;
    }
    if !remainder.is_unit() {
        proof {
            // every canonical prime within the trial bound was tried and does not divide it
            assert forall|c: Gz| is_prime_class(c) && gnorm(c) <= trial_norm_limit implies !gdivides(
                c,
                remainder@,
            ) by {
                assert(class_views(primes@).contains(c));
                let k = choose|k: int|
                    0 <= k < class_views(primes@).len() && class_views(primes@)[k] == c;
                assert(primes@[k]@ == c);
            }
            lemma_no_small_prime_divisor(remainder@, trial_norm_limit as int);
        }
        let prime = PrimeClass::new(remainder)?;
        let canonical = prime.representative();
        proof {
            lemma_norm_nonneg(remainder@);
            lemma_canonical_spec(remainder@);
            lemma_associated_divides(remainder@, canonical@);
            lemma_exact_div_small(remainder@, canonical@);
        }
        let unit = match remainder.checked_exact_div(canonical) {
            Ok(Some(u)) => u,
            Ok(None) => {
                return Err(
                    GaussianError::ArithmeticOverflow { operation: "factorization normalization" },
                )
            },
            Err(e) => return Err(e),
        };
        proof {
            lemma_norm_mul(canonical@, unit@);
            let (nc, nu) = (gnorm(canonical@), gnorm(unit@));
            assert(nu == 1) by (nonlinear_arith)
                requires
                    nc * nu == nc,
                    nc >= 1,
            ;
            let product = powers_product(powers_view(powers@));
            lemma_shift_factor(canonical@, unit@, product);
            lemma_divides_of_mul(unit@, gmul(product, prime@));
            if gmul(product, prime@) == gzero() {
                lemma_mul_zero(unit@);
            }
            lemma_divides_norm(gmul(product, prime@), value@);
        }
        remainder = unit;
        add_power(&mut powers, prime)?;
    }
    proof {
        lemma_support_is_prime_divisors(remainder@, powers_view(powers@));
    }
    Ok(Factorization { unit: remainder, factors: powers })
}

/// Exact division of nonzero values within the factorization range never overflows.
proof fn lemma_exact_div_small(a: Gz, b: Gz)
    requires
        a != gzero(),
        b != gzero(),
        gnorm(a) <= MAX_FACTOR_NORM,
        gnorm(b) <= MAX_FACTOR_NORM,
    ensures
        exact_div_spec(a, b) == (if gdivides(b, a) {
            Ok::<Option<Gz>, GaussianError>(Some(exact_quotient_spec(a, b)))
        } else {
            Ok::<Option<Gz>, GaussianError>(None)
        }),
{
    let n = numerators(a, b);
    lemma_norm_mul(a, gconj(b));
    lemma_mul_conj(b);
    lemma_norm_nonneg(n);
    lemma_norm_nonneg(a);
    lemma_norm_nonneg(b);
    let (na, nb) = (gnorm(a), gnorm(b));
    assert(na * nb <= 1_000_000_000_000_000_000) by (nonlinear_arith)
        requires
            0 <= na <= 1_000_000_000,
            0 <= nb <= 1_000_000_000,
    ;
    assert(-1_000_000_001 < n.0 < 1_000_000_001) by (nonlinear_arith)
        requires
            n.0 * n.0 <= 1_000_000_000_000_000_000,
    ;
    assert(fits_i128(n.0));
    lemma_exact_division(a, b);
    if gdivides(b, a) {
        let q = exact_quotient_spec(a, b);
        lemma_divides_of_mul(b, q);
        lemma_divides_norm(q, a);
        lemma_small_norm_representable(q);
    }
}

/// Powers of a non-unit grow in norm: `N(p^e) >= e + 1`.
proof fn lemma_gpow_norm(p: Gz, e: nat)
    requires
        gnorm(p) >= 2,
    ensures
        gnorm(gpow(p, e)) >= e + 1,
    decreases e,
{
    if e > 0 {
        lemma_gpow_norm(p, (e - 1) as nat);
        lemma_norm_mul(gpow(p, (e - 1) as nat), p);
        let (x, y) = (gnorm(gpow(p, (e - 1) as nat)), gnorm(p));
        assert(x * y >= e + 1) by (nonlinear_arith)
            requires
                x >= e,
                y >= 2,
                e >= 1,
        ;
    }
}

/// A nonzero non-unit with no canonical prime divisor of norm at most `l`, where
/// `N(z) < (l + 1)^2`, is itself a Gaussian prime.
proof fn lemma_no_small_prime_divisor(z: Gz, l: int)
    requires
        z != gzero(),
        !is_unit_spec(z),
        l >= 0,
        gnorm(z) < (l + 1) * (l + 1),
        forall|c: Gz|
            #![trigger gdivides(c, z)]
            is_prime_class(c) && gnorm(c) <= l ==> !gdivides(c, z),
    ensures
        is_gaussian_prime_spec(z),
{
    if !irreducible_spec(z) {
        let p = lemma_irreducible_divisor(z);
        lemma_irreducible_is_gaussian_prime(p);
        lemma_prime_spec_canonical(p);
        let c = canonical_spec(p);
        lemma_canonical_spec(p);
        lemma_associated_divides(p, c);
        lemma_divides_trans(c, p, z);
        lemma_norm_nonneg(p);
        let np = gnorm(p);
        assert(np <= l) by (nonlinear_arith)
            requires
                np * np <= gnorm(z),
                gnorm(z) < (l + 1) * (l + 1),
                np >= 0,
                l >= 0,
        ;
        assert(!gdivides(c, z));
    }
    lemma_irreducible_is_gaussian_prime(z);
}

/// Computes the finite set of canonical Gaussian-prime classes dividing `value`,
/// in increasing order.
///
/// Fails exactly as [`factor`] does.
pub fn prime_support(value: GaussianInt) -> (r: Result<Vec<PrimeClass>, GaussianError>)
    ensures
        value@ == gzero() ==> r == Err::<Vec<PrimeClass>, GaussianError>(
            GaussianError::ZeroOutsideTopology,
        ),
        value@ != gzero() && gnorm(value@) > MAX_FACTOR_NORM ==> r == Err::<
            Vec<PrimeClass>,
            GaussianError,
        >(limit_error(gnorm(value@))),
        value@ != gzero() && gnorm(value@) <= MAX_FACTOR_NORM ==> (r matches Ok(v)
            && is_support_of(class_views(v@), value@)),
{
    let f = factor(value)?;
    let support = f.support();
    proof {
        use_type_invariant(&f);
    }
    Ok(support)
}

/// `s` lists the prime support of `z`, in increasing order.
pub open spec fn is_support_of(s: Seq<Gz>, z: Gz) -> bool {
    strictly_sorted(s) && support_set(s) == prime_divisors(z)
}

/// The canonical Gaussian primes of norm at most `norm_limit`, in increasing order.
fn trial_primes(norm_limit: u128) -> (r: Result<Vec<PrimeClass>, GaussianError>)
    requires
        norm_limit <= MAX_FACTOR_NORM,
    ensures
        r matches Ok(v) && strictly_sorted(class_views(v@)) && (forall|k: int|
            0 <= k < v.len() ==> is_prime_class(#[trigger] v@[k]@) && gnorm(v@[k]@)
                <= norm_limit) && (forall|c: Gz|
            is_prime_class(c) && gnorm(c) <= norm_limit ==> #[trigger] class_views(v@).contains(c)),
{
    let limit = integer_sqrt(norm_limit);
    assert(limit <= 40000) by (nonlinear_arith)
        requires
            limit * limit <= norm_limit,
            norm_limit <= 1_000_000_000,
    ;
    let coordinate_limit = limit as i64;
    let mut primes: Vec<PrimeClass> = Vec::new();
    let mut re: i64 = 1;
    while re <= coordinate_limit
        invariant
            1 <= re <= coordinate_limit + 1,
            coordinate_limit as int == limit as int,
            is_isqrt(norm_limit as int, limit as int),
            norm_limit <= MAX_FACTOR_NORM,
            coordinate_limit <= 40000,
            strictly_sorted(class_views(primes@)),
            forall|k: int|
                0 <= k < primes.len() ==> is_prime_class(#[trigger] primes@[k]@) && gnorm(
                    primes@[k]@,
                ) <= norm_limit && primes@[k]@.0 < re,
            forall|c: Gz|
                is_prime_class(c) && gnorm(c) <= norm_limit && c.0 < re
                    ==> #[trigger] class_views(primes@).contains(c),
        decreases coordinate_limit + 1 - re,
    {
        let mut im: i64 = 0;
        while im <= coordinate_limit
            invariant
                1 <= re <= coordinate_limit,
                0 <= im <= coordinate_limit + 1,
                coordinate_limit as int == limit as int,
                is_isqrt(norm_limit as int, limit as int),
                norm_limit <= MAX_FACTOR_NORM,
                coordinate_limit <= 40000,
                strictly_sorted(class_views(primes@)),
                forall|k: int|
                    0 <= k < primes.len() ==> is_prime_class(#[trigger] primes@[k]@) && gnorm(
                        primes@[k]@,
                    ) <= norm_limit && lex_lt(primes@[k]@, (re as int, im as int)),
                forall|c: Gz|
                    is_prime_class(c) && gnorm(c) <= norm_limit && lex_lt(c, (re as int, im as int))
                        ==> #[trigger] class_views(primes@).contains(c),
            decreases coordinate_limit + 1 - im,
        {
            let candidate = GaussianInt::new(re, im);
            let ghost old_primes = primes@;
            if candidate.norm() <= norm_limit && is_gaussian_prime(candidate)? {
                primes.push(PrimeClass { representative: candidate });
                proof {
                    assert(class_views(primes@) =~= class_views(old_primes).push(candidate@));
                    assert forall|c: Gz|
                        is_prime_class(c) && gnorm(c) <= norm_limit && lex_lt(
                            c,
                            (re as int, im + 1),
                        ) implies #[trigger] class_views(primes@).contains(c) by {
                        if c == candidate@ {
                            assert(class_views(primes@)[old_primes.len() as int] == c);
                        } else {
                            assert(class_views(old_primes).contains(c));
                            let k = choose|k: int|
                                0 <= k < old_primes.len() && class_views(old_primes)[k] == c;
                            assert(class_views(primes@)[k] == c);
                        }
                    }
                }
            } else {
                proof {
                    assert forall|c: Gz|
                        is_prime_class(c) && gnorm(c) <= norm_limit && lex_lt(
                            c,
                            (re as int, im + 1),
                        ) implies #[trigger] class_views(primes@).contains(c) by {
                        if c == candidate@ {
                            assert(false);
                        }
                    }
                }
            }
            im = im + 1;
        }
        proof {
            assert forall|c: Gz|
                is_prime_class(c) && gnorm(c) <= norm_limit && c.0 < re + 1
                    implies #[trigger] class_views(primes@).contains(c) by {
                lemma_norm_nonneg(c);
                assert(c.1 <= limit) by (nonlinear_arith)
                    requires
                        c.1 * c.1 <= c.0 * c.0 + c.1 * c.1,
                        c.0 * c.0 + c.1 * c.1 <= norm_limit,
                        norm_limit < (limit + 1) * (limit + 1),
                        c.1 >= 0,
                        limit >= 0,
                ;
                assert(lex_lt(c, (re as int, im as int)));
            }
        }
        re = re + 1;
    }
    proof {
        assert forall|c: Gz| is_prime_class(c) && gnorm(c) <= norm_limit implies #[trigger] class_views(
            primes@,
        ).contains(c) by {
            lemma_norm_nonneg(c);
            assert(c.0 <= limit) by (nonlinear_arith)
                requires
                    c.0 * c.0 <= c.0 * c.0 + c.1 * c.1,
                    c.0 * c.0 + c.1 * c.1 <= norm_limit,
                    norm_limit < (limit + 1) * (limit + 1),
                    c.0 >= 1,
                    limit >= 0,
            ;
        }
    }
    Ok(primes)
}

/// A prime class has norm at least two.
proof fn lemma_prime_class_norm(c: Gz)
    requires
        is_prime_class(c),
    ensures
        gnorm(c) >= 2,
{
    lemma_norm_nonneg(c);
}

/// Moving a divisor from the remainder into the product of prime powers.
proof fn lemma_shift_factor(p: Gz, q: Gz, product: Gz)
    ensures
        gmul(q, gmul(product, p)) == gmul(gmul(p, q), product),
{
    lemma_mul_comm(product, p);
    lemma_mul_assoc(q, p, product);
    lemma_mul_comm(q, p);
}

/// Lexicographic comparison of representatives.
fn lex_less(a: GaussianInt, b: GaussianInt) -> (r: bool)
    ensures
        r == lex_lt(a@, b@),
{
    a.re < b.re || (a.re == b.re && a.im < b.im)
}

/// Records one more factor `prime` in a sorted list of prime powers: raises its
/// exponent when it is listed, else inserts it with exponent one in sorted position.
///
/// The grown product stays within the factorization range, so the exponent never
/// overflows.
#[verifier::spinoff_prover]
fn add_power(powers: &mut Vec<PrimePower>, prime: PrimeClass) -> (r: Result<(), GaussianError>)
    requires
        is_powers_model(powers_view(old(powers)@)),
        gmul(powers_product(powers_view(old(powers)@)), prime@) != gzero(),
        gnorm(gmul(powers_product(powers_view(old(powers)@)), prime@)) <= MAX_FACTOR_NORM,
    ensures
        r is Ok,
        is_powers_model(powers_view(final(powers)@)),
        powers_product(powers_view(final(powers)@)) == gmul(
            powers_product(powers_view(old(powers)@)),
            prime@,
        ),
        support_set(primes_of(powers_view(final(powers)@))) == support_set(
            primes_of(powers_view(old(powers)@)),
        ).insert(prime@),
{
    proof {
        use_type_invariant(prime);
    }
    let ghost s = powers_view(powers@);
    let mut i: usize = 0;
    while i < powers.len() && lex_less(powers[i].prime.representative, prime.representative)
        invariant
            i <= powers.len(),
            powers@ == old(powers)@,
            s == powers_view(powers@),
            forall|k: int| 0 <= k < i ==> lex_lt(#[trigger] s[k].0, prime@),
        decreases powers.len() - i,
    {
        i = i + 1;
    }
    if i < powers.len() && powers[i].prime.representative.re == prime.representative.re
        && powers[i].prime.representative.im == prime.representative.im {
        let mut power = powers[i];
        proof {
            // p^e divides the product, whose norm is within the range
            let product = powers_product(s);
            assert(s[i as int] == power@);
            lemma_power_divides_product(s, i as int);
            if product == gzero() {
                lemma_mul_zero(prime@);
            }
            lemma_divides_norm(gpow(prime@, power.exponent as nat), product);
            lemma_prime_class_norm(prime@);
            lemma_norm_mul(product, prime@);
            let (x, y) = (gnorm(product), gnorm(prime@));
            assert(x <= x * y) by (nonlinear_arith)
                requires
                    x >= 1,
                    y >= 2,
            ;
            lemma_gpow_norm(prime@, power.exponent as nat);
        }
        let exponent = match power.exponent.checked_add(1) {
            Some(e) => e,
            None => return Err(GaussianError::ArithmeticOverflow { operation: "factor exponent" }),
        };
        power.exponent = exponent;
        powers.set(i, power);
        proof {
            assert(s[i as int].0 == prime@);
            lemma_product_increment(s, i as int);
            assert(powers_view(powers@) =~= s.update(i as int, (s[i as int].0, s[i as int].1 + 1)));
            assert(primes_of(powers_view(powers@)) =~= primes_of(s));
            assert(primes_of(s).to_set().contains(prime@)) by {
                assert(primes_of(s)[i as int] == prime@);
            }
            assert(support_set(primes_of(s)) =~= support_set(primes_of(s)).insert(prime@));
        }
    } else {
        assert(i <= s.len() && is_powers_model(s));
        powers.insert(i, PrimePower { prime, exponent: 1 });
        proof {
            use_type_invariant(prime);
            let t = powers_view(powers@);
            assert(t =~= s.insert(i as int, (prime@, 1nat)));
            lemma_product_insert(s, i as int, prime@);
            let ps = primes_of(s);
            let pt = primes_of(t);
            assert(pt =~= ps.insert(i as int, prime@));
            if i < s.len() {
                assert(!lex_lt(s[i as int].0, prime@));
                assert(s[i as int].0 != prime@);
                assert(lex_lt(prime@, ps[i as int]));
            }
            assert forall|a: int, b: int| 0 <= a < b < pt.len() implies lex_lt(
                #[trigger] pt[a],
                #[trigger] pt[b],
            ) by {
                if b < i {
                    assert(lex_lt(ps[a], ps[b]));
                } else if b == i {
                    assert(lex_lt(s[a].0, prime@));
                } else if a < i {
                    assert(lex_lt(s[a].0, prime@));
                    assert(lex_lt(ps[i as int], ps[b - 1]) || i == b - 1);
                } else if a == i {
                    assert(lex_lt(ps[i as int], ps[b - 1]) || i == b - 1);
                } else {
                    assert(lex_lt(ps[a - 1], ps[b - 1]));
                }
            }
            assert forall|k: int| 0 <= k < t.len() implies is_prime_class(#[trigger] t[k].0)
                && t[k].1 >= 1 by {
                if k < i {
                    assert(t[k] == s[k]);
                    assert(0 <= k < s.len());
                    assert(is_prime_class(s[k].0));
                    assert(s[k].1 >= 1);
                } else if k > i {
                    assert(t[k] == s[k - 1]);
                    assert(is_prime_class(s[k - 1].0) && s[k - 1].1 >= 1);
                } else {
                    assert(t[k] == (prime@, 1nat));
                    assert(is_prime_class(prime@));
                }
            }
            assert forall|x: Gz| #[trigger] support_set(pt).contains(x) <==> support_set(
                ps,
            ).insert(prime@).contains(x) by {
                if support_set(pt).contains(x) {
                    let k = choose|k: int| 0 <= k < pt.len() && pt[k] == x;
                    if k < i {
                        assert(ps[k] == x);
                    } else if k > i {
                        assert(ps[k - 1] == x);
                    }
                }
                if ps.to_set().contains(x) {
                    let k = choose|k: int| 0 <= k < ps.len() && ps[k] == x;
                    if k < i {
                        assert(pt[k] == x);
                    } else {
                        assert(pt[k + 1] == x);
                    }
                }
                if x == prime@ {
                    assert(pt[i as int] == x);
                }
            }
            assert(support_set(pt) =~= support_set(ps).insert(prime@));
        }
    }
    Ok(())
}

} // verus!
