//! Gaussian integers with `i64` coordinates and checked arithmetic.
use vstd::prelude::*;

use crate::division::{
    abs_spec, div_rem_spec, exact_div_spec, fits_i128, lemma_exact_division, lemma_remainder_small,
    numerators, quotient_spec, round_div,
};
use crate::gcd::{euclid_spec, gcd_spec, is_normalized_gcd, lemma_gcd_spec_correct};
use crate::ring::{
    gdivides, lemma_norm_nonneg, associated, associates_seq, canonical_spec, is_canonical_spec,
    lemma_associates_seq, fits_i64, gadd, gconj, gmul, gneg, gnorm, gsub, gz, gone, gzero,
    is_unit_spec, lemma_norm_mul, lemma_unit_cases, representable, Gz,
};

verus! {

/// An error from checked Gaussian-integer arithmetic or a finite experiment.
#[derive(Clone, Debug, PartialEq, Eq)]
#[non_exhaustive]
pub enum GaussianError {
    /// A checked arithmetic operation could not be represented with `i64` coordinates.
    ArithmeticOverflow { operation: &'static str },
    /// Gaussian division was attempted with a zero divisor.
    DivisionByZero,
    /// A support/topology operation was requested for zero, which is outside the space.
    ZeroOutsideTopology,
    /// Exact factorization was requested beyond the documented finite range.
    FactorizationLimitExceeded { norm: u128, max_norm: u128 },
    /// A value supplied as a Gaussian-prime class representative was not prime.
    NotGaussianPrime { value: GaussianInt },
}

/// The overflow error reported by the operation named `operation`.
pub open spec fn overflow(operation: &'static str) -> GaussianError {
    GaussianError::ArithmeticOverflow { operation }
}

/// A Gaussian integer `re + im*i` with checked `i64` coordinate arithmetic.
#[derive(Clone, Copy, Debug, Default, PartialEq, Eq, Hash, PartialOrd, Ord, Structural)]
pub struct GaussianInt {
    /// Real coordinate.
    pub re: i64,
    /// Imaginary coordinate.
    pub im: i64,
}

impl View for GaussianInt {
    type V = Gz;

    open spec fn view(&self) -> Gz {
        (self.re as int, self.im as int)
    }
}

/// The model of a checked result: the value's model, or the same error.
pub open spec fn view_result(r: Result<GaussianInt, GaussianError>) -> Result<Gz, GaussianError> {
    match r {
        Ok(z) => Ok(z@),
        Err(e) => Err(e),
    }
}

/// A checked result: the value when it is representable, else the overflow of `operation`.
pub open spec fn checked_spec(value: Gz, operation: &'static str) -> Result<Gz, GaussianError> {
    if representable(value) {
        Ok(value)
    } else {
        Err(overflow(operation))
    }
}

impl GaussianInt {
    /// The additive identity.
    pub fn zero() -> (r: Self)
        ensures
            r@ == gzero(),
    {
        GaussianInt { re: 0, im: 0 }
    }

    /// The multiplicative identity.
    pub fn one() -> (r: Self)
        ensures
            r@ == gone(),
    {
        GaussianInt { re: 1, im: 0 }
    }

    /// The four Gaussian units `1, -1, i, -i`, in this order.
    pub fn units() -> (r: [Self; 4])
        ensures
            r[0]@ == gz(1, 0),
            r[1]@ == gz(-1, 0),
            r[2]@ == gz(0, 1),
            r[3]@ == gz(0, -1),
            forall|k: int| 0 <= k < 4 ==> is_unit_spec(#[trigger] r[k]@),
    {
        let r = [
            GaussianInt { re: 1, im: 0 },
            GaussianInt { re: -1, im: 0 },
            GaussianInt { re: 0, im: 1 },
            GaussianInt { re: 0, im: -1 },
        ];
        proof {
            assert(r[0]@ == gz(1, 0) && r[1]@ == gz(-1, 0) && r[2]@ == gz(0, 1) && r[3]@ == gz(0, -1));
            lemma_unit_cases(r[0]@);
            lemma_unit_cases(r[1]@);
            lemma_unit_cases(r[2]@);
            lemma_unit_cases(r[3]@);
            assert forall|k: int| 0 <= k < 4 implies is_unit_spec(#[trigger] r[k]@) by {
                if k == 0 {
                } else if k == 1 {
                } else if k == 2 {
                } else {
                }
            }
        }
        r
    }

    /// Creates `re + im*i`.
    pub fn new(re: i64, im: i64) -> (r: Self)
        ensures
            r.re == re,
            r.im == im,
    {
        GaussianInt { re, im }
    }

    /// Returns the exact norm `re^2 + im^2`.
    ///
    /// The norm of every pair of `i64` coordinates fits in `u128`.
    pub fn norm(self) -> (r: u128)
        ensures
            r == gnorm(self@),
    {
        let re = self.re as i128;
        let im = self.im as i128;
        proof {
            lemma_square_bound(self.re);
            lemma_square_bound(self.im);
        }
        ((re * re) as u128) + ((im * im) as u128)
    }

    /// Returns whether this value is zero.
    pub fn is_zero(self) -> (r: bool)
        ensures
            r == (self@ == gzero()),
    {
        self.re == 0 && self.im == 0
    }

    /// Returns whether this value is one of `1, -1, i, -i`.
    pub fn is_unit(self) -> (r: bool)
        ensures
            r == is_unit_spec(self@),
    {
        self.norm() == 1
    }

    /// Returns the checked additive inverse.
    ///
    /// Fails with an overflow if either coordinate is `i64::MIN`.
    pub fn checked_neg(self) -> (r: Result<Self, GaussianError>)
        ensures
            view_result(r) == checked_spec(gneg(self@), "negation"),
    {
        let re = match checked_neg_i64(self.re) {
            Some(v) => v,
            None => return Err(GaussianError::ArithmeticOverflow { operation: "negation" }),
        };
        let im = match checked_neg_i64(self.im) {
            Some(v) => v,
            None => return Err(GaussianError::ArithmeticOverflow { operation: "negation" }),
        };
        Ok(GaussianInt::new(re, im))
    }

    /// Returns the checked complex conjugate.
    ///
    /// Fails with an overflow if the imaginary coordinate is `i64::MIN`.
    pub fn checked_conjugate(self) -> (r: Result<Self, GaussianError>)
        ensures
            view_result(r) == checked_spec(gconj(self@), "conjugation"),
    {
        match checked_neg_i64(self.im) {
            Some(im) => Ok(GaussianInt::new(self.re, im)),
            None => Err(GaussianError::ArithmeticOverflow { operation: "conjugation" }),
        }
    }

    /// Returns the checked sum.
    pub fn checked_add(self, rhs: Self) -> (r: Result<Self, GaussianError>)
        ensures
            view_result(r) == checked_spec(gadd(self@, rhs@), "addition"),
    {
        let re = match self.re.checked_add(rhs.re) {
            Some(v) => v,
            None => return Err(GaussianError::ArithmeticOverflow { operation: "addition" }),
        };
        let im = match self.im.checked_add(rhs.im) {
            Some(v) => v,
            None => return Err(GaussianError::ArithmeticOverflow { operation: "addition" }),
        };
        Ok(GaussianInt::new(re, im))
    }

    /// Returns the checked difference.
    pub fn checked_sub(self, rhs: Self) -> (r: Result<Self, GaussianError>)
        ensures
            view_result(r) == checked_spec(gsub(self@, rhs@), "subtraction"),
    {
        let re = match self.re.checked_sub(rhs.re) {
            Some(v) => v,
            None => return Err(GaussianError::ArithmeticOverflow { operation: "subtraction" }),
        };
        let im = match self.im.checked_sub(rhs.im) {
            Some(v) => v,
            None => return Err(GaussianError::ArithmeticOverflow { operation: "subtraction" }),
        };
        Ok(GaussianInt::new(re, im))
    }

    /// Returns the checked Gaussian product.
    ///
    /// The products of coordinates are formed exactly in `i128`; only the final
    /// coordinates can be unrepresentable. On success the norm is multiplicative.
    pub fn checked_mul(self, rhs: Self) -> (r: Result<Self, GaussianError>)
        ensures
            view_result(r) == checked_spec(gmul(self@, rhs@), "multiplication"),
            r matches Ok(z) ==> gnorm(z@) == gnorm(self@) * gnorm(rhs@),
    {
        let ar = self.re as i128;
        let ai = self.im as i128;
        let br = rhs.re as i128;
        let bi = rhs.im as i128;
        proof {
            lemma_product_bound(self.re, rhs.re);
            lemma_product_bound(self.im, rhs.im);
            lemma_product_bound(self.re, rhs.im);
            lemma_product_bound(self.im, rhs.re);
            lemma_norm_mul(self@, rhs@);
        }
        let real_part = ar * br - ai * bi;
        let imag_part = match (ar * bi).checked_add(ai * br) {
            Some(v) => v,
            None => return Err(GaussianError::ArithmeticOverflow { operation: "multiplication" }),
        };
        let re = match i128_to_i64(real_part) {
            Some(v) => v,
            None => return Err(GaussianError::ArithmeticOverflow { operation: "multiplication" }),
        };
        let im = match i128_to_i64(imag_part) {
            Some(v) => v,
            None => return Err(GaussianError::ArithmeticOverflow { operation: "multiplication" }),
        };
        Ok(GaussianInt::new(re, im))
    }

    /// Returns the unique canonical associate in the sector `re > 0, im >= 0`.
    ///
    /// Zero is returned unchanged. An associate may be unrepresentable for coordinates
    /// involving `i64::MIN`; in that case this method returns an overflow error.
    pub fn canonical_associate(self) -> (r: Result<Self, GaussianError>)
        ensures
            view_result(r) == checked_spec(
                canonical_spec(self@),
                "canonical associate normalization",
            ),
    {
        if self.is_zero() {
            return Ok(self);
        }
        if is_canonical(self) {
            return Ok(self);
        }
        if let Some(re) = checked_neg_i64(self.im) {
            let times_i = GaussianInt::new(re, self.re);
            if is_canonical(times_i) {
                return Ok(times_i);
            }
        }
        match (checked_neg_i64(self.re), checked_neg_i64(self.im)) {
            (Some(re), Some(im)) => {
                let negative = GaussianInt::new(re, im);
                if is_canonical(negative) {
                    return Ok(negative);
                }
            },
            _ => {},
        }
        if let Some(im) = checked_neg_i64(self.re) {
            let times_minus_i = GaussianInt::new(self.im, im);
            if is_canonical(times_minus_i) {
                return Ok(times_minus_i);
            }
        }
        Err(GaussianError::ArithmeticOverflow { operation: "canonical associate normalization" })
    }

    /// Returns `[z, -z, i*z, -i*z]`, the four unit multiples of this value.
    ///
    /// Fails with the negation overflow exactly when a coordinate is `i64::MIN`.
    pub fn checked_associates(self) -> (r: Result<[Self; 4], GaussianError>)
        ensures
            r is Ok <==> representable(gneg(self@)),
            r matches Err(e) ==> e == overflow("negation"),
            r matches Ok(arr) ==> forall|k: int|
                0 <= k < 4 ==> #[trigger] arr[k]@ == associates_seq(self@)[k],
    {
        let negative = self.checked_neg()?;
        let re = match checked_neg_i64(self.im) {
            Some(v) => v,
            None => {
                return Err(GaussianError::ArithmeticOverflow { operation: "associate enumeration" })
            },
        };
        let i_times = GaussianInt::new(re, self.re);
        let negative_i_times = i_times.checked_neg()?;
        let arr = [self, negative, i_times, negative_i_times];
        assert(arr[0]@ == associates_seq(self@)[0]);
        assert(arr[1]@ == associates_seq(self@)[1]);
        assert(arr[2]@ == associates_seq(self@)[2]);
        assert(arr[3]@ == associates_seq(self@)[3]);
        Ok(arr)
    }

    /// Returns whether two Gaussian integers differ by multiplication by a unit.
    ///
    /// Fails with the negation overflow exactly when a coordinate of `self` is `i64::MIN`.
    pub fn is_associate_of(self, other: Self) -> (r: Result<bool, GaussianError>)
        ensures
            r is Ok <==> representable(gneg(self@)),
            r matches Err(e) ==> e == overflow("negation"),
            r matches Ok(b) ==> b == associated(self@, other@),
    {
        let associates = self.checked_associates()?;
        proof {
            lemma_associates_seq(self@, other@);
        }
        let mut k: usize = 0;
        while k < 4
            invariant
                k <= 4,
                representable(gneg(self@)),
                associated(self@, other@) <==> associates_seq(self@).contains(other@),
                forall|j: int| 0 <= j < 4 ==> #[trigger] associates[j]@ == associates_seq(self@)[j],
                forall|j: int| 0 <= j < k ==> associates_seq(self@)[j] != other@,
            decreases 4 - k,
        {
            if associates[k].re == other.re && associates[k].im == other.im {
                assert(associates_seq(self@)[k as int] == other@);
                return Ok(true);
            }
            assert(associates[k as int]@ == associates_seq(self@)[k as int]);
            k = k + 1;
        }
        assert(!associates_seq(self@).contains(other@));
        Ok(false)
    }
}

impl GaussianInt {
    /// Computes Euclidean quotient and remainder, with each quotient coordinate rounded
    /// to a nearest integer (ties away from zero).
    ///
    /// For a nonzero divisor, the result satisfies `self = divisor*q + r` and
    /// `N(r) < N(divisor)` (indeed `2*N(r) <= N(divisor)`).
    pub fn div_rem(self, divisor: Self) -> (r: Result<(Self, Self), GaussianError>)
        ensures
            match r {
                Ok((q, m)) => div_rem_spec(self@, divisor@) == Ok::<(Gz, Gz), GaussianError>(
                    (q@, m@),
                ),
                Err(e) => div_rem_spec(self@, divisor@) == Err::<(Gz, Gz), GaussianError>(e),
            },
            r matches Ok((q, m)) ==> gadd(gmul(divisor@, q@), m@) == self@ && 2 * gnorm(m@)
                <= gnorm(divisor@) && gnorm(m@) < gnorm(divisor@),
    {
        let quotient = self.division_quotient(divisor)?;
        let product = divisor.checked_mul(quotient)?;
        let remainder = self.checked_sub(product)?;
        proof {
            lemma_remainder_small(self@, divisor@);
        }
        Ok((quotient, remainder))
    }

    /// Returns an exact quotient, or `None` when `divisor` does not divide this value.
    pub fn checked_exact_div(self, divisor: Self) -> (r: Result<Option<Self>, GaussianError>)
        ensures
            match r {
                Ok(Some(q)) => exact_div_spec(self@, divisor@) == Ok::<Option<Gz>, GaussianError>(
                    Some(q@),
                ),
                Ok(None) => exact_div_spec(self@, divisor@) == Ok::<Option<Gz>, GaussianError>(
                    None,
                ),
                Err(e) => exact_div_spec(self@, divisor@) == Err::<Option<Gz>, GaussianError>(e),
            },
            r matches Ok(Some(q)) ==> gmul(divisor@, q@) == self@,
    {
        if divisor.is_zero() {
            return Err(GaussianError::DivisionByZero);
        }
        let (real_part, imag_part, denominator) = division_numerators(self, divisor)?;
        proof {
            lemma_exact_division(self@, divisor@);
            lemma_norm_nonneg(divisor@);
        }
        if unsigned_abs_i128(real_part) % denominator != 0 || unsigned_abs_i128(imag_part)
            % denominator != 0 {
            proof {
                lemma_abs_divisible(real_part as int, denominator as int);
                lemma_abs_divisible(imag_part as int, denominator as int);
            }
            return Ok(None);
        }
        proof {
            lemma_abs_divisible(real_part as int, denominator as int);
            lemma_abs_divisible(imag_part as int, denominator as int);
        }
        let re = exact_ratio_to_i64(real_part, denominator, "exact division")?;
        let im = exact_ratio_to_i64(imag_part, denominator, "exact division")?;
        Ok(Some(GaussianInt::new(re, im)))
    }

    /// Returns whether `self` divides `value` exactly.
    pub fn divides(self, value: Self) -> (r: Result<bool, GaussianError>)
        ensures
            match exact_div_spec(value@, self@) {
                Ok(q) => r == Ok::<bool, GaussianError>(q is Some),
                Err(e) => r == Err::<bool, GaussianError>(e),
            },
            r matches Ok(b) ==> b == gdivides(self@, value@),
    {
        Ok(value.checked_exact_div(self)?.is_some())
    }

    /// Computes a Euclidean gcd, normalized to its canonical associate.
    ///
    /// `gcd(0, 0)` is defined as zero. The result is the checked run of the
    /// Euclidean algorithm; on success it is the normalized greatest common divisor.
    pub fn gcd(self, rhs: Self) -> (r: Result<Self, GaussianError>)
        ensures
            view_result(r) == gcd_spec(self@, rhs@),
            r matches Ok(g) ==> is_normalized_gcd(self@, rhs@, g@),
    {
        let mut a = self;
        let mut b = rhs;
        proof {
            lemma_norm_nonneg(rhs@);
        }
        while !b.is_zero()
            invariant
                euclid_spec(a@, b@) == euclid_spec(self@, rhs@),
                gnorm(b@) >= 0,
            decreases gnorm(b@),
        {
            let (_, remainder) = a.div_rem(b)?;
            proof {
                lemma_norm_nonneg(remainder@);
            }
            a = b;
            b = remainder;
        }
        proof {
            lemma_gcd_spec_correct(self@, rhs@);
        }
        a.canonical_associate()
    }

    /// The rounded Euclidean quotient.
    fn division_quotient(self, divisor: Self) -> (r: Result<Self, GaussianError>)
        ensures
            match r {
                Ok(q) => divisor@ != gzero() && fits_i128(numerators(self@, divisor@).0)
                    && representable(quotient_spec(self@, divisor@)) && q@ == quotient_spec(
                    self@,
                    divisor@,
                ),
                Err(e) => (divisor@ == gzero() && e == GaussianError::DivisionByZero) || (
                divisor@ != gzero() && !fits_i128(numerators(self@, divisor@).0) && e == overflow(
                    "division numerator",
                )) || (divisor@ != gzero() && fits_i128(numerators(self@, divisor@).0)
                    && !representable(quotient_spec(self@, divisor@)) && e == overflow(
                    "Euclidean division",
                )),
            },
    {
        if divisor.is_zero() {
            return Err(GaussianError::DivisionByZero);
        }
        let (real_part, imag_part, denominator) = division_numerators(self, divisor)?;
        proof {
            lemma_norm_nonneg(divisor@);
        }
        let re = rounded_ratio_to_i64(real_part, denominator)?;
        let im = rounded_ratio_to_i64(imag_part, denominator)?;
        Ok(GaussianInt::new(re, im))
    }
}

/// The numerators `a * conj(b)` and the denominator `N(b)` of `a / b`.
fn division_numerators(dividend: GaussianInt, divisor: GaussianInt) -> (r: Result<
    (i128, i128, u128),
    GaussianError,
>)
    ensures
        match r {
            Ok((x, y, d)) => fits_i128(numerators(dividend@, divisor@).0) && x as int == numerators(
                dividend@,
                divisor@,
            ).0 && y as int == numerators(dividend@, divisor@).1 && d as int == gnorm(divisor@),
            Err(e) => !fits_i128(numerators(dividend@, divisor@).0) && e == overflow(
                "division numerator",
            ),
        },
{
    let ar = dividend.re as i128;
    let ai = dividend.im as i128;
    let br = divisor.re as i128;
    let bi = divisor.im as i128;
    proof {
        lemma_product_bound(dividend.re, divisor.re);
        lemma_product_bound(dividend.im, divisor.im);
        lemma_product_bound(dividend.re, divisor.im);
        lemma_product_bound(dividend.im, divisor.re);
        lemma_numerators_expand(dividend@, divisor@);
    }
    let real_part = match (ar * br).checked_add(ai * bi) {
        Some(v) => v,
        None => return Err(GaussianError::ArithmeticOverflow { operation: "division numerator" }),
    };
    let imag_part = ai * br - ar * bi;
    Ok((real_part, imag_part, divisor.norm()))
}

/// The magnitude of an `i128`.
fn unsigned_abs_i128(x: i128) -> (r: u128)
    ensures
        r as int == abs_spec(x as int),
{
    if x >= 0 {
        x as u128
    } else {
        ((-(x + 1)) as u128) + 1
    }
}

/// `magnitude / denominator` rounded to a nearest integer, ties away from zero,
/// with the sign of `numerator`.
fn rounded_ratio_to_i64(numerator: i128, denominator: u128) -> (r: Result<i64, GaussianError>)
    requires
        denominator > 0,
    ensures
        match r {
            Ok(v) => v as int == round_div(numerator as int, denominator as int),
            Err(e) => !fits_i64(round_div(numerator as int, denominator as int)) && e == overflow(
                "Euclidean division",
            ),
        },
{
    let magnitude = unsigned_abs_i128(numerator);
    let quotient = magnitude / denominator;
    let remainder = magnitude % denominator;
    let rounded = if remainder >= denominator - remainder {
        quotient + 1
    } else {
        quotient
    };
    signed_magnitude_to_i64(rounded, numerator < 0, "Euclidean division")
}

/// `|numerator| / denominator` with the sign of `numerator`.
fn exact_ratio_to_i64(numerator: i128, denominator: u128, operation: &'static str) -> (r: Result<
    i64,
    GaussianError,
>)
    requires
        denominator > 0,
        numerator as int % denominator as int == 0,
    ensures
        match r {
            Ok(v) => v as int == numerator as int / denominator as int,
            Err(e) => !fits_i64(numerator as int / denominator as int) && e == overflow(operation),
        },
{
    proof {
        lemma_exact_ratio(numerator as int, denominator as int);
    }
    signed_magnitude_to_i64(unsigned_abs_i128(numerator) / denominator, numerator < 0, operation)
}

/// A magnitude with a sign, narrowed to `i64`.
fn signed_magnitude_to_i64(magnitude: u128, negative: bool, operation: &'static str) -> (r: Result<
    i64,
    GaussianError,
>)
    ensures
        match r {
            Ok(v) => v as int == (if negative {
                -magnitude
            } else {
                magnitude as int
            }),
            Err(e) => !fits_i64(
                if negative {
                    -magnitude
                } else {
                    magnitude as int
                },
            ) && e == overflow(operation),
        },
{
    if negative {
        if magnitude == 0x8000_0000_0000_0000u128 {
            return Ok(i64::MIN);
        }
        if magnitude > 0x7fff_ffff_ffff_ffffu128 {
            return Err(GaussianError::ArithmeticOverflow { operation });
        }
        Ok(-(magnitude as i64))
    } else {
        if magnitude > 0x7fff_ffff_ffff_ffffu128 {
            return Err(GaussianError::ArithmeticOverflow { operation });
        }
        Ok(magnitude as i64)
    }
}

/// The numerators written out coordinate by coordinate.
proof fn lemma_numerators_expand(a: Gz, b: Gz)
    ensures
        numerators(a, b).0 == a.0 * b.0 + a.1 * b.1,
        numerators(a, b).1 == a.1 * b.0 - a.0 * b.1,
{
    assert(a.1 * (-b.1) == -(a.1 * b.1)) by (nonlinear_arith);
    assert(a.0 * (-b.1) == -(a.0 * b.1)) by (nonlinear_arith);
}

/// Divisibility does not depend on the sign.
proof fn lemma_abs_divisible(n: int, d: int)
    requires
        d > 0,
    ensures
        (abs_spec(n) % d == 0) <==> (n % d == 0),
{
    if n < 0 {
        if n % d == 0 {
            vstd::arithmetic::div_mod::lemma_fundamental_div_mod(n, d);
            let k = n / d;
            vstd::arithmetic::div_mod::lemma_mod_multiples_basic(-k, d);
            assert(-k * d == -n) by (nonlinear_arith)
                requires
                    n == d * k,
            ;
        }
        if (-n) % d == 0 {
            vstd::arithmetic::div_mod::lemma_fundamental_div_mod(-n, d);
            let k = (-n) / d;
            vstd::arithmetic::div_mod::lemma_mod_multiples_basic(-k, d);
            assert(-k * d == n) by (nonlinear_arith)
                requires
                    -n == d * k,
            ;
        }
    }
}

/// For a multiple `n` of `d`, the sign-and-magnitude quotient is `n / d`.
proof fn lemma_exact_ratio(n: int, d: int)
    requires
        d > 0,
        n % d == 0,
    ensures
        (if n < 0 {
            -(abs_spec(n) / d)
        } else {
            abs_spec(n) / d
        }) == n / d,
{
    vstd::arithmetic::div_mod::lemma_fundamental_div_mod(n, d);
    let k = n / d;
    if n < 0 {
        assert(-n == (-k) * d) by (nonlinear_arith)
            requires
                n == d * k,
        ;
        vstd::arithmetic::div_mod::lemma_div_multiples_vanish(-k, d);
        assert((-k) * d == d * (-k)) by (nonlinear_arith);
    }
}

/// Whether a value lies in the canonical sector `re > 0, im >= 0`.
pub fn is_canonical(value: GaussianInt) -> (r: bool)
    ensures
        r == is_canonical_spec(value@),
{
    value.re > 0 && value.im >= 0
}

/// Negation of one coordinate, failing only for `i64::MIN`.
pub fn checked_neg_i64(x: i64) -> (r: Option<i64>)
    ensures
        r == (if x == i64::MIN {
            None::<i64>
        } else {
            Some((-x) as i64)
        }),
{
    if x == i64::MIN {
        None
    } else {
        Some(-x)
    }
}

/// Narrowing of an `i128` to `i64`, failing exactly when the value is out of range.
pub fn i128_to_i64(x: i128) -> (r: Option<i64>)
    ensures
        r == (if fits_i64(x as int) {
            Some(x as i64)
        } else {
            None::<i64>
        }),
{
    if x < -0x8000_0000_0000_0000i128 || x > 0x7fff_ffff_ffff_ffffi128 {
        None
    } else {
        Some(x as i64)
    }
}

/// The square of an `i64` coordinate is at most `2^126`.
pub proof fn lemma_square_bound(x: i64)
    ensures
        0 <= x * x <= 0x4000_0000_0000_0000_0000_0000_0000_0000,
{
    assert(0 <= x * x <= 0x4000_0000_0000_0000_0000_0000_0000_0000) by (nonlinear_arith)
        requires
            -0x8000_0000_0000_0000 <= x <= 0x7fff_ffff_ffff_ffff,
    ;
}

/// A product of two `i64` coordinates lies in `[-(2^126 - 2^63), 2^126]`.
pub proof fn lemma_product_bound(x: i64, y: i64)
    ensures
        -0x3fff_ffff_ffff_ffff_8000_0000_0000_0000 <= x * y <= 0x4000_0000_0000_0000_0000_0000_0000_0000,
{
    assert(-0x3fff_ffff_ffff_ffff_8000_0000_0000_0000 <= x * y <= 0x4000_0000_0000_0000_0000_0000_0000_0000)
        by (nonlinear_arith)
        requires
            -0x8000_0000_0000_0000 <= x <= 0x7fff_ffff_ffff_ffff,
            -0x8000_0000_0000_0000 <= y <= 0x7fff_ffff_ffff_ffff,
    ;
}

} // verus!
