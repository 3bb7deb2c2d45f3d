//! The coprimality topology on the nonzero Gaussian integers: basic opens,
//! indistinguishability, specialization, and the Kolmogorov quotient.
use vstd::prelude::*;

use crate::classification::lemma_prime_class_divisor;
use crate::arithmetic::{checked_spec, overflow, GaussianError, GaussianInt};
use crate::divisors::{
    lemma_irreducible_coprime, lex_lt, prime_divisors, strictly_sorted, support_set,
};
use crate::factor::{class_views, limit_error, prime_support, PrimeClass, MAX_FACTOR_NORM};
use crate::gcd::{coprime_spec, gcd_spec, lemma_coprime_divides_product, lemma_coprime_iff_gcd_unit};
use crate::ring::{
    gdivides, gmul, gnorm, gz, gzero, is_unit_spec, lemma_associated_divides, lemma_divides_norm,
    lemma_divides_of_mul, lemma_divides_trans, lemma_divisor_same_norm, lemma_norm_nonneg, Gz,
};

verus! {

/// Returns whether two Gaussian integers are coprime (their normalized gcd is a unit).
///
/// This algebraic predicate accepts zero; topology-specific functions reject zero.
/// It fails exactly when the gcd computation overflows.
pub fn coprime(left: GaussianInt, right: GaussianInt) -> (r: Result<bool, GaussianError>)
    ensures
        match gcd_spec(left@, right@) {
            Ok(g) => r == Ok::<bool, GaussianError>(is_unit_spec(g)),
            Err(e) => r == Err::<bool, GaussianError>(e),
        },
        r matches Ok(b) ==> b == coprime_spec(left@, right@),
{
    let g = left.gcd(right)?;
    proof {
        lemma_coprime_iff_gcd_unit(left@, right@, g@);
    }
    Ok(g.is_unit())
}

/// The topology-specific checks reject zero.
fn require_nonzero(value: GaussianInt) -> (r: Result<(), GaussianError>)
    ensures
        r is Ok <==> value@ != gzero(),
        r matches Err(e) ==> e == GaussianError::ZeroOutsideTopology,
{
    if value.is_zero() {
        Err(GaussianError::ZeroOutsideTopology)
    } else {
        Ok(())
    }
}

/// Tests membership `point in sigma_index` in the coprimality basis.
///
/// Fails with `ZeroOutsideTopology` if either argument is zero, and otherwise exactly
/// as [`coprime`] does.
pub fn sigma_contains(index: GaussianInt, point: GaussianInt) -> (r: Result<bool, GaussianError>)
    ensures
        (index@ == gzero() || point@ == gzero()) ==> r == Err::<bool, GaussianError>(
            GaussianError::ZeroOutsideTopology,
        ),
        index@ != gzero() && point@ != gzero() ==> match gcd_spec(index@, point@) {
            Ok(g) => r == Ok::<bool, GaussianError>(is_unit_spec(g)),
            Err(e) => r == Err::<bool, GaussianError>(e),
        },
        r matches Ok(b) ==> b == coprime_spec(index@, point@),
{
    require_nonzero(index)?;
    require_nonzero(point)?;
    coprime(index, point)
}

/// Tests membership in `sigma_left_index intersect sigma_right_index` through the
/// identity `sigma_a intersect sigma_b = sigma_(a*b)`.
///
/// Fails with `ZeroOutsideTopology` for a zero argument, with the multiplication
/// overflow when the product is unrepresentable, and otherwise as [`sigma_contains`].
pub fn sigma_intersection_contains(
    left_index: GaussianInt,
    right_index: GaussianInt,
    point: GaussianInt,
) -> (r: Result<bool, GaussianError>)
    ensures
        (left_index@ == gzero() || right_index@ == gzero()) ==> r == Err::<bool, GaussianError>(
            GaussianError::ZeroOutsideTopology,
        ),
        left_index@ != gzero() && right_index@ != gzero() ==> match checked_spec(
            gmul(left_index@, right_index@),
            "multiplication",
        ) {
            Err(e) => r == Err::<bool, GaussianError>(e),
            Ok(product) => if point@ == gzero() {
                r == Err::<bool, GaussianError>(GaussianError::ZeroOutsideTopology)
            } else {
                match gcd_spec(product, point@) {
                    Ok(g) => r == Ok::<bool, GaussianError>(is_unit_spec(g)),
                    Err(e) => r == Err::<bool, GaussianError>(e),
                }
            },
        },
        r matches Ok(b) ==> b == coprime_spec(gmul(left_index@, right_index@), point@) && b == (
        coprime_spec(left_index@, point@) && coprime_spec(right_index@, point@)),
{
    require_nonzero(left_index)?;
    require_nonzero(right_index)?;
    let product = left_index.checked_mul(right_index)?;
    proof {
        lemma_sigma_intersection(left_index@, right_index@, point@);
        lemma_norm_nonneg(left_index@);
        lemma_norm_nonneg(right_index@);
        lemma_norm_nonneg(product@);
        let (na, nb) = (gnorm(left_index@), gnorm(right_index@));
        assert(na * nb >= 1) by (nonlinear_arith)
            requires
                na >= 1,
                nb >= 1,
        ;
    }
    sigma_contains(product, point)
}

/// The basic opens intersect as `sigma_a ∩ sigma_b = sigma_(a*b)`: a point is coprime
/// to a product exactly when it is coprime to both factors.
pub proof fn lemma_sigma_intersection(a: Gz, b: Gz, p: Gz)
    ensures
        coprime_spec(gmul(a, b), p) <==> (coprime_spec(a, p) && coprime_spec(b, p)),
{
    if coprime_spec(gmul(a, b), p) {
        assert forall|d: Gz| #[trigger] gdivides(d, a) && #[trigger] gdivides(d, p) implies is_unit_spec(
            d,
        ) by {
            lemma_divides_of_mul(a, b);
            lemma_divides_trans(d, a, gmul(a, b));
        }
        assert forall|d: Gz| #[trigger] gdivides(d, b) && #[trigger] gdivides(d, p) implies is_unit_spec(
            d,
        ) by {
            lemma_divides_of_mul(a, b);
            lemma_divides_trans(d, b, gmul(a, b));
        }
    }
    if coprime_spec(a, p) && coprime_spec(b, p) {
        assert forall|d: Gz| #[trigger] gdivides(d, gmul(a, b)) && #[trigger] gdivides(d, p)
            implies is_unit_spec(d) by {
            // d is coprime to a, since a common divisor of a and d divides p
            assert forall|e: Gz| #[trigger] gdivides(e, a) && #[trigger] gdivides(e, d)
                implies is_unit_spec(e) by {
                lemma_divides_trans(e, d, p);
            }
            lemma_coprime_divides_product(d, a, b);
        }
    }
}

/// `1 + i` divides `z` exactly when the coordinates of `z` have the same parity.
pub proof fn lemma_one_plus_i_divides(z: Gz)
    ensures
        gdivides(gz(1, 1), z) <==> (z.0 % 2 == z.1 % 2),
{
    if z.0 % 2 == z.1 % 2 {
        vstd::arithmetic::div_mod::lemma_fundamental_div_mod(z.0, 2);
        vstd::arithmetic::div_mod::lemma_fundamental_div_mod(z.1, 2);
        let q = ((z.0 + z.1) / 2, (z.1 - z.0) / 2);
        assert(q.0 * 2 == z.0 + z.1 && q.1 * 2 == z.1 - z.0) by {
            vstd::arithmetic::div_mod::lemma_fundamental_div_mod(z.0 + z.1, 2);
            vstd::arithmetic::div_mod::lemma_fundamental_div_mod(z.1 - z.0, 2);
            vstd::arithmetic::div_mod::lemma_mod_bound(z.0, 2);
            vstd::arithmetic::div_mod::lemma_mod_bound(z.1, 2);
        }
        assert(gmul(gz(1, 1), q) == z);
    }
    if gdivides(gz(1, 1), z) {
        let q = choose|q: Gz| #[trigger] gmul(gz(1, 1), q) == z;
        assert(z == (q.0 - q.1, q.0 + q.1));
        vstd::arithmetic::div_mod::lemma_fundamental_div_mod(q.0 - q.1, 2);
        vstd::arithmetic::div_mod::lemma_fundamental_div_mod(q.0 + q.1, 2);
        vstd::arithmetic::div_mod::lemma_mod_bound(q.0 - q.1, 2);
        vstd::arithmetic::div_mod::lemma_mod_bound(q.0 + q.1, 2);
    }
}

/// `sigma_(1+i)` is exactly the set of nonzero points whose coordinates have mixed parity.
pub proof fn lemma_sigma_one_plus_i(z: Gz)
    ensures
        coprime_spec(gz(1, 1), z) <==> (z.0 % 2 != z.1 % 2),
{
    let w = gz(1, 1);
    lemma_one_plus_i_divides(z);
    crate::ring::lemma_divides_refl(w);
    if z.0 % 2 == z.1 % 2 {
        assert(gdivides(w, w) && gdivides(w, z));
        assert(!is_unit_spec(w));
    } else {
        assert forall|d: Gz| #[trigger] gdivides(d, w) && #[trigger] gdivides(d, z) implies is_unit_spec(
            d,
        ) by {
            lemma_divides_norm(d, w);
            if gnorm(d) == 2 {
                lemma_divisor_same_norm(d, w);
                lemma_associated_divides(d, w);
                lemma_divides_trans(w, d, z);
            }
        }
    }
}

/// A point belongs to a basic open exactly when their prime supports are disjoint:
/// `beta in sigma_alpha <=> Supp(alpha) ∩ Supp(beta) = ∅`.
pub proof fn lemma_sigma_support_disjoint(alpha: Gz, beta: Gz)
    ensures
        coprime_spec(alpha, beta) <==> prime_divisors(alpha).disjoint(prime_divisors(beta)),
{
    if coprime_spec(alpha, beta) {
        assert forall|c: Gz| prime_divisors(alpha).contains(c) implies !prime_divisors(
            beta,
        ).contains(c) by {
            if prime_divisors(beta).contains(c) {
                assert(gdivides(c, alpha) && gdivides(c, beta));
            }
        }
    }
    if prime_divisors(alpha).disjoint(prime_divisors(beta)) {
        assert forall|d: Gz| #[trigger] gdivides(d, alpha) && #[trigger] gdivides(d, beta)
            implies is_unit_spec(d) by {
            if !is_unit_spec(d) {
                let c = if d == gzero() {
                    // alpha and beta are zero: 1 + i divides both
                    let q = choose|q: Gz| #[trigger] gmul(d, q) == alpha;
                    let t = choose|q: Gz| #[trigger] gmul(d, q) == beta;
                    crate::ring::lemma_mul_zero(q);
                    crate::ring::lemma_mul_zero(t);
                    crate::ring::lemma_mul_zero(gz(1, 1));
                    assert(gmul(gz(1, 1), gzero()) == gzero());
                    gz(1, 1)
                } else {
                    let c = lemma_prime_class_divisor(d);
                    lemma_divides_trans(c, d, alpha);
                    lemma_divides_trans(c, d, beta);
                    c
                };
                assert(prime_divisors(alpha).contains(c));
                assert(prime_divisors(beta).contains(c));
            }
        }
    }
}

/// Coprimality is symmetric.
pub proof fn lemma_coprime_symmetric(a: Gz, b: Gz)
    ensures
        coprime_spec(a, b) <==> coprime_spec(b, a),
{
    if coprime_spec(a, b) {
        assert forall|d: Gz| #[trigger] gdivides(d, b) && #[trigger] gdivides(d, a) implies is_unit_spec(
            d,
        ) by {
            assert(gdivides(d, a) && gdivides(d, b));
        }
    }
    if coprime_spec(b, a) {
        assert forall|d: Gz| #[trigger] gdivides(d, a) && #[trigger] gdivides(d, b) implies is_unit_spec(
            d,
        ) by {
            assert(gdivides(d, b) && gdivides(d, a));
        }
    }
}

/// A canonical prime outside the support of `y` is coprime to `y`, and not to a
/// value whose support holds it.
proof fn lemma_prime_separates(p: Gz, x: Gz, y: Gz)
    requires
        prime_divisors(x).contains(p),
        !prime_divisors(y).contains(p),
    ensures
        coprime_spec(p, y),
        !coprime_spec(p, x),
{
    crate::primality::lemma_gaussian_prime_irreducible(p);
    lemma_irreducible_coprime(p, y);
    lemma_coprime_symmetric(y, p);
    crate::ring::lemma_divides_refl(p);
    assert(gdivides(p, p) && gdivides(p, x));
}

/// Two points are topologically indistinguishable (they lie in exactly the
/// same basic opens) exactly when their prime supports are equal.
pub proof fn lemma_indistinguishable_iff_same_support(x: Gz, y: Gz)
    ensures
        prime_divisors(x) == prime_divisors(y) <==> (forall|a: Gz|
            #[trigger] coprime_spec(a, x) == coprime_spec(a, y)),
{
    if prime_divisors(x) == prime_divisors(y) {
        assert forall|a: Gz| #[trigger] coprime_spec(a, x) == coprime_spec(a, y) by {
            lemma_sigma_support_disjoint(x, a);
            lemma_sigma_support_disjoint(y, a);
            lemma_coprime_symmetric(a, x);
            lemma_coprime_symmetric(a, y);
        }
    } else {
        if exists|p: Gz| prime_divisors(x).contains(p) && !prime_divisors(y).contains(p) {
            let p = choose|p: Gz| prime_divisors(x).contains(p) && !prime_divisors(y).contains(p);
            lemma_prime_separates(p, x, y);
            assert(coprime_spec(p, x) != coprime_spec(p, y));
        } else {
            assert(!(prime_divisors(x) =~= prime_divisors(y)));
            let p = choose|p: Gz| prime_divisors(y).contains(p) && !prime_divisors(x).contains(p);
            lemma_prime_separates(p, y, x);
            assert(coprime_spec(p, x) != coprime_spec(p, y));
        }
    }
}

/// A point `y` lies in the closure of `{x}` (every basic open holding
/// `y` holds `x`) exactly when `Supp(x) ⊆ Supp(y)`.
pub proof fn lemma_closure_iff_support_inclusion(x: Gz, y: Gz)
    ensures
        prime_divisors(x).subset_of(prime_divisors(y)) <==> (forall|a: Gz|
            #[trigger] coprime_spec(a, y) ==> coprime_spec(a, x)),
{
    if prime_divisors(x).subset_of(prime_divisors(y)) {
        assert forall|a: Gz| #[trigger] coprime_spec(a, y) implies coprime_spec(a, x) by {
            lemma_sigma_support_disjoint(x, a);
            lemma_sigma_support_disjoint(y, a);
            lemma_coprime_symmetric(a, x);
            lemma_coprime_symmetric(a, y);
        }
    } else {
        let p = choose|p: Gz| prime_divisors(x).contains(p) && !prime_divisors(y).contains(p);
        lemma_prime_separates(p, x, y);
        assert(coprime_spec(p, y) && !coprime_spec(p, x));
    }
}

/// Why a support computation is refused before any factoring: zero, or a norm
/// beyond the factorization range.
pub open spec fn support_error(z: Gz) -> Option<GaussianError> {
    if z == gzero() {
        Some(GaussianError::ZeroOutsideTopology)
    } else if gnorm(z) > MAX_FACTOR_NORM {
        Some(limit_error(gnorm(z)))
    } else {
        None
    }
}

/// Tests topological indistinguishability by exact equality of prime supports.
///
/// Fails for zero or for a norm beyond the factorization range, `left` checked first.
pub fn topologically_indistinguishable(left: GaussianInt, right: GaussianInt) -> (r: Result<
    bool,
    GaussianError,
>)
    ensures
        support_error(left@) matches Some(e) ==> r == Err::<bool, GaussianError>(e),
        support_error(left@) is None ==> match support_error(right@) {
            Some(e) => r == Err::<bool, GaussianError>(e),
            None => r == Ok::<bool, GaussianError>(prime_divisors(left@) == prime_divisors(right@)),
        },
{
    let left_support = prime_support(left)?;
    let right_support = prime_support(right)?;
    Ok(same_classes(&left_support, &right_support))
}

/// Tests the support-inclusion specialization direction `source -> target`.
///
/// This returns true exactly when `Supp(source) <= Supp(target)`, equivalently when
/// `target` belongs to the closure of the singleton `{source}`. Fails for zero or for
/// a norm beyond the factorization range, `source` checked first.
pub fn specializes_to(source: GaussianInt, target: GaussianInt) -> (r: Result<
    bool,
    GaussianError,
>)
    ensures
        support_error(source@) matches Some(e) ==> r == Err::<bool, GaussianError>(e),
        support_error(source@) is None ==> match support_error(target@) {
            Some(e) => r == Err::<bool, GaussianError>(e),
            None => r == Ok::<bool, GaussianError>(
                prime_divisors(source@).subset_of(prime_divisors(target@)),
            ),
        },
{
    let source_support = prime_support(source)?;
    let target_support = prime_support(target)?;
    Ok(is_subset_classes(&source_support, &target_support))
}

/// Tests whether `point` belongs to the closure of the singleton `{source}`.
///
/// Fails as [`specializes_to`] does, `source` checked first.
pub fn in_closure_of(point: GaussianInt, source: GaussianInt) -> (r: Result<bool, GaussianError>)
    ensures
        support_error(source@) matches Some(e) ==> r == Err::<bool, GaussianError>(e),
        support_error(source@) is None ==> match support_error(point@) {
            Some(e) => r == Err::<bool, GaussianError>(e),
            None => r == Ok::<bool, GaussianError>(
                prime_divisors(source@).subset_of(prime_divisors(point@)),
            ),
        },
{
    specializes_to(source, point)
}

/// A point of the finite-support model of the Kolmogorov quotient: a finite set of
/// prime associate classes, kept in increasing order.
#[derive(Debug, PartialEq, Eq)]
pub struct KolmogorovPoint {
    support: Vec<PrimeClass>,
}

impl View for KolmogorovPoint {
    type V = Set<Gz>;

    closed spec fn view(&self) -> Set<Gz> {
        support_set(class_views(self.support@))
    }
}

impl KolmogorovPoint {
    #[verifier::type_invariant]
    spec fn is_valid(self) -> bool {
        strictly_sorted(class_views(self.support@))
    }

    /// Constructs a quotient point from a finite collection of prime classes; the
    /// point is the set of the listed classes.
    pub fn new(support: Vec<PrimeClass>) -> (r: Self)
        ensures
            r@ == support_set(class_views(support@)),
    {
        KolmogorovPoint { support: sorted_classes(&support) }
    }

    /// Maps a supported nonzero Gaussian integer to its quotient point, the set of
    /// canonical Gaussian primes dividing it.
    ///
    /// Fails exactly as `prime_support` does.
    pub fn from_gaussian(value: GaussianInt) -> (r: Result<Self, GaussianError>)
        ensures
            support_error(value@) matches Some(e) ==> r == Err::<Self, GaussianError>(e),
            support_error(value@) is None ==> (r matches Ok(p) && p@ == prime_divisors(value@)),
    {
        let support = prime_support(value)?;
        Ok(KolmogorovPoint { support })
    }

    /// Returns the finite set of prime associate classes, in increasing order.
    pub fn support(&self) -> (r: &Vec<PrimeClass>)
        ensures
            strictly_sorted(class_views(r@)),
            support_set(class_views(r@)) == self@,
    {
        proof {
            use_type_invariant(self);
        }
        &self.support
    }
}

impl Clone for KolmogorovPoint {
    fn clone(&self) -> (r: Self)
        ensures
            r@ == self@,
    {
        proof {
            use_type_invariant(self);
        }
        KolmogorovPoint { support: copy_classes(&self.support) }
    }
}

impl Default for KolmogorovPoint {
    fn default() -> (r: Self)
        ensures
            r@ == Set::<Gz>::empty(),
    {
        let r = KolmogorovPoint { support: Vec::new() };
        assert(class_views(r.support@) =~= Seq::<Gz>::empty());
        assert(support_set(class_views(r.support@)) =~= Set::<Gz>::empty());
        r
    }
}

/// The quotient basic open `O_F = {S : S ∩ F = ∅}` for a finite forbidden set `F`.
#[derive(Debug, PartialEq, Eq)]
pub struct QuotientBasicOpen {
    forbidden: Vec<PrimeClass>,
}

impl View for QuotientBasicOpen {
    type V = Set<Gz>;

    closed spec fn view(&self) -> Set<Gz> {
        support_set(class_views(self.forbidden@))
    }
}

impl QuotientBasicOpen {
    #[verifier::type_invariant]
    spec fn is_valid(self) -> bool {
        strictly_sorted(class_views(self.forbidden@))
    }

    /// Constructs `O_F` from the finite forbidden classes `F`.
    pub fn new(forbidden: Vec<PrimeClass>) -> (r: Self)
        ensures
            r@ == support_set(class_views(forbidden@)),
    {
        QuotientBasicOpen { forbidden: sorted_classes(&forbidden) }
    }

    /// Returns the finite forbidden set `F`, in increasing order.
    pub fn forbidden(&self) -> (r: &Vec<PrimeClass>)
        ensures
            strictly_sorted(class_views(r@)),
            support_set(class_views(r@)) == self@,
    {
        proof {
            use_type_invariant(self);
        }
        &self.forbidden
    }

    /// Tests whether a quotient point belongs to this basic open: its classes avoid `F`.
    pub fn contains(&self, point: &KolmogorovPoint) -> (r: bool)
        ensures
            r == self@.disjoint(point@),
    {
        is_disjoint_classes(&self.forbidden, &point.support)
    }
}

impl Clone for QuotientBasicOpen {
    fn clone(&self) -> (r: Self)
        ensures
            r@ == self@,
    {
        proof {
            use_type_invariant(self);
        }
        QuotientBasicOpen { forbidden: copy_classes(&self.forbidden) }
    }
}

impl Default for QuotientBasicOpen {
    fn default() -> (r: Self)
        ensures
            r@ == Set::<Gz>::empty(),
    {
        let r = QuotientBasicOpen { forbidden: Vec::new() };
        assert(class_views(r.forbidden@) =~= Seq::<Gz>::empty());
        assert(support_set(class_views(r.forbidden@)) =~= Set::<Gz>::empty());
        r
    }
}

/// A copy of a list of prime classes.
fn copy_classes(list: &Vec<PrimeClass>) -> (r: Vec<PrimeClass>)
    ensures
        class_views(r@) == class_views(list@),
{
    let mut out: Vec<PrimeClass> = Vec::new();
    let mut k: usize = 0;
    while k < list.len()
        invariant
            k <= list.len(),
            out@.len() == k,
            forall|j: int| 0 <= j < k ==> #[trigger] out@[j]@ == list@[j]@,
        decreases list.len() - k,
    {
        out.push(list[k]);
        k = k + 1;
    }
    assert(class_views(out@) =~= class_views(list@));
    out
}

/// The distinct classes of a list, in increasing order.
fn sorted_classes(list: &Vec<PrimeClass>) -> (r: Vec<PrimeClass>)
    ensures
        strictly_sorted(class_views(r@)),
        support_set(class_views(r@)) == support_set(class_views(list@)),
{
    let mut out: Vec<PrimeClass> = Vec::new();
    let mut k: usize = 0;
    assert(support_set(class_views(out@)) =~= support_set(class_views(list@).take(0)));
    while k < list.len()
        invariant
            k <= list.len(),
            strictly_sorted(class_views(out@)),
            support_set(class_views(out@)) == support_set(class_views(list@).take(k as int)),
        decreases list.len() - k,
    {
        insert_class(&mut out, list[k]);
        proof {
            let l = class_views(list@);
            assert(l.take(k + 1) =~= l.take(k as int).push(l[k as int]));
            l.take(k as int).lemma_push_to_set_commute(l[k as int]);
            assert(support_set(l.take(k + 1)) =~= support_set(l.take(k as int)).insert(
                l[k as int],
            ));
        }
        k = k + 1;
    }
    assert(class_views(list@).take(list.len() as int) =~= class_views(list@));
    out
}

/// Inserts a class into an increasing list of distinct classes, keeping it so.
fn insert_class(list: &mut Vec<PrimeClass>, class: PrimeClass)
    requires
        strictly_sorted(class_views(old(list)@)),
    ensures
        strictly_sorted(class_views(final(list)@)),
        support_set(class_views(final(list)@)) == support_set(class_views(old(list)@)).insert(
            class@,
        ),
{
    let c = class.representative();
    let ghost s = class_views(list@);
    let mut i: usize = 0;
    while i < list.len() && lex_less_class(list[i], c)
        invariant
            i <= list.len(),
            list@ == old(list)@,
            s == class_views(list@),
            c@ == class@,
            forall|k: int| 0 <= k < i ==> lex_lt(#[trigger] s[k], c@),
        decreases list.len() - i,
    {
        i = i + 1;
    }
    if i < list.len() {
        let x = list[i].representative();
        if x.re == c.re && x.im == c.im {
            proof {
                assert(s[i as int] == class@);
                assert(support_set(s) =~= support_set(s).insert(class@));
            }
            return ;
        }
    }
    list.insert(i, class);
    proof {
        let t = class_views(list@);
        assert(t =~= s.insert(i as int, class@));
        if i < s.len() {
            assert(!lex_lt(s[i as int], class@));
            assert(s[i as int] != class@);
        }
        assert forall|a: int, b: int| 0 <= a < b < t.len() implies lex_lt(
            #[trigger] t[a],
            #[trigger] t[b],
        ) by {
            if b < i {
                assert(lex_lt(s[a], s[b]));
            } else if b == i {
                assert(lex_lt(s[a], class@));
            } else if a < i {
                assert(lex_lt(s[a], class@));
                assert(lex_lt(s[i as int], s[b - 1]) || i == b - 1);
            } else if a == i {
                assert(lex_lt(s[i as int], s[b - 1]) || i == b - 1);
            } else {
                assert(lex_lt(s[a - 1], s[b - 1]));
            }
        }
        assert forall|x: Gz| #[trigger] support_set(t).contains(x) <==> support_set(s).insert(
            class@,
        ).contains(x) by {
            if support_set(t).contains(x) {
                let k = choose|k: int| 0 <= k < t.len() && t[k] == x;
                if k < i {
                    assert(s[k] == x);
                } else if k > i {
                    assert(s[k - 1] == x);
                }
            }
            if s.to_set().contains(x) {
                let k = choose|k: int| 0 <= k < s.len() && s[k] == x;
                if k < i {
                    assert(t[k] == x);
                } else {
                    assert(t[k + 1] == x);
                }
            }
            if x == class@ {
                assert(t[i as int] == x);
            }
        }
        assert(support_set(t) =~= support_set(s).insert(class@));
    }
}

/// Whether a listed class comes before a representative in lexicographic order.
fn lex_less_class(class: PrimeClass, c: GaussianInt) -> (r: bool)
    ensures
        r == lex_lt(class@, c@),
{
    let x = class.representative();
    x.re < c.re || (x.re == c.re && x.im < c.im)
}

/// Whether two increasing lists of prime classes are equal.
fn same_classes(left: &Vec<PrimeClass>, right: &Vec<PrimeClass>) -> (r: bool)
    requires
        strictly_sorted(class_views(left@)),
        strictly_sorted(class_views(right@)),
    ensures
        r == (support_set(class_views(left@)) == support_set(class_views(right@))),
{
    let ghost (a, b) = (class_views(left@), class_views(right@));
    if left.len() != right.len() {
        proof {
            if support_set(a) == support_set(b) {
                crate::divisors::lemma_sorted_set_eq(a, b);
            }
        }
        return false;
    }
    let mut k: usize = 0;
    while k < left.len()
        invariant
            k <= left.len() == right.len(),
            a == class_views(left@),
            b == class_views(right@),
            strictly_sorted(a),
            strictly_sorted(b),
            forall|j: int| 0 <= j < k ==> a[j] == b[j],
        decreases left.len() - k,
    {
        let x = left[k].representative();
        let y = right[k].representative();
        if x.re != y.re || x.im != y.im {
            proof {
                assert(a[k as int] != b[k as int]);
                if support_set(a) == support_set(b) {
                    crate::divisors::lemma_sorted_set_eq(a, b);
                }
            }
            return false;
        }
        k = k + 1;
    }
    assert(a =~= b);
    true
}

/// Whether every class of one list occurs in another.
fn is_subset_classes(small: &Vec<PrimeClass>, large: &Vec<PrimeClass>) -> (r: bool)
    ensures
        r == support_set(class_views(small@)).subset_of(support_set(class_views(large@))),
{
    let ghost (a, b) = (class_views(small@), class_views(large@));
    let mut k: usize = 0;
    while k < small.len()
        invariant
            k <= small.len(),
            a == class_views(small@),
            b == class_views(large@),
            forall|j: int| 0 <= j < k ==> b.contains(#[trigger] a[j]),
        decreases small.len() - k,
    {
        if !contains_class(large, small[k]) {
            assert(!support_set(a).subset_of(support_set(b))) by {
                assert(support_set(a).contains(a[k as int]));
            }
            return false;
        }
        k = k + 1;
    }
    assert forall|x: Gz| support_set(a).contains(x) implies support_set(b).contains(x) by {
        let j = choose|j: int| 0 <= j < a.len() && a[j] == x;
        assert(b.contains(a[j]));
    }
    true
}

/// Whether a list of prime classes has no class in common with another.
fn is_disjoint_classes(left: &Vec<PrimeClass>, right: &Vec<PrimeClass>) -> (r: bool)
    ensures
        r == support_set(class_views(left@)).disjoint(support_set(class_views(right@))),
{
    let ghost (a, b) = (class_views(left@), class_views(right@));
    let mut k: usize = 0;
    while k < left.len()
        invariant
            k <= left.len(),
            a == class_views(left@),
            b == class_views(right@),
            forall|j: int| 0 <= j < k ==> !b.contains(#[trigger] a[j]),
        decreases left.len() - k,
    {
        if contains_class(right, left[k]) {
            assert(!support_set(a).disjoint(support_set(b))) by {
                assert(support_set(a).contains(a[k as int]));
                assert(support_set(b).contains(a[k as int]));
            }
            return false;
        }
        k = k + 1;
    }
    assert forall|x: Gz| support_set(a).contains(x) implies !support_set(b).contains(x) by {
        let j = choose|j: int| 0 <= j < a.len() && a[j] == x;
        assert(!b.contains(a[j]));
    }
    true
}

/// Whether a list of prime classes holds a given class.
fn contains_class(list: &Vec<PrimeClass>, class: PrimeClass) -> (r: bool)
    ensures
        r == class_views(list@).contains(class@),
{
    let c = class.representative();
    let mut k: usize = 0;
    while k < list.len()
        invariant
            k <= list.len(),
            c@ == class@,
            forall|j: int| 0 <= j < k ==> class_views(list@)[j] != class@,
        decreases list.len() - k,
    {
        let x = list[k].representative();
        if x.re == c.re && x.im == c.im {
            assert(class_views(list@)[k as int] == class@);
            return true;
        }
        k = k + 1;
    }
    assert(!class_views(list@).contains(class@)) by {
        if class_views(list@).contains(class@) {
            let j = choose|j: int| 0 <= j < list.len() && class_views(list@)[j] == class@;
        }
    }
    false
}

} // verus!
