//! The mathematical model of the Gaussian integers `Z[i]`.
//!
//! A Gaussian integer is modelled as a pair of mathematical integers `(re, im)`.
//! This module defines the ring operations, the norm, divisibility, units,
//! associates and the canonical associate on that model, together with the
//! algebraic lemmas that the executable code relies on.
use vstd::prelude::*;

verus! {

/// A Gaussian integer as a pair of mathematical integers `(re, im)`.
pub type Gz = (int, int);

pub open spec fn gz(re: int, im: int) -> Gz {
    (re, im)
}

pub open spec fn gadd(a: Gz, b: Gz) -> Gz {
    (a.0 + b.0, a.1 + b.1)
}

pub open spec fn gsub(a: Gz, b: Gz) -> Gz {
    (a.0 - b.0, a.1 - b.1)
}

pub open spec fn gneg(a: Gz) -> Gz {
    (-a.0, -a.1)
}

pub open spec fn gconj(a: Gz) -> Gz {
    (a.0, -a.1)
}

/// Multiplication by the imaginary unit: `i * (re + im i) = -im + re i`.
pub open spec fn gtimes_i(a: Gz) -> Gz {
    (-a.1, a.0)
}

pub open spec fn gmul(a: Gz, b: Gz) -> Gz {
    (a.0 * b.0 - a.1 * b.1, a.0 * b.1 + a.1 * b.0)
}

/// The norm `re^2 + im^2`.
pub open spec fn gnorm(a: Gz) -> int {
    a.0 * a.0 + a.1 * a.1
}

pub open spec fn gzero() -> Gz {
    (0, 0)
}

pub open spec fn gone() -> Gz {
    (1, 0)
}

/// `u` is one of the four units `1, -1, i, -i`.
pub open spec fn is_unit_spec(u: Gz) -> bool {
    gnorm(u) == 1
}

/// `d` divides `z` in `Z[i]`.
pub open spec fn gdivides(d: Gz, z: Gz) -> bool {
    exists|q: Gz| #[trigger] gmul(d, q) == z
}

/// `a` and `b` differ by a unit factor.
pub open spec fn associated(a: Gz, b: Gz) -> bool {
    exists|u: Gz| is_unit_spec(u) && #[trigger] gmul(u, a) == b
}

/// The four unit multiples `[z, -z, i*z, -i*z]`, in this order.
pub open spec fn associates_seq(z: Gz) -> Seq<Gz> {
    seq![z, gneg(z), gtimes_i(z), gneg(gtimes_i(z))]
}

pub open spec fn fits_i64(x: int) -> bool {
    i64::MIN <= x <= i64::MAX
}

pub open spec fn representable(a: Gz) -> bool {
    fits_i64(a.0) && fits_i64(a.1)
}

/// The sector `re > 0, im >= 0` that holds exactly one associate of each nonzero value.
pub open spec fn is_canonical_spec(a: Gz) -> bool {
    a.0 > 0 && a.1 >= 0
}

/// The canonical associate: the unit multiple in the sector `re > 0, im >= 0`;
/// zero for zero.
pub open spec fn canonical_spec(a: Gz) -> Gz {
    if a.0 > 0 && a.1 >= 0 {
        a
    } else if a.0 <= 0 && a.1 > 0 {
        gneg(gtimes_i(a))
    } else if a.0 < 0 && a.1 <= 0 {
        gneg(a)
    } else if a.0 >= 0 && a.1 < 0 {
        gtimes_i(a)
    } else {
        a
    }
}

// ---------------------------------------------------------------------------
// Ring laws
// ---------------------------------------------------------------------------

pub proof fn lemma_mul_comm(a: Gz, b: Gz)
    ensures
        gmul(a, b) == gmul(b, a),
{
    assert(a.0 * b.0 == b.0 * a.0 && a.1 * b.1 == b.1 * a.1) by (nonlinear_arith);
    assert(a.0 * b.1 == b.1 * a.0 && a.1 * b.0 == b.0 * a.1) by (nonlinear_arith);
}

pub proof fn lemma_mul_assoc(a: Gz, b: Gz, c: Gz)
    ensures
        gmul(gmul(a, b), c) == gmul(a, gmul(b, c)),
{
    let (a0, a1, b0, b1, c0, c1) = (a.0, a.1, b.0, b.1, c.0, c.1);
    assert((a0 * b0 - a1 * b1) * c0 == a0 * b0 * c0 - a1 * b1 * c0) by (nonlinear_arith);
    assert((a0 * b1 + a1 * b0) * c1 == a0 * b1 * c1 + a1 * b0 * c1) by (nonlinear_arith);
    assert((a0 * b0 - a1 * b1) * c1 == a0 * b0 * c1 - a1 * b1 * c1) by (nonlinear_arith);
    assert((a0 * b1 + a1 * b0) * c0 == a0 * b1 * c0 + a1 * b0 * c0) by (nonlinear_arith);
    assert(a0 * (b0 * c0 - b1 * c1) == a0 * b0 * c0 - a0 * b1 * c1) by (nonlinear_arith);
    assert(a1 * (b0 * c1 + b1 * c0) == a1 * b0 * c1 + a1 * b1 * c0) by (nonlinear_arith);
    assert(a0 * (b0 * c1 + b1 * c0) == a0 * b0 * c1 + a0 * b1 * c0) by (nonlinear_arith);
    assert(a1 * (b0 * c0 - b1 * c1) == a1 * b0 * c0 - a1 * b1 * c1) by (nonlinear_arith);
}

pub proof fn lemma_mul_distrib_add(a: Gz, b: Gz, c: Gz)
    ensures
        gmul(a, gadd(b, c)) == gadd(gmul(a, b), gmul(a, c)),
{
    let (a0, a1, b0, b1, c0, c1) = (a.0, a.1, b.0, b.1, c.0, c.1);
    assert(a0 * (b0 + c0) - a1 * (b1 + c1) == (a0 * b0 - a1 * b1) + (a0 * c0 - a1 * c1))
        by (nonlinear_arith);
    assert(a0 * (b1 + c1) + a1 * (b0 + c0) == (a0 * b1 + a1 * b0) + (a0 * c1 + a1 * c0))
        by (nonlinear_arith);
}

pub proof fn lemma_mul_distrib_sub(a: Gz, b: Gz, c: Gz)
    ensures
        gmul(a, gsub(b, c)) == gsub(gmul(a, b), gmul(a, c)),
{
    let (a0, a1, b0, b1, c0, c1) = (a.0, a.1, b.0, b.1, c.0, c.1);
    assert(a0 * (b0 - c0) - a1 * (b1 - c1) == (a0 * b0 - a1 * b1) - (a0 * c0 - a1 * c1))
        by (nonlinear_arith);
    assert(a0 * (b1 - c1) + a1 * (b0 - c0) == (a0 * b1 + a1 * b0) - (a0 * c1 + a1 * c0))
        by (nonlinear_arith);
}

pub proof fn lemma_mul_one(a: Gz)
    ensures
        gmul(a, gone()) == a,
        gmul(gone(), a) == a,
{
}

pub proof fn lemma_mul_zero(a: Gz)
    ensures
        gmul(a, gzero()) == gzero(),
        gmul(gzero(), a) == gzero(),
{
}

pub proof fn lemma_norm_nonneg(a: Gz)
    ensures
        gnorm(a) >= 0,
        gnorm(a) == 0 <==> a == gzero(),
        a.0 * a.0 <= gnorm(a),
        a.1 * a.1 <= gnorm(a),
{
    assert(a.0 * a.0 >= 0) by (nonlinear_arith);
    assert(a.1 * a.1 >= 0) by (nonlinear_arith);
    if gnorm(a) == 0 {
        assert(a.0 == 0) by (nonlinear_arith)
            requires
                a.0 * a.0 + a.1 * a.1 == 0,
                a.1 * a.1 >= 0,
        ;
        assert(a.1 == 0) by (nonlinear_arith)
            requires
                a.0 * a.0 + a.1 * a.1 == 0,
                a.0 * a.0 >= 0,
        ;
    }
}

/// The norm is multiplicative: `N(a*b) = N(a) * N(b)`.
pub proof fn lemma_norm_mul(a: Gz, b: Gz)
    ensures
        gnorm(gmul(a, b)) == gnorm(a) * gnorm(b),
{
    let (a0, a1, b0, b1) = (a.0, a.1, b.0, b.1);
    let (x, y, z, w) = (a0 * b0, a1 * b1, a0 * b1, a1 * b0);
    assert((x - y) * (x - y) == x * x - 2 * (x * y) + y * y) by (nonlinear_arith);
    assert((z + w) * (z + w) == z * z + 2 * (z * w) + w * w) by (nonlinear_arith);
    assert(x * y == z * w) by (nonlinear_arith)
        requires
            x == a0 * b0,
            y == a1 * b1,
            z == a0 * b1,
            w == a1 * b0,
    ;
    assert(x * x == (a0 * a0) * (b0 * b0)) by (nonlinear_arith)
        requires
            x == a0 * b0,
    ;
    assert(y * y == (a1 * a1) * (b1 * b1)) by (nonlinear_arith)
        requires
            y == a1 * b1,
    ;
    assert(z * z == (a0 * a0) * (b1 * b1)) by (nonlinear_arith)
        requires
            z == a0 * b1,
    ;
    assert(w * w == (a1 * a1) * (b0 * b0)) by (nonlinear_arith)
        requires
            w == a1 * b0,
    ;
    let (p, q, r, t) = (a0 * a0, a1 * a1, b0 * b0, b1 * b1);
    assert((p + q) * (r + t) == p * r + p * t + q * r + q * t) by (nonlinear_arith);
}

/// `a * conj(a) = N(a)`.
pub proof fn lemma_mul_conj(a: Gz)
    ensures
        gmul(a, gconj(a)) == gz(gnorm(a), 0),
        gnorm(gconj(a)) == gnorm(a),
{
    assert(a.0 * (-a.1) + a.1 * a.0 == 0) by (nonlinear_arith);
    assert(a.0 * a.0 - a.1 * (-a.1) == a.0 * a.0 + a.1 * a.1) by (nonlinear_arith);
    assert((-a.1) * (-a.1) == a.1 * a.1) by (nonlinear_arith);
}

/// Multiplying by an integer scalar `(k, 0)` scales both coordinates.
pub proof fn lemma_mul_scalar(k: int, a: Gz)
    ensures
        gmul(gz(k, 0), a) == gz(k * a.0, k * a.1),
        gmul(a, gz(k, 0)) == gz(k * a.0, k * a.1),
{
    assert(a.0 * k == k * a.0 && a.1 * k == k * a.1) by (nonlinear_arith);
}

pub proof fn lemma_neg_is_mul(a: Gz)
    ensures
        gneg(a) == gmul(gz(-1, 0), a),
        gtimes_i(a) == gmul(gz(0, 1), a),
        gneg(gtimes_i(a)) == gmul(gz(0, -1), a),
{
}

// ---------------------------------------------------------------------------
// Units and associates
// ---------------------------------------------------------------------------

/// The units are exactly `1, -1, i, -i`.
pub proof fn lemma_unit_cases(u: Gz)
    ensures
        is_unit_spec(u) <==> (u == gz(1, 0) || u == gz(-1, 0) || u == gz(0, 1) || u == gz(0, -1)),
{
    if is_unit_spec(u) {
        lemma_norm_nonneg(u);
        assert(-1 <= u.0 <= 1) by (nonlinear_arith)
            requires
                u.0 * u.0 <= 1,
        ;
        assert(-1 <= u.1 <= 1) by (nonlinear_arith)
            requires
                u.1 * u.1 <= 1,
        ;
        assert(u == gz(1, 0) || u == gz(-1, 0) || u == gz(0, 1) || u == gz(0, -1))
            by (nonlinear_arith)
            requires
                u.0 * u.0 + u.1 * u.1 == 1,
                -1 <= u.0 <= 1,
                -1 <= u.1 <= 1,
        ;
    }
    if u == gz(1, 0) || u == gz(-1, 0) || u == gz(0, 1) || u == gz(0, -1) {
        assert(is_unit_spec(u)) by (nonlinear_arith)
            requires
                u == gz(1, 0) || u == gz(-1, 0) || u == gz(0, 1) || u == gz(0, -1),
        ;
    }
}

/// A factor of a unit is a unit.
pub proof fn lemma_unit_factor(a: Gz, b: Gz)
    requires
        is_unit_spec(gmul(a, b)),
    ensures
        is_unit_spec(a),
        is_unit_spec(b),
{
    lemma_norm_mul(a, b);
    lemma_norm_nonneg(a);
    lemma_norm_nonneg(b);
    let (na, nb) = (gnorm(a), gnorm(b));
    assert(na == 1 && nb == 1) by (nonlinear_arith)
        requires
            na * nb == 1,
            na >= 0,
            nb >= 0,
    ;
}

pub proof fn lemma_unit_mul(a: Gz, b: Gz)
    requires
        is_unit_spec(a),
        is_unit_spec(b),
    ensures
        is_unit_spec(gmul(a, b)),
{
    lemma_norm_mul(a, b);
    assert(gnorm(a) * gnorm(b) == 1);
}

/// Every unit has an inverse unit.
pub proof fn lemma_unit_inverse(u: Gz)
    requires
        is_unit_spec(u),
    ensures
        is_unit_spec(gconj(u)),
        gmul(u, gconj(u)) == gone(),
        gmul(gconj(u), u) == gone(),
{
    lemma_mul_conj(u);
    lemma_mul_comm(u, gconj(u));
}

/// The associates enumerated in order are the four unit multiples.
pub proof fn lemma_associates_seq(z: Gz, w: Gz)
    ensures
        associated(z, w) <==> associates_seq(z).contains(w),
{
    let s = associates_seq(z);
    if associated(z, w) {
        let u = choose|u: Gz| is_unit_spec(u) && #[trigger] gmul(u, z) == w;
        lemma_unit_cases(u);
        lemma_neg_is_mul(z);
        lemma_mul_one(z);
        if u == gz(1, 0) {
            assert(s[0] == w);
        } else if u == gz(-1, 0) {
            assert(s[1] == w);
        } else if u == gz(0, 1) {
            assert(s[2] == w);
        } else {
            assert(s[3] == w);
        }
    }
    if s.contains(w) {
        let k = choose|k: int| 0 <= k < s.len() && s[k] == w;
        lemma_neg_is_mul(z);
        lemma_mul_one(z);
        if k == 0 {
            assert(is_unit_spec(gz(1, 0)) && gmul(gz(1, 0), z) == w);
        } else if k == 1 {
            assert(is_unit_spec(gz(-1, 0)) && gmul(gz(-1, 0), z) == w);
        } else if k == 2 {
            assert(is_unit_spec(gz(0, 1)) && gmul(gz(0, 1), z) == w);
        } else {
            assert(is_unit_spec(gz(0, -1)) && gmul(gz(0, -1), z) == w);
        }
    }
}

/// The canonical associate of a nonzero value is its unique associate in the
/// canonical sector; zero is its own canonical associate.
pub proof fn lemma_canonical_spec(a: Gz)
    ensures
        associated(a, canonical_spec(a)),
        a != gzero() ==> is_canonical_spec(canonical_spec(a)),
        a == gzero() ==> canonical_spec(a) == gzero(),
        gnorm(canonical_spec(a)) == gnorm(a),
        is_canonical_spec(a) ==> canonical_spec(a) == a,
{
    let c = canonical_spec(a);
    lemma_neg_is_mul(a);
    lemma_mul_one(a);
    if a.0 > 0 && a.1 >= 0 {
        assert(is_unit_spec(gz(1, 0)) && gmul(gz(1, 0), a) == c);
    } else if a.0 <= 0 && a.1 > 0 {
        assert(is_unit_spec(gz(0, -1)) && gmul(gz(0, -1), a) == c);
    } else if a.0 < 0 && a.1 <= 0 {
        assert(is_unit_spec(gz(-1, 0)) && gmul(gz(-1, 0), a) == c);
    } else if a.0 >= 0 && a.1 < 0 {
        assert(is_unit_spec(gz(0, 1)) && gmul(gz(0, 1), a) == c);
    } else {
        assert(is_unit_spec(gz(1, 0)) && gmul(gz(1, 0), a) == c);
    }
    assert((-a.0) * (-a.0) == a.0 * a.0 && (-a.1) * (-a.1) == a.1 * a.1) by (nonlinear_arith);
}

/// Two canonical associates of each other are equal.
pub proof fn lemma_canonical_associates_equal(a: Gz, b: Gz)
    requires
        associated(a, b),
        is_canonical_spec(a),
        is_canonical_spec(b),
    ensures
        a == b,
{
    let u = choose|u: Gz| is_unit_spec(u) && #[trigger] gmul(u, a) == b;
    lemma_unit_cases(u);
}

/// Association is symmetric and transitive.
pub proof fn lemma_associated_symm(a: Gz, b: Gz)
    requires
        associated(a, b),
    ensures
        associated(b, a),
{
    let u = choose|u: Gz| is_unit_spec(u) && #[trigger] gmul(u, a) == b;
    lemma_unit_inverse(u);
    lemma_mul_assoc(gconj(u), u, a);
    lemma_mul_one(a);
    assert(is_unit_spec(gconj(u)) && gmul(gconj(u), b) == a);
}

pub proof fn lemma_associated_trans(a: Gz, b: Gz, c: Gz)
    requires
        associated(a, b),
        associated(b, c),
    ensures
        associated(a, c),
{
    let u = choose|u: Gz| is_unit_spec(u) && #[trigger] gmul(u, a) == b;
    let v = choose|v: Gz| is_unit_spec(v) && #[trigger] gmul(v, b) == c;
    lemma_mul_assoc(v, u, a);
    lemma_unit_mul(v, u);
    assert(is_unit_spec(gmul(v, u)) && gmul(gmul(v, u), a) == c);
}

/// Associates share their canonical associate.
pub proof fn lemma_canonical_of_associate(a: Gz, b: Gz)
    requires
        associated(a, b),
    ensures
        canonical_spec(a) == canonical_spec(b),
{
    lemma_canonical_spec(a);
    lemma_canonical_spec(b);
    if a == gzero() {
        let u = choose|u: Gz| is_unit_spec(u) && #[trigger] gmul(u, a) == b;
        lemma_mul_zero(u);
    } else {
        let u = choose|u: Gz| is_unit_spec(u) && #[trigger] gmul(u, a) == b;
        lemma_norm_mul(u, a);
        lemma_norm_nonneg(a);
        lemma_norm_nonneg(b);
        lemma_associated_symm(a, canonical_spec(a));
        lemma_associated_trans(canonical_spec(a), a, b);
        lemma_associated_trans(canonical_spec(a), b, canonical_spec(b));
        lemma_canonical_associates_equal(canonical_spec(a), canonical_spec(b));
    }
}

// ---------------------------------------------------------------------------
// Divisibility
// ---------------------------------------------------------------------------

pub proof fn lemma_divides_refl(a: Gz)
    ensures
        gdivides(a, a),
        gdivides(a, gzero()),
        gdivides(gone(), a),
{
    lemma_mul_one(a);
    lemma_mul_zero(a);
    assert(gmul(a, gone()) == a);
    assert(gmul(a, gzero()) == gzero());
    assert(gmul(gone(), a) == a);
}

pub proof fn lemma_divides_trans(a: Gz, b: Gz, c: Gz)
    requires
        gdivides(a, b),
        gdivides(b, c),
    ensures
        gdivides(a, c),
{
    let p = choose|q: Gz| #[trigger] gmul(a, q) == b;
    let q = choose|q: Gz| #[trigger] gmul(b, q) == c;
    lemma_mul_assoc(a, p, q);
    assert(gmul(a, gmul(p, q)) == c);
}

pub proof fn lemma_divides_mul_right(a: Gz, b: Gz, c: Gz)
    requires
        gdivides(a, b),
    ensures
        gdivides(a, gmul(b, c)),
        gdivides(a, gmul(c, b)),
{
    let p = choose|q: Gz| #[trigger] gmul(a, q) == b;
    lemma_mul_assoc(a, p, c);
    assert(gmul(a, gmul(p, c)) == gmul(b, c));
    lemma_mul_comm(b, c);
}

pub proof fn lemma_divides_of_mul(a: Gz, b: Gz)
    ensures
        gdivides(a, gmul(a, b)),
        gdivides(b, gmul(a, b)),
{
    lemma_mul_comm(a, b);
}

pub proof fn lemma_divides_add(d: Gz, a: Gz, b: Gz)
    requires
        gdivides(d, a),
        gdivides(d, b),
    ensures
        gdivides(d, gadd(a, b)),
        gdivides(d, gsub(a, b)),
{
    let p = choose|q: Gz| #[trigger] gmul(d, q) == a;
    let q = choose|q: Gz| #[trigger] gmul(d, q) == b;
    lemma_mul_distrib_add(d, p, q);
    lemma_mul_distrib_sub(d, p, q);
    assert(gmul(d, gadd(p, q)) == gadd(a, b));
    assert(gmul(d, gsub(p, q)) == gsub(a, b));
}

/// A divisor of a nonzero value has norm at most that value's norm, and the
/// norm of a divisor divides the norm.
pub proof fn lemma_divides_norm(d: Gz, z: Gz)
    requires
        gdivides(d, z),
        z != gzero(),
    ensures
        gnorm(d) <= gnorm(z),
        gnorm(d) >= 1,
        gnorm(z) % gnorm(d) == 0,
{
    let q = choose|q: Gz| #[trigger] gmul(d, q) == z;
    lemma_norm_mul(d, q);
    lemma_norm_nonneg(d);
    lemma_norm_nonneg(q);
    lemma_norm_nonneg(z);
    if q == gzero() {
        lemma_mul_zero(d);
    }
    if d == gzero() {
        lemma_mul_zero(q);
    }
    let (nd, nq) = (gnorm(d), gnorm(q));
    assert(nd <= nd * nq) by (nonlinear_arith)
        requires
            nd >= 0,
            nq >= 1,
    ;
    vstd::arithmetic::div_mod::lemma_mod_multiples_basic(nq, nd);
    assert(nq * nd == nd * nq) by (nonlinear_arith);
}

/// A divisor of a unit is a unit.
pub proof fn lemma_divides_unit(d: Gz, u: Gz)
    requires
        gdivides(d, u),
        is_unit_spec(u),
    ensures
        is_unit_spec(d),
{
    let q = choose|q: Gz| #[trigger] gmul(d, q) == u;
    lemma_unit_factor(d, q);
}

/// Units divide everything.
pub proof fn lemma_unit_divides(u: Gz, z: Gz)
    requires
        is_unit_spec(u),
    ensures
        gdivides(u, z),
{
    lemma_unit_inverse(u);
    lemma_mul_assoc(u, gconj(u), z);
    lemma_mul_one(z);
    assert(gmul(u, gmul(gconj(u), z)) == z);
}

/// An associate divides and is divided by the value.
pub proof fn lemma_associated_divides(a: Gz, b: Gz)
    requires
        associated(a, b),
    ensures
        gdivides(a, b),
        gdivides(b, a),
{
    let u = choose|u: Gz| is_unit_spec(u) && #[trigger] gmul(u, a) == b;
    lemma_divides_of_mul(u, a);
    lemma_associated_symm(a, b);
    let v = choose|v: Gz| is_unit_spec(v) && #[trigger] gmul(v, b) == a;
    lemma_divides_of_mul(v, b);
}

/// Two nonzero values that divide each other are associates.
pub proof fn lemma_mutual_divides_associated(a: Gz, b: Gz)
    requires
        gdivides(a, b),
        gdivides(b, a),
        a != gzero(),
    ensures
        associated(a, b),
{
    let p = choose|q: Gz| #[trigger] gmul(a, q) == b;
    let q = choose|q: Gz| #[trigger] gmul(b, q) == a;
    if b == gzero() {
        lemma_mul_zero(q);
        assert(false);
    }
    lemma_divides_norm(a, b);
    lemma_divides_norm(b, a);
    lemma_norm_mul(a, p);
    lemma_norm_nonneg(p);
    let (na, np) = (gnorm(a), gnorm(p));
    assert(np == 1) by (nonlinear_arith)
        requires
            na * np == na,
            na >= 1,
    ;
    lemma_mul_comm(a, p);
    assert(is_unit_spec(p) && gmul(p, a) == b);
}

/// A divisor with the same norm as a nonzero value is an associate of it.
pub proof fn lemma_divisor_same_norm(d: Gz, z: Gz)
    requires
        gdivides(d, z),
        z != gzero(),
        gnorm(d) == gnorm(z),
    ensures
        associated(d, z),
{
    let q = choose|q: Gz| #[trigger] gmul(d, q) == z;
    lemma_norm_mul(d, q);
    lemma_divides_norm(d, z);
    let (nd, nq) = (gnorm(d), gnorm(q));
    assert(nq == 1) by (nonlinear_arith)
        requires
            nd * nq == nd,
            nd >= 1,
    ;
    lemma_mul_comm(d, q);
    assert(is_unit_spec(q) && gmul(q, d) == z);
}

} // verus!
