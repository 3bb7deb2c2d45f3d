//! Fermat's theorem on sums of two squares, by Zagier's involution argument: a
//! rational prime `p = 4k + 1` is `a^2 + b^2`.
use vstd::prelude::*;

use crate::primality::{is_rational_prime_spec, lemma_prime_divisor};

verus! {

pub type Triple = (int, int, int);

/// The positive solutions of `x^2 + 4yz = p`.
pub open spec fn zagier_set(p: int) -> Set<Triple> {
    Set::new(|t: Triple| t.0 > 0 && t.1 > 0 && t.2 > 0 && t.0 * t.0 + 4 * (t.1 * t.2) == p)
}

/// Zagier's involution on the solutions.
pub open spec fn zagier_map(t: Triple) -> Triple {
    let (x, y, z) = t;
    if x < y - z {
        (x + 2 * z, z, y - x - z)
    } else if x < 2 * y {
        (2 * y - x, y, x - y + z)
    } else {
        (x - 2 * y, x - y + z, y)
    }
}

/// The involution exchanging `y` and `z`.
pub open spec fn swap_map(t: Triple) -> Triple {
    (t.0, t.2, t.1)
}

pub open spec fn is_involution_on(s: Set<Triple>, f: spec_fn(Triple) -> Triple) -> bool {
    forall|t: Triple| s.contains(t) ==> s.contains(#[trigger] f(t)) && f(f(t)) == t
}

pub open spec fn fixed_points(s: Set<Triple>, f: spec_fn(Triple) -> Triple) -> Set<Triple> {
    s.filter(|t: Triple| f(t) == t)
}

/// An involution on a finite set has as many fixed points as elements, modulo two.
pub proof fn lemma_involution_parity(s: Set<Triple>, f: spec_fn(Triple) -> Triple)
    requires
        s.finite(),
        is_involution_on(s, f),
    ensures
        fixed_points(s, f).finite(),
        s.len() % 2 == fixed_points(s, f).len() % 2,
    decreases s.len(),
{
    s.lemma_len_filter(|t: Triple| f(t) == t);
    if s.len() == 0 {
        assert(fixed_points(s, f).len() == 0);
    } else {
        let x = s.choose();
        vstd::set_lib::lemma_set_empty_equivalency_len(s);
        assert(s.contains(x));
        if f(x) == x {
            let t = s.remove(x);
            assert forall|y: Triple| t.contains(y) implies t.contains(#[trigger] f(y)) && f(f(y))
                == y by {
                assert(s.contains(y));
                if f(y) == x {
                    assert(f(f(y)) == y);
                }
            }
            lemma_involution_parity(t, f);
            assert(fixed_points(t, f) =~= fixed_points(s, f).remove(x));
            assert(fixed_points(s, f).contains(x));
        } else {
            let t = s.remove(x).remove(f(x));
            assert forall|y: Triple| t.contains(y) implies t.contains(#[trigger] f(y)) && f(f(y))
                == y by {
                assert(s.contains(y));
                if f(y) == x {
                    assert(f(f(y)) == y);
                }
                if f(y) == f(x) {
                    assert(f(f(y)) == y);
                    assert(f(f(x)) == x);
                }
            }
            assert(s.remove(x).contains(f(x)));
            lemma_involution_parity(t, f);
            assert(fixed_points(t, f) =~= fixed_points(s, f)) by {
                assert(f(f(x)) == x);
            }
        }
    }
}

/// Coordinates of a triple below `m`, packed into one integer.
pub open spec fn encode(t: Triple, m: int) -> int {
    (t.0 * m + t.1) * m + t.2
}

pub open spec fn decode(n: int, m: int) -> Triple {
    (n / m / m, (n / m) % m, n % m)
}

proof fn lemma_decode_encode(t: Triple, m: int)
    requires
        m > 0,
        0 <= t.0 < m,
        0 <= t.1 < m,
        0 <= t.2 < m,
    ensures
        decode(encode(t, m), m) == t,
        0 <= encode(t, m) < m * m * m,
{
    let n = encode(t, m);
    let a = t.0 * m + t.1;
    vstd::arithmetic::div_mod::lemma_fundamental_div_mod_converse(n, m, a, t.2);
    vstd::arithmetic::div_mod::lemma_fundamental_div_mod_converse(a, m, t.0, t.1);
    assert(0 <= a < m * m) by (nonlinear_arith)
        requires
            a == t.0 * m + t.1,
            0 <= t.0 < m,
            0 <= t.1 < m,
    ;
    assert(0 <= n < m * m * m) by (nonlinear_arith)
        requires
            n == a * m + t.2,
            0 <= a < m * m,
            0 <= t.2 < m,
    ;
}

/// The solution set is finite.
pub proof fn lemma_zagier_set_finite(p: int)
    requires
        p >= 1,
    ensures
        zagier_set(p).finite(),
{
    let m = p + 1;
    let range = vstd::set_lib::set_int_range(0, m * m * m);
    assert(m * m * m >= 0) by (nonlinear_arith)
        requires
            m >= 1,
    ;
    vstd::set_lib::lemma_int_range(0, m * m * m);
    range.lemma_map_finite(|n: int| decode(n, m));
    assert forall|t: Triple| zagier_set(p).contains(t) implies range.map(
        |n: int| decode(n, m),
    ).contains(t) by {
        let (x, y, z) = t;
        assert(x <= x * x && y <= y * z && z <= y * z && x * x >= 0 && y * z >= 0)
            by (nonlinear_arith)
            requires
                x > 0,
                y > 0,
                z > 0,
        ;
        lemma_decode_encode(t, m);
        assert(range.contains(encode(t, m)));
    }
    vstd::set_lib::lemma_set_subset_finite(range.map(|n: int| decode(n, m)), zagier_set(p));
}

/// A prime is not a perfect square.
proof fn lemma_prime_not_square(p: int, s: int)
    requires
        is_rational_prime_spec(p),
        s >= 1,
    ensures
        s * s != p,
{
    if s * s == p {
        lemma_prime_divisor(p, s, s);
        if s == p {
            assert(p * p > p) by (nonlinear_arith)
                requires
                    p >= 2,
            ;
        }
    }
}

/// Zagier's map is an involution on the solutions of a prime `p = 4k + 1`.
pub proof fn lemma_zagier_involution(p: int)
    requires
        is_rational_prime_spec(p),
        p % 4 == 1,
    ensures
        is_involution_on(zagier_set(p), |t: Triple| zagier_map(t)),
{
    let s = zagier_set(p);
    assert forall|t: Triple| s.contains(t) implies s.contains(
        #[trigger] zagier_map(t),
    ) && zagier_map(zagier_map(t)) == t by {
        let (x, y, z) = t;
        // the boundary cases x = y - z and x = 2y do not occur for a prime
        if x == y - z {
            assert(x * x + 4 * (y * z) == (y + z) * (y + z)) by (nonlinear_arith)
                requires
                    x == y - z,
            ;
            lemma_prime_not_square(p, y + z);
        }
        if x == 2 * y {
            assert(x * x + 4 * (y * z) == 4 * (y * y + y * z)) by (nonlinear_arith)
                requires
                    x == 2 * y,
            ;
        }
        if x < y - z {
            assert((x + 2 * z) * (x + 2 * z) + 4 * (z * (y - x - z)) == x * x + 4 * (y * z))
                by (nonlinear_arith);
        } else if x < 2 * y {
            assert((2 * y - x) * (2 * y - x) + 4 * (y * (x - y + z)) == x * x + 4 * (y * z))
                by (nonlinear_arith);
        } else {
            assert((x - 2 * y) * (x - 2 * y) + 4 * ((x - y + z) * y) == x * x + 4 * (y * z))
                by (nonlinear_arith);
        }
    }
}

/// Zagier's map has exactly one fixed point, `(1, 1, k)` for `p = 4k + 1`.
pub proof fn lemma_zagier_fixed_points(p: int)
    requires
        is_rational_prime_spec(p),
        p % 4 == 1,
    ensures
        fixed_points(zagier_set(p), |t: Triple| zagier_map(t)) == set![(1int, 1int, (p - 1) / 4)],
{
    let s = zagier_set(p);
    let k = (p - 1) / 4;
    let fx = fixed_points(s, |t: Triple| zagier_map(t));
    assert forall|t: Triple| #[trigger] fx.contains(t) <==> t == (1int, 1int, k) by {
        let (x, y, z) = t;
        if fx.contains(t) {
            assert(zagier_map(t) == t);
            if x < y - z {
            } else if x < 2 * y {
                assert(x == y);
                assert(p == x * (x + 4 * z)) by (nonlinear_arith)
                    requires
                        x == y,
                        x * x + 4 * (y * z) == p,
                ;
                lemma_prime_divisor(p, x, x + 4 * z);
                if x == p {
                    assert(x * (x + 4 * z) > p) by (nonlinear_arith)
                        requires
                            x == p,
                            z > 0,
                            p >= 2,
                    ;
                }
                assert(x == 1);
                assert(y * z == z) by (nonlinear_arith)
                    requires
                        y == 1,
                ;
                assert(p == 1 + 4 * z);
                assert(z == k);
            } else {
            }
        }
        if t == (1int, 1int, k) {
            assert(1 * 1 + 4 * (1 * k) == p);
        }
    }
    assert(fx =~= set![(1int, 1int, k)]);
}

/// Fermat: a rational prime `p` with `p % 4 == 1` is a sum of two squares.
pub proof fn lemma_two_squares(p: int) -> (r: (int, int))
    requires
        is_rational_prime_spec(p),
        p % 4 == 1,
    ensures
        r.0 * r.0 + r.1 * r.1 == p,
        r.0 > 0,
        r.1 > 0,
{
    let s = zagier_set(p);
    lemma_zagier_set_finite(p);
    lemma_zagier_involution(p);
    lemma_involution_parity(s, |t: Triple| zagier_map(t));
    lemma_zagier_fixed_points(p);
    assert(set![(1int, 1int, (p - 1) / 4)].len() == 1);
    assert forall|t: Triple| s.contains(t) implies s.contains(#[trigger] swap_map(t))
        && swap_map(swap_map(t)) == t by {
        assert(t.0 * t.0 + 4 * (t.2 * t.1) == t.0 * t.0 + 4 * (t.1 * t.2)) by (nonlinear_arith);
    }
    assert(is_involution_on(s, |t: Triple| swap_map(t)));
    lemma_involution_parity(s, |t: Triple| swap_map(t));
    let fs = fixed_points(s, |t: Triple| swap_map(t));
    assert(fs.len() % 2 == 1);
    vstd::set_lib::lemma_set_empty_equivalency_len(fs);
    let t = fs.choose();
    assert(fs.contains(t));
    assert(t.1 == t.2);
    assert(t.0 * t.0 + (2 * t.1) * (2 * t.1) == p) by (nonlinear_arith)
        requires
            t.0 * t.0 + 4 * (t.1 * t.2) == p,
            t.1 == t.2,
    ;
    (t.0, 2 * t.1)
}

} // verus!
