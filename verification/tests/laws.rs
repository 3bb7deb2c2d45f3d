use gaussian_integers::{
    coprime, factor, in_closure_of, is_gaussian_prime, prime_support, sigma_contains,
    specializes_to, topologically_indistinguishable, GaussianError, GaussianInt, KolmogorovPoint,
    PrimeClass, QuotientBasicOpen, MAX_FACTOR_NORM,
};

fn g(re: i64, im: i64) -> GaussianInt {
    GaussianInt::new(re, im)
}

fn grid(radius: i64) -> Vec<GaussianInt> {
    let mut points = Vec::new();
    for re in -radius..=radius {
        for im in -radius..=radius {
            if re != 0 || im != 0 {
                points.push(g(re, im));
            }
        }
    }
    points
}

/// Irreducibility by brute force: no divisor with norm strictly between 1 and N(z).
fn irreducible_by_search(z: GaussianInt) -> bool {
    let n = z.norm();
    if n <= 1 {
        return false;
    }
    let bound = 12;
    for re in -bound..=bound {
        for im in -bound..=bound {
            let d = g(re, im);
            let m = d.norm();
            if m > 1 && m < n && d.divides(z).unwrap() {
                return false;
            }
        }
    }
    true
}

#[test]
fn euclidean_division_rounds_to_nearest_with_ties_away_from_zero() {
    assert_eq!(g(7, 3).div_rem(g(2, 1)).unwrap(), (g(3, 0), g(1, 0)));
    assert_eq!(g(1, 0).div_rem(g(2, 0)).unwrap(), (g(1, 0), g(-1, 0)));
    assert_eq!(g(-1, 0).div_rem(g(2, 0)).unwrap(), (g(-1, 0), g(1, 0)));
    assert_eq!(g(0, 1).div_rem(g(2, 0)).unwrap(), (g(0, 1), g(0, -1)));
}

#[test]
fn euclidean_remainder_has_at_most_half_the_divisor_norm() {
    for a in grid(6) {
        for b in grid(3) {
            let (q, r) = a.div_rem(b).unwrap();
            assert_eq!(b.checked_mul(q).unwrap().checked_add(r).unwrap(), a);
            assert!(2 * r.norm() <= b.norm(), "a={a:?} b={b:?}");
        }
    }
}

#[test]
fn gcd_is_a_canonical_common_divisor_divided_by_every_common_divisor() {
    let values = grid(4);
    for &a in values.iter().step_by(3) {
        for &b in values.iter().step_by(5) {
            let d = a.gcd(b).unwrap();
            assert!(d.divides(a).unwrap() && d.divides(b).unwrap());
            assert!(d.re > 0 && d.im >= 0);
            for &c in values.iter() {
                if c.divides(a).unwrap() && c.divides(b).unwrap() {
                    assert!(c.divides(d).unwrap(), "a={a:?} b={b:?} c={c:?}");
                }
            }
            assert_eq!(coprime(a, b).unwrap(), d.is_unit());
        }
    }
    assert_eq!(g(91, 23).gcd(g(26, -7)).unwrap(), g(2, 1));
}

#[test]
fn primality_test_recognises_exactly_the_irreducible_elements() {
    for z in grid(7) {
        assert_eq!(is_gaussian_prime(z).unwrap(), irreducible_by_search(z), "{z:?}");
    }
    assert!(!is_gaussian_prime(g(0, 0)).unwrap());
    assert!(is_gaussian_prime(g(0, 7)).unwrap());
    assert!(!is_gaussian_prime(g(0, 13)).unwrap());
    assert!(is_gaussian_prime(g(3, 8)).unwrap());
}

#[test]
fn associates_share_their_canonical_associate() {
    for z in grid(5) {
        let c = z.canonical_associate().unwrap();
        assert!(c.re > 0 && c.im >= 0);
        for a in z.checked_associates().unwrap() {
            assert_eq!(a.canonical_associate().unwrap(), c);
            assert!(a.is_associate_of(z).unwrap());
        }
    }
}

#[test]
fn support_is_the_set_of_canonical_primes_dividing_the_value() {
    let candidates: Vec<GaussianInt> = grid(8)
        .into_iter()
        .filter(|p| p.re > 0 && p.im >= 0 && is_gaussian_prime(*p).unwrap())
        .collect();
    for z in grid(6) {
        let support: Vec<GaussianInt> = prime_support(z)
            .unwrap()
            .iter()
            .map(|class| class.representative())
            .collect();
        let expected: Vec<GaussianInt> =
            candidates.iter().copied().filter(|p| p.divides(z).unwrap()).collect();
        let mut expected_sorted = expected.clone();
        expected_sorted.sort();
        assert_eq!(support, expected_sorted, "{z:?}");
        assert_eq!(factor(z).unwrap().support(), prime_support(z).unwrap());
    }
}

#[test]
fn basic_open_membership_is_support_disjointness() {
    let points = grid(3);
    for &alpha in &points {
        let a = prime_support(alpha).unwrap();
        for &beta in &points {
            let b = prime_support(beta).unwrap();
            let disjoint = a.iter().all(|class| !b.contains(class));
            assert_eq!(sigma_contains(alpha, beta).unwrap(), disjoint);
        }
    }
}

#[test]
fn indistinguishability_and_closure_follow_supports() {
    let points = grid(3);
    for &x in &points {
        let sx = prime_support(x).unwrap();
        for &y in &points {
            let sy = prime_support(y).unwrap();
            let same_opens = points
                .iter()
                .all(|&a| sigma_contains(a, x).unwrap() == sigma_contains(a, y).unwrap());
            assert_eq!(topologically_indistinguishable(x, y).unwrap(), sx == sy);
            assert_eq!(same_opens, sx == sy);
            let subset = sx.iter().all(|class| sy.contains(class));
            assert_eq!(specializes_to(x, y).unwrap(), subset);
            assert_eq!(in_closure_of(y, x).unwrap(), subset);
        }
    }
}

#[test]
fn quotient_points_are_finite_sets_of_classes() {
    let three = PrimeClass::new(g(0, 3)).unwrap();
    let one_plus_i = PrimeClass::new(g(1, -1)).unwrap();
    let point = KolmogorovPoint::new(vec![three, one_plus_i, three]);
    assert_eq!(point.support(), &prime_support(g(6, 0)).unwrap());
    assert_eq!(point.support(), KolmogorovPoint::from_gaussian(g(-6, 0)).unwrap().support());
    let empty = KolmogorovPoint::default();
    assert!(empty.support().is_empty());
    let open = QuotientBasicOpen::new(vec![three]);
    assert!(!open.contains(&point));
    assert!(open.contains(&empty));
    assert_eq!(open.forbidden(), &vec![three]);
    assert!(QuotientBasicOpen::default().contains(&point));
    assert_eq!(point.clone(), point);
}

#[test]
fn prime_classes_are_validated_and_canonical() {
    assert_eq!(PrimeClass::new(g(-2, 1)).unwrap().representative(), g(1, 2));
    assert_eq!(PrimeClass::new(g(0, -3)).unwrap().representative(), g(3, 0));
    assert_eq!(
        PrimeClass::new(g(5, 0)),
        Err(GaussianError::NotGaussianPrime { value: g(5, 0) })
    );
    assert_eq!(
        PrimeClass::new(g(1, 0)),
        Err(GaussianError::NotGaussianPrime { value: g(1, 0) })
    );
    assert_eq!(
        PrimeClass::new(g(40_000, 0)),
        Err(GaussianError::FactorizationLimitExceeded {
            norm: 1_600_000_000,
            max_norm: MAX_FACTOR_NORM
        })
    );
}

#[test]
fn factorization_of_a_product_of_powers() {
    let f = factor(g(-360, 0)).unwrap();
    assert_eq!(f.reconstruct().unwrap(), g(-360, 0));
    let powers: Vec<(GaussianInt, u32)> = f
        .factors()
        .iter()
        .map(|p| (p.prime().representative(), p.exponent()))
        .collect();
    assert_eq!(powers, vec![(g(1, 1), 6), (g(1, 2), 1), (g(2, 1), 1), (g(3, 0), 2)]);
    assert!(f.unit().is_unit());
    assert_eq!(f.clone(), f);
    let big = factor(g(31_622, 1)).unwrap();
    assert_eq!(big.reconstruct().unwrap(), g(31_622, 1));
}

fn overflow<T>(operation: &'static str) -> Result<T, GaussianError> {
    Err(GaussianError::ArithmeticOverflow { operation })
}

#[test]
fn every_error_variant_has_an_input() {
    assert_eq!(g(i64::MIN, 0).checked_neg(), overflow("negation"));
    assert_eq!(g(0, i64::MIN).checked_conjugate(), overflow("conjugation"));
    assert_eq!(g(i64::MAX, 0).checked_add(g(1, 0)), overflow("addition"));
    assert_eq!(g(i64::MIN, 0).checked_sub(g(1, 0)), overflow("subtraction"));
    assert_eq!(g(i64::MAX, 0).checked_mul(g(2, 0)), overflow("multiplication"));
    assert_eq!(g(i64::MIN, 0).canonical_associate(), overflow("canonical associate normalization"));
    assert_eq!(g(0, i64::MIN).checked_associates(), overflow("negation"));
    assert_eq!(
        g(i64::MIN, i64::MIN).div_rem(g(i64::MIN, i64::MIN)),
        overflow("division numerator")
    );
    assert_eq!(g(i64::MIN, 0).div_rem(g(-1, 0)), overflow("Euclidean division"));
    assert_eq!(g(i64::MIN, 0).checked_exact_div(g(-1, 0)), overflow("exact division"));
    assert_eq!(g(i64::MIN, 0).gcd(g(0, 0)), overflow("canonical associate normalization"));
    assert_eq!(g(1, 0).checked_exact_div(g(0, 0)), Err(GaussianError::DivisionByZero));
    assert_eq!(factor(g(0, 0)).unwrap_err(), GaussianError::ZeroOutsideTopology);
    assert_eq!(sigma_contains(g(1, 1), g(0, 0)), Err(GaussianError::ZeroOutsideTopology));
    assert_eq!(
        is_gaussian_prime(g(31_623, 0)),
        Err(GaussianError::FactorizationLimitExceeded {
            norm: 1_000_014_129,
            max_norm: MAX_FACTOR_NORM
        })
    );
}
