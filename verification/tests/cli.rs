use gaussian_integers::{help, run};

fn run_with(list: &[&str]) -> Result<String, String> {
    let args: Vec<String> = list.iter().map(|s| s.to_string()).collect();
    run(&args)
}

#[test]
fn factor_reports_unit_prime_powers_and_support() {
    let output = run_with(&["factor", "2", "0"]);
    assert_eq!(
        output.unwrap(),
        "value: 2\nnorm: 4\nunit: -i\nfactorization: -i * (1+i)^2\nsupport: {[1+i]}\n"
    );
}

#[test]
fn paper_relation_commands_are_explicit() {
    let output = run_with(&["indistinguishable", "2", "0", "1", "1"]);
    assert_eq!(
        output.unwrap(),
        "indistinguishable(2, 1+i): true\nsupport(2): {[1+i]}\nsupport(1+i): {[1+i]}\n"
    );

    let output = run_with(&["specializes", "1", "1", "3", "3"]);
    assert_eq!(
        output.unwrap(),
        "3+3i in closure({1+i}): true\nSupp(1+i) subset of Supp(3+3i): true\n"
    );
}

#[test]
fn quotient_open_and_window_are_deterministic() {
    let output = run_with(&["quotient-open", "6", "0", "5", "0"]);
    assert_eq!(
        output.unwrap(),
        "quotient point Supp(6): {[1+i], [3]}\nforbidden F = Supp(5): {[1+2i], [2+i]}\npoint in O_F: true\n"
    );

    let first = run_with(&["window", "2", "1", "1"]);
    let second = run_with(&["window", "2", "1", "1"]);
    assert_eq!(first, second);
    assert_eq!(
        first.unwrap(),
        "window: re,im in [-2,2], excluding 0\nindex: 1+i\npoints: 24\nsigma members: 12\nsigma nonmembers: 12\ndistinct quotient points: 4\n"
    );
}

#[test]
fn invalid_input_is_an_error_not_a_panic() {
    let error = run_with(&["factor", "0", "0"]).unwrap_err();
    assert!(error.contains("zero is outside"), "{error}");
}

#[test]
fn gcd_and_factor_reports() {
    assert_eq!(run_with(&["gcd", "91", "23", "26", "-7"]).unwrap(), "gcd(91+23i, 26-7i) = 2+i\n");
    assert_eq!(
        run_with(&["factor", "65", "0"]).unwrap(),
        "value: 65\nnorm: 4225\nunit: -1\nfactorization: -1 * (1+2i) * (2+i) * (2+3i) * (3+2i)\nsupport: {[1+2i], [2+i], [2+3i], [3+2i]}\n"
    );
    assert_eq!(run_with(&["support", "6", "0"]).unwrap(), "support(6): {[1+i], [3]}\n");
    assert_eq!(run_with(&["coprime", "2", "0", "1", "1"]).unwrap(), "coprime(2, 1+i): false\n");
}

#[test]
fn basic_open_of_one_plus_i_is_mixed_parity() {
    assert_eq!(run_with(&["basic-open", "1", "1", "4", "3"]).unwrap(), "4+3i in sigma_1+i: true\n");
    assert_eq!(
        run_with(&["basic-open", "1", "1", "4", "2"]).unwrap(),
        "4+2i in sigma_1+i: false\n"
    );
}

#[test]
fn window_lists_its_quotient_points_on_request() {
    assert_eq!(
        run_with(&["window", "3", "1", "1"]).unwrap(),
        "window: re,im in [-3,3], excluding 0\nindex: 1+i\npoints: 48\nsigma members: 24\nsigma nonmembers: 24\ndistinct quotient points: 10\n"
    );
    assert_eq!(
        run_with(&["window", "2", "1", "1", "--classes"]).unwrap(),
        "window: re,im in [-2,2], excluding 0\nindex: 1+i\npoints: 24\nsigma members: 12\nsigma nonmembers: 12\ndistinct quotient points: 4\nclasses:\n  {}: 4\n  {[1+i]}: 12\n  {[1+2i]}: 4\n  {[2+i]}: 4\n"
    );
}

#[test]
fn help_and_errors_are_reported_as_text() {
    assert_eq!(run_with(&[]).unwrap(), help());
    assert_eq!(run_with(&["-h"]).unwrap(), help());
    assert!(help().starts_with("Gaussian coprimality topology finite experiments\n\nUsage:\n"));
    assert_eq!(
        run_with(&["window", "2", "0", "0"]).unwrap_err(),
        "zero is outside the coprimality space Z[i] \\ {0}"
    );
    assert_eq!(
        run_with(&["support", "31623", "0"]).unwrap_err(),
        "norm 1000014129 exceeds the exact factorization limit 1000000000"
    );
    assert_eq!(
        run_with(&["gcd", "1", "2", "3"]).unwrap_err(),
        "invalid arguments\nusage: gip-cli gcd A_RE A_IM B_RE B_IM"
    );
}
