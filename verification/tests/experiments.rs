use gaussian_integers::{
    factor, format_factorization, format_support, parse_command, parse_i64, prime_support,
    window_census, Command, GaussianError, GaussianInt, PrimeClass, MAX_WINDOW_RADIUS,
};

fn g(re: i64, im: i64) -> GaussianInt {
    GaussianInt::new(re, im)
}

fn args(list: &[&str]) -> Vec<String> {
    list.iter().map(|s| s.to_string()).collect()
}

#[test]
fn gaussian_text_covers_every_shape() {
    let cases = [
        (g(0, 0), "0"),
        (g(7, 0), "7"),
        (g(-7, 0), "-7"),
        (g(0, 1), "i"),
        (g(0, -1), "-i"),
        (g(0, 3), "3i"),
        (g(0, -3), "-3i"),
        (g(2, 1), "2+i"),
        (g(2, -1), "2-i"),
        (g(2, 3), "2+3i"),
        (g(-2, -3), "-2-3i"),
        (g(i64::MIN, i64::MAX), "-9223372036854775808+9223372036854775807i"),
    ];
    for (z, text) in cases {
        assert_eq!(z.to_text(), text);
    }
    let class = PrimeClass::new(g(-1, -1)).unwrap();
    assert_eq!(class.to_text(), "[1+i]");
}

#[test]
fn factorization_text_lists_unit_then_prime_powers() {
    assert_eq!(
        format_factorization(&factor(g(65, 0)).unwrap()),
        "-1 * (1+2i) * (2+i) * (2+3i) * (3+2i)"
    );
    assert_eq!(format_factorization(&factor(g(2, 0)).unwrap()), "-i * (1+i)^2");
    assert_eq!(format_factorization(&factor(g(8, 0)).unwrap()), "i * (1+i)^6");
    assert_eq!(format_factorization(&factor(g(0, -1)).unwrap()), "-i");
    assert_eq!(format_factorization(&factor(g(3, 0)).unwrap()), "1 * (3)");
}

#[test]
fn support_text_lists_classes_in_increasing_order() {
    assert_eq!(format_support(&prime_support(g(6, 0)).unwrap()), "{[1+i], [3]}");
    assert_eq!(format_support(&prime_support(g(5, 0)).unwrap()), "{[1+2i], [2+i]}");
    assert_eq!(
        format_support(&prime_support(g(65, 0)).unwrap()),
        "{[1+2i], [2+i], [2+3i], [3+2i]}"
    );
    assert_eq!(format_support(&prime_support(g(0, 1)).unwrap()), "{}");
}

#[test]
fn error_messages_describe_each_variant() {
    assert_eq!(
        GaussianError::ArithmeticOverflow { operation: "addition" }.message(),
        "Gaussian integer overflow during addition"
    );
    assert_eq!(GaussianError::DivisionByZero.message(), "division by zero Gaussian integer");
    assert_eq!(
        GaussianError::ZeroOutsideTopology.message(),
        "zero is outside the coprimality space Z[i] \\ {0}"
    );
    assert_eq!(
        GaussianError::FactorizationLimitExceeded { norm: 1_000_000_001, max_norm: 1_000_000_000 }
            .message(),
        "norm 1000000001 exceeds the exact factorization limit 1000000000"
    );
    assert_eq!(
        GaussianError::NotGaussianPrime { value: g(5, 0) }.message(),
        "5 is not a Gaussian prime in the supported range"
    );
}

#[test]
fn parse_i64_reads_signed_decimal_numerals() {
    let accepted = [
        ("42", 42),
        ("-42", -42),
        ("+42", 42),
        ("0", 0),
        ("-0", 0),
        ("007", 7),
        ("9223372036854775807", i64::MAX),
        ("-9223372036854775808", i64::MIN),
    ];
    for (text, value) in accepted {
        assert_eq!(parse_i64(text), Some(value), "{text}");
    }
    let rejected = [
        "",
        "-",
        "+",
        "4a",
        " 4",
        "4 ",
        "1.0",
        "--1",
        "9223372036854775808",
        "-9223372036854775809",
        "99999999999999999999999999999999999999999",
    ];
    for text in rejected {
        assert_eq!(parse_i64(text), None, "{text}");
    }
}

#[test]
fn parse_i64_reads_back_integer_text() {
    for x in [0, 1, -1, 9, 10, -10, 12345, i64::MAX, i64::MIN] {
        assert_eq!(parse_i64(&g(x, 0).to_text()), Some(x));
    }
}

#[test]
fn window_census_of_radius_two_lists_quotient_points() {
    let census = window_census(2, g(1, 1)).unwrap();
    assert_eq!(census.points, 24);
    assert_eq!(census.members, 12);
    let rows: Vec<(String, u64)> = census
        .classes
        .iter()
        .map(|class| (format_support(&class.support), class.count))
        .collect();
    assert_eq!(
        rows,
        vec![
            ("{}".to_string(), 4),
            ("{[1+i]}".to_string(), 12),
            ("{[1+2i]}".to_string(), 4),
            ("{[2+i]}".to_string(), 4),
        ]
    );
}

#[test]
fn window_census_of_radius_three() {
    let census = window_census(3, g(1, 1)).unwrap();
    assert_eq!(census.points, 48);
    assert_eq!(census.members, 24);
    assert_eq!(census.classes.len(), 10);
    let total: u64 = census.classes.iter().map(|class| class.count).sum();
    assert_eq!(total, census.points);
}

#[test]
fn window_holds_every_nonzero_point_of_the_square() {
    for radius in 0..=6 {
        let census = window_census(radius, g(1, 0)).unwrap();
        let side = (2 * radius + 1) as u64;
        assert_eq!(census.points, side * side - 1);
        // every point is coprime to a unit
        assert_eq!(census.members, census.points);
    }
    let census = window_census(0, g(3, 4)).unwrap();
    assert_eq!(census.points, 0);
    assert_eq!(census.members, 0);
    assert!(census.classes.is_empty());
    let census = window_census(MAX_WINDOW_RADIUS, g(1, 1)).unwrap();
    assert_eq!(census.points, 201 * 201 - 1);
}

#[test]
fn window_rejects_a_zero_index() {
    assert!(matches!(window_census(2, g(0, 0)), Err(GaussianError::ZeroOutsideTopology)));
}

#[test]
fn parse_command_recognises_help() {
    assert_eq!(parse_command(&args(&[])), Ok(Command::Help));
    for word in ["help", "--help", "-h"] {
        assert_eq!(parse_command(&args(&[word])), Ok(Command::Help));
    }
    assert_eq!(
        parse_command(&args(&["--help", "extra"])),
        Err("invalid arguments\nusage: gip-cli --help".to_string())
    );
}

#[test]
fn parse_command_reads_coordinates() {
    assert_eq!(
        parse_command(&args(&["gcd", "91", "23", "26", "-7"])),
        Ok(Command::Gcd { left: g(91, 23), right: g(26, -7) })
    );
    assert_eq!(
        parse_command(&args(&["factor", "65", "0"])),
        Ok(Command::Factor { value: g(65, 0) })
    );
    assert_eq!(
        parse_command(&args(&["support", "6", "0"])),
        Ok(Command::Support { value: g(6, 0) })
    );
    assert_eq!(
        parse_command(&args(&["coprime", "1", "2", "3", "4"])),
        Ok(Command::Coprime { left: g(1, 2), right: g(3, 4) })
    );
    assert_eq!(
        parse_command(&args(&["basic-open", "1", "1", "4", "3"])),
        Ok(Command::BasicOpen { index: g(1, 1), point: g(4, 3) })
    );
    assert_eq!(
        parse_command(&args(&["indistinguishable", "2", "0", "1", "1"])),
        Ok(Command::Indistinguishable { left: g(2, 0), right: g(1, 1) })
    );
    assert_eq!(
        parse_command(&args(&["specializes", "1", "1", "3", "3"])),
        Ok(Command::Specializes { source: g(1, 1), target: g(3, 3) })
    );
    assert_eq!(
        parse_command(&args(&["quotient-open", "6", "0", "5", "0"])),
        Ok(Command::QuotientOpen { point: g(6, 0), forbidden: g(5, 0) })
    );
    assert_eq!(
        parse_command(&args(&["window", "2", "1", "1"])),
        Ok(Command::Window { radius: 2, index: g(1, 1), show_classes: false })
    );
    assert_eq!(
        parse_command(&args(&["window", "2", "1", "1", "--classes"])),
        Ok(Command::Window { radius: 2, index: g(1, 1), show_classes: true })
    );
}

#[test]
fn parse_command_explains_malformed_arguments() {
    assert_eq!(
        parse_command(&args(&["factor", "2"])),
        Err("invalid arguments\nusage: gip-cli factor RE IM".to_string())
    );
    assert_eq!(
        parse_command(&args(&["factor", "x", "0"])),
        Err("invalid value real coordinate 'x': expected a signed 64-bit integer".to_string())
    );
    assert_eq!(
        parse_command(&args(&["quotient-open", "6", "0", "5", "y"])),
        Err(
            "invalid forbidden index imaginary coordinate 'y': expected a signed 64-bit integer"
                .to_string()
        )
    );
    assert_eq!(
        parse_command(&args(&["window", "101", "1", "1"])),
        Err("radius must be between 0 and 100".to_string())
    );
    assert_eq!(
        parse_command(&args(&["window", "-1", "1", "1"])),
        Err("radius must be between 0 and 100".to_string())
    );
    assert_eq!(
        parse_command(&args(&["window", "r", "1", "1"])),
        Err("invalid radius 'r': expected a signed 64-bit integer".to_string())
    );
    assert_eq!(
        parse_command(&args(&["window", "2", "1", "1", "--other"])),
        Err("invalid arguments\nusage: gip-cli window RADIUS INDEX_RE INDEX_IM [--classes]"
            .to_string())
    );
    assert_eq!(
        parse_command(&args(&["frobnicate"])),
        Err("unknown command 'frobnicate' (run 'gip-cli --help')".to_string())
    );
}
