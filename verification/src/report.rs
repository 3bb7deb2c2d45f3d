//! The reports of the experiment tool: what each command computes and the text it
//! answers with.
use vstd::prelude::*;
use vstd::string::StringExecFns;

use crate::arithmetic::{GaussianError, GaussianInt};
use crate::command::{arg_views, command_in_range, parse_command, parse_command_spec, Command};
use crate::divisors::{prime_divisors, primes_of};
use crate::factor::{class_views, factor, factorization_of, is_support_of, prime_support};
use crate::gcd::gcd_spec;
use crate::ring::{gnorm, gzero, is_unit_spec, Gz};
use crate::text::{
    concat_texts, decimal_text, error_text, factorization_text, format_factorization, format_support,
    gaussian_text, push_decimal, support_text,
};
use crate::topology::{
    coprime, sigma_contains, specializes_to, support_error, topologically_indistinguishable,
    KolmogorovPoint, QuotientBasicOpen,
};
use crate::window::{
    class_key, first_gcd_error, is_census_of, window_census, window_square, WindowCensus,
    WindowClass, MAX_WINDOW_RADIUS,
};

use crate::divisors::{lemma_sorted_set_eq, lemma_support_listing_unique, support_set};
use crate::gcd::{
    coprime_spec, is_normalized_gcd, lemma_coprime_iff_gcd_unit, lemma_gcd_spec_correct,
    lemma_normalized_gcd_unique,
};
use crate::uniqueness::lemma_factorization_unique;
use crate::topology::{
    lemma_closure_iff_support_inclusion, lemma_indistinguishable_iff_same_support,
    lemma_sigma_support_disjoint,
};
use crate::window::{
    count_where, in_basic_open, lemma_census_counts_distinct_supports,
    lemma_members_and_nonmembers, lemma_window_point_count, nonzero_point, outside_basic_open,
    supports_met, with_support, is_class_census,
};

verus! {

/// The usage summary of the experiment tool.
pub open spec fn help_text() -> Seq<char> {
    "Gaussian coprimality topology finite experiments

Usage:
  gip-cli gcd A_RE A_IM B_RE B_IM
  gip-cli factor RE IM
  gip-cli support RE IM
  gip-cli coprime A_RE A_IM B_RE B_IM
  gip-cli basic-open INDEX_RE INDEX_IM POINT_RE POINT_IM
  gip-cli indistinguishable A_RE A_IM B_RE B_IM
  gip-cli specializes SOURCE_RE SOURCE_IM TARGET_RE TARGET_IM
  gip-cli quotient-open POINT_RE POINT_IM FORBIDDEN_RE FORBIDDEN_IM
  gip-cli window RADIUS INDEX_RE INDEX_IM [--classes]

Coordinates are signed 64-bit decimal integers. Support-derived commands use the
library's documented finite norm range. Window radius is at most 100.
"@
}

pub open spec fn bool_text(b: bool) -> Seq<char> {
    if b {
        "true"@
    } else {
        "false"@
    }
}

pub open spec fn gcd_report(a: Gz, b: Gz, g: Gz) -> Seq<char> {
    "gcd("@ + gaussian_text(a) + ", "@ + gaussian_text(b) + ") = "@ + gaussian_text(g) + "\n"@
}

pub open spec fn factor_report(v: Gz, f: (Gz, Seq<(Gz, nat)>)) -> Seq<char> {
    "value: "@ + gaussian_text(v) + "\nnorm: "@ + decimal_text(gnorm(v) as nat) + "\nunit: "@
        + gaussian_text(f.0) + "\nfactorization: "@ + factorization_text(f) + "\nsupport: "@
        + support_text(primes_of(f.1)) + "\n"@
}

pub open spec fn support_report(v: Gz, s: Seq<Gz>) -> Seq<char> {
    "support("@ + gaussian_text(v) + "): "@ + support_text(s) + "\n"@
}

pub open spec fn coprime_report(a: Gz, b: Gz, c: bool) -> Seq<char> {
    "coprime("@ + gaussian_text(a) + ", "@ + gaussian_text(b) + "): "@ + bool_text(c) + "\n"@
}

pub open spec fn basic_open_report(index: Gz, point: Gz, member: bool) -> Seq<char> {
    gaussian_text(point) + " in sigma_"@ + gaussian_text(index) + ": "@ + bool_text(member)
        + "\n"@
}

pub open spec fn indistinguishable_report(
    a: Gz,
    b: Gz,
    same: bool,
    sa: Seq<Gz>,
    sb: Seq<Gz>,
) -> Seq<char> {
    "indistinguishable("@ + gaussian_text(a) + ", "@ + gaussian_text(b) + "): "@ + bool_text(same)
        + "\nsupport("@ + gaussian_text(a) + "): "@ + support_text(sa) + "\nsupport("@
        + gaussian_text(b) + "): "@ + support_text(sb) + "\n"@
}

pub open spec fn specializes_report(source: Gz, target: Gz, b: bool) -> Seq<char> {
    gaussian_text(target) + " in closure({"@ + gaussian_text(source) + "}): "@ + bool_text(b)
        + "\nSupp("@ + gaussian_text(source) + ") subset of Supp("@ + gaussian_text(target)
        + "): "@ + bool_text(b) + "\n"@
}

pub open spec fn quotient_open_report(
    point: Gz,
    forbidden: Gz,
    sp: Seq<Gz>,
    sf: Seq<Gz>,
    member: bool,
) -> Seq<char> {
    "quotient point Supp("@ + gaussian_text(point) + "): "@ + support_text(sp)
        + "\nforbidden F = Supp("@ + gaussian_text(forbidden) + "): "@ + support_text(sf)
        + "\npoint in O_F: "@ + bool_text(member) + "\n"@
}

/// The table of quotient points of a window census, one line each.
pub open spec fn classes_report(classes: Seq<WindowClass>) -> Seq<char>
    decreases classes.len(),
{
    if classes.len() == 0 {
        Seq::empty()
    } else {
        classes_report(classes.drop_last()) + "  "@ + support_text(class_key(classes.last()))
            + ": "@ + decimal_text(classes.last().count as nat) + "\n"@
    }
}

pub open spec fn window_report(radius: nat, index: Gz, c: WindowCensus, show_classes: bool) -> Seq<
    char,
> {
    "window: re,im in [-"@ + decimal_text(radius) + ","@ + decimal_text(radius)
        + "], excluding 0\nindex: "@ + gaussian_text(index) + "\npoints: "@ + decimal_text(
        c.points as nat,
    ) + "\nsigma members: "@ + decimal_text(c.members as nat) + "\nsigma nonmembers: "@
        + decimal_text((c.points - c.members) as nat) + "\ndistinct quotient points: "@
        + decimal_text(c.classes@.len()) + "\n"@ + if show_classes {
        "classes:\n"@ + classes_report(c.classes@)
    } else {
        Seq::empty()
    }
}

/// The outcome of a command: its report, or the error that stopped it.
pub open spec fn command_outcome(command: Command, r: Result<String, GaussianError>) -> bool {
    match command {
        Command::Help => r matches Ok(t) && t@ == help_text(),
        Command::Gcd { left, right } => match gcd_spec(left@, right@) {
            Ok(g) => r matches Ok(t) && t@ == gcd_report(left@, right@, g),
            Err(e) => r == Err::<String, GaussianError>(e),
        },
        Command::Factor { value } => match support_error(value@) {
            Some(e) => r == Err::<String, GaussianError>(e),
            None => r matches Ok(t) && exists|f: (Gz, Seq<(Gz, nat)>)|
                factorization_of(f, value@) && t@ == factor_report(value@, f),
        },
        Command::Support { value } => match support_error(value@) {
            Some(e) => r == Err::<String, GaussianError>(e),
            None => r matches Ok(t) && exists|s: Seq<Gz>|
                is_support_of(s, value@) && t@ == support_report(value@, s),
        },
        Command::Coprime { left, right } => match gcd_spec(left@, right@) {
            Ok(g) => r matches Ok(t) && t@ == coprime_report(left@, right@, is_unit_spec(g)),
            Err(e) => r == Err::<String, GaussianError>(e),
        },
        Command::BasicOpen { index, point } => if index@ == gzero() || point@ == gzero() {
            r == Err::<String, GaussianError>(GaussianError::ZeroOutsideTopology)
        } else {
            match gcd_spec(index@, point@) {
                Ok(g) => r matches Ok(t) && t@ == basic_open_report(index@, point@, is_unit_spec(g)),
                Err(e) => r == Err::<String, GaussianError>(e),
            }
        },
        Command::Indistinguishable { left, right } => match (
            support_error(left@),
            support_error(right@),
        ) {
            (Some(e), _) => r == Err::<String, GaussianError>(e),
            (None, Some(e)) => r == Err::<String, GaussianError>(e),
            (None, None) => r matches Ok(t) && exists|sa: Seq<Gz>, sb: Seq<Gz>|
                is_support_of(sa, left@) && is_support_of(sb, right@) && t@
                    == indistinguishable_report(
                    left@,
                    right@,
                    prime_divisors(left@) == prime_divisors(right@),
                    sa,
                    sb,
                ),
        },
        Command::Specializes { source, target } => match (
            support_error(source@),
            support_error(target@),
        ) {
            (Some(e), _) => r == Err::<String, GaussianError>(e),
            (None, Some(e)) => r == Err::<String, GaussianError>(e),
            (None, None) => r matches Ok(t) && t@ == specializes_report(
                source@,
                target@,
                prime_divisors(source@).subset_of(prime_divisors(target@)),
            ),
        },
        Command::QuotientOpen { point, forbidden } => match (
            support_error(point@),
            support_error(forbidden@),
        ) {
            (Some(e), _) => r == Err::<String, GaussianError>(e),
            (None, Some(e)) => r == Err::<String, GaussianError>(e),
            (None, None) => r matches Ok(t) && exists|sp: Seq<Gz>, sf: Seq<Gz>|
                is_support_of(sp, point@) && is_support_of(sf, forbidden@) && t@
                    == quotient_open_report(
                    point@,
                    forbidden@,
                    sp,
                    sf,
                    prime_divisors(forbidden@).disjoint(prime_divisors(point@)),
                ),
        },
        Command::Window { radius, index, show_classes } => if index@ == gzero() {
            r == Err::<String, GaussianError>(GaussianError::ZeroOutsideTopology)
        } else {
            match first_gcd_error(index@, window_square(radius as int)) {
                Some(e) => r == Err::<String, GaussianError>(e),
                None => r matches Ok(t) && exists|c: WindowCensus|
                    is_census_of(c, index@, window_square(radius as int)) && t@ == window_report(
                        radius as nat,
                        index@,
                        c,
                        show_classes,
                    ),
            }
        },
    }
}

/// The usage summary of the experiment tool.
pub fn help() -> (r: &'static str)
    ensures
        r@ == help_text(),
{
    "Gaussian coprimality topology finite experiments

Usage:
  gip-cli gcd A_RE A_IM B_RE B_IM
  gip-cli factor RE IM
  gip-cli support RE IM
  gip-cli coprime A_RE A_IM B_RE B_IM
  gip-cli basic-open INDEX_RE INDEX_IM POINT_RE POINT_IM
  gip-cli indistinguishable A_RE A_IM B_RE B_IM
  gip-cli specializes SOURCE_RE SOURCE_IM TARGET_RE TARGET_IM
  gip-cli quotient-open POINT_RE POINT_IM FORBIDDEN_RE FORBIDDEN_IM
  gip-cli window RADIUS INDEX_RE INDEX_IM [--classes]

Coordinates are signed 64-bit decimal integers. Support-derived commands use the
library's documented finite norm range. Window radius is at most 100.
"
}

fn push_text(text: &mut String, z: GaussianInt)
    ensures
        final(text)@ == old(text)@ + gaussian_text(z@),
{
    text.append(z.to_text().as_str());
}

fn push_bool(text: &mut String, b: bool)
    ensures
        final(text)@ == old(text)@ + bool_text(b),
{
    if b {
        text.append("true");
    } else {
        text.append("false");
    }
}

fn report_gcd(left: GaussianInt, right: GaussianInt) -> (r: Result<String, GaussianError>)
    ensures
        command_outcome(Command::Gcd { left, right }, r),
{
    let g = left.gcd(right)?;
    let mut text = String::new();
    text.append("gcd(");
    push_text(&mut text, left);
    text.append(", ");
    push_text(&mut text, right);
    text.append(") = ");
    push_text(&mut text, g);
    text.append("\n");
    assert(text@ =~= gcd_report(left@, right@, g@));
    Ok(text)
}

fn report_factor(value: GaussianInt) -> (r: Result<String, GaussianError>)
    ensures
        command_outcome(Command::Factor { value }, r),
{
    let f = factor(value)?;
    let mut text = String::new();
    text.append("value: ");
    push_text(&mut text, value);
    text.append("\nnorm: ");
    push_decimal(&mut text, value.norm());
    text.append("\nunit: ");
    push_text(&mut text, f.unit());
    text.append("\nfactorization: ");
    text.append(format_factorization(&f).as_str());
    text.append("\nsupport: ");
    text.append(format_support(&f.support()).as_str());
    text.append("\n");
    assert(text@ =~= factor_report(value@, f@));
    Ok(text)
}

fn report_support(value: GaussianInt) -> (r: Result<String, GaussianError>)
    ensures
        command_outcome(Command::Support { value }, r),
{
    let support = prime_support(value)?;
    let mut text = String::new();
    text.append("support(");
    push_text(&mut text, value);
    text.append("): ");
    text.append(format_support(&support).as_str());
    text.append("\n");
    assert(text@ =~= support_report(value@, class_views(support@)));
    Ok(text)
}

fn report_coprime(left: GaussianInt, right: GaussianInt) -> (r: Result<String, GaussianError>)
    ensures
        command_outcome(Command::Coprime { left, right }, r),
{
    let c = coprime(left, right)?;
    let mut text = String::new();
    text.append("coprime(");
    push_text(&mut text, left);
    text.append(", ");
    push_text(&mut text, right);
    text.append("): ");
    push_bool(&mut text, c);
    text.append("\n");
    assert(text@ =~= coprime_report(left@, right@, c));
    Ok(text)
}

fn report_basic_open(index: GaussianInt, point: GaussianInt) -> (r: Result<String, GaussianError>)
    ensures
        command_outcome(Command::BasicOpen { index, point }, r),
{
    let member = sigma_contains(index, point)?;
    let mut text = String::new();
    push_text(&mut text, point);
    text.append(" in sigma_");
    push_text(&mut text, index);
    text.append(": ");
    push_bool(&mut text, member);
    text.append("\n");
    assert(text@ =~= basic_open_report(index@, point@, member));
    Ok(text)
}

fn report_indistinguishable(left: GaussianInt, right: GaussianInt) -> (r: Result<
    String,
    GaussianError,
>)
    ensures
        command_outcome(Command::Indistinguishable { left, right }, r),
{
    let same = topologically_indistinguishable(left, right)?;
    let left_support = prime_support(left)?;
    let right_support = prime_support(right)?;
    let mut text = String::new();
    text.append("indistinguishable(");
    push_text(&mut text, left);
    text.append(", ");
    push_text(&mut text, right);
    text.append("): ");
    push_bool(&mut text, same);
    text.append("\nsupport(");
    push_text(&mut text, left);
    text.append("): ");
    text.append(format_support(&left_support).as_str());
    text.append("\nsupport(");
    push_text(&mut text, right);
    text.append("): ");
    text.append(format_support(&right_support).as_str());
    text.append("\n");
    assert(text@ =~= indistinguishable_report(
        left@,
        right@,
        same,
        class_views(left_support@),
        class_views(right_support@),
    ));
    Ok(text)
}

fn report_specializes(source: GaussianInt, target: GaussianInt) -> (r: Result<
    String,
    GaussianError,
>)
    ensures
        command_outcome(Command::Specializes { source, target }, r),
{
    let result = specializes_to(source, target)?;
    let mut text = String::new();
    push_text(&mut text, target);
    text.append(" in closure({");
    push_text(&mut text, source);
    text.append("}): ");
    push_bool(&mut text, result);
    text.append("\nSupp(");
    push_text(&mut text, source);
    text.append(") subset of Supp(");
    push_text(&mut text, target);
    text.append("): ");
    push_bool(&mut text, result);
    text.append("\n");
    assert(text@ =~= specializes_report(source@, target@, result));
    Ok(text)
}

fn report_quotient_open(point: GaussianInt, forbidden: GaussianInt) -> (r: Result<
    String,
    GaussianError,
>)
    ensures
        command_outcome(Command::QuotientOpen { point, forbidden }, r),
{
    let quotient_point = KolmogorovPoint::from_gaussian(point)?;
    let forbidden_support = prime_support(forbidden)?;
    let open = QuotientBasicOpen::new(forbidden_support.clone());
    let member = open.contains(&quotient_point);
    let point_support = quotient_point.support();
    let mut text = String::new();
    text.append("quotient point Supp(");
    push_text(&mut text, point);
    text.append("): ");
    text.append(format_support(point_support).as_str());
    text.append("\nforbidden F = Supp(");
    push_text(&mut text, forbidden);
    text.append("): ");
    text.append(format_support(&forbidden_support).as_str());
    text.append("\npoint in O_F: ");
    push_bool(&mut text, member);
    text.append("\n");
    assert(text@ =~= quotient_open_report(
        point@,
        forbidden@,
        class_views(point_support@),
        class_views(forbidden_support@),
        member,
    ));
    Ok(text)
}

fn report_window(radius: i64, index: GaussianInt, show_classes: bool) -> (r: Result<
    String,
    GaussianError,
>)
    requires
        0 <= radius <= MAX_WINDOW_RADIUS,
    ensures
        command_outcome(Command::Window { radius, index, show_classes }, r),
{
    let census = window_census(radius, index)?;
    let mut text = String::new();
    text.append("window: re,im in [-");
    push_decimal(&mut text, radius as u128);
    text.append(",");
    push_decimal(&mut text, radius as u128);
    text.append("], excluding 0\nindex: ");
    push_text(&mut text, index);
    text.append("\npoints: ");
    push_decimal(&mut text, census.points as u128);
    text.append("\nsigma members: ");
    push_decimal(&mut text, census.members as u128);
    text.append("\nsigma nonmembers: ");
    push_decimal(&mut text, (census.points - census.members) as u128);
    text.append("\ndistinct quotient points: ");
    push_decimal(&mut text, census.classes.len() as u128);
    text.append("\n");
    let ghost head = text@;
    if show_classes {
        text.append("classes:\n");
        let ghost table_start = text@;
        let mut k: usize = 0;
        assert(census.classes@.take(0) =~= Seq::<WindowClass>::empty());
        while k < census.classes.len()
            invariant
                k <= census.classes.len(),
                text@ == table_start + classes_report(census.classes@.take(k as int)),
            decreases census.classes.len() - k,
        {
            let class = &census.classes[k];
            text.append("  ");
            text.append(format_support(&class.support).as_str());
            text.append(": ");
            push_decimal(&mut text, class.count as u128);
            text.append("\n");
            proof {
                let t = census.classes@.take(k + 1);
                assert(t.drop_last() =~= census.classes@.take(k as int));
                assert(t.last() == census.classes@[k as int]);
            }
            k = k + 1;
            assert(text@ =~= table_start + classes_report(census.classes@.take(k as int)));
        }
        assert(census.classes@.take(census.classes.len() as int) =~= census.classes@);
        assert(text@ =~= head + ("classes:\n"@ + classes_report(census.classes@)));
    } else {
        assert(text@ =~= head + Seq::<char>::empty());
    }
    assert(text@ =~= window_report(radius as nat, index@, census, show_classes));
    Ok(text)
}

/// Runs a command: computes what it asks for and answers with its report, or with
/// the error that stopped the computation.
pub fn run_command(command: Command) -> (r: Result<String, GaussianError>)
    requires
        command_in_range(command),
    ensures
        command_outcome(command, r),
{
    match command {
        Command::Help => {
            let mut text = String::new();
            text.append(help());
            Ok(text)
        },
        Command::Gcd { left, right } => report_gcd(left, right),
        Command::Factor { value } => report_factor(value),
        Command::Support { value } => report_support(value),
        Command::Coprime { left, right } => report_coprime(left, right),
        Command::BasicOpen { index, point } => report_basic_open(index, point),
        Command::Indistinguishable { left, right } => report_indistinguishable(left, right),
        Command::Specializes { source, target } => report_specializes(source, target),
        Command::QuotientOpen { point, forbidden } => report_quotient_open(point, forbidden),
        Command::Window { radius, index, show_classes } => report_window(
            radius,
            index,
            show_classes,
        ),
    }
}

/// The answer of the tool to the outcome of a command: the report, or the message of
/// the error that stopped it.
pub open spec fn answers(outcome: Result<String, GaussianError>, r: Result<String, String>) -> bool {
    match (outcome, r) {
        (Ok(report), Ok(text)) => text@ == report@,
        (Err(e), Err(text)) => text@ == error_text(e),
        _ => false,
    }
}

/// Runs the tool on its arguments: the report of the command they name, or the
/// message explaining why the arguments name none or why the command failed.
pub fn run(args: &Vec<String>) -> (r: Result<String, String>)
    ensures
        match parse_command_spec(arg_views(args@)) {
            Err(m) => r matches Err(text) && text@ == m,
            Ok(command) => exists|outcome: Result<String, GaussianError>|
                command_outcome(command, outcome) && answers(outcome, r),
        },
{
    let command = parse_command(args)?;
    match run_command(command) {
        Ok(report) => Ok(report),
        Err(e) => Err(e.message()),
    }
}

// ---------------------------------------------------------------------------
// What the reports say
// ---------------------------------------------------------------------------

/// `t` begins with `x`.
pub open spec fn starts_with(t: Seq<char>, x: Seq<char>) -> bool {
    x.len() <= t.len() && t.subrange(0, x.len() as int) == x
}

/// `t` ends with `x`.
pub open spec fn ends_with(t: Seq<char>, x: Seq<char>) -> bool {
    x.len() <= t.len() && t.subrange(t.len() - x.len(), t.len() as int) == x
}

proof fn lemma_split(t: Seq<char>, x: Seq<char>, y: Seq<char>)
    requires
        t == x + y,
    ensures
        starts_with(t, x),
        ends_with(t, y),
{
    assert(t.subrange(0, x.len() as int) =~= x);
    assert(t.subrange(t.len() - y.len(), t.len() as int) =~= y);
}

/// A text that begins with `x` followed by a line break begins with `x` and `\n`.
proof fn lemma_line_break(t: Seq<char>, x: Seq<char>, y: Seq<char>)
    requires
        t == x + y,
        y.len() > 0,
        y[0] == '\n',
    ensures
        starts_with(t, x + "\n"@),
{
    reveal_strlit("\n");
    assert(t.subrange(0, (x + "\n"@).len() as int) =~= x + "\n"@);
}

/// The indistinguishability report of `A` and `B` lists, on its last two lines, the
/// prime support of `A` and then that of `B`, and its verdict is true exactly when
/// these two listings are the same, that is, exactly when `A` and `B` lie in the same
/// basic opens.
#[verifier::spinoff_prover]
#[verifier::rlimit(50)]
pub proof fn lemma_indistinguishable_report(
    left: GaussianInt,
    right: GaussianInt,
    t: String,
    sa: Seq<Gz>,
    sb: Seq<Gz>,
)
    requires
        command_outcome(Command::Indistinguishable { left, right }, Ok::<String, GaussianError>(t)),
        is_support_of(sa, left@),
        is_support_of(sb, right@),
    ensures
        starts_with(
            t@,
            "indistinguishable("@ + gaussian_text(left@) + ", "@ + gaussian_text(right@) + "): "@
                + bool_text(sa == sb) + "\n"@,
        ),
        ends_with(
            t@,
            "\nsupport("@ + gaussian_text(left@) + "): "@ + support_text(sa) + "\nsupport("@
                + gaussian_text(right@) + "): "@ + support_text(sb) + "\n"@,
        ),
        (sa == sb) <==> (forall|a: Gz| #[trigger] coprime_spec(a, left@) == coprime_spec(a, right@)),
{
    let (x, y) = choose|x: Seq<Gz>, y: Seq<Gz>|
        is_support_of(x, left@) && is_support_of(y, right@) && t@ == indistinguishable_report(
            left@,
            right@,
            prime_divisors(left@) == prime_divisors(right@),
            x,
            y,
        );
    lemma_support_listing_unique(sa, x, left@);
    lemma_support_listing_unique(sb, y, right@);
    if prime_divisors(left@) == prime_divisors(right@) {
        lemma_sorted_set_eq(sa, sb);
    }
    let same = sa == sb;
    let head = "indistinguishable("@ + gaussian_text(left@) + ", "@ + gaussian_text(right@)
        + "): "@ + bool_text(same);
    let tail = "\nsupport("@ + gaussian_text(left@) + "): "@ + support_text(sa) + "\nsupport("@
        + gaussian_text(right@) + "): "@ + support_text(sb) + "\n"@;
    assert(t@ =~= head + tail);
    lemma_split(t@, head, tail);
    reveal_strlit("\nsupport(");
    lemma_line_break(t@, head, tail);
    lemma_indistinguishable_iff_same_support(left@, right@);
}

/// The summary lines of a window report: the window, the index, the number of
/// nonzero points (`(2 * radius + 1)^2 - 1`), how many lie in `sigma_index`, how many
/// do not, and how many distinct prime supports they have.
pub open spec fn window_summary(radius: int, index: Gz) -> Seq<char> {
    "window: re,im in [-"@ + decimal_text(radius as nat) + ","@ + decimal_text(radius as nat)
        + "], excluding 0\nindex: "@ + gaussian_text(index) + "\npoints: "@ + decimal_text(
        ((2 * radius + 1) * (2 * radius + 1) - 1) as nat,
    ) + "\nsigma members: "@ + decimal_text(count_where(window_square(radius), in_basic_open(index)))
        + "\nsigma nonmembers: "@ + decimal_text(
        count_where(window_square(radius), outside_basic_open(index)),
    ) + "\ndistinct quotient points: "@ + decimal_text(supports_met(window_square(radius)).len())
        + "\n"@
}

/// One line per listed quotient point: its support and how many window points have it.
pub open spec fn support_count_lines(cs: Seq<WindowClass>, sq: Seq<Gz>) -> Seq<Seq<char>> {
    Seq::new(
        cs.len(),
        |i: int|
            "  "@ + support_text(class_key(cs[i])) + ": "@ + decimal_text(
                count_where(sq, with_support(class_key(cs[i]))),
            ) + "\n"@,
    )
}

proof fn lemma_classes_report_lines(cs: Seq<WindowClass>, sq: Seq<Gz>)
    requires
        forall|i: int|
            0 <= i < cs.len() ==> #[trigger] cs[i].count == count_where(
                sq,
                with_support(class_key(cs[i])),
            ),
    ensures
        classes_report(cs) == concat_texts(support_count_lines(cs, sq)),
    decreases cs.len(),
{
    if cs.len() == 0 {
        assert(concat_texts(support_count_lines(cs, sq)) =~= Seq::<char>::empty());
    } else {
        let d = cs.drop_last();
        assert forall|i: int| 0 <= i < d.len() implies #[trigger] d[i].count == count_where(
            sq,
            with_support(class_key(d[i])),
        ) by {
            assert(d[i] == cs[i]);
        }
        lemma_classes_report_lines(d, sq);
        assert(support_count_lines(cs, sq).drop_last() =~= support_count_lines(d, sq));
        assert(cs[cs.len() - 1] == cs.last());
    }
}

/// The window report consists of its summary (see `window_summary`) and, when asked
/// for, a table listing each distinct prime support of the window's nonzero points
/// once, in increasing order, with the number of points that have it.
#[verifier::spinoff_prover]
#[verifier::rlimit(50)]
pub proof fn lemma_window_report(radius: i64, index: GaussianInt, show_classes: bool, t: String)
    requires
        command_outcome(
            Command::Window { radius, index, show_classes },
            Ok::<String, GaussianError>(t),
        ),
        0 <= radius <= MAX_WINDOW_RADIUS,
    ensures
        count_where(window_square(radius as int), in_basic_open(index@)) + count_where(
            window_square(radius as int),
            outside_basic_open(index@),
        ) == (2 * radius + 1) * (2 * radius + 1) - 1,
        starts_with(t@, window_summary(radius as int, index@)),
        !show_classes ==> t@ == window_summary(radius as int, index@),
        show_classes ==> exists|cs: Seq<WindowClass>|
            #[trigger] is_class_census(cs, window_square(radius as int)) && t@ == window_summary(
                radius as int,
                index@,
            ) + "classes:\n"@ + concat_texts(support_count_lines(cs, window_square(radius as int))),
{
    let sq = window_square(radius as int);
    let c = choose|c: WindowCensus|
        is_census_of(c, index@, sq) && t@ == window_report(radius as nat, index@, c, show_classes);
    lemma_window_point_count(radius as int);
    lemma_members_and_nonmembers(sq, index@);
    let m = count_where(sq, in_basic_open(index@));
    let nm = count_where(sq, outside_basic_open(index@));
    assert(c.points == m + nm);
    assert((c.points - c.members) as nat == nm);
    let head = window_summary(radius as int, index@);
    lemma_census_counts_distinct_supports(c.classes@, sq);
    let rest = if show_classes {
        "classes:\n"@ + classes_report(c.classes@)
    } else {
        Seq::empty()
    };
    assert(t@ =~= head + rest);
    lemma_split(t@, head, rest);
    if show_classes {
        lemma_classes_report_lines(c.classes@, sq);
        assert(t@ =~= head + "classes:\n"@ + concat_texts(support_count_lines(c.classes@, sq)));
        assert(is_class_census(c.classes@, sq));
    } else {
        assert(t@ =~= head);
    }
}

/// The specialization report prints, on both of its lines, whether the support of the
/// source is contained in that of the target, which holds exactly when every basic
/// open holding the target holds the source.
#[verifier::spinoff_prover]
#[verifier::rlimit(50)]
pub proof fn lemma_specializes_report(source: GaussianInt, target: GaussianInt, t: String)
    requires
        command_outcome(Command::Specializes { source, target }, Ok::<String, GaussianError>(t)),
    ensures
        starts_with(
            t@,
            gaussian_text(target@) + " in closure({"@ + gaussian_text(source@) + "}): "@
                + bool_text(prime_divisors(source@).subset_of(prime_divisors(target@))) + "\n"@,
        ),
        ends_with(
            t@,
            "\nSupp("@ + gaussian_text(source@) + ") subset of Supp("@ + gaussian_text(target@)
                + "): "@ + bool_text(prime_divisors(source@).subset_of(prime_divisors(target@)))
                + "\n"@,
        ),
        prime_divisors(source@).subset_of(prime_divisors(target@)) <==> (forall|a: Gz|
            #[trigger] coprime_spec(a, target@) ==> coprime_spec(a, source@)),
{
    let b = prime_divisors(source@).subset_of(prime_divisors(target@));
    let line1 = gaussian_text(target@) + " in closure({"@ + gaussian_text(source@) + "}): "@
        + bool_text(b);
    let line2 = "\nSupp("@ + gaussian_text(source@) + ") subset of Supp("@ + gaussian_text(
        target@,
    ) + "): "@ + bool_text(b) + "\n"@;
    assert(t@ =~= line1 + line2);
    lemma_split(t@, line1, line2);
    reveal_strlit("\nSupp(");
    lemma_line_break(t@, line1, line2);
    lemma_closure_iff_support_inclusion(source@, target@);
}

/// The quotient-open report lists the support `Supp(point)` and the forbidden set
/// `F = Supp(forbidden)`, and says the point is in `O_F` exactly when the two listed
/// sets share no class, that is, exactly when the point lies in `sigma_forbidden`.
#[verifier::spinoff_prover]
#[verifier::rlimit(50)]
pub proof fn lemma_quotient_open_report(
    point: GaussianInt,
    forbidden: GaussianInt,
    t: String,
    sp: Seq<Gz>,
    sf: Seq<Gz>,
)
    requires
        command_outcome(
            Command::QuotientOpen { point, forbidden },
            Ok::<String, GaussianError>(t),
        ),
        is_support_of(sp, point@),
        is_support_of(sf, forbidden@),
    ensures
        starts_with(
            t@,
            "quotient point Supp("@ + gaussian_text(point@) + "): "@ + support_text(sp)
                + "\nforbidden F = Supp("@ + gaussian_text(forbidden@) + "): "@ + support_text(sf)
                + "\n"@,
        ),
        ends_with(
            t@,
            "\npoint in O_F: "@ + bool_text(support_set(sp).disjoint(support_set(sf))) + "\n"@,
        ),
        support_set(sp).disjoint(support_set(sf)) <==> coprime_spec(forbidden@, point@),
{
    let (x, y) = choose|x: Seq<Gz>, y: Seq<Gz>|
        is_support_of(x, point@) && is_support_of(y, forbidden@) && t@ == quotient_open_report(
            point@,
            forbidden@,
            x,
            y,
            prime_divisors(forbidden@).disjoint(prime_divisors(point@)),
        );
    lemma_support_listing_unique(sp, x, point@);
    lemma_support_listing_unique(sf, y, forbidden@);
    let member = support_set(sp).disjoint(support_set(sf));
    assert(member == prime_divisors(forbidden@).disjoint(prime_divisors(point@)));
    let head = "quotient point Supp("@ + gaussian_text(point@) + "): "@ + support_text(sp)
        + "\nforbidden F = Supp("@ + gaussian_text(forbidden@) + "): "@ + support_text(sf);
    let tail = "\npoint in O_F: "@ + bool_text(member) + "\n"@;
    assert(t@ =~= head + tail);
    lemma_split(t@, head, tail);
    reveal_strlit("\npoint in O_F: ");
    lemma_line_break(t@, head, tail);
    lemma_sigma_support_disjoint(forbidden@, point@);
}

/// The gcd report of `A` and `B` ends with the normalized greatest common divisor:
/// the canonical common divisor that every common divisor divides.
#[verifier::spinoff_prover]
#[verifier::rlimit(50)]
pub proof fn lemma_gcd_report(left: GaussianInt, right: GaussianInt, t: String, g: Gz)
    requires
        command_outcome(Command::Gcd { left, right }, Ok::<String, GaussianError>(t)),
        is_normalized_gcd(left@, right@, g),
    ensures
        starts_with(t@, "gcd("@ + gaussian_text(left@) + ", "@ + gaussian_text(right@) + ") = "@),
        ends_with(t@, ") = "@ + gaussian_text(g) + "\n"@),
{
    lemma_gcd_spec_correct(left@, right@);
    let h = gcd_spec(left@, right@)->Ok_0;
    lemma_normalized_gcd_unique(left@, right@, g, h);
    let head = "gcd("@ + gaussian_text(left@) + ", "@ + gaussian_text(right@);
    let tail = ") = "@ + gaussian_text(g) + "\n"@;
    assert(t@ =~= head + tail);
    lemma_split(t@, head, tail);
    assert(t@ =~= (head + ") = "@) + (gaussian_text(g) + "\n"@));
    lemma_split(t@, head + ") = "@, gaussian_text(g) + "\n"@);
}

/// The coprimality report says whether `A` and `B` have no common divisor but units.
#[verifier::spinoff_prover]
#[verifier::rlimit(50)]
pub proof fn lemma_coprime_report(left: GaussianInt, right: GaussianInt, t: String)
    requires
        command_outcome(Command::Coprime { left, right }, Ok::<String, GaussianError>(t)),
    ensures
        t@ == "coprime("@ + gaussian_text(left@) + ", "@ + gaussian_text(right@) + "): "@
            + bool_text(coprime_spec(left@, right@)) + "\n"@,
{
    lemma_gcd_spec_correct(left@, right@);
    let h = gcd_spec(left@, right@)->Ok_0;
    lemma_coprime_iff_gcd_unit(left@, right@, h);
}

/// The basic-open report says whether the point lies in `sigma_index`: whether it is
/// coprime to the index, equivalently whether their prime supports are disjoint.
#[verifier::spinoff_prover]
#[verifier::rlimit(50)]
pub proof fn lemma_basic_open_report(index: GaussianInt, point: GaussianInt, t: String)
    requires
        command_outcome(Command::BasicOpen { index, point }, Ok::<String, GaussianError>(t)),
    ensures
        t@ == gaussian_text(point@) + " in sigma_"@ + gaussian_text(index@) + ": "@ + bool_text(
            coprime_spec(index@, point@),
        ) + "\n"@,
        coprime_spec(index@, point@) <==> prime_divisors(index@).disjoint(prime_divisors(point@)),
{
    lemma_gcd_spec_correct(index@, point@);
    let h = gcd_spec(index@, point@)->Ok_0;
    lemma_coprime_iff_gcd_unit(index@, point@, h);
    lemma_sigma_support_disjoint(index@, point@);
}

/// The support report lists exactly the canonical Gaussian primes dividing the value,
/// in increasing order.
#[verifier::spinoff_prover]
#[verifier::rlimit(50)]
pub proof fn lemma_support_report(value: GaussianInt, t: String, s: Seq<Gz>)
    requires
        command_outcome(Command::Support { value }, Ok::<String, GaussianError>(t)),
        is_support_of(s, value@),
    ensures
        t@ == "support("@ + gaussian_text(value@) + "): "@ + support_text(s) + "\n"@,
{
    let x = choose|x: Seq<Gz>| is_support_of(x, value@) && t@ == support_report(value@, x);
    lemma_support_listing_unique(s, x, value@);
}

/// The factor report gives the value, its norm, and the unit, the prime powers and the
/// support of its unique factorization.
#[verifier::spinoff_prover]
#[verifier::rlimit(50)]
pub proof fn lemma_factor_report(value: GaussianInt, t: String, f: (Gz, Seq<(Gz, nat)>))
    requires
        command_outcome(Command::Factor { value }, Ok::<String, GaussianError>(t)),
        factorization_of(f, value@),
    ensures
        starts_with(
            t@,
            "value: "@ + gaussian_text(value@) + "\nnorm: "@ + decimal_text(gnorm(value@) as nat)
                + "\nunit: "@ + gaussian_text(f.0) + "\nfactorization: "@ + factorization_text(f),
        ),
        ends_with(t@, "\nsupport: "@ + support_text(primes_of(f.1)) + "\n"@),
{
    let g = choose|g: (Gz, Seq<(Gz, nat)>)|
        factorization_of(g, value@) && t@ == factor_report(value@, g);
    lemma_factorization_unique(f, g, value@);
    let head = "value: "@ + gaussian_text(value@) + "\nnorm: "@ + decimal_text(gnorm(value@) as nat)
        + "\nunit: "@ + gaussian_text(f.0) + "\nfactorization: "@ + factorization_text(f);
    let tail = "\nsupport: "@ + support_text(primes_of(f.1)) + "\n"@;
    assert(t@ =~= head + tail);
    lemma_split(t@, head, tail);
}

} // verus!
