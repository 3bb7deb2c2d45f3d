//! Human-readable text for Gaussian integers, prime classes and errors.
use vstd::prelude::*;
use vstd::string::{StrSliceExecFns, StringExecFns};

use crate::arithmetic::{GaussianError, GaussianInt};
use crate::factor::{class_views, powers_view, Factorization, PrimeClass, PrimePower};
use crate::ring::Gz;

verus! {

/// The decimal digit character for `d` in `0..10`.
pub open spec fn digit_char(d: int) -> char {
    seq!['0', '1', '2', '3', '4', '5', '6', '7', '8', '9'][d]
}

/// The decimal numeral of a natural number, without leading zeros.
pub open spec fn decimal_text(n: nat) -> Seq<char>
    decreases n,
{
    if n < 10 {
        seq![digit_char(n as int)]
    } else {
        decimal_text(n / 10) + seq![digit_char((n % 10) as int)]
    }
}

/// The decimal numeral of an integer, with a leading `-` when negative.
pub open spec fn int_text(x: int) -> Seq<char> {
    if x < 0 {
        seq!['-'] + decimal_text((-x) as nat)
    } else {
        decimal_text(x as nat)
    }
}

/// The text of `re + im*i`: `0`, `7`, `i`, `-i`, `3i`, `2+i`, `2-i`, `2+3i`, `2-3i`.
pub open spec fn gaussian_text(z: Gz) -> Seq<char> {
    if z.0 == 0 && z.1 == 0 {
        seq!['0']
    } else if z.1 == 0 {
        int_text(z.0)
    } else if z.0 == 0 && z.1 == 1 {
        seq!['i']
    } else if z.0 == 0 && z.1 == -1 {
        seq!['-', 'i']
    } else if z.0 == 0 {
        int_text(z.1) + seq!['i']
    } else if z.1 == 1 {
        int_text(z.0) + seq!['+', 'i']
    } else if z.1 == -1 {
        int_text(z.0) + seq!['-', 'i']
    } else if z.1 > 0 {
        int_text(z.0) + seq!['+'] + int_text(z.1) + seq!['i']
    } else {
        int_text(z.0) + int_text(z.1) + seq!['i']
    }
}

/// The text `[z]` of the prime class with representative `z`.
pub open spec fn class_text(c: Gz) -> Seq<char> {
    seq!['['] + gaussian_text(c) + seq![']']
}

/// The texts of listed classes separated by `, `.
pub open spec fn classes_text(s: Seq<Gz>) -> Seq<char>
    decreases s.len(),
{
    if s.len() == 0 {
        Seq::empty()
    } else if s.len() == 1 {
        class_text(s[0])
    } else {
        classes_text(s.drop_last()) + seq![',', ' '] + class_text(s.last())
    }
}

/// The text of a support, such as `{[1+i], [3]}`.
pub open spec fn support_text(s: Seq<Gz>) -> Seq<char> {
    seq!['{'] + classes_text(s) + seq!['}']
}

/// The text of one factor `p^e` following the unit: ` * (p)`, then `^e` when `e > 1`.
pub open spec fn power_text(p: Gz, e: nat) -> Seq<char> {
    seq![' ', '*', ' ', '('] + gaussian_text(p) + seq![')'] + if e > 1 {
        seq!['^'] + decimal_text(e)
    } else {
        Seq::empty()
    }
}

/// The texts of successive prime powers.
pub open spec fn powers_text(s: Seq<(Gz, nat)>) -> Seq<char>
    decreases s.len(),
{
    if s.len() == 0 {
        Seq::empty()
    } else {
        powers_text(s.drop_last()) + power_text(s.last().0, s.last().1)
    }
}

/// The text of a factorization, such as `-1 * (1+2i) * (2+i)^2`.
pub open spec fn factorization_text(f: (Gz, Seq<(Gz, nat)>)) -> Seq<char> {
    gaussian_text(f.0) + powers_text(f.1)
}

/// The one-character text of a decimal digit.
fn digit_str(d: u128) -> (r: &'static str)
    requires
        d < 10,
    ensures
        r@ == seq![digit_char(d as int)],
{
    proof {
        reveal_strlit("0");
        reveal_strlit("1");
        reveal_strlit("2");
        reveal_strlit("3");
        reveal_strlit("4");
        reveal_strlit("5");
        reveal_strlit("6");
        reveal_strlit("7");
        reveal_strlit("8");
        reveal_strlit("9");
    }
    if d == 0 {
        "0"
    } else if d == 1 {
        "1"
    } else if d == 2 {
        "2"
    } else if d == 3 {
        "3"
    } else if d == 4 {
        "4"
    } else if d == 5 {
        "5"
    } else if d == 6 {
        "6"
    } else if d == 7 {
        "7"
    } else if d == 8 {
        "8"
    } else {
        "9"
    }
}

/// Appends the decimal numeral of `n`.
pub fn push_decimal(text: &mut String, n: u128)
    ensures
        final(text)@ == old(text)@ + decimal_text(n as nat),
    decreases n,
{
    if n >= 10 {
        push_decimal(text, n / 10);
    }
    text.append(digit_str(n % 10));
    assert(final(text)@ =~= old(text)@ + decimal_text(n as nat)) by {
        if n < 10 {
            assert(n % 10 == n);
        }
    }
}

/// Appends the decimal numeral of a signed coordinate.
pub fn push_int(text: &mut String, x: i64)
    ensures
        final(text)@ == old(text)@ + int_text(x as int),
{
    proof {
        reveal_strlit("-");
    }
    if x < 0 {
        text.append("-");
        push_decimal(text, (-(x as i128)) as u128);
        assert(final(text)@ =~= old(text)@ + int_text(x as int));
    } else {
        push_decimal(text, x as u128);
    }
}

impl GaussianInt {
    /// The text of this value, such as `2+3i`, `-i` or `7`.
    pub fn to_text(self) -> (r: String)
        ensures
            r@ == gaussian_text(self@),
    {
        proof {
            reveal_strlit("0");
            reveal_strlit("i");
            reveal_strlit("-i");
            reveal_strlit("+i");
            reveal_strlit("+");
        }
        let mut text = String::new();
        let (re, im) = (self.re, self.im);
        if re == 0 && im == 0 {
            text.append("0");
        } else if im == 0 {
            push_int(&mut text, re);
        } else if re == 0 && im == 1 {
            text.append("i");
        } else if re == 0 && im == -1 {
            text.append("-i");
        } else if re == 0 {
            push_int(&mut text, im);
            text.append("i");
        } else if im == 1 {
            push_int(&mut text, re);
            text.append("+i");
        } else if im == -1 {
            push_int(&mut text, re);
            text.append("-i");
        } else if im > 0 {
            push_int(&mut text, re);
            text.append("+");
            push_int(&mut text, im);
            text.append("i");
        } else {
            push_int(&mut text, re);
            push_int(&mut text, im);
            text.append("i");
        }
        assert(text@ =~= gaussian_text(self@));
        text
    }
}

impl PrimeClass {
    /// The text `[z]` of the class of its representative `z`.
    pub fn to_text(self) -> (r: String)
        ensures
            r@ == seq!['['] + gaussian_text(self@) + seq![']'],
    {
        proof {
            reveal_strlit("[");
            reveal_strlit("]");
        }
        let mut text = String::new();
        text.append("[");
        text.append(self.representative().to_text().as_str());
        text.append("]");
        assert(text@ =~= seq!['['] + gaussian_text(self@) + seq![']']);
        text
    }
}

/// The human-readable message of an error.
pub open spec fn error_text(e: GaussianError) -> Seq<char> {
    match e {
        GaussianError::ArithmeticOverflow { operation } => "Gaussian integer overflow during "@
            + operation@,
        GaussianError::DivisionByZero => "division by zero Gaussian integer"@,
        GaussianError::ZeroOutsideTopology => "zero is outside the coprimality space Z[i] \\ {0}"@,
        GaussianError::FactorizationLimitExceeded { norm, max_norm } => "norm "@ + decimal_text(
            norm as nat,
        ) + " exceeds the exact factorization limit "@ + decimal_text(max_norm as nat),
        GaussianError::NotGaussianPrime { value } => gaussian_text(value@)
            + " is not a Gaussian prime in the supported range"@,
    }
}

impl GaussianError {
    /// The human-readable message describing this error.
    pub fn message(&self) -> (r: String)
        ensures
            r@ == error_text(*self),
    {
        let mut text = String::new();
        match self {
            GaussianError::ArithmeticOverflow { operation } => {
                text.append("Gaussian integer overflow during ");
                text.append(operation);
            },
            GaussianError::DivisionByZero => {
                text.append("division by zero Gaussian integer");
            },
            GaussianError::ZeroOutsideTopology => {
                text.append("zero is outside the coprimality space Z[i] \\ {0}");
            },
            GaussianError::FactorizationLimitExceeded { norm, max_norm } => {
                text.append("norm ");
                push_decimal(&mut text, *norm);
                text.append(" exceeds the exact factorization limit ");
                push_decimal(&mut text, *max_norm);
            },
            GaussianError::NotGaussianPrime { value } => {
                text.append(value.to_text().as_str());
                text.append(" is not a Gaussian prime in the supported range");
            },
        }
        assert(text@ =~= error_text(*self));
        text
    }
}

/// The text of a support listing, such as `{[1+i], [3]}`.
pub fn format_support(support: &Vec<PrimeClass>) -> (r: String)
    ensures
        r@ == support_text(class_views(support@)),
{
    proof {
        reveal_strlit("{");
        reveal_strlit("}");
    }
    let ghost s = class_views(support@);
    let mut text = String::new();
    text.append("{");
    let mut k: usize = 0;
    assert(s.take(0) =~= Seq::<Gz>::empty());
    while k < support.len()
        invariant
            k <= support.len(),
            s == class_views(support@),
            text@ == seq!['{'] + classes_text(s.take(k as int)),
        decreases support.len() - k,
    {
        proof {
            reveal_strlit(", ");
        }
        let ghost before = text@;
        let class = support[k];
        if k > 0 {
            text.append(", ");
        }
        let ghost middle = text@;
        text.append(class.to_text().as_str());
        proof {
            let t = s.take(k + 1);
            assert(t.drop_last() =~= s.take(k as int));
            assert(t.last() == s[k as int]);
            assert(s[k as int] == class@);
            assert(text@ =~= middle + class_text(class@));
            if k == 0 {
                assert(t.len() == 1 && t[0] == s[0]);
                assert(classes_text(t) == class_text(class@));
                assert(text@ =~= seq!['{'] + classes_text(t));
            } else {
                assert(middle =~= before + seq![',', ' ']);
                assert(classes_text(t) == classes_text(s.take(k as int)) + seq![',', ' ']
                    + class_text(class@));
                assert(text@ =~= seq!['{'] + classes_text(t));
            }
        }
        k = k + 1;
    }
    text.append("}");
    assert(s.take(support.len() as int) =~= s);
    assert(text@ =~= support_text(s));
    text
}

/// The text of a factorization: its unit, then each prime power, such as
/// `-1 * (1+2i) * (2+i)^2`.
pub fn format_factorization(factorization: &Factorization) -> (r: String)
    ensures
        r@ == factorization_text(factorization@),
{
    let unit = factorization.unit();
    let factors = factorization.factors();
    let ghost s = factorization@.1;
    let mut text = unit.to_text();
    let mut k: usize = 0;
    assert(s.take(0) =~= Seq::<(Gz, nat)>::empty());
    while k < factors.len()
        invariant
            k <= factors.len(),
            powers_view(factors@) == s,
            s == factorization@.1,
            unit@ == factorization@.0,
            text@ == gaussian_text(unit@) + powers_text(s.take(k as int)),
        decreases factors.len() - k,
    {
        proof {
            reveal_strlit(" * (");
            reveal_strlit(")");
            reveal_strlit("^");
        }
        let power: PrimePower = factors[k];
        let ghost before = text@;
        let prime = power.prime().representative();
        let exponent = power.exponent();
        text.append(" * (");
        text.append(prime.to_text().as_str());
        text.append(")");
        let ghost opened = text@;
        assert(opened =~= before + seq![' ', '*', ' ', '('] + gaussian_text(prime@) + seq![')']);
        if exponent > 1 {
            text.append("^");
            push_decimal(&mut text, exponent as u128);
            assert(text@ =~= opened + (seq!['^'] + decimal_text(exponent as nat)));
        } else {
            assert(text@ =~= opened + Seq::<char>::empty());
        }
        proof {
            let t = s.take(k + 1);
            assert(t.drop_last() =~= s.take(k as int));
            assert(t.last() == s[k as int]);
            assert(s[k as int] == power@);
            assert(prime@ == power@.0);
            assert(exponent as nat == power@.1);
            assert(text@ =~= before + power_text(power@.0, power@.1));
        }
        k = k + 1;
        assert(text@ =~= gaussian_text(unit@) + powers_text(s.take(k as int)));
    }
    assert(s.take(factors.len() as int) =~= s);
    text
}

// ---------------------------------------------------------------------------
// Reading decimal numerals
// ---------------------------------------------------------------------------

pub open spec fn is_digit(c: char) -> bool {
    '0' <= c <= '9'
}

pub open spec fn digit_value(c: char) -> int {
    c as int - '0' as int
}

/// Every character is a decimal digit.
pub open spec fn all_digits(s: Seq<char>) -> bool {
    forall|i: int| 0 <= i < s.len() ==> is_digit(#[trigger] s[i])
}

/// The number denoted by a string of decimal digits.
pub open spec fn digits_value(s: Seq<char>) -> int
    decreases s.len(),
{
    if s.len() == 0 {
        0
    } else {
        10 * digits_value(s.drop_last()) + digit_value(s.last())
    }
}

/// The integer denoted by a decimal numeral: an optional `-` or `+` sign followed by
/// one or more decimal digits; `None` for any other text.
pub open spec fn numeral_value(s: Seq<char>) -> Option<int> {
    if s.len() > 0 && (s[0] == '-' || s[0] == '+') {
        let d = s.drop_first();
        if d.len() > 0 && all_digits(d) {
            Some(
                if s[0] == '-' {
                    -digits_value(d)
                } else {
                    digits_value(d)
                },
            )
        } else {
            None
        }
    } else if s.len() > 0 && all_digits(s) {
        Some(digits_value(s))
    } else {
        None
    }
}

/// The signed 64-bit integer a text denotes, if it is a decimal numeral in range.
pub open spec fn parse_i64_spec(s: Seq<char>) -> Option<i64> {
    match numeral_value(s) {
        Some(v) => if i64::MIN <= v <= i64::MAX {
            Some(v as i64)
        } else {
            None
        },
        None => None,
    }
}

proof fn lemma_digits_value_nonneg(s: Seq<char>)
    requires
        all_digits(s),
    ensures
        digits_value(s) >= 0,
    decreases s.len(),
{
    if s.len() > 0 {
        assert(all_digits(s.drop_last())) by {
            assert forall|i: int| 0 <= i < s.drop_last().len() implies is_digit(
                #[trigger] s.drop_last()[i],
            ) by {
                assert(s.drop_last()[i] == s[i]);
            }
        }
        lemma_digits_value_nonneg(s.drop_last());
        assert(is_digit(s[s.len() - 1]));
    }
}

/// Reads a signed 64-bit decimal numeral: an optional `-` or `+` sign and at least
/// one digit, in range; `None` for anything else.
pub fn parse_i64(text: &str) -> (r: Option<i64>)
    ensures
        r == parse_i64_spec(text@),
{
    let ghost s = text@;
    let len = text.unicode_len();
    if len == 0 {
        return None;
    }
    let first = text.get_char(0);
    assert(s[0] == first);
    let negative = first == '-';
    let start: usize = if first == '-' || first == '+' {
        1
    } else {
        0
    };
    if start == len {
        return None;
    }
    let mut magnitude: u128 = 0;
    let mut too_large = false;
    let mut i: usize = start;
    assert(s.subrange(start as int, start as int) =~= Seq::<char>::empty());
    while i < len
        invariant
            s == text@,
            s.len() > 0,
            s[0] == first,
            start == (if first == '-' || first == '+' {
                1usize
            } else {
                0usize
            }),
            len == s.len(),
            start <= i <= len,
            all_digits(s.subrange(start as int, i as int)),
            !too_large ==> magnitude == digits_value(s.subrange(start as int, i as int))
                && magnitude <= 0x8000_0000_0000_0000,
            too_large ==> digits_value(s.subrange(start as int, i as int))
                > 0x8000_0000_0000_0000,
        decreases len - i,
    {
        let c = text.get_char(i);
        let code = c as u32;
        let ghost before = s.subrange(start as int, i as int);
        let ghost after = s.subrange(start as int, i + 1);
        proof {
            assert(after.drop_last() =~= before);
            assert(after.last() == c);
            lemma_digits_value_nonneg(before);
        }
        if code < 48 || code > 57 {
            proof {
                assert(!is_digit(after.last()));
                assert(s[0] == first);
                assert(s.drop_first() =~= s.subrange(1, len as int));
                if start == 1 {
                    assert(!is_digit(s.drop_first()[i - 1]));
                } else {
                    assert(!is_digit(s[i as int]));
                }
            }
            return None;
        }
        proof {
            assert forall|k: int| 0 <= k < after.len() implies is_digit(#[trigger] after[k]) by {
                if k < before.len() {
                    assert(after[k] == before[k]);
                }
            }
        }
        if !too_large {
            magnitude = magnitude * 10 + (code - 48) as u128;
            if magnitude > 0x8000_0000_0000_0000 {
                too_large = true;
            }
        }
        i = i + 1;
    }
    proof {
        let d = s.subrange(start as int, len as int);
        if start == 1 {
            assert(s.drop_first() =~= d);
        } else {
            assert(s =~= d);
            assert(s[0] != '-' && s[0] != '+');
        }
    }
    if too_large {
        return None;
    }
    if negative {
        if magnitude == 0x8000_0000_0000_0000 {
            Some(i64::MIN)
        } else {
            Some(-(magnitude as i64))
        }
    } else if magnitude > 0x7fff_ffff_ffff_ffff {
        None
    } else {
        Some(magnitude as i64)
    }
}

proof fn lemma_digit_char(d: int)
    requires
        0 <= d < 10,
    ensures
        is_digit(digit_char(d)),
        digit_value(digit_char(d)) == d,
{
    let t = seq!['0', '1', '2', '3', '4', '5', '6', '7', '8', '9'];
    assert(t[0] == '0' && t[1] == '1' && t[2] == '2' && t[3] == '3' && t[4] == '4');
    assert(t[5] == '5' && t[6] == '6' && t[7] == '7' && t[8] == '8' && t[9] == '9');
}

/// A decimal numeral consists of digits and denotes its number.
pub proof fn lemma_decimal_text_value(n: nat)
    ensures
        decimal_text(n).len() > 0,
        all_digits(decimal_text(n)),
        digits_value(decimal_text(n)) == n,
    decreases n,
{
    let s = decimal_text(n);
    if n < 10 {
        lemma_digit_char(n as int);
        assert(s.drop_last() =~= Seq::<char>::empty());
        assert(s.last() == digit_char(n as int));
        assert(digits_value(s) == 10 * digits_value(s.drop_last()) + digit_value(s.last()));
    } else {
        lemma_decimal_text_value(n / 10);
        lemma_digit_char((n % 10) as int);
        let p = decimal_text(n / 10);
        assert(s.drop_last() =~= p);
        assert(forall|i: int| 0 <= i < p.len() ==> s[i] == p[i]);
        assert(s.last() == digit_char((n % 10) as int));
        assert(digits_value(s) == 10 * digits_value(p) + digit_value(s.last()));
        assert(n == 10 * (n / 10) + n % 10);
    }
}

/// Reading back the decimal text of an integer gives the integer: `parse_i64`
/// inverts the numerals written by `to_text`.
pub proof fn lemma_parse_int_text(x: i64)
    ensures
        parse_i64_spec(int_text(x as int)) == Some(x),
{
    let s = int_text(x as int);
    if x < 0 {
        let d = decimal_text((-x) as nat);
        lemma_decimal_text_value((-x) as nat);
        assert(s.drop_first() =~= d);
    } else {
        let d = decimal_text(x as nat);
        lemma_decimal_text_value(x as nat);
        assert(is_digit(d[0]));
    }
}

/// Texts joined one after another.
pub open spec fn concat_texts(pieces: Seq<Seq<char>>) -> Seq<char>
    decreases pieces.len(),
{
    if pieces.len() == 0 {
        Seq::empty()
    } else {
        concat_texts(pieces.drop_last()) + pieces.last()
    }
}

/// The exponent that the text following ` * (p)` denotes: none stands for one,
/// `^digits` for the number the digits denote.
pub open spec fn exponent_read(x: Seq<char>) -> int {
    if x.len() == 0 {
        1
    } else {
        digits_value(x.drop_first())
    }
}

/// The text of a prime power `p^e` (`e >= 1`) is ` * (p)` followed by an exponent
/// text that reads back as `e`: nothing for `e = 1`, else `^` and the decimal digits
/// of `e`.
pub proof fn lemma_power_text_reads_back(p: Gz, e: nat)
    requires
        e >= 1,
    ensures
        power_text(p, e).take((" * ("@ + gaussian_text(p) + ")"@).len() as int) == " * ("@
            + gaussian_text(p) + ")"@,
        ({
            let x = power_text(p, e).skip((" * ("@ + gaussian_text(p) + ")"@).len() as int);
            &&& exponent_read(x) == e
            &&& x.len() == 0 <==> e == 1
            &&& x.len() > 0 ==> x[0] == '^' && x.len() >= 2 && all_digits(x.drop_first())
        }),
{
    reveal_strlit(" * (");
    reveal_strlit(")");
    let head = " * ("@ + gaussian_text(p) + ")"@;
    assert(head =~= seq![' ', '*', ' ', '('] + gaussian_text(p) + seq![')']);
    let t = power_text(p, e);
    let x = t.skip(head.len() as int);
    if e > 1 {
        lemma_decimal_text_value(e);
        assert(t =~= head + (seq!['^'] + decimal_text(e)));
        assert(t.take(head.len() as int) =~= head);
        assert(x =~= seq!['^'] + decimal_text(e));
        assert(x.drop_first() =~= decimal_text(e));
    } else {
        assert(t =~= head);
        assert(t.take(head.len() as int) =~= head);
        assert(x.len() == 0);
    }
}

/// The texts of successive prime powers, joined.
proof fn lemma_powers_text_pieces(s: Seq<(Gz, nat)>)
    ensures
        powers_text(s) == concat_texts(Seq::new(s.len(), |k: int| power_text(s[k].0, s[k].1))),
    decreases s.len(),
{
    let pieces = Seq::new(s.len(), |k: int| power_text(s[k].0, s[k].1));
    if s.len() == 0 {
        assert(concat_texts(pieces) =~= Seq::<char>::empty());
    } else {
        let t = s.drop_last();
        lemma_powers_text_pieces(t);
        let smaller = Seq::new(t.len(), |k: int| power_text(t[k].0, t[k].1));
        assert(pieces.drop_last() =~= smaller);
        assert(pieces.last() == power_text(s.last().0, s.last().1));
    }
}

/// The text of a factorization is the text of its unit followed by the texts of its
/// prime powers, in order.
pub proof fn lemma_factorization_text_pieces(u: Gz, s: Seq<(Gz, nat)>)
    ensures
        factorization_text((u, s)) == gaussian_text(u) + concat_texts(
            Seq::new(s.len(), |k: int| power_text(s[k].0, s[k].1)),
        ),
{
    lemma_powers_text_pieces(s);
}

/// The text of a listed class: the first bare, every later one after `, `.
pub open spec fn listed_class_text(s: Seq<Gz>, k: int) -> Seq<char> {
    if k == 0 {
        seq!['['] + gaussian_text(s[k]) + seq![']']
    } else {
        seq![',', ' ', '['] + gaussian_text(s[k]) + seq![']']
    }
}

/// The text of a support is `{`, then each listed class `[z]` in order, separated by
/// `, `, then `}`.
pub proof fn lemma_support_text_pieces(s: Seq<Gz>)
    ensures
        support_text(s) == seq!['{'] + concat_texts(
            Seq::new(s.len(), |k: int| listed_class_text(s, k)),
        ) + seq!['}'],
{
    lemma_classes_text_pieces(s);
}

proof fn lemma_classes_text_pieces(s: Seq<Gz>)
    ensures
        classes_text(s) == concat_texts(Seq::new(s.len(), |k: int| listed_class_text(s, k))),
    decreases s.len(),
{
    let pieces = Seq::new(s.len(), |k: int| listed_class_text(s, k));
    if s.len() == 0 {
        assert(concat_texts(pieces) =~= Seq::<char>::empty());
    } else if s.len() == 1 {
        assert(pieces.drop_last() =~= Seq::<Seq<char>>::empty());
        assert(concat_texts(pieces.drop_last()) =~= Seq::<char>::empty());
        assert(concat_texts(pieces) =~= class_text(s[0]));
    } else {
        let d = s.drop_last();
        lemma_classes_text_pieces(d);
        let smaller = Seq::new(d.len(), |k: int| listed_class_text(d, k));
        assert forall|k: int| 0 <= k < d.len() implies smaller[k] == pieces[k] by {
            assert(d[k] == s[k]);
        }
        assert(pieces.drop_last() =~= smaller);
        assert(pieces.last() =~= seq![',', ' '] + class_text(s.last()));
        assert(classes_text(s) =~= concat_texts(pieces));
    }
}

} // verus!
