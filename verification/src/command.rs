//! The command line of the experiment tool: which command the arguments name,
//! their coordinates, and the messages for malformed arguments.
use vstd::prelude::*;
use vstd::string::{StrSliceExecFns, StringExecFns};

use crate::arithmetic::GaussianInt;
use crate::text::{int_text, parse_i64, parse_i64_spec, push_int};
use crate::window::MAX_WINDOW_RADIUS;

verus! {

/// A command of the experiment tool with its parsed arguments.
#[derive(Clone, Copy, Debug, PartialEq, Eq, Structural)]
pub enum Command {
    Help,
    Gcd { left: GaussianInt, right: GaussianInt },
    Factor { value: GaussianInt },
    Support { value: GaussianInt },
    Coprime { left: GaussianInt, right: GaussianInt },
    BasicOpen { index: GaussianInt, point: GaussianInt },
    Indistinguishable { left: GaussianInt, right: GaussianInt },
    Specializes { source: GaussianInt, target: GaussianInt },
    QuotientOpen { point: GaussianInt, forbidden: GaussianInt },
    Window { radius: i64, index: GaussianInt, show_classes: bool },
}

/// The texts of the arguments.
pub open spec fn arg_views(args: Seq<String>) -> Seq<Seq<char>> {
    args.map_values(|s: String| s@)
}

/// An executable result agrees with a specified one, messages compared as text.
pub open spec fn result_matches<T>(r: Result<T, String>, s: Result<T, Seq<char>>) -> bool {
    match r {
        Ok(v) => s == Ok::<T, Seq<char>>(v),
        Err(m) => s == Err::<T, Seq<char>>(m@),
    }
}

/// The message for arguments that do not fit a command's usage.
pub open spec fn usage_error_text(usage: Seq<char>) -> Seq<char> {
    "invalid arguments\nusage: "@ + usage
}

/// The message for an argument that is not a signed 64-bit integer.
pub open spec fn number_error_text(name: Seq<char>, value: Seq<char>) -> Seq<char> {
    "invalid "@ + name + " '"@ + value + "': expected a signed 64-bit integer"@
}

/// The integer argument `value` called `name` in messages.
pub open spec fn number_arg_spec(value: Seq<char>, name: Seq<char>) -> Result<i64, Seq<char>> {
    match parse_i64_spec(value) {
        Some(v) => Ok(v),
        None => Err(number_error_text(name, value)),
    }
}

/// The Gaussian integer given by the arguments at `offset` and `offset + 1`.
pub open spec fn gaussian_spec(args: Seq<Seq<char>>, offset: int, name: Seq<char>) -> Result<
    GaussianInt,
    Seq<char>,
> {
    match number_arg_spec(args[offset], name + " real coordinate"@) {
        Err(m) => Err(m),
        Ok(re) => match number_arg_spec(args[offset + 1], name + " imaginary coordinate"@) {
            Err(m) => Err(m),
            Ok(im) => Ok(GaussianInt { re, im }),
        },
    }
}

/// A command taking one Gaussian integer.
pub open spec fn single_spec(args: Seq<Seq<char>>, usage: Seq<char>, name: Seq<char>) -> Result<
    GaussianInt,
    Seq<char>,
> {
    if args.len() != 3 {
        Err(usage_error_text(usage))
    } else {
        gaussian_spec(args, 1, name)
    }
}

/// A command taking two Gaussian integers.
pub open spec fn pair_spec(
    args: Seq<Seq<char>>,
    usage: Seq<char>,
    first: Seq<char>,
    second: Seq<char>,
) -> Result<(GaussianInt, GaussianInt), Seq<char>> {
    if args.len() != 5 {
        Err(usage_error_text(usage))
    } else {
        match gaussian_spec(args, 1, first) {
            Err(m) => Err(m),
            Ok(a) => match gaussian_spec(args, 3, second) {
                Err(m) => Err(m),
                Ok(b) => Ok((a, b)),
            },
        }
    }
}

/// The message for a window radius out of range.
pub open spec fn radius_error_text() -> Seq<char> {
    "radius must be between 0 and "@ + int_text(MAX_WINDOW_RADIUS as int)
}

/// The `window` command: a radius within range, an index, and an optional `--classes`.
pub open spec fn window_spec(args: Seq<Seq<char>>) -> Result<Command, Seq<char>> {
    let usage = "gip-cli window RADIUS INDEX_RE INDEX_IM [--classes]"@;
    if args.len() != 4 && args.len() != 5 {
        Err(usage_error_text(usage))
    } else if args.len() == 5 && args[4] != "--classes"@ {
        Err(usage_error_text(usage))
    } else {
        match number_arg_spec(args[1], "radius"@) {
            Err(m) => Err(m),
            Ok(radius) => if !(0 <= radius <= MAX_WINDOW_RADIUS) {
                Err(radius_error_text())
            } else {
                match gaussian_spec(args, 2, "index"@) {
                    Err(m) => Err(m),
                    Ok(index) => Ok(Command::Window { radius, index, show_classes: args.len() == 5 }),
                }
            },
        }
    }
}

/// The command that the arguments name, or the message explaining why they name none.
pub open spec fn parse_command_spec(args: Seq<Seq<char>>) -> Result<Command, Seq<char>> {
    if args.len() == 0 {
        Ok(Command::Help)
    } else {
        let c = args[0];
        if c == "help"@ || c == "--help"@ || c == "-h"@ {
            if args.len() == 1 {
                Ok(Command::Help)
            } else {
                Err(usage_error_text("gip-cli --help"@))
            }
        } else if c == "gcd"@ {
            match pair_spec(args, "gip-cli gcd A_RE A_IM B_RE B_IM"@, "A"@, "B"@) {
                Ok((left, right)) => Ok(Command::Gcd { left, right }),
                Err(m) => Err(m),
            }
        } else if c == "factor"@ {
            match single_spec(args, "gip-cli factor RE IM"@, "value"@) {
                Ok(value) => Ok(Command::Factor { value }),
                Err(m) => Err(m),
            }
        } else if c == "support"@ {
            match single_spec(args, "gip-cli support RE IM"@, "value"@) {
                Ok(value) => Ok(Command::Support { value }),
                Err(m) => Err(m),
            }
        } else if c == "coprime"@ {
            match pair_spec(args, "gip-cli coprime A_RE A_IM B_RE B_IM"@, "A"@, "B"@) {
                Ok((left, right)) => Ok(Command::Coprime { left, right }),
                Err(m) => Err(m),
            }
        } else if c == "basic-open"@ {
            match pair_spec(
                args,
                "gip-cli basic-open INDEX_RE INDEX_IM POINT_RE POINT_IM"@,
                "index"@,
                "point"@,
            ) {
                Ok((index, point)) => Ok(Command::BasicOpen { index, point }),
                Err(m) => Err(m),
            }
        } else if c == "indistinguishable"@ {
            match pair_spec(args, "gip-cli indistinguishable A_RE A_IM B_RE B_IM"@, "A"@, "B"@) {
                Ok((left, right)) => Ok(Command::Indistinguishable { left, right }),
                Err(m) => Err(m),
            }
        } else if c == "specializes"@ {
            match pair_spec(
                args,
                "gip-cli specializes SOURCE_RE SOURCE_IM TARGET_RE TARGET_IM"@,
                "source"@,
                "target"@,
            ) {
                Ok((source, target)) => Ok(Command::Specializes { source, target }),
                Err(m) => Err(m),
            }
        } else if c == "quotient-open"@ {
            match pair_spec(
                args,
                "gip-cli quotient-open POINT_RE POINT_IM FORBIDDEN_RE FORBIDDEN_IM"@,
                "point"@,
                "forbidden index"@,
            ) {
                Ok((point, forbidden)) => Ok(Command::QuotientOpen { point, forbidden }),
                Err(m) => Err(m),
            }
        } else if c == "window"@ {
            window_spec(args)
        } else {
            Err("unknown command '"@ + c + "' (run 'gip-cli --help')"@)
        }
    }
}

/// Commands whose arguments are in range: a window radius is at most `MAX_WINDOW_RADIUS`.
pub open spec fn command_in_range(command: Command) -> bool {
    command matches Command::Window { radius, .. } ==> 0 <= radius <= MAX_WINDOW_RADIUS
}

/// Whether two texts are equal.
fn text_equals(s: &str, t: &str) -> (r: bool)
    ensures
        r == (s@ == t@),
{
    let n = s.unicode_len();
    if n != t.unicode_len() {
        return false;
    }
    let mut i: usize = 0;
    while i < n
        invariant
            n == s@.len(),
            n == t@.len(),
            i <= n,
            forall|k: int| 0 <= k < i ==> s@[k] == t@[k],
        decreases n - i,
    {
        if s.get_char(i) as u32 != t.get_char(i) as u32 {
            return false;
        }
        i = i + 1;
    }
    assert(s@ =~= t@);
    true
}

/// The message for arguments that do not fit a command's usage.
pub fn usage_error(usage: &str) -> (r: String)
    ensures
        r@ == usage_error_text(usage@),
{
    let mut text = String::new();
    text.append("invalid arguments\nusage: ");
    text.append(usage);
    text
}

/// Checks the number of arguments of a command.
pub fn exact_arg_count(args: &Vec<String>, expected: usize, usage: &str) -> (r: Result<(), String>)
    ensures
        result_matches(
            r,
            if args.len() == expected {
                Ok(())
            } else {
                Err(usage_error_text(usage@))
            },
        ),
{
    if args.len() == expected {
        Ok(())
    } else {
        Err(usage_error(usage))
    }
}

/// Reads the integer argument `value`, called `name` in the error message.
pub fn parse_i64_arg(value: &str, name: &str) -> (r: Result<i64, String>)
    ensures
        result_matches(r, number_arg_spec(value@, name@)),
{
    match parse_i64(value) {
        Some(v) => Ok(v),
        None => {
            let mut text = String::new();
            text.append("invalid ");
            text.append(name);
            text.append(" '");
            text.append(value);
            text.append("': expected a signed 64-bit integer");
            Err(text)
        },
    }
}

/// Reads the Gaussian integer given by the arguments at `offset` and `offset + 1`.
pub fn gaussian(args: &Vec<String>, offset: usize, name: &str) -> (r: Result<GaussianInt, String>)
    requires
        offset + 1 < args.len(),
    ensures
        result_matches(r, gaussian_spec(arg_views(args@), offset as int, name@)),
{
    let mut real_name = String::new();
    real_name.append(name);
    real_name.append(" real coordinate");
    let mut imaginary_name = String::new();
    imaginary_name.append(name);
    imaginary_name.append(" imaginary coordinate");
    let re = parse_i64_arg(args[offset].as_str(), real_name.as_str())?;
    let im = parse_i64_arg(args[offset + 1].as_str(), imaginary_name.as_str())?;
    Ok(GaussianInt::new(re, im))
}

/// Reads a command taking one Gaussian integer.
fn parse_single(args: &Vec<String>, usage: &str, name: &str) -> (r: Result<GaussianInt, String>)
    ensures
        result_matches(r, single_spec(arg_views(args@), usage@, name@)),
{
    exact_arg_count(args, 3, usage)?;
    gaussian(args, 1, name)
}

/// Reads a command taking two Gaussian integers.
fn parse_pair(args: &Vec<String>, usage: &str, first: &str, second: &str) -> (r: Result<
    (GaussianInt, GaussianInt),
    String,
>)
    ensures
        result_matches(r, pair_spec(arg_views(args@), usage@, first@, second@)),
{
    exact_arg_count(args, 5, usage)?;
    let a = gaussian(args, 1, first)?;
    let b = gaussian(args, 3, second)?;
    Ok((a, b))
}

/// Reads the `window` command.
fn parse_window(args: &Vec<String>) -> (r: Result<Command, String>)
    ensures
        result_matches(r, window_spec(arg_views(args@))),
{
    let usage = "gip-cli window RADIUS INDEX_RE INDEX_IM [--classes]";
    if args.len() != 4 && args.len() != 5 {
        return Err(usage_error(usage));
    }
    let show_classes = args.len() == 5;
    if show_classes && !text_equals(args[4].as_str(), "--classes") {
        return Err(usage_error(usage));
    }
    let radius = parse_i64_arg(args[1].as_str(), "radius")?;
    if !(0 <= radius && radius <= MAX_WINDOW_RADIUS) {
        let mut text = String::new();
        text.append("radius must be between 0 and ");
        push_int(&mut text, MAX_WINDOW_RADIUS);
        return Err(text);
    }
    let index = gaussian(args, 2, "index")?;
    Ok(Command::Window { radius, index, show_classes })
}

/// Determines the command named by the arguments (the first names the command),
/// or the message explaining why they name none. No arguments ask for help.
pub fn parse_command(args: &Vec<String>) -> (r: Result<Command, String>)
    ensures
        result_matches(r, parse_command_spec(arg_views(args@))),
        r matches Ok(c) ==> command_in_range(c),
{
    if args.len() == 0 {
        return Ok(Command::Help);
    }
    let command = args[0].as_str();
    if text_equals(command, "help") || text_equals(command, "--help") || text_equals(command, "-h") {
        exact_arg_count(args, 1, "gip-cli --help")?;
        return Ok(Command::Help);
    }
    if text_equals(command, "gcd") {
        let (left, right) = parse_pair(args, "gip-cli gcd A_RE A_IM B_RE B_IM", "A", "B")?;
        Ok(Command::Gcd { left, right })
    } else if text_equals(command, "factor") {
        let value = parse_single(args, "gip-cli factor RE IM", "value")?;
        Ok(Command::Factor { value })
    } else if text_equals(command, "support") {
        let value = parse_single(args, "gip-cli support RE IM", "value")?;
        Ok(Command::Support { value })
    } else if text_equals(command, "coprime") {
        let (left, right) = parse_pair(args, "gip-cli coprime A_RE A_IM B_RE B_IM", "A", "B")?;
        Ok(Command::Coprime { left, right })
    } else if text_equals(command, "basic-open") {
        let (index, point) = parse_pair(
            args,
            "gip-cli basic-open INDEX_RE INDEX_IM POINT_RE POINT_IM",
            "index",
            "point",
        )?;
        Ok(Command::BasicOpen { index, point })
    } else if text_equals(command, "indistinguishable") {
        let (left, right) = parse_pair(
            args,
            "gip-cli indistinguishable A_RE A_IM B_RE B_IM",
            "A",
            "B",
        )?;
        Ok(Command::Indistinguishable { left, right })
    } else if text_equals(command, "specializes") {
        let (source, target) = parse_pair(
            args,
            "gip-cli specializes SOURCE_RE SOURCE_IM TARGET_RE TARGET_IM",
            "source",
            "target",
        )?;
        Ok(Command::Specializes { source, target })
    } else if text_equals(command, "quotient-open") {
        let (point, forbidden) = parse_pair(
            args,
            "gip-cli quotient-open POINT_RE POINT_IM FORBIDDEN_RE FORBIDDEN_IM",
            "point",
            "forbidden index",
        )?;
        Ok(Command::QuotientOpen { point, forbidden })
    } else if text_equals(command, "window") {
        parse_window(args)
    } else {
        let mut text = String::new();
        text.append("unknown command '");
        text.append(command);
        text.append("' (run 'gip-cli --help')");
        Err(text)
    }
}

} // verus!
