//! The command-line surface: the commands, and turning the options of the
//! prepare command into `PrepareOpts`.
use vstd::prelude::*;
use crate::prepare::PrepareOpts;

verus! {

/// `std::num::ParseIntError`, the error of `u8::from_str`: carried through
/// unopened.
#[verifier::external_type_specification]
#[verifier::external_body]
pub struct ExParseIntError(std::num::ParseIntError);

/// The top-level commands.
#[derive(Debug)]
pub enum Command {
    /// Work on a PASCAL-VOC data set.
    PascalVoc(PascalVoc),
}

/// The PASCAL-VOC commands.
#[derive(Debug)]
pub enum PascalVoc {
    /// Prepare a PASCAL-VOC data set: write the label map and the record
    /// files of a training set and a test set.
    Prepare(PrepareCliOpts),
}

/// The options of the prepare command, as given.
#[derive(Debug)]
pub struct PrepareCliOpts {
    /// Input directory, searched recursively.
    pub input: String,
    /// Output directory.
    pub output: String,
    /// Percentage of the data placed in the test set, written `20`, `20%` or
    /// `20/100`.
    pub retain: String,
}

/// Why the options could not be read.
#[derive(Debug)]
pub enum CliError {
    /// The ratio is not an integer from 0 to 255.
    Integer(std::num::ParseIntError),
}

/// Whether every character is an ASCII digit.
pub open spec fn all_digits(s: Seq<char>) -> bool {
    forall|i: int| 0 <= i < s.len() ==> '0' <= #[trigger] s[i] <= '9'
}

/// The value of a sequence of ASCII digits.
pub open spec fn digits_value(s: Seq<char>) -> nat
    decreases s.len(),
{
    if s.len() == 0 {
        0
    } else {
        digits_value(s.drop_last()) * 10 + ((s.last() as u32) - ('0' as u32)) as nat
    }
}

/// What `u8::from_str` reads from `s`: an optional `+` followed by one or more
/// ASCII digits whose value is at most 255.
pub open spec fn parsed_u8(s: Seq<char>) -> Option<u8> {
    let digits = if s.len() > 0 && s[0] == '+' {
        s.drop_first()
    } else {
        s
    };
    if digits.len() > 0 && all_digits(digits) && digits_value(digits) <= 255 {
        Some(digits_value(digits) as u8)
    } else {
        None
    }
}

/// Relies on `<u8 as std::str::FromStr>::from_str`: it accepts an optional
/// `+` followed by ASCII digits whose value fits in a `u8`, and fails on
/// anything else.
#[verifier::external_body]
fn parse_u8(s: &str) -> (r: Result<u8, std::num::ParseIntError>)
    ensures
        match r {
            Ok(v) => parsed_u8(s@) == Some(v),
            Err(_) => parsed_u8(s@) is None,
        },
{
    <u8 as std::str::FromStr>::from_str(s)
}

/// The position of the first `c` in `s`.
pub open spec fn first_index(s: Seq<char>, c: char) -> Option<int> {
    if s.contains(c) {
        Some(choose|i: int| 0 <= i < s.len() && s[i] == c && forall|j: int| 0 <= j < i ==> s[j] != c)
    } else {
        None
    }
}

/// The number part of a ratio: what precedes the first `/`, else what
/// precedes the first `%`, else all of it.
pub open spec fn ratio_digits(s: Seq<char>) -> Seq<char> {
    match first_index(s, '/') {
        Some(i) => s.take(i),
        None => match first_index(s, '%') {
            Some(i) => s.take(i),
            None => s,
        },
    }
}

/// The position of the first `c` in `s`.
fn find_char(s: &str, c: char) -> (r: Option<usize>)
    ensures
        match r {
            Some(i) => i < s@.len() && first_index(s@, c) == Some(i as int),
            None => first_index(s@, c) is None,
        },
{
    let n = s.unicode_len();
    let mut i: usize = 0;
    while i < n
        invariant
            n == s@.len(),
            i <= n,
            forall|j: int| 0 <= j < i ==> s@[j] != c,
        decreases n - i,
    {
        if s.get_char(i) == c {
            proof {
                assert(s@.contains(c));
                let k = choose|k: int|
                    0 <= k < s@.len() && s@[k] == c && forall|j: int| 0 <= j < k ==> s@[j] != c;
                assert(k == i) by {
                    if k < i {
                        assert(s@[k] != c);
                    } else if k > i {
                        assert(s@[i as int] != c);
                    }
                }
            }
            return Some(i);
        }
        i = i + 1;
    }
    proof {
        assert(!s@.contains(c));
    }
    None
}

/// Reads a ratio written `20`, `20%` or `20/100` as the integer before the
/// first `/` (or else before the first `%`).
pub fn parse_ratio(retain: &str) -> (r: Result<u8, CliError>)
    ensures
        match r {
            Ok(v) => parsed_u8(ratio_digits(retain@)) == Some(v),
            Err(_) => parsed_u8(ratio_digits(retain@)) is None,
        },
{
    let digits = match find_char(retain, '/') {
        Some(i) => retain.substring_char(0, i),
        None => match find_char(retain, '%') {
            Some(i) => retain.substring_char(0, i),
            None => retain,
        },
    };
    match parse_u8(digits) {
        Ok(v) => Ok(v),
        Err(e) => Err(CliError::Integer(e)),
    }
}

impl PrepareOpts {
    /// The options of a preparation run, from the prepare command's options.
    pub fn from_cli(cli: PrepareCliOpts) -> (r: Result<PrepareOpts, CliError>)
        ensures
            match r {
                Ok(opts) => {
                    &&& parsed_u8(ratio_digits(cli.retain@)) == Some(opts.test_set_ratio)
                    &&& opts.input == cli.input
                    &&& opts.output == cli.output
                },
                Err(_) => parsed_u8(ratio_digits(cli.retain@)) is None,
            },
    {
        let ratio = parse_ratio(cli.retain.as_str());
        match ratio {
            Ok(test_set_ratio) => Ok(PrepareOpts { input: cli.input, output: cli.output, test_set_ratio }),
            Err(e) => Err(e),
        }
    }
}

} // verus!
