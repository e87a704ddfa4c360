//! Errors reported by the reader.

use vstd::prelude::*;

verus! {

#[verifier::external_type_specification]
#[verifier::external_body]
pub struct ExIoError(std::io::Error);

/// Errors reported while reading a BSP file.
#[derive(Debug)]
pub enum BspError {
    /// An I/O error from the underlying file.
    Io(std::io::Error),
    /// The bytes are not a DAF/SPK file; the text says why.
    InvalidFormat(String),
    /// No segment for the requested body (NAIF ID) covers the requested time.
    TargetNotFound(i32),
    /// A segment of an SPK type other than 2 or 3 was selected.
    UnsupportedType(i32),
    /// The requested time lies outside the coverage of the selected segment.
    OutOfCoverage { input: String, range: String },
}

impl vstd::std_specs::convert::FromSpecImpl<std::io::Error> for BspError {
    open spec fn obeys_from_spec() -> bool {
        true
    }

    open spec fn from_spec(e: std::io::Error) -> Self {
        BspError::Io(e)
    }
}

impl From<std::io::Error> for BspError {
    fn from(e: std::io::Error) -> (r: Self) {
        BspError::Io(e)
    }
}

/// The decimal digits of `n`, most significant first.
pub open spec fn decimal_digits(n: nat) -> Seq<char>
    decreases n,
{
    if n < 10 {
        seq![digit_char(n)]
    } else {
        decimal_digits(n / 10) + seq![digit_char(n % 10)]
    }
}

/// The character of a decimal digit.
pub open spec fn digit_char(d: nat) -> char {
    (('0' as u32) + d) as char
}

/// The decimal text of an integer, with a leading `-` when it is negative.
pub open spec fn decimal_text(n: int) -> Seq<char> {
    if n < 0 {
        seq!['-'] + decimal_digits((-n) as nat)
    } else {
        decimal_digits(n as nat)
    }
}

/// The text of a decimal digit.
fn digit_str(d: u64) -> (r: &'static str)
    requires
        d < 10,
    ensures
        r@ == seq![digit_char(d as nat)],
{
    proof {
        reveal_strlit("0");
        reveal_strlit("1");
        reveal_strlit("2");
        reveal_strlit("3");
        reveal_strlit("4");
        reveal_strlit("5");
        reveal_strlit("6");
        reveal_strlit("7");
        reveal_strlit("8");
        reveal_strlit("9");
    }
    match d {
        0 => "0",
        1 => "1",
        2 => "2",
        3 => "3",
        4 => "4",
        5 => "5",
        6 => "6",
        7 => "7",
        8 => "8",
        _ => "9",
    }
}

/// Appends the decimal digits of `n` to `out`.
fn push_decimal_digits(out: &mut String, n: u64)
    ensures
        final(out)@ == old(out)@ + decimal_digits(n as nat),
    decreases n,
{
    if n >= 10 {
        push_decimal_digits(out, n / 10);
    }
    out.append(digit_str(n % 10));
}

/// Appends the decimal text of `n` to `out`.
fn push_decimal(out: &mut String, n: i32)
    ensures
        final(out)@ == old(out)@ + decimal_text(n as int),
{
    if n < 0 {
        proof {
            reveal_strlit("-");
        }
        out.append("-");
        push_decimal_digits(out, (-(n as i64)) as u64);
        proof {
            assert(final(out)@ =~= old(out)@ + decimal_text(n as int));
        }
    } else {
        push_decimal_digits(out, n as u64);
    }
}

/// The text of an I/O error.
///
/// Calls the `Display` implementation of `std::io::Error` (through
/// `to_string`). Nothing is claimed of the text.
#[verifier::external_body]
fn io_error_text(e: &std::io::Error) -> String {
    e.to_string()
}

impl BspError {
    /// The text of the error.
    pub fn message(&self) -> (r: String)
        ensures
            self matches BspError::Io(_) ==> r@.len() >= 10 && r@.subrange(0, 10)
                == "IO error: "@,
            self matches BspError::InvalidFormat(m) ==> r@ == "Invalid BSP format: "@ + m@,
            self matches BspError::TargetNotFound(id) ==> r@ == "Target NAIF ID "@ + decimal_text(
                id as int,
            ) + " not found"@,
            self matches BspError::UnsupportedType(t) ==> r@ == "Unsupported SPK type: "@
                + decimal_text(t as int),
            self matches BspError::OutOfCoverage { input, range } ==> r@ == "JD out of coverage: "@
                + input@ + " (valid: "@ + range@ + ")"@,
    {
        match self {
            BspError::Io(e) => {
                let mut r = String::from_str("IO error: ");
                proof {
                    reveal_strlit("IO error: ");
                }
                let text = io_error_text(e);
                r.append(text.as_str());
                r
            },
            BspError::InvalidFormat(msg) => {
                let mut r = String::from_str("Invalid BSP format: ");
                r.append(msg.as_str());
                r
            },
            BspError::TargetNotFound(id) => {
                let mut r = String::from_str("Target NAIF ID ");
                push_decimal(&mut r, *id);
                r.append(" not found");
                r
            },
            BspError::UnsupportedType(t) => {
                let mut r = String::from_str("Unsupported SPK type: ");
                push_decimal(&mut r, *t);
                r
            },
            BspError::OutOfCoverage { input, range } => {
                let mut r = String::from_str("JD out of coverage: ");
                r.append(input.as_str());
                r.append(" (valid: ");
                r.append(range.as_str());
                r.append(")");
                r
            },
        }
    }
}

} // verus!
