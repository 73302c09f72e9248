use std::num::{IntErrorKind, ParseIntError};
use vstd::prelude::*;

verus! {

/// What the game says before it asks for the number of players.
pub const GREETING: &'static str = "Lets Play WAR!";

/// The error of a failed parse of an integer.
#[verifier::external_type_specification]
#[verifier::external_body]
pub struct ExParseIntError(ParseIntError);

/// A character with the Unicode property White_Space, the set that
/// `char::is_whitespace` documents.
pub open spec fn is_white_space(c: char) -> bool {
    let n = c as int;
    ||| 0x9 <= n <= 0xd
    ||| n == 0x20
    ||| n == 0x85
    ||| n == 0xa0
    ||| n == 0x1680
    ||| 0x2000 <= n <= 0x200a
    ||| n == 0x2028
    ||| n == 0x2029
    ||| n == 0x202f
    ||| n == 0x205f
    ||| n == 0x3000
}

/// `s` without its leading white space.
pub open spec fn trim_start(s: Seq<char>) -> Seq<char>
    decreases s.len(),
{
    if s.len() > 0 && is_white_space(s[0]) {
        trim_start(s.drop_first())
    } else {
        s
    }
}

/// `s` without its trailing white space.
pub open spec fn trim_end(s: Seq<char>) -> Seq<char>
    decreases s.len(),
{
    if s.len() > 0 && is_white_space(s.last()) {
        trim_end(s.drop_last())
    } else {
        s
    }
}

/// `s` without its leading and trailing white space.
pub open spec fn trimmed(s: Seq<char>) -> Seq<char> {
    trim_end(trim_start(s))
}

/// An ASCII decimal digit.
pub open spec fn is_digit(c: char) -> bool {
    '0' as int <= c as int <= '9' as int
}

/// The number that the decimal digits `ds` write.
pub open spec fn digits_value(ds: Seq<char>) -> nat
    decreases ds.len(),
{
    if ds.len() == 0 {
        0
    } else {
        digits_value(ds.drop_last()) * 10 + (ds.last() as int - '0' as int) as nat
    }
}

/// `s` without a leading `+`, if it has one.
pub open spec fn without_plus(s: Seq<char>) -> Seq<char> {
    if s.len() > 0 && s[0] == '+' {
        s.drop_first()
    } else {
        s
    }
}

/// `s` is an optional `+` followed by at least one decimal digit and
/// nothing else.
pub open spec fn is_decimal(s: Seq<char>) -> bool {
    let ds = without_plus(s);
    ds.len() > 0 && forall|i: int| 0 <= i < ds.len() ==> #[trigger] is_digit(ds[i])
}

/// The `usize` that `s` writes, as `str::parse::<usize>` reads it: an
/// optional `+`, then at least one decimal digit and nothing else, of a
/// value that fits. `None` where it writes none.
pub open spec fn usize_written(s: Seq<char>) -> Option<usize> {
    if is_decimal(s) && digits_value(without_plus(s)) <= usize::MAX {
        Some(digits_value(without_plus(s)) as usize)
    } else {
        None
    }
}

/// Why a text writes no `usize`.
#[derive(Clone, Copy, PartialEq, Eq, Structural, Debug)]
pub enum ParseFailure {
    /// The text is empty.
    Empty,
    /// The text holds a character that is no digit where a digit belongs.
    InvalidDigit,
    /// The number is too large for a `usize`.
    PosOverflow,
    /// Another reason that the standard library may name.
    Other,
}

/// A failed read of a number: the error that `str::parse` gave, and its kind.
#[derive(Debug)]
pub struct PlayerCountError {
    pub error: ParseIntError,
    pub kind: ParseFailure,
}

/// What the documentation of `usize::from_str_radix` and `IntErrorKind`
/// says of the kind of error for a text `s` that writes no `usize`: an
/// empty text is `Empty`; digits too large are `PosOverflow`; any other
/// text holds a misplaced character, `InvalidDigit`, unless the digits
/// before it are already too large; with no digit at all it is
/// `InvalidDigit`.
pub open spec fn failure_fits(s: Seq<char>, kind: ParseFailure) -> bool {
    &&& s.len() == 0 ==> kind == ParseFailure::Empty
    &&& s.len() > 0 && is_decimal(s) ==> kind == ParseFailure::PosOverflow
    &&& s.len() > 0 && !is_decimal(s) ==> (kind == ParseFailure::InvalidDigit || kind
        == ParseFailure::PosOverflow)
    &&& s.len() > 0 && (forall|i: int| 0 <= i < s.len() ==> !#[trigger] is_digit(s[i])) ==> kind
        == ParseFailure::InvalidDigit
}

/// `str::trim`: claimed to return the text without its leading and trailing
/// white space, as its documentation states.
#[verifier::external_body]
fn trim(s: &str) -> (t: &str)
    ensures
        t@ == trimmed(s@),
{
    s.trim()
}

/// `str::parse::<usize>`: claimed to succeed exactly on an optional `+`
/// followed by decimal digits whose value fits, with that value, as the
/// documentation of `usize::from_str_radix` states; on failure the error
/// comes back with its kind (`ParseIntError::kind`), which is as the
/// documentation of `IntErrorKind` describes (`failure_fits`).
#[verifier::external_body]
fn parse_usize(s: &str) -> (r: Result<usize, PlayerCountError>)
    ensures
        r is Ok <==> usize_written(s@) is Some,
        r matches Ok(n) ==> usize_written(s@) == Some(n),
        r matches Err(e) ==> failure_fits(s@, e.kind),
{
    match s.parse::<usize>() {
        Ok(n) => Ok(n),
        Err(error) => {
            let kind = match error.kind() {
                IntErrorKind::Empty => ParseFailure::Empty,
                IntErrorKind::InvalidDigit => ParseFailure::InvalidDigit,
                IntErrorKind::PosOverflow => ParseFailure::PosOverflow,
                _ => ParseFailure::Other,
            };
            Err(PlayerCountError { error, kind })
        },
    }
}

/// Reads the number of players from a line of input: the line without its
/// surrounding white space must be a `usize` in decimal. On failure, the
/// error and its kind.
pub fn parse_player_count(line: &str) -> (r: Result<usize, PlayerCountError>)
    ensures
        r is Ok <==> usize_written(trimmed(line@)) is Some,
        r matches Ok(n) ==> usize_written(trimmed(line@)) == Some(n),
        r matches Err(e) ==> failure_fits(trimmed(line@), e.kind),
{
    parse_usize(trim(line))
}

} // verus!
