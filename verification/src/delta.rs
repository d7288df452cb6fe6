use std::str::FromStr;
use vstd::prelude::*;

verus! {

/// Errors from parsing values of the configuration language.
#[derive(Debug, Clone, PartialEq, Eq)]
pub enum ParseError {
    /// A delta had no value after its sign; holds the trimmed input.
    Delta(String),
    /// The value inside a delta could not be parsed; holds the raw value.
    Value(String),
}

/// Whether `c` has the Unicode `White_Space` property, the set that
/// `str::trim` removes.
pub open spec fn is_whitespace(c: char) -> bool {
    let v = c as u32;
    ||| 0x9 <= v <= 0xd
    ||| v == 0x20
    ||| v == 0x85
    ||| v == 0xa0
    ||| v == 0x1680
    ||| 0x2000 <= v <= 0x200a
    ||| v == 0x2028
    ||| v == 0x2029
    ||| v == 0x202f
    ||| v == 0x205f
    ||| v == 0x3000
}

/// `s` without its leading whitespace.
pub open spec fn trim_start(s: Seq<char>) -> Seq<char>
    decreases s.len(),
{
    if s.len() > 0 && is_whitespace(s[0]) {
        trim_start(s.drop_first())
    } else {
        s
    }
}

/// `s` without its trailing whitespace.
pub open spec fn trim_end(s: Seq<char>) -> Seq<char>
    decreases s.len(),
{
    if s.len() > 0 && is_whitespace(s.last()) {
        trim_end(s.drop_last())
    } else {
        s
    }
}

/// `s` without leading and trailing whitespace.
pub open spec fn trimmed(s: Seq<char>) -> Seq<char> {
    trim_end(trim_start(s))
}

/// How a delta splits into its magnitude and sign: a leading `+` or `-` is
/// the sign, no sign is positive, and an empty magnitude is an error that
/// holds the trimmed input.
pub open spec fn spec_split_delta(s: Seq<char>) -> Result<(Seq<char>, bool), Seq<char>> {
    let t = trimmed(s);
    let (raw, is_negative) = if t.len() > 0 && t[0] == '+' {
        (t.drop_first(), false)
    } else if t.len() > 0 && t[0] == '-' {
        (t.drop_first(), true)
    } else {
        (t, false)
    };
    if raw.len() == 0 {
        Err(t)
    } else {
        Ok((raw, is_negative))
    }
}

fn char_is_whitespace(c: char) -> (r: bool)
    ensures
        r == is_whitespace(c),
{
    let v = c as u32;
    (0x9 <= v && v <= 0xd) || v == 0x20 || v == 0x85 || v == 0xa0 || v == 0x1680 || (0x2000 <= v
        && v <= 0x200a) || v == 0x2028 || v == 0x2029 || v == 0x202f || v == 0x205f || v == 0x3000
}

/// Removes leading and trailing whitespace.
pub fn trim(s: &str) -> (r: &str)
    ensures
        r@ == trimmed(s@),
{
    let len = s.unicode_len();
    let mut i: usize = 0;
    assert(s@.subrange(0, len as int) =~= s@);
    while i < len && char_is_whitespace(s.get_char(i))
        invariant
            len == s@.len(),
            i <= len,
            trim_start(s@) == trim_start(s@.subrange(i as int, len as int)),
        decreases len - i,
    {
        assert(s@.subrange(i as int, len as int).drop_first() =~= s@.subrange(
            i + 1,
            len as int,
        ));
        i = i + 1;
    }
    let ghost front = s@.subrange(i as int, len as int);
    assert(trim_start(front) == front);
    let mut j: usize = len;
    while j > i && char_is_whitespace(s.get_char(j - 1))
        invariant
            len == s@.len(),
            i <= j <= len,
            trim_end(front) == trim_end(s@.subrange(i as int, j as int)),
        decreases j - i,
    {
        assert(s@.subrange(i as int, j as int).drop_last() =~= s@.subrange(
            i as int,
            j - 1,
        ));
        j = j - 1;
    }
    s.substring_char(i, j)
}

/// Splits a delta into its magnitude and whether it is negative.
pub fn split_delta(unparsed: &str) -> (r: Result<(&str, bool), ParseError>)
    ensures
        match (r, spec_split_delta(unparsed@)) {
            (Ok((raw, neg)), Ok((spec_raw, spec_neg))) => raw@ == spec_raw && neg == spec_neg,
            (Err(ParseError::Delta(msg)), Err(t)) => msg@ == t,
            _ => false,
        },
{
    let unparsed = trim(unparsed);
    let len = unparsed.unicode_len();
    let (raw, is_negative) = if len > 0 && unparsed.get_char(0) == '+' {
        (unparsed.substring_char(1, len), false)
    } else if len > 0 && unparsed.get_char(0) == '-' {
        (unparsed.substring_char(1, len), true)
    } else {
        (unparsed, false)
    };
    proof {
        assert(unparsed@.drop_first() =~= unparsed@.subrange(1, len as int));
    }
    if raw.unicode_len() == 0 {
        return Err(ParseError::Delta(unparsed.to_owned()));
    }
    Ok((raw, is_negative))
}

/// The characters of a string, as contracts see them.
pub type CharSeq = Seq<char>;

/// A value that can stand as the magnitude of a [`Delta`]. Implementors
/// say what parsing gives in `spec_parse`.
pub trait ParseValue: Sized {
    /// What parsing `raw` gives.
    spec fn spec_parse(raw: CharSeq) -> Result<Self, ParseError>;

    /// Parses the magnitude of a delta.
    fn parse_value(raw: &str) -> (r: Result<Self, ParseError>)
        ensures
            r == Self::spec_parse(raw@),
    ;
}

/// A wrapper that indicates a value should be interpreted as a delta
/// (relative change).
#[derive(Debug, Clone, Copy, PartialEq)]
pub struct Delta<T> {
    pub inner: T,
    pub is_negative: bool,
}

/// The delta with the magnitude that parsing gave, or the error it gave.
pub open spec fn delta_from_parsed<T>(parsed: Result<T, ParseError>, is_negative: bool) -> Result<
    Delta<T>,
    ParseError,
> {
    match parsed {
        Ok(inner) => Ok(Delta { inner, is_negative }),
        Err(e) => Err(e),
    }
}

impl<T> Delta<T> {
    /// The delta with the magnitude that parsing the value gave, or the
    /// error that it gave.
    pub fn from_parsed(parsed: Result<T, ParseError>, is_negative: bool) -> (r: Result<
        Self,
        ParseError,
    >)
        ensures
            r == delta_from_parsed(parsed, is_negative),
    {
        match parsed {
            Ok(inner) => Ok(Delta { inner, is_negative }),
            Err(e) => Err(e),
        }
    }
}

impl<T: ParseValue> Delta<T> {
    /// Parses a delta: an optional sign followed by a value of `T`.
    ///
    /// The sign and the magnitude are those of `spec_split_delta`; an empty
    /// magnitude is `ParseError::Delta` holding the trimmed input, and
    /// otherwise the magnitude, without its sign, is parsed as a `T`.
    pub fn parse(unparsed: &str) -> (r: Result<Self, ParseError>)
        ensures
            spec_split_delta(unparsed@) matches Err(t) ==> (r matches Err(ParseError::Delta(msg))
                && msg@ == t),
            spec_split_delta(unparsed@) matches Ok((raw, neg)) ==> r == delta_from_parsed(
                T::spec_parse(raw),
                neg,
            ),
    {
        let (raw, is_negative) = split_delta(unparsed)?;
        Delta::from_parsed(T::parse_value(raw), is_negative)
    }
}

impl<T: ParseValue> FromStr for Delta<T> {
    type Err = ParseError;

    /// Parses a delta, as `Delta::parse` does.
    fn from_str(unparsed: &str) -> (r: Result<Self, ParseError>)
        ensures
            spec_split_delta(unparsed@) matches Err(t) ==> (r matches Err(ParseError::Delta(msg))
                && msg@ == t),
            spec_split_delta(unparsed@) matches Ok((raw, neg)) ==> r == delta_from_parsed(
                T::spec_parse(raw),
                neg,
            ),
    {
        Delta::parse(unparsed)
    }
}

} // verus!
