use vstd::prelude::*;
use vstd::string::StringSliceAdditionalSpecFns;
use crate::geometry::{AspectRatio, Dimension};

verus! {

/// Why a "W:H" or "WxH" text was refused.
#[derive(Debug, Clone, Copy, PartialEq, Eq)]
pub enum ParseError {
    /// The separator is missing or repeated, or text follows the second number.
    Separator,
    /// A side is not a decimal number that fits in 32 bits.
    ParseInt,
}

pub open spec fn is_digit(b: u8) -> bool {
    48 <= b <= 57
}

/// The number of decimal digits that `s` starts with.
pub open spec fn digit_run(s: Seq<u8>) -> nat
    decreases s.len(),
{
    if s.len() == 0 || !is_digit(s[0]) {
        0
    } else {
        1 + digit_run(s.drop_first())
    }
}

/// The value of a string of decimal digits.
pub open spec fn digits_value(s: Seq<u8>) -> nat
    decreases s.len(),
{
    if s.len() == 0 {
        0
    } else {
        digits_value(s.drop_last()) * 10 + (s.last() - 48) as nat
    }
}

/// Index of the first `sep` in `s`, or its length when there is none.
pub open spec fn first_index(s: Seq<u8>, sep: u8) -> nat
    decreases s.len(),
{
    if s.len() == 0 {
        0
    } else if s[0] == sep {
        0
    } else {
        1 + first_index(s.drop_first(), sep)
    }
}

/// Two decimal numbers separated by one `sep`: the separator must occur
/// exactly once; the left side must be a number; the right side must be a
/// number, and digits followed by other text count as trailing content.
pub open spec fn parse_pair_spec(s: Seq<u8>, sep: u8) -> Result<(nat, nat), ParseError> {
    let i = first_index(s, sep) as int;
    let left = s.subrange(0, i);
    let right = s.subrange(i + 1, s.len() as int);
    if i >= s.len() || first_index(right, sep) < right.len() {
        Err(ParseError::Separator)
    } else if left.len() == 0 || digit_run(left) < left.len() || digit_run(right) == 0 {
        Err(ParseError::ParseInt)
    } else if digit_run(right) < right.len() {
        Err(ParseError::Separator)
    } else if digits_value(left) > u32::MAX || digits_value(right) > u32::MAX {
        Err(ParseError::ParseInt)
    } else {
        Ok((digits_value(left), digits_value(right)))
    }
}

/// Index of the first `sep` at or after `from`, or the end.
fn find(s: &[u8], sep: u8, from: usize) -> (r: usize)
    requires
        from <= s@.len(),
    ensures
        r == from + first_index(s@.subrange(from as int, s@.len() as int), sep),
        r <= s@.len(),
{
    let mut i = from;
    while i < s.len() && s[i] != sep
        invariant
            from <= i <= s@.len(),
            first_index(s@.subrange(from as int, s@.len() as int), sep) == (i - from) + first_index(
                s@.subrange(i as int, s@.len() as int),
                sep,
            ),
        decreases s.len() - i,
    {
        proof {
            assert(s@.subrange(i as int, s@.len() as int).drop_first() == s@.subrange(
                i as int + 1,
                s@.len() as int,
            ));
        }
        i += 1;
    }
    i
}

/// Number of digits from `from` on, stopping at `end`.
fn run_of_digits(s: &[u8], from: usize, end: usize) -> (r: usize)
    requires
        from <= end <= s@.len(),
    ensures
        r == from + digit_run(s@.subrange(from as int, end as int)),
        r <= end,
{
    let mut i = from;
    while i < end && 48 <= s[i] && s[i] <= 57
        invariant
            from <= i <= end <= s@.len(),
            digit_run(s@.subrange(from as int, end as int)) == (i - from) + digit_run(
                s@.subrange(i as int, end as int),
            ),
        decreases end - i,
    {
        proof {
            assert(s@.subrange(i as int, end as int).drop_first() == s@.subrange(i as int + 1, end as int));
        }
        i += 1;
    }
    i
}

/// The value of the digits from `from` to `end`, capped at `u32::MAX + 1`.
fn capped_value(s: &[u8], from: usize, end: usize) -> (r: u64)
    requires
        from <= end <= s@.len(),
        digit_run(s@.subrange(from as int, end as int)) == end - from,
    ensures
        r == if digits_value(s@.subrange(from as int, end as int)) > u32::MAX {
            u32::MAX as nat + 1
        } else {
            digits_value(s@.subrange(from as int, end as int))
        },
{
    let cap: u64 = 0x1_0000_0000;
    let mut v: u64 = 0;
    let mut i = from;
    proof {
        let sub = s@.subrange(from as int, end as int);
        lemma_digit_run_all(sub);
        assert forall|k: int| from <= k < end implies is_digit(#[trigger] s@[k]) by {
            assert(s@[k] == sub[k - from]);
        }
    }
    while i < end
        invariant
            from <= i <= end <= s@.len(),
            forall|k: int| from <= k < end ==> is_digit(#[trigger] s@[k]),
            v == if digits_value(s@.subrange(from as int, i as int)) > u32::MAX {
                cap as nat
            } else {
                digits_value(s@.subrange(from as int, i as int))
            },
            cap == u32::MAX + 1,
        decreases end - i,
    {
        let d = (s[i] - 48) as u64;
        proof {
            assert(s@.subrange(from as int, i as int + 1).drop_last() == s@.subrange(from as int, i as int));
            assert(s@.subrange(from as int, i as int + 1).last() == s@[i as int]);
        }
        let next = v * 10 + d;
        v = if next > u32::MAX as u64 {
            cap
        } else {
            next
        };
        i += 1;
    }
    v
}

/// Every byte of a string that is all digits is a digit.
proof fn lemma_digit_run_all(s: Seq<u8>)
    requires
        digit_run(s) == s.len(),
    ensures
        forall|k: int| 0 <= k < s.len() ==> is_digit(#[trigger] s[k]),
    decreases s.len(),
{
    if s.len() > 0 {
        lemma_digit_run_all(s.drop_first());
        assert forall|k: int| 0 <= k < s.len() implies is_digit(#[trigger] s[k]) by {
            if k > 0 {
                assert(s[k] == s.drop_first()[k - 1]);
            }
        }
    }
}

/// Reads two decimal numbers separated by `sep` (see [`parse_pair_spec`]).
pub fn parse_pair(s: &[u8], sep: u8) -> (r: Result<(usize, usize), ParseError>)
    ensures
        match parse_pair_spec(s@, sep) {
            Ok((a, b)) => r == Ok::<(usize, usize), ParseError>((a as usize, b as usize)),
            Err(e) => r == Err::<(usize, usize), ParseError>(e),
        },
{
    let len = s.len();
    let i = find(s, sep, 0);
    proof {
        assert(s@.subrange(0, len as int) == s@);
    }
    if i >= len {
        return Err(ParseError::Separator);
    }
    let j = find(s, sep, i + 1);
    if j < len {
        return Err(ParseError::Separator);
    }
    let left_end = run_of_digits(s, 0, i);
    let right_end = run_of_digits(s, i + 1, len);
    if i == 0 || left_end < i || right_end == i + 1 {
        return Err(ParseError::ParseInt);
    }
    if right_end < len {
        return Err(ParseError::Separator);
    }
    let a = capped_value(s, 0, i);
    let b = capped_value(s, i + 1, len);
    if a > u32::MAX as u64 || b > u32::MAX as u64 {
        return Err(ParseError::ParseInt);
    }
    Ok((a as usize, b as usize))
}

impl AspectRatio {
    /// Reads "W:H".
    pub fn parse(s: &str) -> (r: Result<AspectRatio, ParseError>)
        ensures
            match parse_pair_spec(s.spec_bytes(), 58) {
                Ok((w, h)) => r == Ok::<AspectRatio, ParseError>(
                    AspectRatio { width: w as usize, height: h as usize },
                ),
                Err(e) => r == Err::<AspectRatio, ParseError>(e),
            },
    {
        match parse_pair(s.as_bytes(), 58) {
            Ok((width, height)) => Ok(AspectRatio { width, height }),
            Err(e) => Err(e),
        }
    }
}

impl Dimension {
    /// Reads "WxH".
    pub fn parse(s: &str) -> (r: Result<Dimension, ParseError>)
        ensures
            match parse_pair_spec(s.spec_bytes(), 120) {
                Ok((w, h)) => r == Ok::<Dimension, ParseError>(
                    Dimension { width: w as usize, height: h as usize },
                ),
                Err(e) => r == Err::<Dimension, ParseError>(e),
            },
    {
        match parse_pair(s.as_bytes(), 120) {
            Ok((width, height)) => Ok(Dimension { width, height }),
            Err(e) => Err(e),
        }
    }
}

impl std::str::FromStr for AspectRatio {
    type Err = ParseError;

    fn from_str(s: &str) -> Result<AspectRatio, ParseError> {
        AspectRatio::parse(s)
    }
}

impl std::str::FromStr for Dimension {
    type Err = ParseError;

    fn from_str(s: &str) -> Result<Dimension, ParseError> {
        Dimension::parse(s)
    }
}

} // verus!
