//! Validation and parsing of command-line option values: a pixel coordinate
//! given as `X,Y` and an image resolution given as `HxV`.
//!
//! Contracts are stated over the UTF-8 byte encoding of the input string.
//! A value parses as the standard library's `u32` parser does: an optional
//! leading `+`, then at least one decimal digit, with a value that fits.

use vstd::prelude::*;
use vstd::string::StringExecFns;
use vstd::utf8::encode_utf8;

use crate::parse::{first_sep, lemma_first_sep_at, parse_u32_range, sep_count, spec_parse_u32};

verus! {

/// Byte value of `,`.
pub const COMMA: u8 = 44;

/// Byte value of `x`.
pub const LOWER_X: u8 = 120;

/// Byte value of `X`.
pub const UPPER_X: u8 = 88;

/// The pair of `u32` values a byte sequence holds when it consists of two
/// parseable numbers joined by exactly one separator byte.
pub open spec fn spec_parse_pair(s: Seq<u8>, sep1: u8, sep2: u8) -> Option<(u32, u32)> {
    if sep_count(s, sep1, sep2) == 1 {
        let i = first_sep(s, sep1, sep2);
        match (spec_parse_u32(s.subrange(0, i)), spec_parse_u32(
            s.subrange(i + 1, s.len() as int),
        )) {
            (Some(a), Some(b)) => Some((a, b)),
            _ => None,
        }
    } else {
        None
    }
}

/// Which part of a two-number token failed to parse.
#[derive(Clone, Copy, PartialEq, Eq, Structural, Debug)]
enum PairError {
    /// The token does not hold exactly one separator.
    Format,
    /// The part before the separator is not a `u32`.
    First,
    /// The part after the separator is not a `u32`.
    Second,
}

/// Split the slice at its single separator byte and parse both sides as
/// `u32` values.
fn parse_pair(bs: &[u8], sep1: u8, sep2: u8) -> (r: Result<(u32, u32), PairError>)
    ensures
        r is Ok <==> spec_parse_pair(bs@, sep1, sep2) is Some,
        r matches Ok(p) ==> Some(p) == spec_parse_pair(bs@, sep1, sep2),
        r == Err::<(u32, u32), PairError>(PairError::Format) <==> sep_count(bs@, sep1, sep2) != 1,
{
    let n = bs.len();
    let mut count: usize = 0;
    let mut sep_at: usize = 0;
    let mut k: usize = 0;
    while k < n
        invariant
            k <= n == bs@.len(),
            count <= k,
            count == sep_count(bs@.subrange(0, k as int), sep1, sep2),
            count > 0 ==> sep_at < k && (bs@[sep_at as int] == sep1 || bs@[sep_at as int] == sep2)
                && (forall|j: int|
                0 <= j < sep_at ==> !((#[trigger] bs@[j]) == sep1 || bs@[j] == sep2)),
            count == 0 ==> forall|j: int|
                0 <= j < k ==> !((#[trigger] bs@[j]) == sep1 || bs@[j] == sep2),
        decreases n - k,
    {
        let ghost prefix = bs@.subrange(0, k as int);
        let ghost prefix1 = bs@.subrange(0, k + 1int);
        proof {
            assert(prefix1.drop_last() =~= prefix);
            assert(prefix1.last() == bs@[k as int]);
        }
        let b = bs[k];
        if b == sep1 || b == sep2 {
            if count == 0 {
                sep_at = k;
            }
            count = count + 1;
        }
        k = k + 1;
    }
    proof {
        assert(bs@.subrange(0, n as int) =~= bs@);
    }
    if count != 1 {
        return Err(PairError::Format);
    }
    proof {
        lemma_first_sep_at(bs@, sep1, sep2, sep_at as int);
    }
    let first = parse_u32_range(bs, 0, sep_at);
    match first {
        None => Err(PairError::First),
        Some(a) => {
            let second = parse_u32_range(bs, sep_at + 1, n);
            match second {
                None => Err(PairError::Second),
                Some(b) => Ok((a, b)),
            }
        },
    }
}

/// Check that an option value has the form `X,Y` with two `u32`
/// coordinates, as the pixel option requires.
pub fn validate_pixel_value(pixel_string: String) -> (r: Result<(), String>)
    ensures
        r is Ok <==> spec_parse_pair(encode_utf8(pixel_string@), COMMA, COMMA) is Some,
{
    match parse_pair(pixel_string.as_str().as_bytes(), COMMA, COMMA) {
        Ok(_) => Ok(()),
        Err(PairError::Format) => Err(String::from_str("Expected format is \"X,Y\"")),
        Err(PairError::First) => Err(String::from_str("Invalid X coordinate")),
        Err(PairError::Second) => Err(String::from_str("Invalid Y coordinate")),
    }
}

/// Parse a pixel option value of the form `X,Y`. The value must already
/// have been validated.
pub fn parse_pixel_value(pixel_string: &str) -> (r: (u32, u32))
    requires
        spec_parse_pair(encode_utf8(pixel_string@), COMMA, COMMA) is Some,
    ensures
        Some(r) == spec_parse_pair(encode_utf8(pixel_string@), COMMA, COMMA),
{
    let parsed = parse_pair(pixel_string.as_bytes(), COMMA, COMMA);
    match parsed {
        Ok(p) => p,
        Err(_) => {
            proof {
                assert(false);
            }
            (0, 0)
        },
    }
}

/// Check that an option value has the form `HxV` (or `HXV`) with two
/// `u32` extents, as the resolution option requires.
pub fn validate_resolution_value(resolution_string: String) -> (r: Result<(), String>)
    ensures
        r is Ok <==> spec_parse_pair(encode_utf8(resolution_string@), LOWER_X, UPPER_X) is Some,
{
    match parse_pair(resolution_string.as_str().as_bytes(), LOWER_X, UPPER_X) {
        Ok(_) => Ok(()),
        Err(PairError::Format) => Err(String::from_str("Expected format is \"HxV\"")),
        Err(PairError::First) => Err(String::from_str("Invalid horizontal resolution")),
        Err(PairError::Second) => Err(String::from_str("Invalid veritical resolution")),
    }
}

/// Parse a resolution option value of the form `HxV` (or `HXV`). The value
/// must already have been validated.
pub fn parse_resolution_value(resolution_string: &str) -> (r: (u32, u32))
    requires
        spec_parse_pair(encode_utf8(resolution_string@), LOWER_X, UPPER_X) is Some,
    ensures
        Some(r) == spec_parse_pair(encode_utf8(resolution_string@), LOWER_X, UPPER_X),
{
    let parsed = parse_pair(resolution_string.as_bytes(), LOWER_X, UPPER_X);
    match parsed {
        Ok(p) => p,
        Err(_) => {
            proof {
                assert(false);
            }
            (0, 0)
        },
    }
}

} // verus!
