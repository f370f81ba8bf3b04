//! Byte-sequence parsing primitives shared by the command-line option
//! values and the mesh file format: decimal numbers as the standard
//! library's integer parsers accept them, and separator scanning.

use vstd::prelude::*;
use vstd::string::StringExecFns;

verus! {

/// Byte value of the digit `0`.
pub const DIGIT_ZERO: u8 = 48;

/// Byte value of the digit `9`.
pub const DIGIT_NINE: u8 = 57;

/// Byte value of `+`.
pub const PLUS_SIGN: u8 = 43;

/// Whether the byte is an ASCII decimal digit.
pub open spec fn is_dec_digit(b: u8) -> bool {
    DIGIT_ZERO <= b <= DIGIT_NINE
}

/// Whether every byte of the sequence is an ASCII decimal digit.
pub open spec fn all_dec_digits(s: Seq<u8>) -> bool {
    forall|i: int| 0 <= i < s.len() ==> is_dec_digit(#[trigger] s[i])
}

/// The numeric value of a sequence of ASCII decimal digits.
pub open spec fn dec_val(s: Seq<u8>) -> int
    decreases s.len(),
{
    if s.len() == 0 {
        0
    } else {
        dec_val(s.drop_last()) * 10 + (s.last() - DIGIT_ZERO)
    }
}

/// The digit part of a number token: everything after an optional leading
/// `+` sign.
pub open spec fn unsigned_digits(s: Seq<u8>) -> Seq<u8> {
    if s.len() > 0 && s[0] == PLUS_SIGN {
        s.drop_first()
    } else {
        s
    }
}

/// The `u32` value a byte sequence parses to, if any: an optional leading
/// `+`, then one or more decimal digits, with a value of at most
/// `u32::MAX`.
pub open spec fn spec_parse_u32(s: Seq<u8>) -> Option<u32> {
    let d = unsigned_digits(s);
    if d.len() > 0 && all_dec_digits(d) && dec_val(d) <= u32::MAX {
        Some(dec_val(d) as u32)
    } else {
        None
    }
}

/// The `usize` value a byte sequence parses to, if any: an optional
/// leading `+`, then one or more decimal digits, with a value of at most
/// `usize::MAX`.
pub open spec fn spec_parse_usize(s: Seq<u8>) -> Option<usize> {
    let d = unsigned_digits(s);
    if d.len() > 0 && all_dec_digits(d) && dec_val(d) <= usize::MAX {
        Some(dec_val(d) as usize)
    } else {
        None
    }
}

/// How many bytes of the sequence equal one of the two separators.
pub open spec fn sep_count(s: Seq<u8>, sep1: u8, sep2: u8) -> int
    decreases s.len(),
{
    if s.len() == 0 {
        0
    } else {
        sep_count(s.drop_last(), sep1, sep2) + if s.last() == sep1 || s.last() == sep2 {
            1int
        } else {
            0int
        }
    }
}

/// Index of the first byte equal to one of the two separators, or the
/// length of the sequence if there is none.
pub open spec fn first_sep(s: Seq<u8>, sep1: u8, sep2: u8) -> int
    decreases s.len(),
{
    if s.len() == 0 {
        0
    } else if s[0] == sep1 || s[0] == sep2 {
        0
    } else {
        1 + first_sep(s.drop_first(), sep1, sep2)
    }
}

/// If no separator stands before position `k`, and `k` is the length of
/// the sequence or holds a separator, then `k` is the first separator
/// position.
pub proof fn lemma_first_sep_at(s: Seq<u8>, sep1: u8, sep2: u8, k: int)
    requires
        0 <= k <= s.len(),
        forall|j: int| 0 <= j < k ==> !((#[trigger] s[j]) == sep1 || s[j] == sep2),
        k == s.len() || s[k] == sep1 || s[k] == sep2,
    ensures
        first_sep(s, sep1, sep2) == k,
    decreases k,
{
    if k == 0 {
    } else {
        assert(!(s[0] == sep1 || s[0] == sep2));
        let t = s.drop_first();
        assert forall|j: int| 0 <= j < k - 1 implies !((#[trigger] t[j]) == sep1 || t[j]
            == sep2) by {
            assert(t[j] == s[j + 1]);
        }
        assert(k - 1 == t.len() || t[k - 1] == sep1 || t[k - 1] == sep2);
        lemma_first_sep_at(t, sep1, sep2, k - 1);
    }
}

/// Parse a `u32` out of the byte range `[from, to)` of the slice.
pub fn parse_u32_range(bs: &[u8], from: usize, to: usize) -> (r: Option<u32>)
    requires
        from <= to <= bs@.len(),
    ensures
        r == spec_parse_u32(bs@.subrange(from as int, to as int)),
{
    let ghost seg = bs@.subrange(from as int, to as int);
    let mut i = from;
    if to - from > 0 && bs[from] == PLUS_SIGN {
        i = from + 1;
    }
    let ghost d = unsigned_digits(seg);
    proof {
        assert(d =~= bs@.subrange(i as int, to as int));
    }
    if i == to {
        return None;
    }
    let mut acc: u64 = 0;
    let mut over = false;
    let mut j = i;
    while j < to
        invariant
            from <= i <= j <= to <= bs@.len(),
            seg == bs@.subrange(from as int, to as int),
            d == unsigned_digits(seg),
            d == bs@.subrange(i as int, to as int),
            all_dec_digits(bs@.subrange(i as int, j as int)),
            !over ==> acc == dec_val(bs@.subrange(i as int, j as int)) && acc <= u32::MAX,
            over ==> dec_val(bs@.subrange(i as int, j as int)) > u32::MAX,
        decreases to - j,
    {
        let b = bs[j];
        if b < DIGIT_ZERO || b > DIGIT_NINE {
            proof {
                assert(d[j - i] == bs@[j as int]);
                assert(!all_dec_digits(d));
            }
            return None;
        }
        let ghost prefix = bs@.subrange(i as int, j as int);
        let ghost prefix1 = bs@.subrange(i as int, j + 1int);
        proof {
            assert(prefix1.drop_last() =~= prefix);
            assert(prefix1.last() == bs@[j as int]);
            assert(dec_val(prefix1) == dec_val(prefix) * 10 + (bs@[j as int] - DIGIT_ZERO));
            assert forall|t: int| 0 <= t < prefix1.len() implies is_dec_digit(
                #[trigger] prefix1[t],
            ) by {
                if t < prefix.len() {
                    assert(prefix1[t] == prefix[t]);
                }
            }
        }
        if !over {
            let next = acc * 10 + ((b - DIGIT_ZERO) as u64);
            if next > (u32::MAX as u64) {
                over = true;
            } else {
                acc = next;
            }
        }
        j = j + 1;
    }
    proof {
        assert(bs@.subrange(i as int, j as int) == d);
        assert(d.len() > 0);
    }
    if over {
        None
    } else {
        Some(acc as u32)
    }
}

/// Parse a `usize` out of the byte range `[from, to)` of the slice.
pub fn parse_usize_range(bs: &[u8], from: usize, to: usize) -> (r: Option<usize>)
    requires
        from <= to <= bs@.len(),
    ensures
        r == spec_parse_usize(bs@.subrange(from as int, to as int)),
{
    let ghost seg = bs@.subrange(from as int, to as int);
    let mut i = from;
    if to - from > 0 && bs[from] == PLUS_SIGN {
        i = from + 1;
    }
    let ghost d = unsigned_digits(seg);
    proof {
        assert(d =~= bs@.subrange(i as int, to as int));
    }
    if i == to {
        return None;
    }
    let mut acc: usize = 0;
    let mut over = false;
    let mut j = i;
    while j < to
        invariant
            from <= i <= j <= to <= bs@.len(),
            seg == bs@.subrange(from as int, to as int),
            d == unsigned_digits(seg),
            d == bs@.subrange(i as int, to as int),
            all_dec_digits(bs@.subrange(i as int, j as int)),
            !over ==> acc == dec_val(bs@.subrange(i as int, j as int)),
            over ==> dec_val(bs@.subrange(i as int, j as int)) > usize::MAX,
        decreases to - j,
    {
        let b = bs[j];
        if b < DIGIT_ZERO || b > DIGIT_NINE {
            proof {
                assert(d[j - i] == bs@[j as int]);
                assert(!all_dec_digits(d));
            }
            return None;
        }
        let digit = (b - DIGIT_ZERO) as usize;
        let ghost prefix = bs@.subrange(i as int, j as int);
        let ghost prefix1 = bs@.subrange(i as int, j + 1int);
        proof {
            assert(prefix1.drop_last() =~= prefix);
            assert(prefix1.last() == bs@[j as int]);
            assert(dec_val(prefix1) == dec_val(prefix) * 10 + (bs@[j as int] - DIGIT_ZERO));
            assert forall|t: int| 0 <= t < prefix1.len() implies is_dec_digit(
                #[trigger] prefix1[t],
            ) by {
                if t < prefix.len() {
                    assert(prefix1[t] == prefix[t]);
                }
            }
        }
        if !over {
            if acc > (usize::MAX - digit) / 10 {
                proof {
                    let m = usize::MAX as int;
                    let dv = digit as int;
                    let q = (m - dv) / 10;
                    let rr = (m - dv) % 10;
                    vstd::arithmetic::div_mod::lemma_fundamental_div_mod(m - dv, 10);
                    vstd::arithmetic::div_mod::lemma_mod_division_less_than_divisor(m - dv, 10);
                    assert(acc * 10 + dv > m);
                }
                over = true;
            } else {
                proof {
                    let m = usize::MAX as int;
                    let dv = digit as int;
                    let q = (m - dv) / 10;
                    let rr = (m - dv) % 10;
                    vstd::arithmetic::div_mod::lemma_fundamental_div_mod(m - dv, 10);
                    vstd::arithmetic::div_mod::lemma_mod_division_less_than_divisor(m - dv, 10);
                    assert(acc * 10 + dv <= m);
                }
                acc = acc * 10 + digit;
            }
        }
        j = j + 1;
    }
    proof {
        assert(bs@.subrange(i as int, j as int) == d);
        assert(d.len() > 0);
    }
    if over {
        None
    } else {
        Some(acc)
    }
}


/// The character of one decimal digit.
pub open spec fn dec_digit_char(d: int) -> char {
    if d == 0 {
        '0'
    } else if d == 1 {
        '1'
    } else if d == 2 {
        '2'
    } else if d == 3 {
        '3'
    } else if d == 4 {
        '4'
    } else if d == 5 {
        '5'
    } else if d == 6 {
        '6'
    } else if d == 7 {
        '7'
    } else if d == 8 {
        '8'
    } else {
        '9'
    }
}

/// The decimal rendering of a non-negative number, without leading
/// zeros.
pub open spec fn dec_chars(n: int) -> Seq<char>
    decreases n,
{
    if n < 10 {
        seq![dec_digit_char(n)]
    } else {
        dec_chars(n / 10) + seq![dec_digit_char(n % 10)]
    }
}

/// Render a number in decimal, as the standard formatter does.
pub fn decimal_string(n: usize) -> (r: String)
    ensures
        r@ == dec_chars(n as int),
    decreases n,
{
    let d = n % 10;
    let digit_str = match d {
        0 => "0",
        1 => "1",
        2 => "2",
        3 => "3",
        4 => "4",
        5 => "5",
        6 => "6",
        7 => "7",
        8 => "8",
        _ => "9",
    };
    proof {
        reveal_strlit("0");
        reveal_strlit("1");
        reveal_strlit("2");
        reveal_strlit("3");
        reveal_strlit("4");
        reveal_strlit("5");
        reveal_strlit("6");
        reveal_strlit("7");
        reveal_strlit("8");
        reveal_strlit("9");
        assert(digit_str@ =~= seq![dec_digit_char(d as int)]);
    }
    if n < 10 {
        let r = String::from_str(digit_str);
        proof {
            assert(r@ =~= dec_chars(n as int));
        }
        r
    } else {
        let r = decimal_string(n / 10).concat(digit_str);
        proof {
            assert(r@ =~= dec_chars(n as int));
        }
        r
    }
}

} // verus!
