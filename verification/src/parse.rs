//! Parsing of command-line pair arguments: `WIDTHxHEIGHT` image bounds and
//! comma-separated coordinate pairs.
//!
//! A pair string is split at the first occurrence of a separator character
//! and each half is read as a decimal literal, exactly as the standard
//! library's integer parsers read one: an optional sign, then one or more
//! digits, with out-of-range values rejected.

use vstd::prelude::*;
use vstd::string::StrSliceExecFns;

verus! {

/// A decimal digit character.
pub open spec fn is_digit(c: char) -> bool {
    48 <= c as u32 && c as u32 <= 57
}

/// Numeric value of a digit character.
pub open spec fn digit_val(c: char) -> int {
    c as u32 - 48
}

/// Every character of `s` is a decimal digit.
pub open spec fn all_digits(s: Seq<char>) -> bool {
    forall|i: int| 0 <= i < s.len() ==> is_digit(#[trigger] s[i])
}

/// Value of a string of decimal digits, most significant digit first.
pub open spec fn dec_val(s: Seq<char>) -> int
    decreases s.len(),
{
    if s.len() == 0 {
        0
    } else {
        dec_val(s.drop_last()) * 10 + digit_val(s.last())
    }
}

/// A digit string denotes a nonnegative value.
proof fn lemma_dec_val_nonneg(s: Seq<char>)
    requires
        all_digits(s),
    ensures
        dec_val(s) >= 0,
    decreases s.len(),
{
    if s.len() > 0 {
        assert(all_digits(s.drop_last()));
        lemma_dec_val_nonneg(s.drop_last());
    }
}

/// Extending a digit string to the right never lowers its value.
proof fn lemma_dec_val_prefix(s: Seq<char>, n: int)
    requires
        all_digits(s),
        0 <= n <= s.len(),
    ensures
        dec_val(s.subrange(0, n)) <= dec_val(s),
    decreases s.len() - n,
{
    if n == s.len() {
        assert(s.subrange(0, n) =~= s);
    } else {
        let shorter = s.subrange(0, n);
        let longer = s.subrange(0, n + 1);
        assert(longer.drop_last() =~= shorter);
        assert(all_digits(shorter));
        lemma_dec_val_nonneg(shorter);
        assert(dec_val(longer) == dec_val(shorter) * 10 + digit_val(s[n]));
        lemma_dec_val_prefix(s, n + 1);
    }
}

/// Reads the digit substring `s[from..to]` as a nonnegative integer, exactly
/// when it is nonempty, all digits, and its value is at most `max`.
fn parse_digits_range(s: &str, from: usize, to: usize, max: u64) -> (r: Option<u64>)
    requires
        from <= to <= s@.len(),
    ensures
        (match r {
            Some(v) => {
                let d = s@.subrange(from as int, to as int);
                &&& to > from
                &&& all_digits(d)
                &&& v == dec_val(d)
                &&& v <= max
            },
            None => {
                let d = s@.subrange(from as int, to as int);
                !(to > from && all_digits(d) && dec_val(d) <= max)
            },
        }),
{
    if to == from {
        return None;
    }
    let ghost whole = s@.subrange(from as int, to as int);
    let mut acc: u64 = 0;
    let mut i: usize = from;
    while i < to
        invariant
            from <= i <= to <= s@.len(),
            all_digits(s@.subrange(from as int, i as int)),
            acc == dec_val(s@.subrange(from as int, i as int)),
            acc <= max,
            whole == s@.subrange(from as int, to as int),
        decreases to - i,
    {
        let c = s.get_char(i);
        let u = c as u32;
        if u < 48 || u > 57 {
            proof {
                assert(!is_digit(whole[i - from]));
            }
            return None;
        }
        let d: u64 = (u - 48) as u64;
        let ghost prefix = s@.subrange(from as int, i as int);
        let ghost extended = s@.subrange(from as int, i + 1);
        proof {
            assert(extended.drop_last() =~= prefix);
            assert(extended.last() == s@[i as int]);
            assert(is_digit(s@[i as int]));
            assert(all_digits(extended));
            assert(dec_val(extended) == acc * 10 + d);
        }
        let overflow: bool = if d > max {
            true
        } else {
            acc > (max - d) / 10
        };
        if overflow {
            proof {
                vstd::arithmetic::div_mod::lemma_fundamental_div_mod((max - d) as int, 10);
                assert(acc * 10 + d > max);
                if to > from && all_digits(whole) {
                    assert(whole.subrange(0, i + 1 - from) =~= extended);
                    lemma_dec_val_prefix(whole, i + 1 - from);
                    assert(dec_val(whole) > max);
                }
            }
            return None;
        }
        proof {
            assert(acc * 10 + d <= max) by {
                vstd::arithmetic::div_mod::lemma_fundamental_div_mod((max - d) as int, 10);
            };
        }
        acc = acc * 10 + d;
        i += 1;
    }
    proof {
        assert(s@.subrange(from as int, i as int) =~= whole);
    }
    Some(acc)
}

/// The digit part of an unsigned decimal literal: what follows an optional
/// leading plus sign.
pub open spec fn unsigned_body(s: Seq<char>) -> Seq<char> {
    if s.len() > 0 && s[0] == '+' {
        s.skip(1)
    } else {
        s
    }
}

/// A well-formed unsigned decimal literal whose value is at most `max`:
/// an optional `+`, then one or more digits.
pub open spec fn valid_unsigned(s: Seq<char>, max: int) -> bool {
    let d = unsigned_body(s);
    d.len() > 0 && all_digits(d) && dec_val(d) <= max
}

/// Reads an unsigned decimal literal the way the standard library does:
/// optional `+`, one or more digits, values beyond `usize::MAX` rejected.
pub fn parse_usize(s: &str) -> (r: Option<usize>)
    ensures
        (match r {
            Some(v) => valid_unsigned(s@, usize::MAX as int) && v == dec_val(unsigned_body(s@)),
            None => !valid_unsigned(s@, usize::MAX as int),
        }),
{
    let n = s.unicode_len();
    let from: usize = if n > 0 && s.get_char(0) == '+' {
        1
    } else {
        0
    };
    proof {
        assert(unsigned_body(s@) =~= s@.subrange(from as int, n as int));
    }
    match parse_digits_range(s, from, n, usize::MAX as u64) {
        Some(v) => Some(v as usize),
        None => None,
    }
}

/// The digit part of a signed decimal literal: what follows an optional
/// leading sign.
pub open spec fn signed_body(s: Seq<char>) -> Seq<char> {
    if s.len() > 0 && (s[0] == '+' || s[0] == '-') {
        s.skip(1)
    } else {
        s
    }
}

/// The sign a leading `-` gives the literal.
pub open spec fn sign_of(s: Seq<char>) -> int {
    if s.len() > 0 && s[0] == '-' {
        -1
    } else {
        1
    }
}

/// The value a signed decimal literal denotes.
pub open spec fn signed_val(s: Seq<char>) -> int {
    sign_of(s) * dec_val(signed_body(s))
}

/// A well-formed signed decimal literal within `i32` range: an optional sign,
/// then one or more digits.
pub open spec fn valid_i32(s: Seq<char>) -> bool {
    let d = signed_body(s);
    d.len() > 0 && all_digits(d) && i32::MIN <= signed_val(s) <= i32::MAX
}

/// Reads a signed decimal literal the way the standard library does:
/// optional `+` or `-`, one or more digits, out-of-range values rejected.
pub fn parse_i32(s: &str) -> (r: Option<i32>)
    ensures
        (match r {
            Some(v) => valid_i32(s@) && v == signed_val(s@),
            None => !valid_i32(s@),
        }),
{
    let n = s.unicode_len();
    let neg: bool = n > 0 && s.get_char(0) == '-';
    let from: usize = if n > 0 && (s.get_char(0) == '+' || s.get_char(0) == '-') {
        1
    } else {
        0
    };
    let max: u64 = if neg {
        2147483648
    } else {
        2147483647
    };
    proof {
        assert(signed_body(s@) =~= s@.subrange(from as int, n as int));
    }
    match parse_digits_range(s, from, n, max) {
        Some(v) => {
            if neg {
                if v == 2147483648 {
                    Some(i32::MIN)
                } else {
                    Some(-(v as i32))
                }
            } else {
                Some(v as i32)
            }
        },
        None => {
            proof {
                if valid_i32(s@) {
                    lemma_dec_val_nonneg(signed_body(s@));
                }
            }
            None
        },
    }
}

/// `i` is the position of the first `sep` in `s`.
pub open spec fn first_sep_at(s: Seq<char>, sep: char, i: int) -> bool {
    &&& 0 <= i < s.len()
    &&& s[i] == sep
    &&& forall|j: int| 0 <= j < i ==> s[j] != sep
}

/// `s` contains `sep` somewhere.
pub open spec fn has_sep(s: Seq<char>, sep: char) -> bool {
    exists|i: int| first_sep_at(s, sep, i)
}

/// Position of the first `sep` in `s`, where one exists.
pub open spec fn sep_pos(s: Seq<char>, sep: char) -> int {
    choose|i: int| first_sep_at(s, sep, i)
}

/// What stands before the first `sep`.
pub open spec fn left_of(s: Seq<char>, sep: char) -> Seq<char> {
    s.subrange(0, sep_pos(s, sep))
}

/// What stands after the first `sep`.
pub open spec fn right_of(s: Seq<char>, sep: char) -> Seq<char> {
    s.subrange(sep_pos(s, sep) + 1, s.len() as int)
}

/// At most one position is the first occurrence.
proof fn lemma_first_sep_unique(s: Seq<char>, sep: char, i1: int, i2: int)
    requires
        first_sep_at(s, sep, i1),
        first_sep_at(s, sep, i2),
    ensures
        i1 == i2,
{
    if i1 < i2 {
        assert(s[i1] != sep);
    } else if i2 < i1 {
        assert(s[i2] != sep);
    }
}

/// Index of the first occurrence of `sep` in `s`, if any.
fn find_char(s: &str, sep: char) -> (r: Option<usize>)
    ensures
        (match r {
            Some(i) => first_sep_at(s@, sep, i as int) && i as int == sep_pos(s@, sep) && has_sep(
                s@,
                sep,
            ),
            None => !has_sep(s@, sep),
        }),
{
    let n = s.unicode_len();
    let mut i: usize = 0;
    while i < n
        invariant
            0 <= i <= n == s@.len(),
            forall|j: int| 0 <= j < i ==> s@[j] != sep,
        decreases n - i,
    {
        if s.get_char(i) == sep {
            proof {
                assert(first_sep_at(s@, sep, i as int));
                lemma_first_sep_unique(s@, sep, i as int, sep_pos(s@, sep));
            }
            return Some(i);
        }
        i += 1;
    }
    proof {
        if has_sep(s@, sep) {
            let k = choose|k: int| first_sep_at(s@, sep, k);
            assert(s@[k] != sep);
        }
    }
    None
}

/// Splits `s` at the first occurrence of `sep` into its two halves; `None`
/// exactly when `s` holds no `sep`. Callers parse the halves themselves.
pub fn split_pair(s: &str, sep: char) -> (r: Option<(String, String)>)
    ensures
        (match r {
            Some(p) => has_sep(s@, sep) && p.0@ == left_of(s@, sep) && p.1@ == right_of(s@, sep),
            None => !has_sep(s@, sep),
        }),
{
    let n = s.unicode_len();
    match find_char(s, sep) {
        Some(i) => {
            let left = s.substring_char(0, i).to_owned();
            let right = s.substring_char(i + 1, n).to_owned();
            Some((left, right))
        },
        None => None,
    }
}

/// What parsing `s` as a `sep`-separated pair of unsigned decimals yields:
/// the two values exactly when a separator exists and both halves are valid.
pub open spec fn pair_usize_spec(s: Seq<char>, sep: char) -> Option<(int, int)> {
    if has_sep(s, sep) && valid_unsigned(left_of(s, sep), usize::MAX as int) && valid_unsigned(
        right_of(s, sep),
        usize::MAX as int,
    ) {
        Some(
            (dec_val(unsigned_body(left_of(s, sep))), dec_val(unsigned_body(right_of(s, sep)))),
        )
    } else {
        None
    }
}

/// Reads a pair of unsigned decimals separated by `sep`, as the image
/// bounds argument `WIDTHxHEIGHT` is written.
pub fn parse_pair_usize(s: &str, sep: char) -> (r: Option<(usize, usize)>)
    ensures
        (match r {
            Some(p) => pair_usize_spec(s@, sep) == Some((p.0 as int, p.1 as int)),
            None => pair_usize_spec(s@, sep) is None,
        }),
{
    let n = s.unicode_len();
    match find_char(s, sep) {
        Some(i) => {
            let left = s.substring_char(0, i);
            let right = s.substring_char(i + 1, n);
            proof {
                assert(left@ =~= left_of(s@, sep));
                assert(right@ =~= right_of(s@, sep));
            }
            match (parse_usize(left), parse_usize(right)) {
                (Some(a), Some(b)) => Some((a, b)),
                _ => None,
            }
        },
        None => None,
    }
}

/// What parsing `s` as a `sep`-separated pair of signed decimals yields.
pub open spec fn pair_i32_spec(s: Seq<char>, sep: char) -> Option<(int, int)> {
    if has_sep(s, sep) && valid_i32(left_of(s, sep)) && valid_i32(right_of(s, sep)) {
        Some((signed_val(left_of(s, sep)), signed_val(right_of(s, sep))))
    } else {
        None
    }
}

/// Reads a pair of signed decimals separated by `sep`.
pub fn parse_pair_i32(s: &str, sep: char) -> (r: Option<(i32, i32)>)
    ensures
        (match r {
            Some(p) => pair_i32_spec(s@, sep) == Some((p.0 as int, p.1 as int)),
            None => pair_i32_spec(s@, sep) is None,
        }),
{
    let n = s.unicode_len();
    match find_char(s, sep) {
        Some(i) => {
            let left = s.substring_char(0, i);
            let right = s.substring_char(i + 1, n);
            proof {
                assert(left@ =~= left_of(s@, sep));
                assert(right@ =~= right_of(s@, sep));
            }
            match (parse_i32(left), parse_i32(right)) {
                (Some(a), Some(b)) => Some((a, b)),
                _ => None,
            }
        },
        None => None,
    }
}

} // verus!
