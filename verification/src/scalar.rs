//! Scalar resolution: classifying the trimmed text of an unquoted scalar as a
//! boolean, null, integer, floating-point or plain string value.
//!
//! The integer grammar is an optional sign followed by decimal digits, with
//! the value required to fit in a 64-bit signed integer. The floating-point
//! grammar is an optional sign followed by `inf`, `infinity` or `nan` (in any
//! case), or by a digit string with an optional fraction part and an optional
//! exponent part. A floating-point scalar keeps its text, so classification
//! alone decides.

use crate::text::chars_to_string;
use crate::value::{ValueView, YamlValue};
use vstd::prelude::*;
use vstd::string::StrSliceExecFns;

verus! {

/// A decimal digit.
pub open spec fn is_digit(c: char) -> bool {
    c == '0' || c == '1' || c == '2' || c == '3' || c == '4' || c == '5' || c == '6' || c == '7'
        || c == '8' || c == '9'
}

/// The value of one decimal digit.
pub open spec fn digit_val(c: char) -> int {
    if c == '0' {
        0
    } else if c == '1' {
        1
    } else if c == '2' {
        2
    } else if c == '3' {
        3
    } else if c == '4' {
        4
    } else if c == '5' {
        5
    } else if c == '6' {
        6
    } else if c == '7' {
        7
    } else if c == '8' {
        8
    } else {
        9
    }
}

/// Every character of `s` is a decimal digit.
pub open spec fn all_digits(s: Seq<char>) -> bool {
    forall|i: int| 0 <= i < s.len() ==> is_digit(s[i])
}

/// The value of a digit string read in decimal.
pub open spec fn digits_val(s: Seq<char>) -> int
    decreases s.len(),
{
    if s.len() == 0 {
        0
    } else {
        digits_val(s.drop_last()) * 10 + digit_val(s.last())
    }
}

/// `s` without one leading sign character, if it has one.
pub open spec fn sign_body(s: Seq<char>) -> Seq<char> {
    if s.len() > 0 && (s[0] == '+' || s[0] == '-') {
        s.drop_first()
    } else {
        s
    }
}

/// Whether `s` carries a leading minus sign.
pub open spec fn sign_neg(s: Seq<char>) -> bool {
    s.len() > 0 && s[0] == '-'
}

/// `s` is an integer scalar: an optional sign, at least one digit, and a
/// value that fits in an `i64`.
pub open spec fn is_i64_text(s: Seq<char>) -> bool {
    let b = sign_body(s);
    b.len() > 0 && all_digits(b) && (if sign_neg(s) {
        digits_val(b) <= 0x8000_0000_0000_0000
    } else {
        digits_val(b) <= 0x7fff_ffff_ffff_ffff
    })
}

/// The value of an integer scalar.
pub open spec fn i64_text_val(s: Seq<char>) -> int {
    if sign_neg(s) {
        -digits_val(sign_body(s))
    } else {
        digits_val(sign_body(s))
    }
}

/// One character, compared against both cases of a letter.
pub open spec fn eq_nocase(c: char, lower: char, upper: char) -> bool {
    c == lower || c == upper
}

/// `s` is `inf` in any case.
pub open spec fn is_inf_text(s: Seq<char>) -> bool {
    s.len() == 3 && eq_nocase(s[0], 'i', 'I') && eq_nocase(s[1], 'n', 'N') && eq_nocase(
        s[2],
        'f',
        'F',
    )
}

/// `s` is `infinity` in any case.
pub open spec fn is_infinity_text(s: Seq<char>) -> bool {
    s.len() == 8 && eq_nocase(s[0], 'i', 'I') && eq_nocase(s[1], 'n', 'N') && eq_nocase(
        s[2],
        'f',
        'F',
    ) && eq_nocase(s[3], 'i', 'I') && eq_nocase(s[4], 'n', 'N') && eq_nocase(s[5], 'i', 'I')
        && eq_nocase(s[6], 't', 'T') && eq_nocase(s[7], 'y', 'Y')
}

/// `s` is `nan` in any case.
pub open spec fn is_nan_text(s: Seq<char>) -> bool {
    s.len() == 3 && eq_nocase(s[0], 'n', 'N') && eq_nocase(s[1], 'a', 'A') && eq_nocase(
        s[2],
        'n',
        'N',
    )
}

/// The position of the first `e` or `E` at or after `from`, if any.
pub open spec fn find_exp(s: Seq<char>, from: int) -> Option<int>
    recommends
        0 <= from <= s.len(),
    decreases s.len() - from,
{
    if from < 0 || from >= s.len() {
        None
    } else if s[from] == 'e' || s[from] == 'E' {
        Some(from)
    } else {
        find_exp(s, from + 1)
    }
}

/// The position of the first `.` at or after `from`, if any.
pub open spec fn find_dot(s: Seq<char>, from: int) -> Option<int>
    recommends
        0 <= from <= s.len(),
    decreases s.len() - from,
{
    if from < 0 || from >= s.len() {
        None
    } else if s[from] == '.' {
        Some(from)
    } else {
        find_dot(s, from + 1)
    }
}

/// The digit string of a floating-point number, with an optional fraction
/// part and at least one digit somewhere.
pub open spec fn is_mantissa(s: Seq<char>) -> bool {
    match find_dot(s, 0) {
        Some(i) => all_digits(s.take(i)) && all_digits(s.skip(i + 1)) && (i > 0 || s.len() > i
            + 1),
        None => s.len() > 0 && all_digits(s),
    }
}

/// The part of a floating-point number after its `e`: an optional sign and at
/// least one digit.
pub open spec fn is_exp_suffix(s: Seq<char>) -> bool {
    let b = sign_body(s);
    b.len() > 0 && all_digits(b)
}

/// A floating-point number without its sign: a mantissa, optionally followed
/// by an exponent part.
pub open spec fn is_f64_number(s: Seq<char>) -> bool {
    match find_exp(s, 0) {
        Some(j) => is_mantissa(s.take(j)) && is_exp_suffix(s.skip(j + 1)),
        None => is_mantissa(s),
    }
}

/// `s` is a floating-point scalar: an optional sign followed by `inf`,
/// `infinity`, `nan` (in any case) or a floating-point number.
pub open spec fn is_f64_text(s: Seq<char>) -> bool {
    let b = sign_body(s);
    is_inf_text(b) || is_infinity_text(b) || is_nan_text(b) || is_f64_number(b)
}

/// `s` is a true scalar.
pub open spec fn is_true_text(s: Seq<char>) -> bool {
    s == "true"@ || s == "True"@ || s == "TRUE"@
}

/// `s` is a false scalar.
pub open spec fn is_false_text(s: Seq<char>) -> bool {
    s == "false"@ || s == "False"@ || s == "FALSE"@
}

/// `s` is a null scalar.
pub open spec fn is_null_text(s: Seq<char>) -> bool {
    s == "null"@ || s == "Null"@ || s == "NULL"@ || s == "~"@ || s.len() == 0
}

/// What the trimmed text of an unquoted scalar stands for: the boolean and
/// null keywords first, then an integer, then a floating-point number, and a
/// plain string when nothing else fits.
pub open spec fn scalar_view(s: Seq<char>) -> ValueView {
    if is_true_text(s) {
        ValueView::Bool(true)
    } else if is_false_text(s) {
        ValueView::Bool(false)
    } else if is_null_text(s) {
        ValueView::Null
    } else if is_i64_text(s) {
        ValueView::Int(i64_text_val(s) as i64)
    } else if is_f64_text(s) {
        ValueView::Float(s)
    } else {
        ValueView::Str(s)
    }
}

/// `digits_val` never goes negative.
proof fn lemma_digits_val_nonneg(s: Seq<char>)
    ensures
        digits_val(s) >= 0,
    decreases s.len(),
{
    if s.len() > 0 {
        lemma_digits_val_nonneg(s.drop_last());
    }
}

/// Reading one more digit multiplies the value by ten and adds the digit.
proof fn lemma_digits_val_take_step(s: Seq<char>, k: int)
    requires
        0 <= k < s.len(),
    ensures
        digits_val(s.take(k + 1)) == digits_val(s.take(k)) * 10 + digit_val(s[k]),
{
    assert(s.take(k + 1).drop_last() =~= s.take(k));
    assert(s.take(k + 1).last() == s[k]);
}

/// A digit string is worth at least any of its prefixes.
proof fn lemma_digits_val_take_mono(s: Seq<char>, k: int)
    requires
        0 <= k <= s.len(),
    ensures
        digits_val(s.take(k)) <= digits_val(s),
    decreases s.len() - k,
{
    if k == s.len() {
        assert(s.take(k) =~= s);
    } else {
        lemma_digits_val_take_step(s, k);
        lemma_digits_val_nonneg(s.take(k));
        lemma_digits_val_take_mono(s, k + 1);
    }
}

/// The range `from..to` of `input` spells exactly `lit`.
fn range_eq_lit(input: &Vec<char>, from: usize, to: usize, lit: &str) -> (b: bool)
    requires
        from <= to <= input@.len(),
    ensures
        b == (input@.subrange(from as int, to as int) == lit@),
{
    let ghost t = input@.subrange(from as int, to as int);
    let n = lit.unicode_len();
    if to - from != n {
        proof {
            assert(t.len() != lit@.len());
        }
        return false;
    }
    let mut i: usize = 0;
    while i < n
        invariant
            from <= to <= input@.len(),
            to - from == n,
            n == lit@.len(),
            i <= n,
            t == input@.subrange(from as int, to as int),
            forall|j: int| 0 <= j < i as int ==> t[j] == lit@[j],
        decreases n - i,
    {
        let c = lit.get_char(i);
        if input[from + i] != c {
            proof {
                assert(t[i as int] == input@[from as int + i]);
                assert(t[i as int] != lit@[i as int]);
            }
            return false;
        }
        i = i + 1;
    }
    proof {
        assert(t =~= lit@);
    }
    true
}

/// The value of one digit character, or nothing for any other character.
fn digit_of(c: char) -> (r: Option<u64>)
    ensures
        r is Some <==> is_digit(c),
        r matches Some(d) ==> d == digit_val(c),
{
    match c {
        '0' => Some(0),
        '1' => Some(1),
        '2' => Some(2),
        '3' => Some(3),
        '4' => Some(4),
        '5' => Some(5),
        '6' => Some(6),
        '7' => Some(7),
        '8' => Some(8),
        '9' => Some(9),
        _ => None,
    }
}

/// Reads the range `from..to` of `input` as an integer scalar, if it is one.
fn parse_i64_range(input: &Vec<char>, from: usize, to: usize) -> (r: Option<i64>)
    requires
        from <= to <= input@.len(),
    ensures
        ({
            let t = input@.subrange(from as int, to as int);
            match r {
                Some(v) => is_i64_text(t) && v as int == i64_text_val(t),
                None => !is_i64_text(t),
            }
        }),
{
    let ghost t = input@.subrange(from as int, to as int);
    let mut p = from;
    let mut neg = false;
    if p < to && (input[p] == '+' || input[p] == '-') {
        neg = input[p] == '-';
        p = p + 1;
    }
    proof {
        assert(sign_body(t) =~= input@.subrange(p as int, to as int));
    }
    let ghost b = sign_body(t);
    if p == to {
        return None;
    }
    let limit: u64 = if neg {
        9223372036854775808
    } else {
        9223372036854775807
    };
    let maxlast: u64 = if neg {
        8
    } else {
        7
    };
    let mut mag: u64 = 0;
    let mut i = p;
    proof {
        assert(b.take(0) =~= Seq::<char>::empty());
    }
    while i < to
        invariant
            from <= p <= i <= to <= input@.len(),
            p < to,
            t == input@.subrange(from as int, to as int),
            b == sign_body(t),
            b == input@.subrange(p as int, to as int),
            neg == sign_neg(t),
            limit == if neg {
                9223372036854775808u64
            } else {
                9223372036854775807u64
            },
            maxlast == if neg {
                8u64
            } else {
                7u64
            },
            all_digits(b.take(i as int - p as int)),
            mag == digits_val(b.take(i as int - p as int)),
            mag <= limit,
        decreases to - i,
    {
        let ghost k = i as int - p as int;
        proof {
            assert(b[k] == input@[i as int]);
        }
        let d = match digit_of(input[i]) {
            Some(d) => d,
            None => {
                proof {
                    assert(!is_digit(b[k]));
                }
                return None;
            },
        };
        proof {
            lemma_digits_val_take_step(b, k);
        }
        if mag > 922337203685477580 || (mag == 922337203685477580 && d > maxlast) {
            proof {
                assert(digits_val(b.take(k + 1)) > limit);
                if all_digits(b) {
                    lemma_digits_val_take_mono(b, k + 1);
                }
            }
            return None;
        }
        mag = mag * 10 + d;
        i = i + 1;
    }
    proof {
        assert(b.take(to as int - p as int) =~= b);
    }
    let v: i64 = if neg {
        if mag == 9223372036854775808 {
            i64::MIN
        } else {
            let m = mag as i64;
            -m
        }
    } else {
        mag as i64
    };
    Some(v)
}

/// Every character in the range `from..to` of `input` is a digit.
fn check_all_digits(input: &Vec<char>, from: usize, to: usize) -> (b: bool)
    requires
        from <= to <= input@.len(),
    ensures
        b == all_digits(input@.subrange(from as int, to as int)),
{
    let ghost t = input@.subrange(from as int, to as int);
    let mut i = from;
    while i < to
        invariant
            from <= i <= to <= input@.len(),
            t == input@.subrange(from as int, to as int),
            forall|j: int| 0 <= j < i as int - from as int ==> is_digit(t[j]),
        decreases to - i,
    {
        proof {
            assert(t[i as int - from as int] == input@[i as int]);
        }
        if digit_of(input[i]).is_none() {
            proof {
                assert(!is_digit(t[i as int - from as int]));
            }
            return false;
        }
        i = i + 1;
    }
    true
}

/// The first `e` or `E` in the range `from..to` of `input`, if any.
fn find_exp_range(input: &Vec<char>, from: usize, to: usize) -> (r: Option<usize>)
    requires
        from <= to <= input@.len(),
    ensures
        ({
            let t = input@.subrange(from as int, to as int);
            match r {
                Some(j) => from <= j < to && find_exp(t, 0) == Some(j - from),
                None => find_exp(t, 0) is None,
            }
        }),
{
    let ghost t = input@.subrange(from as int, to as int);
    let mut i = from;
    while i < to
        invariant
            from <= i <= to <= input@.len(),
            t == input@.subrange(from as int, to as int),
            find_exp(t, 0) == find_exp(t, i as int - from as int),
        decreases to - i,
    {
        proof {
            assert(t[i as int - from as int] == input@[i as int]);
        }
        if input[i] == 'e' || input[i] == 'E' {
            return Some(i);
        }
        i = i + 1;
    }
    None
}

/// The first `.` in the range `from..to` of `input`, if any.
fn find_dot_range(input: &Vec<char>, from: usize, to: usize) -> (r: Option<usize>)
    requires
        from <= to <= input@.len(),
    ensures
        ({
            let t = input@.subrange(from as int, to as int);
            match r {
                Some(j) => from <= j < to && find_dot(t, 0) == Some(j - from),
                None => find_dot(t, 0) is None,
            }
        }),
{
    let ghost t = input@.subrange(from as int, to as int);
    let mut i = from;
    while i < to
        invariant
            from <= i <= to <= input@.len(),
            t == input@.subrange(from as int, to as int),
            find_dot(t, 0) == find_dot(t, i as int - from as int),
        decreases to - i,
    {
        proof {
            assert(t[i as int - from as int] == input@[i as int]);
        }
        if input[i] == '.' {
            return Some(i);
        }
        i = i + 1;
    }
    None
}

/// The range `from..to` of `input` is a mantissa.
fn is_mantissa_range(input: &Vec<char>, from: usize, to: usize) -> (b: bool)
    requires
        from <= to <= input@.len(),
    ensures
        b == is_mantissa(input@.subrange(from as int, to as int)),
{
    let ghost t = input@.subrange(from as int, to as int);
    match find_dot_range(input, from, to) {
        Some(j) => {
            proof {
                assert(t.take(j as int - from as int) =~= input@.subrange(from as int, j as int));
                assert(t.skip(j as int - from as int + 1) =~= input@.subrange(
                    j as int + 1,
                    to as int,
                ));
            }
            let before = check_all_digits(input, from, j);
            let after = check_all_digits(input, j + 1, to);
            before && after && (j > from || to > j + 1)
        },
        None => to > from && check_all_digits(input, from, to),
    }
}

/// The range `from..to` of `input` is an exponent suffix: an optional sign
/// and at least one digit.
fn is_exp_suffix_range(input: &Vec<char>, from: usize, to: usize) -> (b: bool)
    requires
        from <= to <= input@.len(),
    ensures
        b == is_exp_suffix(input@.subrange(from as int, to as int)),
{
    let ghost t = input@.subrange(from as int, to as int);
    let mut p = from;
    if p < to && (input[p] == '+' || input[p] == '-') {
        p = p + 1;
    }
    proof {
        assert(sign_body(t) =~= input@.subrange(p as int, to as int));
    }
    to > p && check_all_digits(input, p, to)
}

/// The range `from..to` of `input` spells `inf` in any case.
fn is_inf_range(input: &Vec<char>, from: usize, to: usize) -> (b: bool)
    requires
        from <= to <= input@.len(),
    ensures
        b == is_inf_text(input@.subrange(from as int, to as int)),
{
    to - from == 3 && (input[from] == 'i' || input[from] == 'I') && (input[from + 1] == 'n'
        || input[from + 1] == 'N') && (input[from + 2] == 'f' || input[from + 2] == 'F')
}

/// The range `from..to` of `input` spells `infinity` in any case.
fn is_infinity_range(input: &Vec<char>, from: usize, to: usize) -> (b: bool)
    requires
        from <= to <= input@.len(),
    ensures
        b == is_infinity_text(input@.subrange(from as int, to as int)),
{
    to - from == 8 && (input[from] == 'i' || input[from] == 'I') && (input[from + 1] == 'n'
        || input[from + 1] == 'N') && (input[from + 2] == 'f' || input[from + 2] == 'F') && (
    input[from + 3] == 'i' || input[from + 3] == 'I') && (input[from + 4] == 'n' || input[from + 4]
        == 'N') && (input[from + 5] == 'i' || input[from + 5] == 'I') && (input[from + 6] == 't'
        || input[from + 6] == 'T') && (input[from + 7] == 'y' || input[from + 7] == 'Y')
}

/// The range `from..to` of `input` spells `nan` in any case.
fn is_nan_range(input: &Vec<char>, from: usize, to: usize) -> (b: bool)
    requires
        from <= to <= input@.len(),
    ensures
        b == is_nan_text(input@.subrange(from as int, to as int)),
{
    to - from == 3 && (input[from] == 'n' || input[from] == 'N') && (input[from + 1] == 'a'
        || input[from + 1] == 'A') && (input[from + 2] == 'n' || input[from + 2] == 'N')
}

/// The range `from..to` of `input` is a floating-point scalar.
fn is_f64_range(input: &Vec<char>, from: usize, to: usize) -> (b: bool)
    requires
        from <= to <= input@.len(),
    ensures
        b == is_f64_text(input@.subrange(from as int, to as int)),
{
    let ghost t = input@.subrange(from as int, to as int);
    let mut p = from;
    if p < to && (input[p] == '+' || input[p] == '-') {
        p = p + 1;
    }
    proof {
        assert(sign_body(t) =~= input@.subrange(p as int, to as int));
    }
    let ghost body = sign_body(t);
    if is_inf_range(input, p, to) || is_infinity_range(input, p, to) || is_nan_range(
        input,
        p,
        to,
    ) {
        return true;
    }
    match find_exp_range(input, p, to) {
        Some(j) => {
            proof {
                assert(body.take(j as int - p as int) =~= input@.subrange(p as int, j as int));
                assert(body.skip(j as int - p as int + 1) =~= input@.subrange(
                    j as int + 1,
                    to as int,
                ));
            }
            is_mantissa_range(input, p, j) && is_exp_suffix_range(input, j + 1, to)
        },
        None => is_mantissa_range(input, p, to),
    }
}

/// Resolves the trimmed text in the range `from..to` of `input` as a scalar
/// value.
pub(crate) fn classify_scalar(input: &Vec<char>, from: usize, to: usize) -> (r: YamlValue)
    requires
        from <= to <= input@.len(),
    ensures
        r@ == scalar_view(input@.subrange(from as int, to as int)),
{
    if range_eq_lit(input, from, to, "true") || range_eq_lit(input, from, to, "True")
        || range_eq_lit(input, from, to, "TRUE") {
        YamlValue::Boolean(true)
    } else if range_eq_lit(input, from, to, "false") || range_eq_lit(input, from, to, "False")
        || range_eq_lit(input, from, to, "FALSE") {
        YamlValue::Boolean(false)
    } else if to == from || range_eq_lit(input, from, to, "null") || range_eq_lit(
        input,
        from,
        to,
        "Null",
    ) || range_eq_lit(input, from, to, "NULL") || range_eq_lit(input, from, to, "~") {
        YamlValue::Null
    } else {
        match parse_i64_range(input, from, to) {
            Some(v) => YamlValue::Integer(v),
            None => {
                if is_f64_range(input, from, to) {
                    YamlValue::Float(chars_to_string(input, from, to))
                } else {
                    YamlValue::String(chars_to_string(input, from, to))
                }
            },
        }
    }
}

} // verus!
