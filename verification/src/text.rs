//! Character-level utilities shared by the tokenizer: whitespace
//! classification, trimming, and decimal formatting for error messages.

use vstd::prelude::*;

verus! {

/// A character that counts as one unit of indentation width.
pub open spec fn is_indent_char(c: char) -> bool {
    c == ' ' || c == '\t'
}

/// Whitespace that is skipped inside a line (everything but a newline).
pub open spec fn is_inline_ws(c: char) -> bool {
    c == ' ' || c == '\t' || c == '\r'
}

/// Whitespace removed by trimming.
pub open spec fn is_ws(c: char) -> bool {
    c == ' ' || c == '\t' || c == '\r' || c == '\n'
}

/// The first position at or after `from` holding no trimmable whitespace.
pub open spec fn ws_prefix_end(s: Seq<char>, from: int) -> int
    recommends
        0 <= from <= s.len(),
    decreases s.len() - from,
{
    if from < 0 || from >= s.len() || !is_ws(s[from]) {
        from
    } else {
        ws_prefix_end(s, from + 1)
    }
}

/// The first position at or before `to` with no trimmable whitespace
/// directly in front of it.
pub open spec fn ws_suffix_start(s: Seq<char>, to: int) -> int
    recommends
        0 <= to <= s.len(),
    decreases to,
{
    if to <= 0 || to > s.len() || !is_ws(s[to - 1]) {
        to
    } else {
        ws_suffix_start(s, to - 1)
    }
}

/// `s` with leading and trailing whitespace removed.
pub open spec fn trim(s: Seq<char>) -> Seq<char> {
    let a = ws_prefix_end(s, 0);
    let b = ws_suffix_start(s, s.len() as int);
    if a <= b {
        s.subrange(a, b)
    } else {
        Seq::empty()
    }
}

pub proof fn lemma_ws_suffix_bounds(s: Seq<char>, to: int)
    requires
        0 <= to <= s.len(),
    ensures
        0 <= ws_suffix_start(s, to) <= to,
    decreases to,
{
    if to > 0 && is_ws(s[to - 1]) {
        lemma_ws_suffix_bounds(s, to - 1);
    }
}

/// The sub-range of `from..to` left after trimming whitespace on both sides.
pub(crate) fn trim_range(input: &Vec<char>, from: usize, to: usize) -> (r: (usize, usize))
    requires
        from <= to <= input@.len(),
    ensures
        from <= r.0 <= r.1 <= to,
        input@.subrange(r.0 as int, r.1 as int) == trim(
            input@.subrange(from as int, to as int),
        ),
{
    let ghost t = input@.subrange(from as int, to as int);
    let mut a = from;
    while a < to && (input[a] == ' ' || input[a] == '\t' || input[a] == '\r' || input[a] == '\n')
        invariant
            from <= a <= to <= input@.len(),
            t == input@.subrange(from as int, to as int),
            ws_prefix_end(t, 0) == ws_prefix_end(t, a as int - from as int),
        decreases to - a,
    {
        proof {
            assert(t[a as int - from as int] == input@[a as int]);
        }
        a = a + 1;
    }
    proof {
        if a < to {
            assert(t[a as int - from as int] == input@[a as int]);
        }
        assert(ws_prefix_end(t, 0) == a as int - from as int);
    }
    if a == to {
        proof {
            lemma_ws_suffix_bounds(t, t.len() as int);
            assert(trim(t) =~= Seq::<char>::empty());
            assert(input@.subrange(to as int, to as int) =~= Seq::<char>::empty());
        }
        return (to, to);
    }
    let mut b = to;
    while b > a && (input[b - 1] == ' ' || input[b - 1] == '\t' || input[b - 1] == '\r' || input[b
        - 1] == '\n')
        invariant
            from <= a < to <= input@.len(),
            a < b <= to,
            t == input@.subrange(from as int, to as int),
            !is_ws(t[a as int - from as int]),
            ws_suffix_start(t, to as int - from as int) == ws_suffix_start(
                t,
                b as int - from as int,
            ),
        decreases b,
    {
        proof {
            assert(t[b as int - 1 - from as int] == input@[b as int - 1]);
            assert(t[a as int - from as int] == input@[a as int]);
        }
        b = b - 1;
    }
    proof {
        assert(t[b as int - 1 - from as int] == input@[b as int - 1]);
        assert(ws_suffix_start(t, to as int - from as int) == b as int - from as int);
        assert(trim(t) == t.subrange(a as int - from as int, b as int - from as int));
        assert(input@.subrange(a as int, b as int) =~= t.subrange(
            a as int - from as int,
            b as int - from as int,
        ));
    }
    (a, b)
}

/// The character for one decimal digit.
pub open spec fn digit_char(d: int) -> char {
    if d == 0 {
        '0'
    } else if d == 1 {
        '1'
    } else if d == 2 {
        '2'
    } else if d == 3 {
        '3'
    } else if d == 4 {
        '4'
    } else if d == 5 {
        '5'
    } else if d == 6 {
        '6'
    } else if d == 7 {
        '7'
    } else if d == 8 {
        '8'
    } else {
        '9'
    }
}

/// The decimal digits of `n`, most significant first.
pub open spec fn dec_digits(n: int) -> Seq<char>
    recommends
        n >= 0,
    decreases n,
{
    if n < 10 {
        seq![digit_char(n)]
    } else {
        dec_digits(n / 10).push(digit_char(n % 10))
    }
}

/// Relies on `String::push`: appends the given character to the end of the
/// string.
#[verifier::external_body]
pub(crate) fn string_push(s: &mut String, c: char)
    ensures
        final (s)@ == old(s)@.push(c),
{
    s.push(c);
}

/// The character for one decimal digit.
fn digit_char_of(d: u64) -> (c: char)
    requires
        0 <= d < 10,
    ensures
        c == digit_char(d as int),
{
    if d == 0 {
        '0'
    } else if d == 1 {
        '1'
    } else if d == 2 {
        '2'
    } else if d == 3 {
        '3'
    } else if d == 4 {
        '4'
    } else if d == 5 {
        '5'
    } else if d == 6 {
        '6'
    } else if d == 7 {
        '7'
    } else if d == 8 {
        '8'
    } else {
        '9'
    }
}

/// The characters of `input` in the range `from..to`, as a string.
pub(crate) fn chars_to_string(input: &Vec<char>, from: usize, to: usize) -> (s: String)
    requires
        from <= to <= input@.len(),
    ensures
        s@ == input@.subrange(from as int, to as int),
{
    let mut s = String::new();
    let mut i: usize = from;
    while i < to
        invariant
            from <= i <= to <= input@.len(),
            s@ == input@.subrange(from as int, i as int),
        decreases to - i,
    {
        string_push(&mut s, input[i]);
        i = i + 1;
        proof {
            assert(input@.subrange(from as int, i as int) =~= input@.subrange(
                from as int,
                i as int - 1,
            ).push(input@[i as int - 1]));
        }
    }
    proof {
        assert(s@ =~= input@.subrange(from as int, to as int));
    }
    s
}

/// `n` written in decimal.
pub fn u64_to_string(n: u64) -> (s: String)
    ensures
        s@ == dec_digits(n as int),
    decreases n,
{
    if n < 10 {
        let mut s = String::new();
        let c = digit_char_of(n);
        string_push(&mut s, c);
        s
    } else {
        let mut s = u64_to_string(n / 10);
        let c = digit_char_of(n % 10);
        string_push(&mut s, c);
        s
    }
}

} // verus!
