//! The tokenizer: turns raw text into a flat token stream while tracking
//! nesting through a stack of open indentation widths.
//!
//! Per logical line: a blank or comment line leaves the indent stack alone;
//! otherwise the leading run of spaces and tabs is measured (each counted as
//! one unit of width) and compared with the stack top. A wider line pushes
//! its width and emits `Indent`; a narrower line pops and emits one `Dedent`
//! per closed level and must land exactly on an enclosing width, else the
//! call fails with an indentation error naming the width and the line. The
//! rest of the line becomes `ListItem`, `Key`/`Colon`, scalar `Value`,
//! `Comment` and `Newline` tokens. At end of input the still-open levels are
//! closed with synthesized `Dedent` tokens and a final `Eof`.
//!
//! The function [`spec_lex`] is the specification: a recursive definition of
//! the whole token stream of an input, which `tokenize` is proved to return.

use crate::error::{ErrView, YamlError};
use crate::scalar::{classify_scalar, scalar_view};
use crate::text::{
    chars_to_string, dec_digits, is_indent_char, is_inline_ws, string_push, trim, u64_to_string,
};
use crate::token::{lemma_replay_onto_concat, lemma_replay_onto_one, replay_onto, replay_step, toks_view, Token, TokenView};
use crate::value::{wf_value, ValueView, YamlValue};
use vstd::prelude::*;
use vstd::string::{StrSliceExecFns, StringExecFns};

verus! {

/// The character at `pos`, with a NUL standing for "past the end".
pub open spec fn cur_char(s: Seq<char>, pos: int) -> char {
    if 0 <= pos < s.len() {
        s[pos]
    } else {
        '\u{0}'
    }
}

/// The position right after the leading run of indentation characters.
pub open spec fn indent_end(s: Seq<char>, pos: int) -> int
    recommends
        0 <= pos <= s.len(),
    decreases s.len() - pos,
{
    if pos < 0 || pos >= s.len() || !is_indent_char(s[pos]) {
        pos
    } else {
        indent_end(s, pos + 1)
    }
}

/// The position right after the run of inline whitespace starting at `pos`.
pub open spec fn skip_ws_end(s: Seq<char>, pos: int) -> int
    recommends
        0 <= pos <= s.len(),
    decreases s.len() - pos,
{
    if pos < 0 || pos >= s.len() || !is_inline_ws(s[pos]) {
        pos
    } else {
        skip_ws_end(s, pos + 1)
    }
}

/// The position of the next newline at or after `pos`, or the end of input.
pub open spec fn line_end(s: Seq<char>, pos: int) -> int
    recommends
        0 <= pos <= s.len(),
    decreases s.len() - pos,
{
    if pos < 0 || pos >= s.len() || s[pos] == '\n' {
        pos
    } else {
        line_end(s, pos + 1)
    }
}

/// Where the text of an unquoted scalar ends: the next newline or comment
/// marker, or the end of input.
pub open spec fn value_end(s: Seq<char>, pos: int) -> int
    recommends
        0 <= pos <= s.len(),
    decreases s.len() - pos,
{
    if pos < 0 || pos >= s.len() || s[pos] == '\n' || s[pos] == '#' {
        pos
    } else {
        value_end(s, pos + 1)
    }
}

/// A character that lets a colon introduce a value.
pub open spec fn is_sep(c: char) -> bool {
    c == ' ' || c == '\t' || c == '\n' || c == '\r'
}

/// The position of the first colon followed by whitespace or the end of
/// input, scanning no further than the end of the line or a comment marker.
pub open spec fn find_key_colon(s: Seq<char>, pos: int) -> Option<int>
    recommends
        0 <= pos <= s.len(),
    decreases s.len() - pos,
{
    if pos < 0 || pos >= s.len() {
        None
    } else if s[pos] == ':' && (pos + 1 >= s.len() || is_sep(s[pos + 1])) {
        Some(pos)
    } else if s[pos] == '\n' || s[pos] == '#' {
        None
    } else {
        find_key_colon(s, pos + 1)
    }
}

/// How many newlines lie before `pos`.
pub open spec fn count_nl(s: Seq<char>, pos: int) -> int
    recommends
        0 <= pos <= s.len(),
    decreases pos,
{
    if pos <= 0 {
        0
    } else {
        count_nl(s, pos - 1) + (if s[pos - 1] == '\n' {
            1int
        } else {
            0int
        })
    }
}

/// The 1-based line number of `pos`, saturating at the largest `usize`.
pub open spec fn line_no(s: Seq<char>, pos: int) -> int {
    if count_nl(s, pos) + 1 <= usize::MAX {
        count_nl(s, pos) + 1
    } else {
        usize::MAX as int
    }
}

/// The message of an indentation error at width `w` on line `line`.
pub open spec fn indent_err_msg(w: int, line: int) -> Seq<char> {
    "Invalid indentation level "@ + dec_digits(w) + " at line "@ + dec_digits(line)
}

/// The `Dedent` tokens and remaining stack after popping every level wider
/// than `w`, widest first.
pub open spec fn pop_dedents(stack: Seq<int>, w: int) -> (Seq<TokenView>, Seq<int>)
    decreases stack.len(),
{
    if stack.len() == 0 || stack.last() <= w {
        (Seq::empty(), stack)
    } else {
        let r = pop_dedents(stack.drop_last(), w);
        (seq![TokenView::Dedent(stack.last())] + r.0, r.1)
    }
}

/// The `Dedent` tokens that close every still-open level, widest first.
pub open spec fn close_dedents(stack: Seq<int>) -> Seq<TokenView>
    decreases stack.len(),
{
    if stack.len() <= 1 {
        Seq::empty()
    } else {
        seq![TokenView::Dedent(stack.last())] + close_dedents(stack.drop_last())
    }
}

/// Indentation bookkeeping at the start of a line: measure the leading
/// width, leave blank and comment lines alone, and otherwise push or pop the
/// stack, failing when a narrower line does not land on an enclosing width.
pub open spec fn spec_handle_indent(s: Seq<char>, pos: int, stack: Seq<int>) -> Result<
    (Seq<TokenView>, int, Seq<int>),
    ErrView,
> {
    let p = indent_end(s, pos);
    let w = p - pos;
    if p >= s.len() || s[p] == '\n' || s[p] == '#' {
        Ok((Seq::empty(), p, stack))
    } else if stack.len() == 0 {
        Ok((Seq::empty(), p, stack))
    } else if w > stack.last() {
        Ok((seq![TokenView::Indent(w)], p, stack.push(w)))
    } else if w == stack.last() {
        Ok((Seq::empty(), p, stack))
    } else {
        let r = pop_dedents(stack, w);
        if r.1.len() > 0 && r.1.last() == w {
            Ok((r.0, p, r.1))
        } else {
            Err(ErrView::Indent(indent_err_msg(w, line_no(s, pos))))
        }
    }
}

/// The decoded text of a quoted string starting right after its opening
/// quote, and the position right after its closing quote. Inside double
/// quotes the escapes `\n`, `\t`, `\r`, `\\` and `\"` are decoded, and for
/// any other escaped character the backslash is dropped and the character
/// kept; inside single quotes no escape processing occurs. Input ending
/// before the closing quote is an unexpected-end-of-input error.
pub open spec fn spec_quoted(s: Seq<char>, pos: int, q: char) -> Result<(Seq<char>, int), ErrView>
    recommends
        0 <= pos <= s.len(),
    decreases s.len() - pos,
{
    if pos < 0 || pos >= s.len() {
        Err(ErrView::Eof)
    } else if s[pos] == q {
        Ok((Seq::empty(), pos + 1))
    } else if s[pos] == '\\' && q == '"' {
        if pos + 1 >= s.len() {
            Err(ErrView::Eof)
        } else {
            let c = s[pos + 1];
            let dec: Seq<char> = if c == 'n' {
                seq!['\n']
            } else if c == 't' {
                seq!['\t']
            } else if c == 'r' {
                seq!['\r']
            } else if c == '\\' {
                seq!['\\']
            } else if c == '"' {
                seq!['"']
            } else {
                seq![c]
            };
            match spec_quoted(s, pos + 2, q) {
                Ok((rest, end)) => Ok((dec + rest, end)),
                Err(e) => Err(e),
            }
        }
    } else {
        match spec_quoted(s, pos + 1, q) {
            Ok((rest, end)) => Ok((seq![s[pos]] + rest, end)),
            Err(e) => Err(e),
        }
    }
}

/// The value read at `pos` and the position after it: nothing before the end
/// of the line is null, a quote opens a quoted string, and anything else is
/// the line's remaining text (up to a comment marker), trimmed and resolved
/// as a scalar.
pub open spec fn spec_read_value(s: Seq<char>, pos: int) -> Result<(ValueView, int), ErrView> {
    let p = skip_ws_end(s, pos);
    if p >= s.len() || s[p] == '\n' || s[p] == '#' {
        Ok((ValueView::Null, p))
    } else if s[p] == '"' || s[p] == '\'' {
        match spec_quoted(s, p + 1, s[p]) {
            Ok((txt, end)) => Ok((ValueView::Str(txt), end)),
            Err(e) => Err(e),
        }
    } else {
        let end = value_end(s, p);
        Ok((scalar_view(trim(s.subrange(p, end))), end))
    }
}

/// The next token at `pos` (not a line start, leading whitespace already
/// skipped) and the position right after it.
pub open spec fn spec_next_token(s: Seq<char>, pos: int) -> Result<(TokenView, int), ErrView> {
    if pos < 0 || pos >= s.len() {
        Ok((TokenView::Eof, pos))
    } else if s[pos] == '\n' {
        Ok((TokenView::Newline, pos + 1))
    } else if s[pos] == '#' {
        let end = line_end(s, pos + 1);
        Ok((TokenView::Comment(trim(s.subrange(pos + 1, end))), end))
    } else if s[pos] == ':' {
        Ok((TokenView::Colon, pos + 1))
    } else if s[pos] == '-' && pos + 1 < s.len() && (s[pos + 1] == ' ' || s[pos + 1] == '\n') {
        if s[pos + 1] == ' ' {
            Ok((TokenView::ListItem, pos + 2))
        } else {
            Ok((TokenView::ListItem, pos + 1))
        }
    } else if s[pos] == '-' {
        match spec_read_value(s, pos) {
            Ok((v, end)) => Ok((TokenView::Value(v), end)),
            Err(e) => Err(e),
        }
    } else {
        match find_key_colon(s, pos) {
            Some(j) => {
                let key = trim(s.subrange(pos, j));
                if key.len() == 0 {
                    Err(ErrView::Parse("Empty key after trimming"@))
                } else {
                    Ok((TokenView::Key(key), j))
                }
            },
            None => match spec_read_value(s, pos) {
                Ok((v, end)) => Ok((TokenView::Value(v), end)),
                Err(e) => Err(e),
            },
        }
    }
}

pub proof fn lemma_indent_end_bounds(s: Seq<char>, pos: int)
    requires
        0 <= pos <= s.len(),
    ensures
        pos <= indent_end(s, pos) <= s.len(),
    decreases s.len() - pos,
{
    if pos < s.len() && is_indent_char(s[pos]) {
        lemma_indent_end_bounds(s, pos + 1);
    }
}

pub proof fn lemma_skip_ws_bounds(s: Seq<char>, pos: int)
    requires
        0 <= pos <= s.len(),
    ensures
        pos <= skip_ws_end(s, pos) <= s.len(),
        skip_ws_end(s, pos) < s.len() ==> !is_inline_ws(s[skip_ws_end(s, pos)]),
    decreases s.len() - pos,
{
    if pos < s.len() && is_inline_ws(s[pos]) {
        lemma_skip_ws_bounds(s, pos + 1);
    }
}

pub proof fn lemma_line_end_bounds(s: Seq<char>, pos: int)
    requires
        0 <= pos <= s.len(),
    ensures
        pos <= line_end(s, pos) <= s.len(),
    decreases s.len() - pos,
{
    if pos < s.len() && s[pos] != '\n' {
        lemma_line_end_bounds(s, pos + 1);
    }
}

pub proof fn lemma_value_end_bounds(s: Seq<char>, pos: int)
    requires
        0 <= pos <= s.len(),
    ensures
        pos <= value_end(s, pos) <= s.len(),
    decreases s.len() - pos,
{
    if pos < s.len() && s[pos] != '\n' && s[pos] != '#' {
        lemma_value_end_bounds(s, pos + 1);
    }
}

pub proof fn lemma_find_key_colon_bounds(s: Seq<char>, pos: int)
    requires
        0 <= pos <= s.len(),
    ensures
        match find_key_colon(s, pos) {
            Some(j) => pos <= j < s.len() && s[j] == ':',
            None => true,
        },
    decreases s.len() - pos,
{
    if pos < s.len() {
        lemma_find_key_colon_bounds(s, pos + 1);
    }
}

pub proof fn lemma_quoted_bounds(s: Seq<char>, pos: int, q: char)
    requires
        0 <= pos <= s.len(),
    ensures
        match spec_quoted(s, pos, q) {
            Ok((txt, end)) => pos < end <= s.len(),
            Err(e) => true,
        },
    decreases s.len() - pos,
{
    if pos < s.len() && s[pos] != q {
        if s[pos] == '\\' && q == '"' {
            if pos + 2 <= s.len() {
                lemma_quoted_bounds(s, pos + 2, q);
            }
        } else {
            lemma_quoted_bounds(s, pos + 1, q);
        }
    }
}

pub proof fn lemma_read_value_bounds(s: Seq<char>, pos: int)
    requires
        0 <= pos <= s.len(),
    ensures
        match spec_read_value(s, pos) {
            Ok((v, end)) => pos <= end <= s.len(),
            Err(e) => true,
        },
{
    lemma_skip_ws_bounds(s, pos);
    let p = skip_ws_end(s, pos);
    if p < s.len() && s[p] != '\n' && s[p] != '#' {
        if s[p] == '"' || s[p] == '\'' {
            lemma_quoted_bounds(s, p + 1, s[p]);
        } else {
            lemma_value_end_bounds(s, p);
        }
    }
}

/// A token away from whitespace at a position inside the input always moves
/// the position strictly forward, never past the end.
pub proof fn lemma_next_token_advances(s: Seq<char>, pos: int)
    requires
        0 <= pos < s.len(),
        !is_inline_ws(s[pos]),
    ensures
        match spec_next_token(s, pos) {
            Ok((t, end)) => pos < end <= s.len(),
            Err(e) => true,
        },
{
    if s[pos] == '\n' || s[pos] == ':' {
    } else if s[pos] == '#' {
        lemma_line_end_bounds(s, pos + 1);
    } else if s[pos] == '-' && pos + 1 < s.len() && (s[pos + 1] == ' ' || s[pos + 1] == '\n') {
    } else {
        assert(skip_ws_end(s, pos) == pos);
        lemma_read_value_bounds(s, pos);
        if s[pos] == '-' {
            if s[pos] == '"' || s[pos] == '\'' {
                lemma_quoted_bounds(s, pos + 1, s[pos]);
            } else {
                assert(value_end(s, pos) == value_end(s, pos + 1));
                lemma_value_end_bounds(s, pos + 1);
            }
        } else {
            lemma_find_key_colon_bounds(s, pos);
            match find_key_colon(s, pos) {
                Some(j) => {
                    assert(s[pos] != ':');
                },
                None => {
                    if s[pos] == '"' || s[pos] == '\'' {
                        lemma_quoted_bounds(s, pos + 1, s[pos]);
                    } else {
                        assert(value_end(s, pos) == value_end(s, pos + 1));
                        lemma_value_end_bounds(s, pos + 1);
                    }
                },
            }
        }
    }
}

/// Every token of `r` after the tokens of `pre`, unless `r` failed.
pub open spec fn lex_prepend(pre: Seq<TokenView>, r: Result<Seq<TokenView>, ErrView>) -> Result<
    Seq<TokenView>,
    ErrView,
> {
    match r {
        Ok(ts) => Ok(pre + ts),
        Err(e) => Err(e),
    }
}

/// The token stream of the input from `pos` on, with `stack` the open
/// indentation levels and `at_start` whether `pos` begins a logical line.
/// The whole tokenization of a text is `spec_lex(text, 0, seq![0], true)`.
pub open spec fn spec_lex(s: Seq<char>, pos: int, stack: Seq<int>, at_start: bool) -> Result<
    Seq<TokenView>,
    ErrView,
>
    recommends
        0 <= pos,
    decreases s.len() - pos,
{
    if pos < 0 || pos >= s.len() {
        Ok(close_dedents(stack) + seq![TokenView::Eof])
    } else {
        let step = if at_start {
            spec_handle_indent(s, pos, stack)
        } else {
            Ok((Seq::empty(), pos, stack))
        };
        match step {
            Err(e) => Err(e),
            Ok((toks1, p1, st1)) => {
                let p2 = skip_ws_end(s, p1);
                if p2 >= s.len() {
                    Ok(toks1 + close_dedents(st1) + seq![TokenView::Eof])
                } else {
                    match spec_next_token(s, p2) {
                        Err(e) => Err(e),
                        Ok((t, p3)) => {
                            proof {
                                if at_start {
                                    lemma_indent_end_bounds(s, pos);
                                }
                                lemma_skip_ws_bounds(s, p1);
                                lemma_next_token_advances(s, p2);
                            }
                            lex_prepend(toks1 + seq![t], spec_lex(s, p3, st1, t is Newline))
                        },
                    }
                }
            },
        }
    }
}

/// The view of an indent stack.
pub open spec fn stack_view(st: Seq<usize>) -> Seq<int> {
    Seq::new(
        st.len(),
        |i: int|
            if 0 <= i < st.len() {
                st[i] as int
            } else {
                0int
            },
    )
}

pub proof fn lemma_indent_end_chars(s: Seq<char>, pos: int)
    requires
        0 <= pos <= s.len(),
    ensures
        forall|k: int| pos <= k < indent_end(s, pos) ==> is_indent_char(#[trigger] s[k]),
    decreases s.len() - pos,
{
    if pos < s.len() && is_indent_char(s[pos]) {
        lemma_indent_end_chars(s, pos + 1);
    }
}

pub proof fn lemma_count_nl_same(s: Seq<char>, a: int, b: int)
    requires
        0 <= a <= b <= s.len(),
        forall|k: int| a <= k < b ==> #[trigger] s[k] != '\n',
    ensures
        count_nl(s, a) == count_nl(s, b),
    decreases b - a,
{
    if a < b {
        lemma_count_nl_same(s, a, b - 1);
    }
}

/// A token that carries no ill-formed value: only a `Value` token carries a
/// tree at all, and a well-formed one binds each key of each mapping once.
pub open spec fn wf_tok(t: TokenView) -> bool {
    t matches TokenView::Value(v) ==> wf_value(v)
}

/// Every token of the stream is well formed.
pub open spec fn wf_toks(ts: Seq<TokenView>) -> bool {
    forall|i: int| 0 <= i < ts.len() ==> wf_tok(#[trigger] ts[i])
}

proof fn lemma_wf_toks_concat(a: Seq<TokenView>, b: Seq<TokenView>)
    requires
        wf_toks(a),
        wf_toks(b),
    ensures
        wf_toks(a + b),
{
    assert forall|i: int| 0 <= i < (a + b).len() implies wf_tok(#[trigger] (a + b)[i]) by {
        if i < a.len() {
            assert((a + b)[i] == a[i]);
        } else {
            assert((a + b)[i] == b[i - a.len()]);
        }
    }
}

proof fn lemma_pop_dedents_wf(stack: Seq<int>, w: int)
    ensures
        wf_toks(pop_dedents(stack, w).0),
    decreases stack.len(),
{
    if !(stack.len() == 0 || stack.last() <= w) {
        lemma_pop_dedents_wf(stack.drop_last(), w);
        lemma_wf_toks_concat(
            seq![TokenView::Dedent(stack.last())],
            pop_dedents(stack.drop_last(), w).0,
        );
    }
}

proof fn lemma_close_dedents_wf(stack: Seq<int>)
    ensures
        wf_toks(close_dedents(stack)),
    decreases stack.len(),
{
    if stack.len() > 1 {
        lemma_close_dedents_wf(stack.drop_last());
        lemma_wf_toks_concat(
            seq![TokenView::Dedent(stack.last())],
            close_dedents(stack.drop_last()),
        );
    }
}

proof fn lemma_read_value_wf(s: Seq<char>, pos: int)
    ensures
        spec_read_value(s, pos) matches Ok((v, end)) ==> wf_value(v),
{
}

proof fn lemma_next_token_wf(s: Seq<char>, pos: int)
    ensures
        spec_next_token(s, pos) matches Ok((t, end)) ==> wf_tok(t),
{
    lemma_read_value_wf(s, pos);
}

/// Tokenization yields only well-formed tokens: every scalar a `Value` token
/// carries is a leaf, so every mapping in it (there is none) binds each key
/// once.
pub proof fn lemma_spec_lex_wf(s: Seq<char>, pos: int, stack: Seq<int>, at_start: bool)
    ensures
        spec_lex(s, pos, stack, at_start) matches Ok(toks) ==> wf_toks(toks),
    decreases s.len() - pos,
{
    if pos < 0 || pos >= s.len() {
        lemma_close_dedents_wf(stack);
        lemma_wf_toks_concat(close_dedents(stack), seq![TokenView::Eof]);
        assert(wf_toks(seq![TokenView::Eof])) by {
            assert(wf_tok(seq![TokenView::Eof][0]));
        }
    } else {
        let step = if at_start {
            spec_handle_indent(s, pos, stack)
        } else {
            Ok::<(Seq<TokenView>, int, Seq<int>), ErrView>((Seq::empty(), pos, stack))
        };
        match step {
            Err(e) => {},
            Ok((toks1, p1, st1)) => {
                assert(wf_toks(toks1)) by {
                    lemma_pop_dedents_wf(stack, indent_end(s, pos) - pos);
                    if at_start {
                        let w = indent_end(s, pos) - pos;
                        if !(indent_end(s, pos) >= s.len() || s[indent_end(s, pos)] == '\n'
                            || s[indent_end(s, pos)] == '#') && stack.len() > 0 && w
                            > stack.last() {
                            assert(wf_tok(seq![TokenView::Indent(w)][0]));
                        }
                    }
                }
                let p2 = skip_ws_end(s, p1);
                if p2 >= s.len() {
                    lemma_close_dedents_wf(st1);
                    assert(wf_toks(seq![TokenView::Eof])) by {
                        assert(wf_tok(seq![TokenView::Eof][0]));
                    }
                    lemma_wf_toks_concat(toks1, close_dedents(st1));
                    lemma_wf_toks_concat(toks1 + close_dedents(st1), seq![TokenView::Eof]);
                } else {
                    match spec_next_token(s, p2) {
                        Err(e) => {},
                        Ok((t, p3)) => {
                            if at_start {
                                lemma_indent_end_bounds(s, pos);
                            }
                            lemma_skip_ws_bounds(s, p1);
                            lemma_next_token_advances(s, p2);
                            lemma_next_token_wf(s, p2);
                            assert(wf_toks(seq![t])) by {
                                assert(wf_tok(seq![t][0]));
                            }
                            lemma_wf_toks_concat(toks1, seq![t]);
                            lemma_spec_lex_wf(s, p3, st1, t is Newline);
                            match spec_lex(s, p3, st1, t is Newline) {
                                Ok(rest) => {
                                    lemma_wf_toks_concat(toks1 + seq![t], rest);
                                },
                                Err(er) => {},
                            }
                        },
                    }
                }
            },
        }
    }
}

/// A stack of open indentation levels as the tokenizer maintains it:
/// strictly increasing from a base level of zero.
pub open spec fn wf_stack(stack: Seq<int>) -> bool {
    &&& stack.len() >= 1
    &&& stack[0] == 0
    &&& forall|i: int, j: int| 0 <= i < j < stack.len() ==> stack[i] < stack[j]
}

proof fn lemma_pop_dedents_lands(stack: Seq<int>, w: int)
    requires
        wf_stack(stack),
        w >= 0,
    ensures
        ({
            let r = pop_dedents(stack, w);
            &&& r.1.len() >= 1
            &&& r.1.last() <= w
            &&& (r.1.last() == w <==> stack.contains(w))
            &&& wf_stack(r.1)
        }),
    decreases stack.len(),
{
    let r = pop_dedents(stack, w);
    if stack.last() <= w {
        if stack.contains(w) {
            let i = choose|i: int| 0 <= i < stack.len() && stack[i] == w;
            if i < stack.len() - 1 {
                assert(stack[i] < stack[stack.len() - 1]);
            }
        }
        if stack.last() == w {
            assert(stack.contains(w)) by {
                assert(stack[stack.len() - 1] == w);
            }
        }
    } else {
        assert(stack.len() >= 2) by {
            if stack.len() == 1 {
                assert(stack.last() == stack[0]);
            }
        }
        let head = stack.drop_last();
        assert(wf_stack(head));
        lemma_pop_dedents_lands(head, w);
        assert(stack.contains(w) <==> head.contains(w)) by {
            if stack.contains(w) {
                let i = choose|i: int| 0 <= i < stack.len() && stack[i] == w;
                assert(i < stack.len() - 1);
                assert(head[i] == w);
            }
            if head.contains(w) {
                let i = choose|i: int| 0 <= i < head.len() && head[i] == w;
                assert(stack[i] == w);
            }
        }
    }
}

/// An indentation width that does not land on an enclosing level is always
/// rejected: on a line that is not blank or a comment, whose width is
/// narrower than the innermost open level, the tokenizer fails with an
/// indentation error (naming the width and the line) exactly when the width
/// equals none of the open levels — there is no silent resync to a nearby
/// level.
pub proof fn lemma_indent_mismatch_rejected(s: Seq<char>, pos: int, stack: Seq<int>)
    requires
        0 <= pos <= s.len(),
        wf_stack(stack),
        indent_end(s, pos) < s.len(),
        s[indent_end(s, pos)] != '\n',
        s[indent_end(s, pos)] != '#',
    ensures
        ({
            let w = indent_end(s, pos) - pos;
            &&& (spec_handle_indent(s, pos, stack) is Err <==> (w < stack.last()
                && !stack.contains(w)))
            &&& (spec_handle_indent(s, pos, stack) matches Err(e) ==> e == ErrView::Indent(
                indent_err_msg(w, line_no(s, pos)),
            ))
        }),
{
    lemma_indent_end_bounds(s, pos);
    let w = indent_end(s, pos) - pos;
    if w < stack.last() {
        lemma_pop_dedents_lands(stack, w);
    } else if w == stack.last() {
        assert(stack.contains(w)) by {
            assert(stack[stack.len() - 1] == w);
        }
    }
}

/// Indentation bookkeeping keeps the stack well formed: whatever one line
/// does to a well-formed stack, the stack stays strictly increasing from its
/// base level of zero.
pub proof fn lemma_handle_indent_preserves_stack(s: Seq<char>, pos: int, stack: Seq<int>)
    requires
        0 <= pos <= s.len(),
        wf_stack(stack),
    ensures
        spec_handle_indent(s, pos, stack) matches Ok((toks, p, st)) ==> wf_stack(st),
{
    lemma_indent_end_bounds(s, pos);
    let p = indent_end(s, pos);
    let w = p - pos;
    if p >= s.len() || s[p] == '\n' || s[p] == '#' {
    } else if w > stack.last() {
        let st = stack.push(w);
        assert forall|i: int, j: int| 0 <= i < j < st.len() implies st[i] < st[j] by {
            if j < st.len() - 1 {
                assert(stack[i] < stack[j]);
            } else if i < st.len() - 1 {
                assert(st[i] == stack[i]);
                if i < stack.len() - 1 {
                    assert(stack[i] < stack[stack.len() - 1]);
                }
            }
        }
        assert(wf_stack(st));
    } else if w == stack.last() {
    } else {
        lemma_pop_dedents_lands(stack, w);
    }
}

proof fn lemma_replay_close_dedents(st: Seq<int>)
    requires
        st.len() >= 1,
    ensures
        replay_onto(st, close_dedents(st)) == seq![st[0]],
    decreases st.len(),
{
    if st.len() <= 1 {
        assert(close_dedents(st).len() == 0);
        assert(st =~= seq![st[0]]);
    } else {
        lemma_replay_close_dedents(st.drop_last());
        assert(close_dedents(st)[0] == TokenView::Dedent(st.last()));
        assert(close_dedents(st).drop_first() =~= close_dedents(st.drop_last()));
        assert(replay_step(st, TokenView::Dedent(st.last())) == st.drop_last());
        assert(st.drop_last()[0] == st[0]);
    }
}

proof fn lemma_replay_pop_dedents(st: Seq<int>, w: int)
    requires
        wf_stack(st),
        w >= 0,
    ensures
        replay_onto(st, pop_dedents(st, w).0) == pop_dedents(st, w).1,
    decreases st.len(),
{
    if st.len() == 0 || st.last() <= w {
        assert(pop_dedents(st, w).0.len() == 0);
    } else {
        assert(st.len() >= 2) by {
            if st.len() == 1 {
                assert(st.last() == st[0]);
            }
        }
        assert(wf_stack(st.drop_last()));
        lemma_replay_pop_dedents(st.drop_last(), w);
        let toks = pop_dedents(st, w).0;
        assert(toks[0] == TokenView::Dedent(st.last()));
        assert(toks.drop_first() =~= pop_dedents(st.drop_last(), w).0);
        assert(replay_step(st, TokenView::Dedent(st.last())) == st.drop_last());
    }
}

proof fn lemma_replay_handle_indent(s: Seq<char>, pos: int, stack: Seq<int>)
    requires
        0 <= pos <= s.len(),
        wf_stack(stack),
    ensures
        spec_handle_indent(s, pos, stack) matches Ok((toks, p, st)) ==> replay_onto(stack, toks)
            == st,
{
    lemma_indent_end_bounds(s, pos);
    let p = indent_end(s, pos);
    let w = p - pos;
    if p >= s.len() || s[p] == '\n' || s[p] == '#' {
    } else if w > stack.last() {
        lemma_replay_onto_one(stack, TokenView::Indent(w));
    } else if w == stack.last() {
    } else {
        lemma_replay_pop_dedents(stack, w);
    }
}

/// A token that is not indentation bookkeeping leaves the stack alone; the
/// tokenizer emits `Indent` and `Dedent` only from that bookkeeping, never
/// from the body of a line.
proof fn lemma_next_token_no_indentation(s: Seq<char>, pos: int)
    ensures
        spec_next_token(s, pos) matches Ok((t, end)) ==> (!(t is Indent) && !(t is Dedent)),
{
}

/// Every level the tokenizer opens is closed again: replaying the emitted
/// tokens onto the stack in force when tokenization starts leaves only the
/// base level open.
pub proof fn lemma_spec_lex_balanced(s: Seq<char>, pos: int, stack: Seq<int>, at_start: bool)
    requires
        0 <= pos,
        wf_stack(stack),
    ensures
        spec_lex(s, pos, stack, at_start) matches Ok(toks) ==> replay_onto(stack, toks) == seq![
            stack[0],
        ],
    decreases s.len() - pos,
{
    if pos < 0 || pos >= s.len() {
        lemma_replay_onto_concat(stack, close_dedents(stack), seq![TokenView::Eof]);
        lemma_replay_close_dedents(stack);
        lemma_replay_onto_one(seq![stack[0]], TokenView::Eof);
    } else {
        let step = if at_start {
            spec_handle_indent(s, pos, stack)
        } else {
            Ok::<(Seq<TokenView>, int, Seq<int>), ErrView>((Seq::empty(), pos, stack))
        };
        match step {
            Err(e) => {},
            Ok((toks1, p1, st1)) => {
                if at_start {
                    lemma_replay_handle_indent(s, pos, stack);
                    lemma_handle_indent_preserves_stack(s, pos, stack);
                }
                assert(replay_onto(stack, toks1) == st1);
                assert(wf_stack(st1));
                let p2 = skip_ws_end(s, p1);
                if p2 >= s.len() {
                    lemma_replay_onto_concat(stack, toks1 + close_dedents(st1), seq![
                        TokenView::Eof,
                    ]);
                    lemma_replay_onto_concat(stack, toks1, close_dedents(st1));
                    lemma_replay_close_dedents(st1);
                    lemma_replay_onto_one(seq![st1[0]], TokenView::Eof);
                } else {
                    match spec_next_token(s, p2) {
                        Err(e) => {},
                        Ok((t, p3)) => {
                            if at_start {
                                lemma_indent_end_bounds(s, pos);
                            }
                            lemma_skip_ws_bounds(s, p1);
                            lemma_next_token_advances(s, p2);
                            lemma_next_token_no_indentation(s, p2);
                            lemma_spec_lex_balanced(s, p3, st1, t is Newline);
                            match spec_lex(s, p3, st1, t is Newline) {
                                Ok(rest) => {
                                    lemma_replay_onto_concat(stack, toks1 + seq![t], rest);
                                    lemma_replay_onto_concat(stack, toks1, seq![t]);
                                    lemma_replay_onto_one(st1, t);
                                    assert(replay_step(st1, t) == st1);
                                },
                                Err(er) => {},
                            }
                        },
                    }
                }
            },
        }
    }
}

/// The tokenizer's state: the input characters, the reading position, and
/// the stack of open indentation widths.
pub struct Lexer {
    pub input: Vec<char>,
    pub position: usize,
    pub indent_stack: Vec<usize>,
}

impl Lexer {
    /// A tokenizer at the start of `input`, with only the base indentation
    /// level open.
    pub fn new(input: &str) -> (r: Lexer)
        ensures
            r.input@ == input@,
            r.position == 0,
            stack_view(r.indent_stack@) == seq![0int],
    {
        let n = input.unicode_len();
        let mut v: Vec<char> = Vec::new();
        let mut i: usize = 0;
        while i < n
            invariant
                i <= n,
                n == input@.len(),
                v@ == input@.take(i as int),
            decreases n - i,
        {
            let c = input.get_char(i);
            v.push(c);
            i = i + 1;
            proof {
                assert(input@.take(i as int) =~= input@.take(i as int - 1).push(
                    input@[i as int - 1],
                ));
            }
        }
        proof {
            assert(input@.take(n as int) =~= input@);
        }
        let mut stack: Vec<usize> = Vec::new();
        stack.push(0);
        proof {
            assert(stack_view(stack@) =~= seq![0int]);
        }
        Lexer { input: v, position: 0, indent_stack: stack }
    }

    /// Whether the whole input has been consumed.
    fn is_at_end(&self) -> (r: bool)
        ensures
            r == (self.position >= self.input@.len()),
    {
        self.position >= self.input.len()
    }

    /// The character under the cursor, with a NUL standing for the end.
    fn current_char(&self) -> (c: char)
        ensures
            c == cur_char(self.input@, self.position as int),
    {
        if self.position < self.input.len() {
            self.input[self.position]
        } else {
            '\u{0}'
        }
    }

    /// The character after the cursor, if there is one.
    fn peek_char(&self) -> (c: Option<char>)
        ensures
            c == (if self.position as int + 1 < self.input@.len() {
                Some(self.input@[self.position as int + 1])
            } else {
                None::<char>
            }),
    {
        let n = self.input.len();
        if self.position < n && self.position + 1 < n {
            Some(self.input[self.position + 1])
        } else {
            None
        }
    }

    /// Moves the cursor one character forward, returning what it was over; at
    /// the end it stays put and returns a NUL.
    fn advance(&mut self) -> (c: char)
        ensures
            final (self).input == old(self).input,
            final (self).indent_stack == old(self).indent_stack,
            c == cur_char(old(self).input@, old(self).position as int),
            old(self).position < old(self).input@.len() ==> final (self).position == old(
                self,
            ).position + 1,
            old(self).position >= old(self).input@.len() ==> final (self).position == old(
                self,
            ).position,
    {
        if self.position < self.input.len() {
            let c = self.input[self.position];
            self.position = self.position + 1;
            c
        } else {
            '\u{0}'
        }
    }

    /// Skips spaces, tabs and carriage returns, stopping at a newline.
    fn skip_whitespace_except_newline(&mut self)
        requires
            old(self).position <= old(self).input@.len(),
        ensures
            final (self).input == old(self).input,
            final (self).indent_stack == old(self).indent_stack,
            final (self).position as int == skip_ws_end(
                old(self).input@,
                old(self).position as int,
            ),
            final (self).position <= final (self).input@.len(),
    {
        let ghost s = self.input@;
        let ghost pos0 = self.position as int;
        while self.position < self.input.len() && (self.input[self.position] == ' '
            || self.input[self.position] == '\t' || self.input[self.position] == '\r')
            invariant
                self.input == old(self).input,
                self.input@ == s,
                self.indent_stack == old(self).indent_stack,
                pos0 <= self.position as int <= s.len(),
                skip_ws_end(s, pos0) == skip_ws_end(s, self.position as int),
            decreases s.len() - self.position as int,
        {
            self.position = self.position + 1;
        }
    }

    /// The 1-based line number of the cursor, saturating at the largest
    /// representable value.
    fn count_line(&self) -> (line: usize)
        requires
            self.position <= self.input@.len(),
        ensures
            line as int == line_no(self.input@, self.position as int),
    {
        let ghost s = self.input@;
        let mut cnt: usize = 0;
        let mut i: usize = 0;
        while i < self.position
            invariant
                i <= self.position <= s.len(),
                self.input@ == s,
                cnt as int == count_nl(s, i as int),
                cnt <= i,
            decreases self.position - i,
        {
            if self.input[i] == '\n' {
                cnt = cnt + 1;
            }
            i = i + 1;
        }
        if cnt == usize::MAX {
            cnt
        } else {
            cnt + 1
        }
    }

    /// The indentation error for width `width` at the line of the cursor.
    fn indent_error(&self, width: usize) -> (e: YamlError)
        requires
            self.position <= self.input@.len(),
        ensures
            e@ == ErrView::Indent(
                indent_err_msg(width as int, line_no(self.input@, self.position as int)),
            ),
    {
        let mut m: String = "Invalid indentation level ".to_owned();
        let ws = u64_to_string(width as u64);
        m.append(ws.as_str());
        m.append(" at line ");
        let line = self.count_line();
        let ls = u64_to_string(line as u64);
        m.append(ls.as_str());
        YamlError::IndentationError(m)
    }

    /// Indentation bookkeeping at the start of a line: measures the leading
    /// width and emits the `Indent` or `Dedent` tokens it calls for, failing
    /// when a narrower line does not land exactly on an enclosing level.
    fn handle_indentation(&mut self) -> (r: Result<Vec<Token>, YamlError>)
        requires
            old(self).position <= old(self).input@.len(),
        ensures
            final (self).input == old(self).input,
            final (self).position <= final (self).input@.len(),
            match r {
                Ok(toks) => spec_handle_indent(
                    old(self).input@,
                    old(self).position as int,
                    stack_view(old(self).indent_stack@),
                ) == Ok::<(Seq<TokenView>, int, Seq<int>), ErrView>(
                    (
                        toks_view(toks@),
                        final (self).position as int,
                        stack_view(final (self).indent_stack@),
                    ),
                ),
                Err(e) => spec_handle_indent(
                    old(self).input@,
                    old(self).position as int,
                    stack_view(old(self).indent_stack@),
                ) == Err::<(Seq<TokenView>, int, Seq<int>), ErrView>(e@),
            },
    {
        let ghost s = self.input@;
        let ghost pos0 = self.position as int;
        let ghost st0 = stack_view(self.indent_stack@);
        let mut tokens: Vec<Token> = Vec::new();
        let mut width: usize = 0;
        while self.position < self.input.len() && (self.input[self.position] == ' '
            || self.input[self.position] == '\t')
            invariant
                self.input == old(self).input,
                self.indent_stack == old(self).indent_stack,
                s == self.input@,
                0 <= pos0 <= self.position as int <= s.len(),
                width as int == self.position as int - pos0,
                indent_end(s, pos0) == indent_end(s, self.position as int),
            decreases s.len() - self.position as int,
        {
            self.position = self.position + 1;
            width = width + 1;
        }
        proof {
            assert(indent_end(s, pos0) == self.position as int);
        }
        if self.is_at_end() || self.current_char() == '\n' || self.current_char() == '#' {
            proof {
                assert(toks_view(tokens@) =~= Seq::<TokenView>::empty());
            }
            return Ok(tokens);
        }
        let stack_len = self.indent_stack.len();
        if stack_len == 0 {
            proof {
                assert(toks_view(tokens@) =~= Seq::<TokenView>::empty());
                assert(st0.len() == 0);
            }
            return Ok(tokens);
        }
        let top = self.indent_stack[stack_len - 1];
        proof {
            assert(st0.last() == top as int);
        }
        if width > top {
            self.indent_stack.push(width);
            tokens.push(Token::Indent(width));
            proof {
                assert(toks_view(tokens@) =~= seq![TokenView::Indent(width as int)]);
                assert(stack_view(self.indent_stack@) =~= st0.push(width as int));
            }
            Ok(tokens)
        } else if width == top {
            proof {
                assert(toks_view(tokens@) =~= Seq::<TokenView>::empty());
            }
            Ok(tokens)
        } else {
            let ghost pd = pop_dedents(st0, width as int);
            let ghost p1 = self.position as int;
            while self.indent_stack.len() > 0 && self.indent_stack[self.indent_stack.len() - 1]
                > width
                invariant
                    self.input == old(self).input,
                    s == self.input@,
                    self.position as int == p1,
                    pos0 <= p1 <= s.len(),
                    width as int == p1 - pos0,
                    pd == ({
                        let cur = pop_dedents(stack_view(self.indent_stack@), width as int);
                        (toks_view(tokens@) + cur.0, cur.1)
                    }),
                decreases self.indent_stack@.len(),
            {
                let n = self.indent_stack.len();
                let t = self.indent_stack[n - 1];
                let ghost stv = stack_view(self.indent_stack@);
                self.indent_stack.pop();
                tokens.push(Token::Dedent(t));
                proof {
                    assert(stv.last() == t as int);
                    assert(stack_view(self.indent_stack@) =~= stv.drop_last());
                    let cur = pop_dedents(stv, width as int);
                    let nxt = pop_dedents(stv.drop_last(), width as int);
                    assert(cur.0 =~= seq![TokenView::Dedent(t as int)] + nxt.0);
                    assert(toks_view(tokens@) =~= toks_view(tokens@.drop_last()) + seq![
                        TokenView::Dedent(t as int),
                    ]);
                    assert(toks_view(tokens@.drop_last()) + cur.0 =~= toks_view(tokens@) + nxt.0);
                }
            }
            proof {
                let cur = pop_dedents(stack_view(self.indent_stack@), width as int);
                assert(cur == (Seq::<TokenView>::empty(), stack_view(self.indent_stack@)));
                assert(pd.0 =~= toks_view(tokens@));
                assert(pd.1 == stack_view(self.indent_stack@));
            }
            let n2 = self.indent_stack.len();
            if n2 > 0 && self.indent_stack[n2 - 1] == width {
                proof {
                    assert(stack_view(self.indent_stack@).last() == width as int);
                }
                Ok(tokens)
            } else {
                proof {
                    lemma_indent_end_chars(s, pos0);
                    lemma_count_nl_same(s, pos0, self.position as int);
                    if n2 > 0 {
                        assert(stack_view(self.indent_stack@).last() == self.indent_stack@[n2
                            - 1] as int);
                    }
                }
                let e = self.indent_error(width);
                Err(e)
            }
        }
    }

    /// Reads a comment from its `#` marker to the end of the line; the
    /// trimmed text becomes the token.
    fn read_comment(&mut self) -> (t: Token)
        requires
            old(self).position < old(self).input@.len(),
            old(self).input@[old(self).position as int] == '#',
        ensures
            final (self).input == old(self).input,
            final (self).indent_stack == old(self).indent_stack,
            final (self).position <= final (self).input@.len(),
            final (self).position as int == line_end(
                old(self).input@,
                old(self).position as int + 1,
            ),
            t@ == TokenView::Comment(
                trim(
                    old(self).input@.subrange(
                        old(self).position as int + 1,
                        line_end(old(self).input@, old(self).position as int + 1),
                    ),
                ),
            ),
    {
        let ghost s = self.input@;
        let _ = self.advance();
        let start = self.position;
        while self.position < self.input.len() && self.input[self.position] != '\n'
            invariant
                self.input == old(self).input,
                self.indent_stack == old(self).indent_stack,
                s == self.input@,
                start as int == old(self).position as int + 1,
                start <= self.position <= s.len(),
                line_end(s, start as int) == line_end(s, self.position as int),
            decreases s.len() - self.position as int,
        {
            self.position = self.position + 1;
        }
        proof {
            assert(line_end(s, start as int) == self.position as int);
        }
        let r = crate::text::trim_range(&self.input, start, self.position);
        let text = chars_to_string(&self.input, r.0, r.1);
        Token::Comment(text)
    }

    /// Reads a quoted string from its opening quote, decoding escapes inside
    /// double quotes; input ending before the closing quote is an error.
    fn read_quoted_string(&mut self) -> (r: Result<YamlValue, YamlError>)
        requires
            old(self).position < old(self).input@.len(),
            old(self).input@[old(self).position as int] == '"' || old(self).input@[old(
                self,
            ).position as int] == '\'',
        ensures
            final (self).input == old(self).input,
            final (self).indent_stack == old(self).indent_stack,
            final (self).position <= final (self).input@.len(),
            ({
                let s = old(self).input@;
                let p = old(self).position as int;
                match spec_quoted(s, p + 1, s[p]) {
                    Ok((txt, end)) => r matches Ok(v) && v@ == ValueView::Str(txt) && final (
                    self).position as int == end,
                    Err(er) => r matches Err(e) && e@ == er,
                }
            }),
    {
        let ghost s = self.input@;
        let q = self.input[self.position];
        let _ = self.advance();
        let ghost start = self.position as int;
        let mut value = String::new();
        while self.position < self.input.len() && self.input[self.position] != q
            invariant
                self.input == old(self).input,
                self.indent_stack == old(self).indent_stack,
                s == self.input@,
                q == s[old(self).position as int],
                q == '"' || q == '\'',
                start <= self.position as int <= s.len(),
                spec_quoted(s, start, q) == (match spec_quoted(s, self.position as int, q) {
                    Ok((rest, end)) => Ok::<(Seq<char>, int), ErrView>((value@ + rest, end)),
                    Err(e) => Err::<(Seq<char>, int), ErrView>(e),
                }),
            decreases s.len() - self.position as int,
        {
            let ghost bp = self.position as int;
            let ghost val0 = value@;
            let ch = self.advance();
            if ch == '\\' && q == '"' {
                let c2 = self.current_char();
                if c2 == 'n' {
                    let _ = self.advance();
                    string_push(&mut value, '\n');
                } else if c2 == 't' {
                    let _ = self.advance();
                    string_push(&mut value, '\t');
                } else if c2 == 'r' {
                    let _ = self.advance();
                    string_push(&mut value, '\r');
                } else if c2 == '\\' {
                    let _ = self.advance();
                    string_push(&mut value, '\\');
                } else if c2 == '"' {
                    let _ = self.advance();
                    string_push(&mut value, '"');
                } else {
                    let c3 = self.advance();
                    string_push(&mut value, c3);
                }
                proof {
                    if bp + 1 < s.len() {
                        let c = s[bp + 1];
                        let dec: Seq<char> = if c == 'n' {
                            seq!['\n']
                        } else if c == 't' {
                            seq!['\t']
                        } else if c == 'r' {
                            seq!['\r']
                        } else if c == '\\' {
                            seq!['\\']
                        } else if c == '"' {
                            seq!['"']
                        } else {
                            seq![c]
                        };
                        assert(value@ =~= val0 + dec);
                        match spec_quoted(s, bp + 2, q) {
                            Ok((rest, end)) => {
                                assert(val0 + (dec + rest) =~= value@ + rest);
                            },
                            Err(e) => {},
                        }
                    }
                }
            } else {
                string_push(&mut value, ch);
                proof {
                    assert(value@ =~= val0.push(s[bp]));
                    match spec_quoted(s, bp + 1, q) {
                        Ok((rest, end)) => {
                            assert(val0 + (seq![s[bp]] + rest) =~= value@ + rest);
                        },
                        Err(e) => {},
                    }
                }
            }
        }
        if self.position < self.input.len() {
            self.position = self.position + 1;
            Ok(YamlValue::String(value))
        } else {
            Err(YamlError::UnexpectedEof)
        }
    }

    /// Reads an inline value: nothing before the end of the line is null, a
    /// quote opens a quoted string, anything else is the line's remaining
    /// text resolved as a scalar.
    fn read_value(&mut self) -> (r: Result<YamlValue, YamlError>)
        requires
            old(self).position <= old(self).input@.len(),
        ensures
            final (self).input == old(self).input,
            final (self).indent_stack == old(self).indent_stack,
            final (self).position <= final (self).input@.len(),
            ({
                let s = old(self).input@;
                let p = old(self).position as int;
                match r {
                    Ok(v) => spec_read_value(s, p) == Ok::<(ValueView, int), ErrView>(
                        (v@, final (self).position as int),
                    ),
                    Err(e) => spec_read_value(s, p) == Err::<(ValueView, int), ErrView>(e@),
                }
            }),
    {
        let ghost s = self.input@;
        self.skip_whitespace_except_newline();
        if self.is_at_end() || self.current_char() == '\n' || self.current_char() == '#' {
            return Ok(YamlValue::Null);
        }
        let c = self.input[self.position];
        if c == '"' || c == '\'' {
            self.read_quoted_string()
        } else {
            let start = self.position;
            while self.position < self.input.len() && self.input[self.position] != '\n'
                && self.input[self.position] != '#'
                invariant
                    self.input == old(self).input,
                    self.indent_stack == old(self).indent_stack,
                    s == self.input@,
                    start <= self.position <= s.len(),
                    value_end(s, start as int) == value_end(s, self.position as int),
                decreases s.len() - self.position as int,
            {
                self.position = self.position + 1;
            }
            proof {
                assert(value_end(s, start as int) == self.position as int);
            }
            let r = crate::text::trim_range(&self.input, start, self.position);
            let v = classify_scalar(&self.input, r.0, r.1);
            Ok(v)
        }
    }

    /// Scans forward for a colon followed by whitespace or the end of input,
    /// stopping at the end of the line or a comment marker.
    fn scan_key_colon(&self) -> (r: Option<usize>)
        requires
            self.position <= self.input@.len(),
        ensures
            match r {
                Some(j) => self.position <= j < self.input@.len() && find_key_colon(
                    self.input@,
                    self.position as int,
                ) == Some(j as int),
                None => find_key_colon(self.input@, self.position as int) is None,
            },
    {
        let ghost s = self.input@;
        let n = self.input.len();
        let mut i = self.position;
        while i < n
            invariant
                self.position <= i <= n,
                n == s.len(),
                s == self.input@,
                find_key_colon(s, self.position as int) == find_key_colon(s, i as int),
            decreases n - i,
        {
            let c = self.input[i];
            if c == ':' {
                if i + 1 >= n {
                    return Some(i);
                }
                let c2 = self.input[i + 1];
                if c2 == ' ' || c2 == '\t' || c2 == '\n' || c2 == '\r' {
                    return Some(i);
                }
            } else if c == '\n' || c == '#' {
                return None;
            }
            i = i + 1;
        }
        None
    }

    /// Reads the key text up to the colon at `colon`, trimmed; an empty key
    /// is an error.
    fn read_key(&mut self, colon: usize) -> (r: Result<String, YamlError>)
        requires
            old(self).position <= colon <= old(self).input@.len(),
        ensures
            final (self).input == old(self).input,
            final (self).indent_stack == old(self).indent_stack,
            final (self).position == colon,
            ({
                let key = trim(
                    old(self).input@.subrange(old(self).position as int, colon as int),
                );
                match r {
                    Ok(k) => k@ == key && key.len() > 0,
                    Err(e) => key.len() == 0 && e@ == ErrView::Parse(
                        "Empty key after trimming"@,
                    ),
                }
            }),
    {
        let r = crate::text::trim_range(&self.input, self.position, colon);
        self.position = colon;
        if r.0 == r.1 {
            Err(YamlError::ParseError("Empty key after trimming".to_owned()))
        } else {
            let k = chars_to_string(&self.input, r.0, r.1);
            Ok(k)
        }
    }

    /// Reads the next token of the line: a newline, comment, colon, sequence
    /// marker, key or scalar value.
    fn next_token(&mut self) -> (r: Result<Token, YamlError>)
        requires
            old(self).position <= old(self).input@.len(),
        ensures
            final (self).input == old(self).input,
            final (self).indent_stack == old(self).indent_stack,
            final (self).position <= final (self).input@.len(),
            ({
                let s = old(self).input@;
                let p = old(self).position as int;
                match r {
                    Ok(t) => spec_next_token(s, p) == Ok::<(TokenView, int), ErrView>(
                        (t@, final (self).position as int),
                    ),
                    Err(e) => spec_next_token(s, p) == Err::<(TokenView, int), ErrView>(e@),
                }
            }),
    {
        let ghost s = self.input@;
        let ghost p = self.position as int;
        if self.is_at_end() {
            return Ok(Token::Eof);
        }
        let c = self.input[self.position];
        if c == '\n' {
            let _ = self.advance();
            Ok(Token::Newline)
        } else if c == '#' {
            Ok(self.read_comment())
        } else if c == ':' {
            let _ = self.advance();
            Ok(Token::Colon)
        } else if c == '-' {
            let pk = self.peek_char();
            let is_li = match pk {
                Some(c2) => c2 == ' ' || c2 == '\n',
                None => false,
            };
            if is_li {
                let _ = self.advance();
                if self.current_char() == ' ' {
                    let _ = self.advance();
                }
                Ok(Token::ListItem)
            } else {
                match self.read_value() {
                    Ok(v) => Ok(Token::Value(v)),
                    Err(e) => Err(e),
                }
            }
        } else {
            match self.scan_key_colon() {
                Some(j) => match self.read_key(j) {
                    Ok(k) => Ok(Token::Key(k)),
                    Err(e) => Err(e),
                },
                None => match self.read_value() {
                    Ok(v) => Ok(Token::Value(v)),
                    Err(e) => Err(e),
                },
            }
        }
    }

    /// Tokenizes the whole input. The returned token stream, or the first
    /// error, is exactly what [`spec_lex`] assigns to the input.
    pub fn tokenize(&mut self) -> (r: Result<Vec<Token>, YamlError>)
        requires
            old(self).position <= old(self).input@.len(),
        ensures
            final (self).input == old(self).input,
            final (self).position <= final (self).input@.len(),
            ({
                let expected = spec_lex(
                    old(self).input@,
                    old(self).position as int,
                    stack_view(old(self).indent_stack@),
                    true,
                );
                match r {
                    Ok(toks) => expected == Ok::<Seq<TokenView>, ErrView>(toks_view(toks@)),
                    Err(e) => expected == Err::<Seq<TokenView>, ErrView>(e@),
                }
            }),
    {
        let ghost s = self.input@;
        let ghost target = spec_lex(
            s,
            old(self).position as int,
            stack_view(old(self).indent_stack@),
            true,
        );
        let mut tokens: Vec<Token> = Vec::new();
        let mut at_line_start = true;
        while self.position < self.input.len()
            invariant_except_break
                target == lex_prepend(
                    toks_view(tokens@),
                    spec_lex(
                        s,
                        self.position as int,
                        stack_view(self.indent_stack@),
                        at_line_start,
                    ),
                ),
            invariant
                self.input == old(self).input,
                s == self.input@,
                self.position <= s.len(),
                target == spec_lex(
                    old(self).input@,
                    old(self).position as int,
                    stack_view(old(self).indent_stack@),
                    true,
                ),
            ensures
                target == Ok::<Seq<TokenView>, ErrView>(
                    toks_view(tokens@) + (close_dedents(stack_view(self.indent_stack@)) + seq![
                        TokenView::Eof,
                    ]),
                ),
            decreases s.len() - self.position as int,
        {
            let ghost pos_head = self.position as int;
            let ghost st_head = stack_view(self.indent_stack@);
            let ghost als_head = at_line_start;
            let ghost toks_head = toks_view(tokens@);
            let ghost step = if als_head {
                spec_handle_indent(s, pos_head, st_head)
            } else {
                Ok::<(Seq<TokenView>, int, Seq<int>), ErrView>((Seq::empty(), pos_head, st_head))
            };
            if at_line_start {
                match self.handle_indentation() {
                    Ok(mut toks) => {
                        proof {
                            assert(toks_view(tokens@ + toks@) =~= toks_head + toks_view(toks@));
                        }
                        tokens.append(&mut toks);
                        at_line_start = false;
                    },
                    Err(e) => {
                        proof {
                            assert(step == spec_handle_indent(s, pos_head, st_head));
                            assert(spec_lex(s, pos_head, st_head, als_head) == Err::<
                                Seq<TokenView>,
                                ErrView,
                            >(e@));
                        }
                        return Err(e);
                    },
                }
            }
            let ghost toks1 = step->Ok_0.0;
            let ghost p1 = step->Ok_0.1;
            let ghost st1 = step->Ok_0.2;
            proof {
                assert(step is Ok);
                assert(toks_view(tokens@) =~= toks_head + toks1);
                assert(self.position as int == p1);
                assert(stack_view(self.indent_stack@) == st1);
                if als_head {
                    lemma_indent_end_bounds(s, pos_head);
                }
            }
            self.skip_whitespace_except_newline();
            let ghost p2 = self.position as int;
            proof {
                lemma_skip_ws_bounds(s, p1);
            }
            if self.position >= self.input.len() {
                proof {
                    assert(spec_lex(s, pos_head, st_head, als_head) == Ok::<
                        Seq<TokenView>,
                        ErrView,
                    >(toks1 + close_dedents(st1) + seq![TokenView::Eof]));
                    assert(toks_head + (toks1 + close_dedents(st1) + seq![TokenView::Eof])
                        =~= toks_view(tokens@) + (close_dedents(st1) + seq![TokenView::Eof]));
                }
                break ;
            }
            match self.next_token() {
                Ok(tok) => {
                    let ghost p3 = self.position as int;
                    let is_nl = matches!(tok, Token::Newline);
                    proof {
                        lemma_next_token_advances(s, p2);
                        assert(spec_lex(s, pos_head, st_head, als_head) == lex_prepend(
                            toks1 + seq![tok@],
                            spec_lex(s, p3, st1, tok@ is Newline),
                        ));
                        assert(toks_view(tokens@.push(tok)) =~= toks_view(tokens@) + seq![tok@]);
                        match spec_lex(s, p3, st1, tok@ is Newline) {
                            Ok(rest) => {
                                assert(toks_head + ((toks1 + seq![tok@]) + rest) =~= (toks_view(
                                    tokens@.push(tok),
                                )) + rest);
                            },
                            Err(er) => {},
                        }
                    }
                    tokens.push(tok);
                    if is_nl {
                        at_line_start = true;
                    }
                },
                Err(e) => {
                    proof {
                        assert(spec_next_token(s, p2) == Err::<(TokenView, int), ErrView>(e@));
                        assert(spec_lex(s, pos_head, st_head, als_head) == Err::<
                            Seq<TokenView>,
                            ErrView,
                        >(e@));
                    }
                    return Err(e);
                },
            }
        }
        while self.indent_stack.len() > 1
            invariant
                self.input == old(self).input,
                s == self.input@,
                self.position <= s.len(),
                target == Ok::<Seq<TokenView>, ErrView>(
                    toks_view(tokens@) + (close_dedents(stack_view(self.indent_stack@)) + seq![
                        TokenView::Eof,
                    ]),
                ),
            decreases self.indent_stack@.len(),
        {
            let n = self.indent_stack.len();
            let t = self.indent_stack[n - 1];
            let ghost stv = stack_view(self.indent_stack@);
            self.indent_stack.pop();
            proof {
                assert(stv.last() == t as int);
                assert(stack_view(self.indent_stack@) =~= stv.drop_last());
                assert(close_dedents(stv) == seq![TokenView::Dedent(t as int)] + close_dedents(
                    stv.drop_last(),
                ));
                assert(toks_view(tokens@.push(Token::Dedent(t))) =~= toks_view(tokens@) + seq![
                    TokenView::Dedent(t as int),
                ]);
                assert(toks_view(tokens@) + ((seq![TokenView::Dedent(t as int)] + close_dedents(
                    stv.drop_last(),
                )) + seq![TokenView::Eof]) =~= toks_view(tokens@.push(Token::Dedent(t))) + (
                close_dedents(stv.drop_last()) + seq![TokenView::Eof]));
            }
            tokens.push(Token::Dedent(t));
        }
        proof {
            assert(close_dedents(stack_view(self.indent_stack@)) =~= Seq::<TokenView>::empty());
            assert(toks_view(tokens@) + (Seq::<TokenView>::empty() + seq![TokenView::Eof])
                =~= toks_view(tokens@.push(Token::Eof)));
        }
        tokens.push(Token::Eof);
        Ok(tokens)
    }
}

} // verus!
