//! The token alphabet produced by the tokenizer and consumed by the parser.
//!
//! A token sequence is flat: tokens carry no ownership relation to each other,
//! and the sequence lives only for the duration of one parse.

use crate::value::{ValueView, YamlValue};
use vstd::prelude::*;

verus! {

/// One token of the flat stream.
#[derive(Debug, PartialEq)]
pub enum Token {
    /// A mapping key (the text before a colon).
    Key(String),
    /// The `:` separating a key from its value.
    Colon,
    /// A pre-resolved scalar value.
    Value(YamlValue),
    /// The `-` marker opening a sequence entry.
    ListItem,
    /// Reserved for an explicit block-sequence marker.
    BlockSequence,
    /// The start of a deeper indentation level, with its width.
    Indent(usize),
    /// The end of an indentation level, with the width being closed.
    Dedent(usize),
    /// The end of a logical line.
    Newline,
    /// A `#` comment, with its trimmed text.
    Comment(String),
    /// The end of the input.
    Eof,
    /// Reserved for a flow collection opener.
    FlowStart,
    /// Reserved for a flow collection closer.
    FlowEnd,
    /// Reserved for a flow collection separator.
    FlowSeparator,
}

/// The mathematical shadow of [`Token`], over `Seq<char>` and `int`.
#[verifier::ext_equal]
pub enum TokenView {
    Key(Seq<char>),
    Colon,
    Value(ValueView),
    ListItem,
    BlockSequence,
    Indent(int),
    Dedent(int),
    Newline,
    Comment(Seq<char>),
    Eof,
    FlowStart,
    FlowEnd,
    FlowSeparator,
}

impl Token {
    /// The token this value stands for.
    pub open spec fn view(self) -> TokenView {
        match self {
            Token::Key(s) => TokenView::Key(s@),
            Token::Colon => TokenView::Colon,
            Token::Value(v) => TokenView::Value(v@),
            Token::ListItem => TokenView::ListItem,
            Token::BlockSequence => TokenView::BlockSequence,
            Token::Indent(w) => TokenView::Indent(w as int),
            Token::Dedent(w) => TokenView::Dedent(w as int),
            Token::Newline => TokenView::Newline,
            Token::Comment(s) => TokenView::Comment(s@),
            Token::Eof => TokenView::Eof,
            Token::FlowStart => TokenView::FlowStart,
            Token::FlowEnd => TokenView::FlowEnd,
            Token::FlowSeparator => TokenView::FlowSeparator,
        }
    }
}

impl Clone for Token {
    /// A clone stands for the same token.
    fn clone(&self) -> (r: Self)
        ensures
            r@ == self@,
    {
        match self {
            Token::Key(s) => Token::Key(s.clone()),
            Token::Colon => Token::Colon,
            Token::Value(v) => Token::Value(v.clone()),
            Token::ListItem => Token::ListItem,
            Token::BlockSequence => Token::BlockSequence,
            Token::Indent(w) => Token::Indent(*w),
            Token::Dedent(w) => Token::Dedent(*w),
            Token::Newline => Token::Newline,
            Token::Comment(s) => Token::Comment(s.clone()),
            Token::Eof => Token::Eof,
            Token::FlowStart => Token::FlowStart,
            Token::FlowEnd => Token::FlowEnd,
            Token::FlowSeparator => Token::FlowSeparator,
        }
    }
}

/// What one token does to a stack of open indentation levels: an `Indent`
/// opens its width, a `Dedent` closes the innermost level (never the base),
/// any other token leaves the stack alone.
pub open spec fn replay_step(st: Seq<int>, t: TokenView) -> Seq<int> {
    match t {
        TokenView::Indent(w) => st.push(w),
        TokenView::Dedent(_) => if st.len() > 1 {
            st.drop_last()
        } else {
            st
        },
        _ => st,
    }
}

/// The stack left after replaying every token of `ts` onto `st`.
pub open spec fn replay_onto(st: Seq<int>, ts: Seq<TokenView>) -> Seq<int>
    decreases ts.len(),
{
    if ts.len() == 0 {
        st
    } else {
        replay_onto(replay_step(st, ts[0]), ts.drop_first())
    }
}

pub proof fn lemma_replay_onto_concat(st: Seq<int>, a: Seq<TokenView>, b: Seq<TokenView>)
    ensures
        replay_onto(st, a + b) == replay_onto(replay_onto(st, a), b),
    decreases a.len(),
{
    if a.len() == 0 {
        assert(a + b =~= b);
    } else {
        assert((a + b)[0] == a[0]);
        assert((a + b).drop_first() =~= a.drop_first() + b);
        lemma_replay_onto_concat(replay_step(st, a[0]), a.drop_first(), b);
    }
}

pub proof fn lemma_replay_onto_one(st: Seq<int>, t: TokenView)
    ensures
        replay_onto(st, seq![t]) == replay_step(st, t),
{
    let st2 = replay_step(st, t);
    let d = seq![t].drop_first();
    assert(seq![t][0] == t);
    assert(d.len() == 0);
    assert(replay_onto(st2, d) == st2);
    assert(replay_onto(st, seq![t]) == replay_onto(st2, d));
}

/// The view of a token vector.
pub open spec fn toks_view(ts: Seq<Token>) -> Seq<TokenView> {
    Seq::new(
        ts.len(),
        |i: int|
            if 0 <= i < ts.len() {
                ts[i]@
            } else {
                TokenView::Eof
            },
    )
}

} // verus!
