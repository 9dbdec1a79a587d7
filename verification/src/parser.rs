//! The recursive-descent parser: turns the flat token stream into a single
//! value tree, resolving structural ambiguity through the indentation tokens.
//!
//! A document whose first meaningful token is a key is a mapping of entries;
//! anything else is a single value (a scalar or a sequence) that nothing but
//! closing `Dedent` tokens may follow. The value of a mapping entry is, in
//! order of precedence: a nested block after an `Indent`; an inline scalar; an
//! inline sequence after a `ListItem`; or null. A sequence entry may also be
//! an inline mapping, begun by a key on the same line as its `ListItem`
//! marker and continued on the lines below. The current indentation level is
//! recovered by replaying the `Indent`/`Dedent` tokens consumed so far.
//!
//! The functions [`spec_parse_doc`] and below are the specification: a
//! recursive definition of the parse result of a token stream, which `parse`
//! is proved to return. Their recursions carry a progress guard (a recursive
//! call is only taken when the position has moved forward and stays within
//! the stream) so each definition is well-founded; the parser always moves
//! forward, so the guard never fails on it.

use crate::error::{ErrView, YamlError};
use crate::token::{lemma_replay_onto_concat, lemma_replay_onto_one, replay_onto, replay_step, toks_view, Token, TokenView};
use crate::lexer::{wf_tok, wf_toks};
use crate::value::{
    entries_view, items_view, lemma_array_view, lemma_insert_keys_unique, lemma_insert_values_wf,
    lemma_object_view, obj_insert, obj_keys_unique, object_insert, wf_value, ValueView, YamlValue,
};
use vstd::prelude::*;
use vstd::string::StringExecFns;

verus! {

/// The token at `i`, with `Eof` standing for "past the end".
pub open spec fn peek_tok(ts: Seq<TokenView>, i: int) -> TokenView {
    if 0 <= i < ts.len() {
        ts[i]
    } else {
        TokenView::Eof
    }
}

/// The position one token further, unless the cursor sits on the end.
pub open spec fn spec_advance(ts: Seq<TokenView>, i: int) -> int {
    if peek_tok(ts, i) is Eof {
        i
    } else {
        i + 1
    }
}

/// What remains of the stream at `i`.
pub open spec fn rem(ts: Seq<TokenView>, i: int) -> int {
    if i <= ts.len() {
        ts.len() - i
    } else {
        0
    }
}

/// The position of the next token that is neither a newline nor a comment.
pub open spec fn spec_skip_nlc(ts: Seq<TokenView>, i: int) -> int
    decreases rem(ts, i),
{
    if 0 <= i < ts.len() && (ts[i] is Newline || ts[i] is Comment) {
        spec_skip_nlc(ts, i + 1)
    } else {
        i
    }
}

/// The position after the run of `Dedent` tokens at `i`.
pub open spec fn spec_skip_dedents(ts: Seq<TokenView>, i: int) -> int
    decreases rem(ts, i),
{
    if 0 <= i < ts.len() && ts[i] is Dedent {
        spec_skip_dedents(ts, i + 1)
    } else {
        i
    }
}

/// The position after the run of `Dedent` tokens deeper than `init` at `i`:
/// those close scopes opened inside a sequence element, not the sequence.
pub open spec fn spec_skip_deep_dedents(ts: Seq<TokenView>, i: int, init: int) -> int
    decreases rem(ts, i),
{
    if 0 <= i < ts.len() && ts[i] is Dedent && ts[i]->Dedent_0 > init {
        spec_skip_deep_dedents(ts, i + 1, init)
    } else {
        i
    }
}

/// The stack of indentation levels open after the first `i` tokens, replayed
/// from the start of the stream.
pub open spec fn spec_replay_stack(ts: Seq<TokenView>, i: int) -> Seq<int>
    decreases i,
{
    if i <= 0 {
        seq![0int]
    } else {
        let st = spec_replay_stack(ts, i - 1);
        if 0 <= i - 1 < ts.len() {
            match ts[i - 1] {
                TokenView::Indent(w) => st.push(w),
                TokenView::Dedent(_) => if st.len() > 1 {
                    st.drop_last()
                } else {
                    st
                },
                _ => st,
            }
        } else {
            st
        }
    }
}

/// The indentation level in force after the first `i` tokens.
pub open spec fn spec_indent_at(ts: Seq<TokenView>, i: int) -> int {
    spec_replay_stack(ts, i).last()
}

/// The replayed stack is the replay of the first `i` tokens onto the base
/// stack.
pub proof fn lemma_replay_stack_as_replay_onto(ts: Seq<TokenView>, i: int)
    requires
        0 <= i <= ts.len(),
    ensures
        spec_replay_stack(ts, i) == replay_onto(seq![0int], ts.take(i)),
    decreases i,
{
    if i == 0 {
        assert(ts.take(0).len() == 0);
    } else {
        lemma_replay_stack_as_replay_onto(ts, i - 1);
        assert(ts.take(i) =~= ts.take(i - 1) + seq![ts[i - 1]]);
        lemma_replay_onto_concat(seq![0int], ts.take(i - 1), seq![ts[i - 1]]);
        lemma_replay_onto_one(spec_replay_stack(ts, i - 1), ts[i - 1]);
        assert(spec_replay_stack(ts, i) == replay_step(spec_replay_stack(ts, i - 1), ts[i - 1]));
    }
}

/// A short name for a token kind, used in error messages.
pub open spec fn token_desc(t: TokenView) -> Seq<char> {
    match t {
        TokenView::Key(_) => "Key"@,
        TokenView::Colon => "Colon"@,
        TokenView::Value(_) => "Value"@,
        TokenView::ListItem => "ListItem"@,
        TokenView::BlockSequence => "BlockSequence"@,
        TokenView::Indent(_) => "Indent"@,
        TokenView::Dedent(_) => "Dedent"@,
        TokenView::Newline => "Newline"@,
        TokenView::Comment(_) => "Comment"@,
        TokenView::Eof => "Eof"@,
        TokenView::FlowStart => "FlowStart"@,
        TokenView::FlowEnd => "FlowEnd"@,
        TokenView::FlowSeparator => "FlowSeparator"@,
    }
}

/// The message naming an unexpected token in a value position.
pub open spec fn unexpected_token_msg(t: TokenView) -> Seq<char> {
    "Unexpected token: "@ + token_desc(t)
}

/// The message for a key without its colon.
pub open spec fn missing_colon_msg() -> Seq<char> {
    "Expected ':' after key"@
}

/// An inline mapping co-located with a `ListItem` marker: key/colon/value
/// lines, each value resolved at the full entry precedence (a nested block,
/// an inline scalar, an inline sequence, or null), read until the
/// indentation steps back or the entries end.
pub open spec fn spec_inline_map(
    ts: Seq<TokenView>,
    i: int,
    acc: Seq<(Seq<char>, ValueView)>,
) -> Result<(Seq<(Seq<char>, ValueView)>, int), ErrView>
    decreases rem(ts, i), 0int,
{
    if !(peek_tok(ts, i) is Key) {
        Ok((acc, i))
    } else {
        let key = peek_tok(ts, i)->Key_0;
        if !(peek_tok(ts, i + 1) is Colon) {
            Err(ErrView::Parse(missing_colon_msg()))
        } else {
            match spec_entry_value(ts, i + 2) {
                Err(e) => Err(e),
                Ok((v, k)) => {
                    let acc2 = obj_insert(acc, key, v);
                    if peek_tok(ts, k) is Newline {
                        let i4 = k + 1;
                        let i5 = if peek_tok(ts, i4) is Indent {
                            i4 + 1
                        } else {
                            i4
                        };
                        if peek_tok(ts, i5) is Dedent {
                            Ok((acc2, i5))
                        } else if i < i5 <= ts.len() {
                            spec_inline_map(ts, i5, acc2)
                        } else {
                            Ok((acc2, i5))
                        }
                    } else {
                        Ok((acc2, k))
                    }
                },
            }
        }
    }
}

/// The result of parsing one construct: its value and the position after it.
pub type SpecParse = Result<(ValueView, int), ErrView>;

/// The value of a mapping entry, resolved after its colon: newlines and
/// comments are skipped; then an `Indent` opens a nested block (whose
/// closing `Dedent`, if present, is consumed), an inline scalar is taken as
/// it stands, a `ListItem` opens an inline sequence, and anything else
/// leaves the entry null.
pub open spec fn spec_entry_value(ts: Seq<TokenView>, i: int) -> SpecParse
    decreases rem(ts, i), 5int,
{
    let j = spec_skip_nlc(ts, i);
    if peek_tok(ts, j) is Indent {
        proof {
            lemma_skip_nlc_bounds(ts, i);
        }
        match spec_parse_value(ts, j + 1) {
            Ok((v, k)) => {
                let k2 = if peek_tok(ts, k) is Dedent {
                    k + 1
                } else {
                    k
                };
                Ok((v, k2))
            },
            Err(e) => Err(e),
        }
    } else if peek_tok(ts, j) is Value {
        Ok((peek_tok(ts, j)->Value_0, j + 1))
    } else if peek_tok(ts, j) is ListItem {
        proof {
            lemma_skip_nlc_bounds(ts, i);
        }
        spec_parse_array(ts, j)
    } else {
        Ok((ValueView::Null, j))
    }
}

/// A value at the current position: an inline scalar, a mapping begun by a
/// key, a sequence begun by a `ListItem`; the end of input or any other
/// token is an error.
pub open spec fn spec_parse_value(ts: Seq<TokenView>, i: int) -> SpecParse
    decreases rem(ts, i), 4int,
{
    let j = spec_skip_nlc(ts, i);
    proof {
        lemma_skip_nlc_bounds(ts, i);
    }
    if peek_tok(ts, j) is Value {
        Ok((peek_tok(ts, j)->Value_0, j + 1))
    } else if peek_tok(ts, j) is Key {
        spec_parse_object(ts, j)
    } else if peek_tok(ts, j) is ListItem {
        spec_parse_array(ts, j)
    } else if peek_tok(ts, j) is Eof {
        Err(ErrView::Eof)
    } else {
        Err(ErrView::Parse(unexpected_token_msg(peek_tok(ts, j))))
    }
}

/// A block mapping: entries at the same level read until a `Dedent`, the end
/// of input, a shallower indentation or a token that is not a key.
pub open spec fn spec_parse_object(ts: Seq<TokenView>, i: int) -> SpecParse
    decreases rem(ts, i), 3int,
{
    spec_object_entries(ts, i, Seq::empty(), spec_indent_at(ts, i))
}

/// The entry loop of a block mapping.
pub open spec fn spec_object_entries(
    ts: Seq<TokenView>,
    i: int,
    acc: Seq<(Seq<char>, ValueView)>,
    init: int,
) -> SpecParse
    decreases rem(ts, i), 2int,
{
    let j = spec_skip_nlc(ts, i);
    if peek_tok(ts, j) is Dedent || peek_tok(ts, j) is Eof {
        Ok((ValueView::Obj(acc), j))
    } else if spec_indent_at(ts, j) < init {
        Ok((ValueView::Obj(acc), j))
    } else if !(peek_tok(ts, j) is Key) {
        Ok((ValueView::Obj(acc), j))
    } else {
        let key = peek_tok(ts, j)->Key_0;
        if !(peek_tok(ts, j + 1) is Colon) {
            Err(ErrView::Parse(missing_colon_msg()))
        } else {
            proof {
                lemma_skip_nlc_bounds(ts, i);
            }
            match spec_entry_value(ts, j + 2) {
                Err(e) => Err(e),
                Ok((v, k)) => {
                    let acc2 = obj_insert(acc, key, v);
                    if i < k <= ts.len() {
                        spec_object_entries(ts, k, acc2, init)
                    } else {
                        Ok((ValueView::Obj(acc2), k))
                    }
                },
            }
        }
    }
}

/// A block sequence: `ListItem` entries read until the marker is missing,
/// the indentation steps back past the sequence's own level, or the input
/// ends.
pub open spec fn spec_parse_array(ts: Seq<TokenView>, i: int) -> SpecParse
    decreases rem(ts, i), 3int,
{
    spec_array_items(ts, i, Seq::empty(), spec_indent_at(ts, i))
}

/// The element loop of a block sequence. After each element, newlines and
/// the `Dedent` tokens deeper than the sequence's own level are consumed.
pub open spec fn spec_array_items(
    ts: Seq<TokenView>,
    i: int,
    acc: Seq<ValueView>,
    init: int,
) -> SpecParse
    decreases rem(ts, i), 2int,
{
    if !(peek_tok(ts, i) is ListItem) {
        Ok((ValueView::Arr(acc), i))
    } else {
        match spec_array_elem(ts, i + 1) {
            Err(e) => Err(e),
            Ok((v, k)) => {
                let k1 = spec_skip_nlc(ts, k);
                let k2 = spec_skip_deep_dedents(ts, k1, init);
                let acc2 = acc.push(v);
                if spec_indent_at(ts, k2) < init {
                    Ok((ValueView::Arr(acc2), k2))
                } else if peek_tok(ts, k2) is Eof {
                    Ok((ValueView::Arr(acc2), k2))
                } else if i < k2 <= ts.len() {
                    spec_array_items(ts, k2, acc2, init)
                } else {
                    Ok((ValueView::Arr(acc2), k2))
                }
            },
        }
    }
}

/// One sequence element, after its `ListItem` marker: a newline opens a
/// nested block on the next (indented) lines, an inline scalar is taken as
/// it stands, a key opens an inline mapping, and anything else leaves the
/// element null.
pub open spec fn spec_array_elem(ts: Seq<TokenView>, i: int) -> SpecParse
    decreases rem(ts, i), 1int,
{
    if peek_tok(ts, i) is Newline {
        let i1 = i + 1;
        if peek_tok(ts, i1) is Indent {
            match spec_parse_value(ts, i1 + 1) {
                Ok((v, k)) => {
                    let k2 = if peek_tok(ts, k) is Dedent {
                        k + 1
                    } else {
                        k
                    };
                    Ok((v, k2))
                },
                Err(e) => Err(e),
            }
        } else {
            Ok((ValueView::Null, i1))
        }
    } else if peek_tok(ts, i) is Value {
        Ok((peek_tok(ts, i)->Value_0, i + 1))
    } else if peek_tok(ts, i) is Key {
        match spec_inline_map(ts, i, Seq::empty()) {
            Ok((entries, k)) => Ok((ValueView::Obj(entries), k)),
            Err(e) => Err(e),
        }
    } else {
        Ok((ValueView::Null, i))
    }
}

/// The entry loop of a top-level mapping document.
pub open spec fn spec_doc_entries(
    ts: Seq<TokenView>,
    i: int,
    acc: Seq<(Seq<char>, ValueView)>,
) -> Result<(Seq<(Seq<char>, ValueView)>, int), ErrView>
    decreases rem(ts, i),
{
    if peek_tok(ts, i) is Eof {
        Ok((acc, i))
    } else {
        let j = spec_skip_nlc(ts, i);
        if peek_tok(ts, j) is Eof {
            Ok((acc, j))
        } else if !(peek_tok(ts, j) is Key) {
            Ok((acc, j))
        } else {
            let key = peek_tok(ts, j)->Key_0;
            if !(peek_tok(ts, j + 1) is Colon) {
                Err(ErrView::Parse(missing_colon_msg()))
            } else {
                match spec_entry_value(ts, j + 2) {
                    Err(e) => Err(e),
                    Ok((v, k)) => {
                        let acc2 = obj_insert(acc, key, v);
                        if i < k <= ts.len() {
                            spec_doc_entries(ts, k, acc2)
                        } else {
                            Ok((acc2, k))
                        }
                    },
                }
            }
        }
    }
}

/// The parse of a whole document from `i`: a mapping when the first
/// meaningful token is a key, else a single value that only trailing
/// `Dedent` tokens may follow.
pub open spec fn spec_parse_doc_from(ts: Seq<TokenView>, i: int) -> Result<ValueView, ErrView> {
    let j = spec_skip_nlc(ts, i);
    if peek_tok(ts, j) is Key {
        match spec_doc_entries(ts, j, Seq::empty()) {
            Ok((es, _)) => Ok(ValueView::Obj(es)),
            Err(e) => Err(e),
        }
    } else {
        match spec_parse_value(ts, j) {
            Err(e) => Err(e),
            Ok((v, k)) => {
                let k1 = spec_skip_nlc(ts, k);
                let k2 = spec_skip_dedents(ts, k1);
                if peek_tok(ts, k2) is Eof {
                    Ok(v)
                } else {
                    Err(ErrView::Parse("Unexpected content after document"@))
                }
            },
        }
    }
}

/// The parse of a whole document from the start of the stream.
pub open spec fn spec_parse_doc(ts: Seq<TokenView>) -> Result<ValueView, ErrView> {
    spec_parse_doc_from(ts, 0)
}

pub proof fn lemma_skip_nlc_bounds(ts: Seq<TokenView>, i: int)
    ensures
        i <= spec_skip_nlc(ts, i),
        i <= ts.len() ==> spec_skip_nlc(ts, i) <= ts.len(),
    decreases rem(ts, i),
{
    if 0 <= i < ts.len() && (ts[i] is Newline || ts[i] is Comment) {
        lemma_skip_nlc_bounds(ts, i + 1);
    }
}

/// A mapping accumulator that is still well formed: unique keys, and every
/// bound value well formed.
pub open spec fn wf_acc(acc: Seq<(Seq<char>, ValueView)>) -> bool {
    &&& obj_keys_unique(acc)
    &&& forall|k: int| 0 <= k < acc.len() ==> wf_value(#[trigger] acc[k].1)
}

proof fn lemma_inline_map_wf(ts: Seq<TokenView>, i: int, acc: Seq<(Seq<char>, ValueView)>)
    requires
        wf_toks(ts),
        wf_acc(acc),
    ensures
        spec_inline_map(ts, i, acc) matches Ok((es, end)) ==> wf_acc(es),
    decreases rem(ts, i), 0int,
{
    if peek_tok(ts, i) is Key {
        let key = peek_tok(ts, i)->Key_0;
        if peek_tok(ts, i + 1) is Colon {
            lemma_entry_value_wf(ts, i + 2);
            match spec_entry_value(ts, i + 2) {
                Err(e) => {},
                Ok((v, k)) => {
                    let acc2 = obj_insert(acc, key, v);
                    lemma_insert_keys_unique(acc, key, v);
                    lemma_insert_values_wf(acc, key, v);
                    if peek_tok(ts, k) is Newline {
                        let i4 = k + 1;
                        let i5 = if peek_tok(ts, i4) is Indent {
                            i4 + 1
                        } else {
                            i4
                        };
                        if !(peek_tok(ts, i5) is Dedent) && i < i5 <= ts.len() {
                            lemma_inline_map_wf(ts, i5, acc2);
                        }
                    }
                },
            }
        }
    }
}

proof fn lemma_entry_value_wf(ts: Seq<TokenView>, i: int)
    requires
        wf_toks(ts),
    ensures
        spec_entry_value(ts, i) matches Ok((v, end)) ==> wf_value(v),
    decreases rem(ts, i), 5int,
{
    let j = spec_skip_nlc(ts, i);
    lemma_skip_nlc_bounds(ts, i);
    if peek_tok(ts, j) is Indent {
        lemma_parse_value_wf(ts, j + 1);
    } else if peek_tok(ts, j) is Value {
        assert(wf_tok(ts[j]));
    } else if peek_tok(ts, j) is ListItem {
        lemma_parse_array_wf(ts, j);
    }
}

proof fn lemma_parse_value_wf(ts: Seq<TokenView>, i: int)
    requires
        wf_toks(ts),
    ensures
        spec_parse_value(ts, i) matches Ok((v, end)) ==> wf_value(v),
    decreases rem(ts, i), 4int,
{
    let j = spec_skip_nlc(ts, i);
    lemma_skip_nlc_bounds(ts, i);
    if peek_tok(ts, j) is Value {
        assert(wf_tok(ts[j]));
    } else if peek_tok(ts, j) is Key {
        lemma_parse_object_wf(ts, j);
    } else if peek_tok(ts, j) is ListItem {
        lemma_parse_array_wf(ts, j);
    }
}

proof fn lemma_parse_object_wf(ts: Seq<TokenView>, i: int)
    requires
        wf_toks(ts),
    ensures
        spec_parse_object(ts, i) matches Ok((v, end)) ==> wf_value(v),
    decreases rem(ts, i), 3int,
{
    lemma_object_entries_wf(ts, i, Seq::empty(), spec_indent_at(ts, i));
}

proof fn lemma_object_entries_wf(
    ts: Seq<TokenView>,
    i: int,
    acc: Seq<(Seq<char>, ValueView)>,
    init: int,
)
    requires
        wf_toks(ts),
        wf_acc(acc),
    ensures
        spec_object_entries(ts, i, acc, init) matches Ok((v, end)) ==> wf_value(v),
    decreases rem(ts, i), 2int,
{
    let j = spec_skip_nlc(ts, i);
    lemma_skip_nlc_bounds(ts, i);
    if peek_tok(ts, j) is Dedent || peek_tok(ts, j) is Eof {
    } else if spec_indent_at(ts, j) < init {
    } else if !(peek_tok(ts, j) is Key) {
    } else {
        let key = peek_tok(ts, j)->Key_0;
        if peek_tok(ts, j + 1) is Colon {
            lemma_entry_value_wf(ts, j + 2);
            match spec_entry_value(ts, j + 2) {
                Err(e) => {},
                Ok((v, k)) => {
                    let acc2 = obj_insert(acc, key, v);
                    lemma_insert_keys_unique(acc, key, v);
                    lemma_insert_values_wf(acc, key, v);
                    if i < k <= ts.len() {
                        lemma_object_entries_wf(ts, k, acc2, init);
                    }
                },
            }
        }
    }
}

proof fn lemma_parse_array_wf(ts: Seq<TokenView>, i: int)
    requires
        wf_toks(ts),
    ensures
        spec_parse_array(ts, i) matches Ok((v, end)) ==> wf_value(v),
    decreases rem(ts, i), 3int,
{
    lemma_array_items_wf(ts, i, Seq::empty(), spec_indent_at(ts, i));
}

proof fn lemma_array_items_wf(ts: Seq<TokenView>, i: int, acc: Seq<ValueView>, init: int)
    requires
        wf_toks(ts),
        forall|k: int| 0 <= k < acc.len() ==> wf_value(#[trigger] acc[k]),
    ensures
        spec_array_items(ts, i, acc, init) matches Ok((v, end)) ==> wf_value(v),
    decreases rem(ts, i), 2int,
{
    if peek_tok(ts, i) is ListItem {
        lemma_array_elem_wf(ts, i + 1);
        match spec_array_elem(ts, i + 1) {
            Err(e) => {},
            Ok((v, k)) => {
                let k1 = spec_skip_nlc(ts, k);
                let k2 = spec_skip_deep_dedents(ts, k1, init);
                let acc2 = acc.push(v);
                assert(forall|m: int| 0 <= m < acc2.len() ==> wf_value(#[trigger] acc2[m]));
                if spec_indent_at(ts, k2) < init {
                } else if peek_tok(ts, k2) is Eof {
                } else if i < k2 <= ts.len() {
                    lemma_array_items_wf(ts, k2, acc2, init);
                }
            },
        }
    }
}

proof fn lemma_array_elem_wf(ts: Seq<TokenView>, i: int)
    requires
        wf_toks(ts),
    ensures
        spec_array_elem(ts, i) matches Ok((v, end)) ==> wf_value(v),
    decreases rem(ts, i), 1int,
{
    if peek_tok(ts, i) is Newline {
        let i1 = i + 1;
        if peek_tok(ts, i1) is Indent {
            lemma_parse_value_wf(ts, i1 + 1);
        }
    } else if peek_tok(ts, i) is Value {
        assert(wf_tok(ts[i]));
    } else if peek_tok(ts, i) is Key {
        lemma_inline_map_wf(ts, i, Seq::empty());
    }
}

proof fn lemma_doc_entries_wf(ts: Seq<TokenView>, i: int, acc: Seq<(Seq<char>, ValueView)>)
    requires
        wf_toks(ts),
        wf_acc(acc),
    ensures
        spec_doc_entries(ts, i, acc) matches Ok((es, end)) ==> wf_acc(es),
    decreases rem(ts, i),
{
    if !(peek_tok(ts, i) is Eof) {
        let j = spec_skip_nlc(ts, i);
        lemma_skip_nlc_bounds(ts, i);
        if !(peek_tok(ts, j) is Eof) && peek_tok(ts, j) is Key {
            let key = peek_tok(ts, j)->Key_0;
            if peek_tok(ts, j + 1) is Colon {
                lemma_entry_value_wf(ts, j + 2);
                match spec_entry_value(ts, j + 2) {
                    Err(e) => {},
                    Ok((v, k)) => {
                        let acc2 = obj_insert(acc, key, v);
                        lemma_insert_keys_unique(acc, key, v);
                        lemma_insert_values_wf(acc, key, v);
                        if i < k <= ts.len() {
                            lemma_doc_entries_wf(ts, k, acc2);
                        }
                    },
                }
            }
        }
    }
}

/// A parsed document is well formed: every mapping anywhere in the returned
/// tree binds each key once, provided every `Value` token of the stream
/// carries a well-formed tree (the tokenizer only produces leaves there).
pub proof fn lemma_parse_doc_wf(ts: Seq<TokenView>, i: int)
    requires
        wf_toks(ts),
    ensures
        spec_parse_doc_from(ts, i) matches Ok(v) ==> wf_value(v),
{
    let j = spec_skip_nlc(ts, i);
    if peek_tok(ts, j) is Key {
        lemma_doc_entries_wf(ts, j, Seq::empty());
    } else {
        lemma_parse_value_wf(ts, j);
    }
}

/// The token shape of a flat mapping document after its first entry: each
/// further entry is a newline, a key, a colon and an inline value, and the
/// stream ends with `Eof`.
pub open spec fn flat_tail(pairs: Seq<(Seq<char>, ValueView)>) -> Seq<TokenView>
    decreases pairs.len(),
{
    if pairs.len() == 0 {
        seq![TokenView::Eof]
    } else {
        seq![
            TokenView::Newline,
            TokenView::Key(pairs[0].0),
            TokenView::Colon,
            TokenView::Value(pairs[0].1),
        ] + flat_tail(pairs.drop_first())
    }
}

/// The token shape of a flat mapping document: one key/colon/value entry per
/// line.
pub open spec fn flat_doc(pairs: Seq<(Seq<char>, ValueView)>) -> Seq<TokenView>
    recommends
        pairs.len() > 0,
{
    seq![TokenView::Key(pairs[0].0), TokenView::Colon, TokenView::Value(pairs[0].1)] + flat_tail(
        pairs.drop_first(),
    )
}

proof fn lemma_flat_tail_len(pairs: Seq<(Seq<char>, ValueView)>)
    ensures
        flat_tail(pairs).len() == 4 * pairs.len() + 1,
    decreases pairs.len(),
{
    if pairs.len() > 0 {
        lemma_flat_tail_len(pairs.drop_first());
    }
}

proof fn lemma_obj_insert_append(
    acc: Seq<(Seq<char>, ValueView)>,
    key: Seq<char>,
    value: ValueView,
)
    requires
        forall|x: int| 0 <= x < acc.len() ==> (#[trigger] acc[x]).0 != key,
    ensures
        obj_insert(acc, key, value) == acc.push((key, value)),
    decreases acc.len(),
{
    if acc.len() == 0 {
        assert(obj_insert(acc, key, value) =~= acc.push((key, value)));
    } else {
        assert forall|x: int| 0 <= x < acc.drop_first().len() implies (#[trigger] acc.drop_first()[x]).0
            != key by {
            assert(acc.drop_first()[x] == acc[x + 1]);
        }
        lemma_obj_insert_append(acc.drop_first(), key, value);
        assert(obj_insert(acc, key, value) =~= acc.push((key, value)));
    }
}

proof fn lemma_flat_doc_entries(
    pre: Seq<TokenView>,
    rest: Seq<(Seq<char>, ValueView)>,
    acc: Seq<(Seq<char>, ValueView)>,
)
    requires
        forall|x: int, y: int|
            0 <= x < acc.len() && 0 <= y < rest.len() ==> (#[trigger] acc[x]).0 != (
            #[trigger] rest[y]).0,
        forall|x: int, y: int| 0 <= x < y < rest.len() ==> rest[x].0 != rest[y].0,
    ensures
        spec_doc_entries(pre + flat_tail(rest), pre.len() as int, acc) == Ok::<
            (Seq<(Seq<char>, ValueView)>, int),
            ErrView,
        >((acc + rest, pre.len() + flat_tail(rest).len() - 1)),
    decreases rest.len(),
{
    let ts = pre + flat_tail(rest);
    let i = pre.len() as int;
    lemma_flat_tail_len(rest);
    if rest.len() == 0 {
        assert(ts[i] == TokenView::Eof);
        assert(acc + rest =~= acc);
    } else {
        let k0 = rest[0].0;
        let v0 = rest[0].1;
        assert(ts[i] == TokenView::Newline);
        assert(ts[i + 1] == TokenView::Key(k0));
        assert(ts[i + 2] == TokenView::Colon);
        assert(ts[i + 3] == TokenView::Value(v0));
        assert(spec_skip_nlc(ts, i) == spec_skip_nlc(ts, i + 1));
        assert(spec_skip_nlc(ts, i + 1) == i + 1);
        let j = i + 1;
        assert(spec_skip_nlc(ts, j + 2) == j + 2);
        assert(spec_entry_value(ts, j + 2) == Ok::<(ValueView, int), ErrView>((v0, j + 3)));
        lemma_obj_insert_append(acc, k0, v0);
        let acc2 = acc.push((k0, v0));
        let pre2 = pre + seq![
            TokenView::Newline,
            TokenView::Key(k0),
            TokenView::Colon,
            TokenView::Value(v0),
        ];
        assert(ts =~= pre2 + flat_tail(rest.drop_first()));
        assert forall|x: int, y: int|
            0 <= x < acc2.len() && 0 <= y < rest.drop_first().len() implies (#[trigger] acc2[x]).0
            != (#[trigger] rest.drop_first()[y]).0 by {
            assert(rest.drop_first()[y] == rest[y + 1]);
            if x < acc.len() {
                assert(acc2[x] == acc[x]);
            } else {
                assert(acc2[x] == (k0, v0));
            }
        }
        assert forall|x: int, y: int| 0 <= x < y < rest.drop_first().len() implies rest.drop_first()[x].0
            != rest.drop_first()[y].0 by {
            assert(rest.drop_first()[x] == rest[x + 1]);
            assert(rest.drop_first()[y] == rest[y + 1]);
        }
        lemma_flat_doc_entries(pre2, rest.drop_first(), acc2);
        lemma_flat_tail_len(rest.drop_first());
        assert(acc2 + rest.drop_first() =~= acc + rest);
        assert(i < j + 3 <= ts.len());
        assert(spec_doc_entries(ts, i, acc) == spec_doc_entries(ts, j + 3, acc2));
        assert(pre2.len() == pre.len() + 4);
    }
}

/// A flat mapping document — one key, colon and inline value per line, keys
/// pairwise distinct — parses to exactly those pairs, in order.
pub proof fn lemma_parse_flat_mapping(pairs: Seq<(Seq<char>, ValueView)>)
    requires
        pairs.len() > 0,
        forall|x: int, y: int| 0 <= x < y < pairs.len() ==> pairs[x].0 != pairs[y].0,
    ensures
        spec_parse_doc(flat_doc(pairs)) == Ok::<ValueView, ErrView>(ValueView::Obj(pairs)),
{
    let ts = flat_doc(pairs);
    let k0 = pairs[0].0;
    let v0 = pairs[0].1;
    let pre = seq![TokenView::Key(k0), TokenView::Colon, TokenView::Value(v0)];
    lemma_flat_tail_len(pairs.drop_first());
    assert(ts[0] == TokenView::Key(k0));
    assert(ts[1] == TokenView::Colon);
    assert(ts[2] == TokenView::Value(v0));
    assert(spec_skip_nlc(ts, 0) == 0);
    assert(spec_skip_nlc(ts, 2) == 2);
    assert(spec_entry_value(ts, 2) == Ok::<(ValueView, int), ErrView>((v0, 3)));
    assert(obj_insert(Seq::empty(), k0, v0) =~= seq![(k0, v0)]);
    assert(ts =~= pre + flat_tail(pairs.drop_first()));
    assert forall|x: int, y: int|
        0 <= x < seq![(k0, v0)].len() && 0 <= y < pairs.drop_first().len() implies (#[trigger] seq![
            (k0, v0),
        ][x]).0 != (#[trigger] pairs.drop_first()[y]).0 by {
        assert(pairs.drop_first()[y] == pairs[y + 1]);
    }
    assert forall|x: int, y: int| 0 <= x < y < pairs.drop_first().len() implies pairs.drop_first()[x].0
        != pairs.drop_first()[y].0 by {
        assert(pairs.drop_first()[x] == pairs[x + 1]);
        assert(pairs.drop_first()[y] == pairs[y + 1]);
    }
    lemma_flat_doc_entries(pre, pairs.drop_first(), seq![(k0, v0)]);
    assert(seq![(k0, v0)] + pairs.drop_first() =~= pairs);
    assert(0 < 3 <= ts.len());
    assert(spec_doc_entries(ts, 0, Seq::empty()) == spec_doc_entries(ts, 3, seq![(k0, v0)]));
}

/// A short name for a token kind, used in error messages.
fn token_desc_of(t: &Token) -> (r: &'static str)
    ensures
        r@ == token_desc(t@),
{
    match t {
        Token::Key(_) => "Key",
        Token::Colon => "Colon",
        Token::Value(_) => "Value",
        Token::ListItem => "ListItem",
        Token::BlockSequence => "BlockSequence",
        Token::Indent(_) => "Indent",
        Token::Dedent(_) => "Dedent",
        Token::Newline => "Newline",
        Token::Comment(_) => "Comment",
        Token::Eof => "Eof",
        Token::FlowStart => "FlowStart",
        Token::FlowEnd => "FlowEnd",
        Token::FlowSeparator => "FlowSeparator",
    }
}

/// The parser's state: the token stream and the reading position.
pub struct Parser {
    pub tokens: Vec<Token>,
    pub current: usize,
}

impl Parser {
    /// The stream this parser reads.
    pub open spec fn toks(self) -> Seq<TokenView> {
        toks_view(self.tokens@)
    }

    /// A parser at the start of `tokens`.
    pub fn new(tokens: Vec<Token>) -> (r: Parser)
        ensures
            r.toks() == toks_view(tokens@),
            r.current == 0,
    {
        Parser { tokens, current: 0 }
    }

    /// The token under the cursor, with `Eof` standing for the end.
    fn peek(&self) -> (t: &Token)
        requires
            self.current <= self.tokens@.len(),
        ensures
            t@ == peek_tok(self.toks(), self.current as int),
    {
        if self.current < self.tokens.len() {
            proof {
                assert(self.toks()[self.current as int] == self.tokens@[self.current as int]@);
            }
            &self.tokens[self.current]
        } else {
            &Token::Eof
        }
    }

    /// Whether the cursor sits on the end of the stream.
    fn is_at_end(&self) -> (r: bool)
        requires
            self.current <= self.tokens@.len(),
        ensures
            r == (peek_tok(self.toks(), self.current as int) is Eof),
    {
        matches!(self.peek(), Token::Eof)
    }

    /// Moves the cursor one token forward, unless it sits on the end.
    fn advance(&mut self)
        requires
            old(self).current <= old(self).tokens@.len(),
        ensures
            final (self).tokens == old(self).tokens,
            final (self).current as int == spec_advance(old(self).toks(), old(self).current as int),
            final (self).current <= final (self).tokens@.len(),
            old(self).current <= final (self).current,
    {
        let n = self.tokens.len();
        if !self.is_at_end() {
            self.current = self.current + 1;
        }
    }

    /// Skips newline and comment tokens.
    fn skip_newlines(&mut self)
        requires
            old(self).current <= old(self).tokens@.len(),
        ensures
            final (self).tokens == old(self).tokens,
            final (self).current as int == spec_skip_nlc(old(self).toks(), old(self).current as int),
            final (self).current <= final (self).tokens@.len(),
            old(self).current <= final (self).current,
    {
        let ghost ts = self.toks();
        let ghost i0 = self.current as int;
        while matches!(self.peek(), Token::Newline | Token::Comment(_))
            invariant
                self.tokens == old(self).tokens,
                ts == self.toks(),
                i0 <= self.current as int <= self.tokens@.len(),
                spec_skip_nlc(ts, i0) == spec_skip_nlc(ts, self.current as int),
            decreases self.tokens@.len() - self.current as int,
        {
            let n = self.tokens.len();
            proof {
                assert(ts[self.current as int] == self.tokens@[self.current as int]@);
            }
            self.current = self.current + 1;
        }
    }

    /// The indentation level in force at the cursor, recovered by replaying
    /// the `Indent` and `Dedent` tokens consumed so far.
    fn get_current_indent(&self) -> (r: usize)
        requires
            self.current <= self.tokens@.len(),
        ensures
            r as int == spec_indent_at(self.toks(), self.current as int),
    {
        let ghost ts = self.toks();
        let mut stack: Vec<usize> = Vec::new();
        stack.push(0);
        proof {
            assert(crate::lexer::stack_view(stack@) =~= seq![0int]);
            assert(spec_replay_stack(ts, 0) == seq![0int]);
        }
        let mut i: usize = 0;
        while i < self.current
            invariant
                i <= self.current <= self.tokens@.len(),
                ts == self.toks(),
                stack@.len() >= 1,
                crate::lexer::stack_view(stack@) == spec_replay_stack(ts, i as int),
            decreases self.current - i,
        {
            let ghost st0 = crate::lexer::stack_view(stack@);
            proof {
                assert(ts[i as int] == self.tokens@[i as int]@);
            }
            match &self.tokens[i] {
                Token::Indent(w) => {
                    stack.push(*w);
                    proof {
                        assert(crate::lexer::stack_view(stack@) =~= st0.push(*w as int));
                    }
                },
                Token::Dedent(_) => {
                    if stack.len() > 1 {
                        let _ = stack.pop();
                        proof {
                            assert(crate::lexer::stack_view(stack@) =~= st0.drop_last());
                        }
                    }
                },
                _ => {},
            }
            i = i + 1;
        }
        proof {
            assert(crate::lexer::stack_view(stack@).last() == stack@[stack@.len() - 1] as int);
        }
        stack[stack.len() - 1]
    }

    /// The value of a mapping entry, resolved after its colon.
    fn parse_entry_value(&mut self) -> (r: Result<YamlValue, YamlError>)
        requires
            old(self).current <= old(self).tokens@.len(),
        ensures
            final (self).tokens == old(self).tokens,
            old(self).current <= final (self).current <= final (self).tokens@.len(),
            ({
                let ts = old(self).toks();
                match r {
                    Ok(v) => spec_entry_value(ts, old(self).current as int) == Ok::<
                        (ValueView, int),
                        ErrView,
                    >((v@, final (self).current as int)),
                    Err(e) => spec_entry_value(ts, old(self).current as int) == Err::<
                        (ValueView, int),
                        ErrView,
                    >(e@),
                }
            }),
        decreases self.tokens@.len() - self.current, 5int,
    {
        let ghost ts = self.toks();
        let ghost i0 = self.current as int;
        self.skip_newlines();
        let ghost j = self.current as int;
        if matches!(self.peek(), Token::Indent(_)) {
            self.advance();
            match self.parse_value() {
                Ok(v) => {
                    if matches!(self.peek(), Token::Dedent(_)) {
                        self.advance();
                    }
                    Ok(v)
                },
                Err(e) => Err(e),
            }
        } else if matches!(self.peek(), Token::Value(_)) {
            let val = match self.peek() {
                Token::Value(v) => v.clone(),
                _ => YamlValue::Null,
            };
            self.advance();
            Ok(val)
        } else if matches!(self.peek(), Token::ListItem) {
            self.parse_array()
        } else {
            Ok(YamlValue::Null)
        }
    }

    /// A value at the cursor: an inline scalar, a mapping begun by a key, or
    /// a sequence begun by a `ListItem`; anything else is an error.
    fn parse_value(&mut self) -> (r: Result<YamlValue, YamlError>)
        requires
            old(self).current <= old(self).tokens@.len(),
        ensures
            final (self).tokens == old(self).tokens,
            old(self).current <= final (self).current <= final (self).tokens@.len(),
            ({
                let ts = old(self).toks();
                match r {
                    Ok(v) => spec_parse_value(ts, old(self).current as int) == Ok::<
                        (ValueView, int),
                        ErrView,
                    >((v@, final (self).current as int)),
                    Err(e) => spec_parse_value(ts, old(self).current as int) == Err::<
                        (ValueView, int),
                        ErrView,
                    >(e@),
                }
            }),
        decreases self.tokens@.len() - self.current, 4int,
    {
        let ghost ts = self.toks();
        let ghost i0 = self.current as int;
        self.skip_newlines();
        if matches!(self.peek(), Token::Value(_)) {
            let val = match self.peek() {
                Token::Value(v) => v.clone(),
                _ => YamlValue::Null,
            };
            self.advance();
            Ok(val)
        } else if matches!(self.peek(), Token::Key(_)) {
            self.parse_object()
        } else if matches!(self.peek(), Token::ListItem) {
            self.parse_array()
        } else if self.is_at_end() {
            Err(YamlError::UnexpectedEof)
        } else {
            let mut m: String = "Unexpected token: ".to_owned();
            let d = token_desc_of(self.peek());
            m.append(d);
            Err(YamlError::ParseError(m))
        }
    }

    /// A block mapping: entries at the same level until a `Dedent`, the end
    /// of input, a shallower indentation or a token that is not a key.
    fn parse_object(&mut self) -> (r: Result<YamlValue, YamlError>)
        requires
            old(self).current <= old(self).tokens@.len(),
        ensures
            final (self).tokens == old(self).tokens,
            old(self).current <= final (self).current <= final (self).tokens@.len(),
            ({
                let ts = old(self).toks();
                match r {
                    Ok(v) => spec_parse_object(ts, old(self).current as int) == Ok::<
                        (ValueView, int),
                        ErrView,
                    >((v@, final (self).current as int)),
                    Err(e) => spec_parse_object(ts, old(self).current as int) == Err::<
                        (ValueView, int),
                        ErrView,
                    >(e@),
                }
            }),
        decreases self.tokens@.len() - self.current, 3int,
    {
        let ghost ts = self.toks();
        let ghost i0 = self.current as int;
        let init = self.get_current_indent();
        let mut entries: Vec<(String, YamlValue)> = Vec::new();
        proof {
            assert(entries_view(entries@) =~= Seq::<(Seq<char>, ValueView)>::empty());
        }
        loop
            invariant_except_break
                spec_parse_object(ts, i0) == spec_object_entries(
                    ts,
                    self.current as int,
                    entries_view(entries@),
                    init as int,
                ),
            invariant
                self.tokens == old(self).tokens,
                ts == self.toks(),
                i0 == old(self).current as int,
                i0 <= self.current as int <= self.tokens@.len(),
            ensures
                spec_parse_object(ts, i0) == Ok::<(ValueView, int), ErrView>(
                    (ValueView::Obj(entries_view(entries@)), self.current as int),
                ),
            decreases self.tokens@.len() - self.current as int,
        {
            let ghost cur_head = self.current as int;
            let ghost acc_head = entries_view(entries@);
            self.skip_newlines();
            if matches!(self.peek(), Token::Dedent(_)) || self.is_at_end() {
                break ;
            }
            let ci = self.get_current_indent();
            if ci < init {
                break ;
            }
            if !matches!(self.peek(), Token::Key(_)) {
                break ;
            }
            let key = match self.peek() {
                Token::Key(k) => k.clone(),
                _ => String::new(),
            };
            let ghost kv = key@;
            self.advance();
            if !matches!(self.peek(), Token::Colon) {
                return Err(YamlError::ParseError("Expected ':' after key".to_owned()));
            }
            self.advance();
            let value = match self.parse_entry_value() {
                Ok(v) => v,
                Err(e) => {
                    return Err(e);
                },
            };
            let ghost k = self.current as int;
            object_insert(&mut entries, key, value);
            proof {
                assert(entries_view(entries@) == obj_insert(acc_head, kv, value@));
                assert(spec_object_entries(ts, cur_head, acc_head, init as int)
                    == spec_object_entries(ts, k, obj_insert(acc_head, kv, value@), init as int));
            }
        }
        proof {
            lemma_object_view(entries);
        }
        Ok(YamlValue::Object(entries))
    }

    /// An inline mapping co-located with a `ListItem` marker; each field's
    /// value is resolved at the full entry precedence.
    fn parse_inline_map(&mut self) -> (r: Result<Vec<(String, YamlValue)>, YamlError>)
        requires
            old(self).current <= old(self).tokens@.len(),
        ensures
            final (self).tokens == old(self).tokens,
            old(self).current <= final (self).current <= final (self).tokens@.len(),
            ({
                let ts = old(self).toks();
                match r {
                    Ok(es) => spec_inline_map(ts, old(self).current as int, Seq::empty()) == Ok::<
                        (Seq<(Seq<char>, ValueView)>, int),
                        ErrView,
                    >((entries_view(es@), final (self).current as int)),
                    Err(e) => spec_inline_map(ts, old(self).current as int, Seq::empty()) == Err::<
                        (Seq<(Seq<char>, ValueView)>, int),
                        ErrView,
                    >(e@),
                }
            }),
        decreases self.tokens@.len() - self.current, 0int,
    {
        let ghost ts = self.toks();
        let ghost i0 = self.current as int;
        let mut entries: Vec<(String, YamlValue)> = Vec::new();
        proof {
            assert(entries_view(entries@) =~= Seq::<(Seq<char>, ValueView)>::empty());
        }
        loop
            invariant_except_break
                spec_inline_map(ts, i0, Seq::empty()) == spec_inline_map(
                    ts,
                    self.current as int,
                    entries_view(entries@),
                ),
            invariant
                self.tokens == old(self).tokens,
                ts == self.toks(),
                i0 == old(self).current as int,
                i0 <= self.current as int <= self.tokens@.len(),
            ensures
                spec_inline_map(ts, i0, Seq::empty()) == Ok::<
                    (Seq<(Seq<char>, ValueView)>, int),
                    ErrView,
                >((entries_view(entries@), self.current as int)),
            decreases self.tokens@.len() - self.current as int,
        {
            let ghost cur_head = self.current as int;
            let ghost acc_head = entries_view(entries@);
            if !matches!(self.peek(), Token::Key(_)) {
                break ;
            }
            let key = match self.peek() {
                Token::Key(k) => k.clone(),
                _ => String::new(),
            };
            let ghost kv = key@;
            self.advance();
            if !matches!(self.peek(), Token::Colon) {
                return Err(YamlError::ParseError("Expected ':' after key".to_owned()));
            }
            self.advance();
            let value = match self.parse_entry_value() {
                Ok(v) => v,
                Err(e) => {
                    return Err(e);
                },
            };
            object_insert(&mut entries, key, value);
            proof {
                assert(entries_view(entries@) == obj_insert(acc_head, kv, value@));
            }
            if matches!(self.peek(), Token::Newline) {
                self.advance();
                if matches!(self.peek(), Token::Indent(_)) {
                    self.advance();
                }
                if matches!(self.peek(), Token::Dedent(_)) {
                    break ;
                }
            } else {
                break ;
            }
        }
        Ok(entries)
    }

    /// A block sequence of `ListItem` entries.
    fn parse_array(&mut self) -> (r: Result<YamlValue, YamlError>)
        requires
            old(self).current <= old(self).tokens@.len(),
        ensures
            final (self).tokens == old(self).tokens,
            old(self).current <= final (self).current <= final (self).tokens@.len(),
            ({
                let ts = old(self).toks();
                match r {
                    Ok(v) => spec_parse_array(ts, old(self).current as int) == Ok::<
                        (ValueView, int),
                        ErrView,
                    >((v@, final (self).current as int)),
                    Err(e) => spec_parse_array(ts, old(self).current as int) == Err::<
                        (ValueView, int),
                        ErrView,
                    >(e@),
                }
            }),
        decreases self.tokens@.len() - self.current, 3int,
    {
        let ghost ts = self.toks();
        let ghost i0 = self.current as int;
        let init = self.get_current_indent();
        let mut items: Vec<YamlValue> = Vec::new();
        proof {
            assert(items_view(items@) =~= Seq::<ValueView>::empty());
        }
        loop
            invariant_except_break
                spec_parse_array(ts, i0) == spec_array_items(
                    ts,
                    self.current as int,
                    items_view(items@),
                    init as int,
                ),
            invariant
                self.tokens == old(self).tokens,
                ts == self.toks(),
                i0 == old(self).current as int,
                i0 <= self.current as int <= self.tokens@.len(),
            ensures
                spec_parse_array(ts, i0) == Ok::<(ValueView, int), ErrView>(
                    (ValueView::Arr(items_view(items@)), self.current as int),
                ),
            decreases self.tokens@.len() - self.current as int,
        {
            let ghost cur_head = self.current as int;
            let ghost acc_head = items_view(items@);
            if !matches!(self.peek(), Token::ListItem) {
                break ;
            }
            self.advance();
            let ghost e0 = self.current as int;
            let value = if matches!(self.peek(), Token::Newline) {
                self.advance();
                if matches!(self.peek(), Token::Indent(_)) {
                    self.advance();
                    match self.parse_value() {
                        Ok(v) => {
                            if matches!(self.peek(), Token::Dedent(_)) {
                                self.advance();
                            }
                            v
                        },
                        Err(e) => {
                            return Err(e);
                        },
                    }
                } else {
                    YamlValue::Null
                }
            } else if matches!(self.peek(), Token::Value(_)) {
                let val = match self.peek() {
                    Token::Value(v) => v.clone(),
                    _ => YamlValue::Null,
                };
                self.advance();
                val
            } else if matches!(self.peek(), Token::Key(_)) {
                match self.parse_inline_map() {
                    Ok(es) => {
                        proof {
                            lemma_object_view(es);
                        }
                        YamlValue::Object(es)
                    },
                    Err(e) => {
                        return Err(e);
                    },
                }
            } else {
                YamlValue::Null
            };
            proof {
                assert(spec_array_elem(ts, e0) == Ok::<(ValueView, int), ErrView>(
                    (value@, self.current as int),
                ));
            }
            items.push(value);
            proof {
                assert(items_view(items@) =~= acc_head.push(items@.last()@));
            }
            self.skip_newlines();
            let ghost d0 = self.current as int;
            loop
                invariant
                    self.tokens == old(self).tokens,
                    ts == self.toks(),
                    d0 <= self.current as int <= self.tokens@.len(),
                    spec_skip_deep_dedents(ts, d0, init as int) == spec_skip_deep_dedents(
                        ts,
                        self.current as int,
                        init as int,
                    ),
                ensures
                    self.current as int == spec_skip_deep_dedents(ts, d0, init as int),
                decreases self.tokens@.len() - self.current as int,
            {
                let deep = match self.peek() {
                    Token::Dedent(l) => *l > init,
                    _ => false,
                };
                if !deep {
                    break ;
                }
                self.advance();
            }
            let ci = self.get_current_indent();
            if ci < init {
                break ;
            }
            if self.is_at_end() {
                break ;
            }
        }
        proof {
            lemma_array_view(items);
        }
        Ok(YamlValue::Array(items))
    }

    /// Parses a whole document: a mapping when the first meaningful token is
    /// a key, else a single value that only trailing `Dedent` tokens may
    /// follow.
    pub fn parse(&mut self) -> (r: Result<YamlValue, YamlError>)
        requires
            old(self).current <= old(self).tokens@.len(),
        ensures
            final (self).tokens == old(self).tokens,
            final (self).current <= final (self).tokens@.len(),
            ({
                let ts = old(self).toks();
                match r {
                    Ok(v) => spec_parse_doc_from(ts, old(self).current as int) == Ok::<
                        ValueView,
                        ErrView,
                    >(v@),
                    Err(e) => spec_parse_doc_from(ts, old(self).current as int) == Err::<
                        ValueView,
                        ErrView,
                    >(e@),
                }
            }),
    {
        let ghost ts = self.toks();
        let ghost i0 = self.current as int;
        self.skip_newlines();
        let ghost j0 = self.current as int;
        if matches!(self.peek(), Token::Key(_)) {
            let mut entries: Vec<(String, YamlValue)> = Vec::new();
            proof {
                assert(entries_view(entries@) =~= Seq::<(Seq<char>, ValueView)>::empty());
            }
            loop
                invariant_except_break
                    spec_doc_entries(ts, j0, Seq::empty()) == spec_doc_entries(
                        ts,
                        self.current as int,
                        entries_view(entries@),
                    ),
                invariant
                    self.tokens == old(self).tokens,
                    ts == self.toks(),
                    i0 == old(self).current as int,
                    j0 == spec_skip_nlc(ts, i0),
                    peek_tok(ts, j0) is Key,
                    j0 <= self.current as int <= self.tokens@.len(),
                ensures
                    spec_doc_entries(ts, j0, Seq::empty()) == Ok::<
                        (Seq<(Seq<char>, ValueView)>, int),
                        ErrView,
                    >((entries_view(entries@), self.current as int)),
                decreases self.tokens@.len() - self.current as int,
            {
                let ghost cur_head = self.current as int;
                let ghost acc_head = entries_view(entries@);
                if self.is_at_end() {
                    break ;
                }
                self.skip_newlines();
                if self.is_at_end() {
                    break ;
                }
                if !matches!(self.peek(), Token::Key(_)) {
                    break ;
                }
                let key = match self.peek() {
                    Token::Key(k) => k.clone(),
                    _ => String::new(),
                };
                let ghost kv = key@;
                self.advance();
                if !matches!(self.peek(), Token::Colon) {
                    return Err(YamlError::ParseError("Expected ':' after key".to_owned()));
                }
                self.advance();
                let value = match self.parse_entry_value() {
                    Ok(v) => v,
                    Err(e) => {
                        return Err(e);
                    },
                };
                let ghost k = self.current as int;
                object_insert(&mut entries, key, value);
                proof {
                    assert(entries_view(entries@) == obj_insert(acc_head, kv, value@));
                    assert(spec_doc_entries(ts, cur_head, acc_head) == spec_doc_entries(
                        ts,
                        k,
                        obj_insert(acc_head, kv, value@),
                    ));
                }
            }
            proof {
                lemma_object_view(entries);
            }
            Ok(YamlValue::Object(entries))
        } else {
            let v = match self.parse_value() {
                Ok(v) => v,
                Err(e) => {
                    return Err(e);
                },
            };
            self.skip_newlines();
            let ghost d0 = self.current as int;
            loop
                invariant
                    self.tokens == old(self).tokens,
                    ts == self.toks(),
                    d0 <= self.current as int <= self.tokens@.len(),
                    spec_skip_dedents(ts, d0) == spec_skip_dedents(ts, self.current as int),
                ensures
                    self.current as int == spec_skip_dedents(ts, d0),
                decreases self.tokens@.len() - self.current as int,
            {
                if !matches!(self.peek(), Token::Dedent(_)) {
                    break ;
                }
                self.advance();
            }
            if !self.is_at_end() {
                return Err(YamlError::ParseError("Unexpected content after document".to_owned()));
            }
            Ok(v)
        }
    }
}

} // verus!
