//! A verified parser for an indentation-structured configuration format.
//!
//! Raw text is tokenized into a flat token stream (tracking nesting through an
//! indent stack), the token stream is parsed into a [`YamlValue`] tree, and the
//! tree can then be projected onto caller-defined shapes through the
//! [`YamlDeserialize`] trait.
//!
//! The pipeline is specified end to end: [`spec_parse_yaml`] defines, as one
//! mathematical function of the input characters, the value tree or error
//! that [`parse_yaml`] returns. Parsing is therefore deterministic: two calls
//! on equal texts return structurally equal trees.

pub mod deserialize;
pub mod error;
pub mod lexer;
pub mod parser;
pub mod scalar;
pub mod text;
pub mod token;
pub mod value;

pub use deserialize::{extract_field, extract_optional_field, FromYamlField, YamlDeserialize};
pub use error::{YamlError, YamlResult};
pub use lexer::Lexer;
pub use parser::Parser;
pub use token::Token;
pub use value::YamlValue;

use crate::error::ErrView;
use crate::value::ValueView;
use vstd::prelude::*;

verus! {

/// The value tree or error that parsing a text yields: tokenize, then parse.
pub open spec fn spec_parse_yaml(s: Seq<char>) -> Result<ValueView, ErrView> {
    match lexer::spec_lex(s, 0, seq![0int], true) {
        Err(e) => Err(e),
        Ok(toks) => parser::spec_parse_doc(toks),
    }
}

/// Parses a text into a value tree: the sole entry point that touches raw
/// text. The result is exactly what [`spec_parse_yaml`] assigns to the input.
pub fn parse_yaml(input: &str) -> (r: Result<YamlValue, YamlError>)
    ensures
        match r {
            Ok(v) => spec_parse_yaml(input@) == Ok::<ValueView, ErrView>(v@),
            Err(e) => spec_parse_yaml(input@) == Err::<ValueView, ErrView>(e@),
        },
{
    let mut lexer = Lexer::new(input);
    let tokens = match lexer.tokenize() {
        Ok(t) => t,
        Err(e) => {
            return Err(e);
        },
    };
    let mut parser = Parser::new(tokens);
    parser.parse()
}

/// Parsing is deterministic: the parse of a text is a single mathematical
/// value, so two parses of equal texts agree, structurally and on errors.
/// There is no hidden state across calls.
pub proof fn lemma_parse_deterministic(
    input1: Seq<char>,
    input2: Seq<char>,
    r1: Result<ValueView, ErrView>,
    r2: Result<ValueView, ErrView>,
)
    requires
        input1 == input2,
        r1 == spec_parse_yaml(input1),
        r2 == spec_parse_yaml(input2),
    ensures
        r1 == r2,
{
}

/// A text that tokenizes to a flat mapping document — one key, colon and
/// inline scalar per line, with pairwise distinct keys — parses to exactly
/// those pairs, in order, whatever the keys and scalars are.
pub proof fn lemma_parse_yaml_flat_mapping(s: Seq<char>, pairs: Seq<(Seq<char>, ValueView)>)
    requires
        pairs.len() > 0,
        forall|x: int, y: int| 0 <= x < y < pairs.len() ==> pairs[x].0 != pairs[y].0,
        lexer::spec_lex(s, 0, seq![0int], true) == Ok::<Seq<token::TokenView>, ErrView>(
            parser::flat_doc(pairs),
        ),
    ensures
        spec_parse_yaml(s) == Ok::<ValueView, ErrView>(ValueView::Obj(pairs)),
{
    parser::lemma_parse_flat_mapping(pairs);
}

/// Every mapping anywhere in a parsed tree binds each key once: parsing
/// never returns duplicate keys, because a later duplicate in the input
/// overwrites the earlier binding.
pub proof fn lemma_parse_yaml_unique_keys(s: Seq<char>)
    ensures
        spec_parse_yaml(s) matches Ok(v) ==> value::wf_value(v),
{
    match lexer::spec_lex(s, 0, seq![0int], true) {
        Err(e) => {},
        Ok(toks) => {
            lexer::lemma_spec_lex_wf(s, 0, seq![0int], true);
            parser::lemma_parse_doc_wf(toks, 0);
        },
    }
}

/// Every indentation level the tokenizer opens is closed again: replaying
/// all `Indent` and `Dedent` tokens of a tokenized text, as the parser does,
/// leaves only the base level open.
pub proof fn lemma_tokens_balanced(s: Seq<char>)
    ensures
        lexer::spec_lex(s, 0, seq![0int], true) matches Ok(toks) ==> parser::spec_replay_stack(
            toks,
            toks.len() as int,
        ) == seq![0int],
{
    match lexer::spec_lex(s, 0, seq![0int], true) {
        Err(_) => {},
        Ok(toks) => {
            lexer::lemma_spec_lex_balanced(s, 0, seq![0int], true);
            parser::lemma_replay_stack_as_replay_onto(toks, toks.len() as int);
            assert(toks.take(toks.len() as int) =~= toks);
        },
    }
}

/// Parses a text and projects the tree onto `T`.
pub fn parse_yaml_to<T: YamlDeserialize>(input: &str) -> (r: Result<T, YamlError>)
    ensures
        match r {
            Ok(x) => ({
                &&& spec_parse_yaml(input@) matches Ok(v)
                &&& T::spec_convertible(spec_parse_yaml(input@)->Ok_0)
                &&& T::spec_from_yaml(spec_parse_yaml(input@)->Ok_0, x)
            }),
            Err(e) => spec_parse_yaml(input@) == Err::<ValueView, ErrView>(e@) || (
            spec_parse_yaml(input@) matches Ok(v) && !T::spec_convertible(v) && e@
                == T::spec_conversion_err(v)),
        },
{
    let value = match parse_yaml(input) {
        Ok(v) => v,
        Err(e) => {
            return Err(e);
        },
    };
    T::from_yaml(&value)
}

/// Projects an already-parsed tree onto `T`, for callers that already hold a
/// value.
pub fn from_yaml<T: YamlDeserialize>(value: &YamlValue) -> (r: Result<T, YamlError>)
    ensures
        match r {
            Ok(x) => T::spec_convertible(value@) && T::spec_from_yaml(value@, x),
            Err(e) => !T::spec_convertible(value@) && e@ is Invalid && e@
                == T::spec_conversion_err(value@),
        },
{
    T::from_yaml(value)
}

} // verus!
