//! A lexer and recursive-descent reader for a small Lisp-like data language:
//! lists, key/value maps, integers, symbols, strings, and the literals
//! `nil`/`true`/`false`. Raw text is scanned into tokens, and a reader with
//! one token of lookahead assembles one syntax-tree node per call. Malformed
//! input is reported as a typed error, never as a panic or a half-built tree.

pub mod env;
pub mod eval;
pub mod laws;
pub mod mal_error;
pub mod reader;
pub mod tokenizer;
pub mod types;

use vstd::prelude::*;

use crate::env::Env;
use crate::eval::{eval_ast, evaluable};
use crate::mal_error::{ErrorKind, MalError};
use crate::reader::{parse_form, read_str, ParseStep, MAX_DEPTH};
use crate::tokenizer::tokens_spec;
use crate::types::MalType;

verus! {

/// Reads the first form of `input`: `Ok(Some(node))` for a form,
/// `Ok(None)` for blank input (only whitespace, commas, and comments), and a
/// typed error for malformed input. See [`read_str`].
pub fn read(input: &str) -> (res: Result<Option<MalType>, MalError>)
    ensures
        match tokens_spec(input@, 0) {
            Option::None => (res matches Err(e) && e.kind == ErrorKind::UnterminatedString),
            Option::Some(ts) => match parse_form(ts, MAX_DEPTH as nat) {
                ParseStep::Form(v, rest) => (res matches Ok(o) && o matches Some(m) && m.model()
                    == v && m.wf()),
                ParseStep::End => res matches Ok(o) && o is None,
                ParseStep::Delim => (res matches Err(e) && e.kind == ErrorKind::UnsupportedToken),
                ParseStep::Fail(k) => (res matches Err(e) && e.kind == k),
            },
        },
{
    read_str(input)
}

/// Evaluates a read form in a fresh environment; "no form" passes through.
/// At this stage evaluation denotes the identity on the tree's value.
pub fn eval(input: Option<MalType>) -> (r: Option<MalType>)
    requires
        input matches Some(ast) ==> evaluable(ast) && ast.wf(),
    ensures
        input is None ==> r is None,
        input matches Some(ast) ==> (r matches Some(v) && v.model() == ast.model() && v.wf()),
{
    match input {
        Some(ast) => {
            let mut env = Env::new();
            Some(eval_ast(ast, &mut env))
        },
        None => None,
    }
}

} // verus!
