//! The compiler as the browser front end calls it: JavaScript text and
//! error messages.
use vstd::prelude::*;
use crate::ast::sp_term;
use crate::lexer::{found_model, message_text, ParseError};
use crate::node::{compile, program_text, CompileError, MAX_NODES};
use crate::parser::{failure_of, parse_errors, parsed};
use crate::typecheck::{infer, term_size, Inferred};
use vstd::string::StringExecFns;

verus! {

/// The outcome of a compilation: the program (`false` when there is none)
/// and the error messages.
#[derive(Debug)]
pub struct JsResult {
    pub js: String,
    pub errors: Vec<String>,
}

/// The messages of the errors `es`.
fn messages(es: &Vec<ParseError>) -> (r: Vec<String>)
    ensures
        r@.len() == es@.len(),
        forall|i: int|
            0 <= i < es@.len() ==> #[trigger] r@[i]@ == message_text(es@[i].span, found_model(es@[i].found)),
{
    let mut r: Vec<String> = Vec::new();
    for i in 0..es.len()
        invariant
            r@.len() == i,
            forall|j: int|
                0 <= j < i ==> #[trigger] r@[j]@ == message_text(es@[j].span, found_model(es@[j].found)),
    {
        r.push(es[i].message());
    }
    r
}

/// Compiles `src` to a JavaScript program.  A text that cannot be read gives
/// the message of its error, a program without a type the message
/// `type error`; either way the program is `false`.
pub fn compile_to_js(src: String) -> (r: JsResult)
    ensures
        match parsed(src@) {
            None => r.js@ == "false"@ && r.errors@.len() == 1 && r.errors@[0]@ == message_text(
                failure_of(src@).0,
                failure_of(src@).1,
            ),
            Some(e) => if term_size(sp_term(e)) > MAX_NODES {
                r.js@ == "false"@ && r.errors@.len() == 1 && r.errors@[0]@ == "program too large"@
            } else {
                match infer(sp_term(e), Map::empty(), 1) {
                    Inferred::Typed(..) => r.js@ == program_text(sp_term(e)) && r.errors@.len() == 0,
                    _ => r.js@ == "false"@ && r.errors@.len() == 1 && r.errors@[0]@ == "type error"@,
                }
            },
        },
{
    match compile(src.as_str()) {
        Ok((_, js)) => JsResult { js, errors: Vec::new() },
        Err(CompileError::Parse(es)) => {
            proof {
                assert(parse_errors(src@, es@));
            }
            JsResult { js: String::from_str("false"), errors: messages(&es) }
        },
        Err(CompileError::Type(_)) => {
            let errors = vec![String::from_str("type error")];
            JsResult { js: String::from_str("false"), errors }
        },
        Err(CompileError::TooLarge) => {
            let errors = vec![String::from_str("program too large")];
            JsResult { js: String::from_str("false"), errors }
        },
    }
}

} // verus!
