//! A validating JSON pretty-printer: text is split into tokens, the tokens are parsed
//! into a tree (objects may not repeat a key), and the tree is printed again with a
//! chosen indentation. Every stage is verified against the spec functions it names.

use vstd::prelude::*;

pub mod cursor;
pub mod errors;
pub mod formatter;
pub mod laws;
pub mod parser;
mod roundtrip;
mod text;
pub mod tokenizer;

pub use errors::FormatterError;
pub use formatter::{Delimiter, DelimiterCount, FormatConfig};

use errors::Fault;
use formatter::{default_unit, print_document, unit_of};
use parser::{parse, parse_document};
use tokenizer::{lex, tokenize};

verus! {

/// The indentation unit that `config` selects; four spaces when there is none.
pub open spec fn config_unit(config: Option<FormatConfig>) -> Seq<char> {
    match config {
        None => default_unit(),
        Some(c) => unit_of(c.delimiter),
    }
}

/// The whole pipeline on the characters `s`: tokenize, drop whitespace, parse, print with
/// the unit `unit`; the first fault met stops it.
pub open spec fn format_text(s: Seq<char>, unit: Seq<char>) -> Result<Seq<char>, Fault> {
    match lex(s, 0) {
        Err(f) => Err(f),
        Ok(ts) => match parse_document(ts) {
            Err(f) => Err(f),
            Ok(v) => Ok(print_document(v, unit)),
        },
    }
}

/// Validates `input` as JSON and prints it again, indented as `config` says.
/// A number is printed as the text it was written with; rendering it from its 64-bit
/// float value is floating-point work, left to callers (the app's
/// `format_with_float_numbers` does it between tokenizing and parsing).
pub fn format(input: String, config: Option<FormatConfig>) -> (r: Result<String, FormatterError>)
    ensures
        match r {
            Ok(out) => format_text(input@, config_unit(config)) == Ok::<Seq<char>, Fault>(out@),
            Err(e) => format_text(input@, config_unit(config)) == Err::<Seq<char>, Fault>(e@),
        },
{
    let tokens = match tokenize(input.as_str()) {
        Ok(tokens) => tokens,
        Err(e) => {
            return Err(e);
        },
    };
    let ast = match parse(tokens) {
        Ok(ast) => ast,
        Err(e) => {
            return Err(e);
        },
    };
    match config {
        None => Ok(formatter::format(ast)),
        Some(config) => Ok(formatter::format_with_config(ast, &config)),
    }
}

} // verus!
