use vstd::prelude::*;

use crate::text::{push_str, string_from};

verus! {

/// Every way in which tokenizing or parsing can fail.
#[derive(Debug, PartialEq)]
pub enum FormatterError {
    // Tokenizer
    ExpectedMoreCharacters(usize),
    InvalidTokenStartCharacter(usize, char),
    WrongCharacter {
        attempted_token_literal: &'static str,
        expected_character: char,
        wrong_character: char,
    },
    // Numbers
    InvalidNumberCharacter(usize, char),
    ExtraDotInNumber(usize),
    ExtraEInNumber(usize),
    NumberLiteralEndingInE(),
    NumberCanNotHaveANegativeSignNotAtHead(),
    // Parser
    ExpectedMoreTokens(),
    ExpectedColonInKeyValuePair(),
    ExpectedStringLiteral(usize),
    DuplicateKeyEntry(String),
}

/// The mathematical value of a `FormatterError`: text fields as character sequences.
pub enum Fault {
    ExpectedMoreCharacters(nat),
    InvalidTokenStartCharacter(nat, char),
    WrongCharacter { literal: Seq<char>, expected: char, found: char },
    InvalidNumberCharacter(nat, char),
    ExtraDotInNumber(nat),
    ExtraEInNumber(nat),
    NumberLiteralEndingInE,
    NumberCanNotHaveANegativeSignNotAtHead,
    ExpectedMoreTokens,
    ExpectedColonInKeyValuePair,
    ExpectedStringLiteral(nat),
    DuplicateKeyEntry(Seq<char>),
}

impl View for FormatterError {
    type V = Fault;

    open spec fn view(&self) -> Fault {
        match self {
            FormatterError::ExpectedMoreCharacters(p) => Fault::ExpectedMoreCharacters(*p as nat),
            FormatterError::InvalidTokenStartCharacter(p, c) => Fault::InvalidTokenStartCharacter(
                *p as nat,
                *c,
            ),
            FormatterError::WrongCharacter {
                attempted_token_literal,
                expected_character,
                wrong_character,
            } => Fault::WrongCharacter {
                literal: attempted_token_literal@,
                expected: *expected_character,
                found: *wrong_character,
            },
            FormatterError::InvalidNumberCharacter(p, c) => Fault::InvalidNumberCharacter(
                *p as nat,
                *c,
            ),
            FormatterError::ExtraDotInNumber(p) => Fault::ExtraDotInNumber(*p as nat),
            FormatterError::ExtraEInNumber(p) => Fault::ExtraEInNumber(*p as nat),
            FormatterError::NumberLiteralEndingInE() => Fault::NumberLiteralEndingInE,
            FormatterError::NumberCanNotHaveANegativeSignNotAtHead() => {
                Fault::NumberCanNotHaveANegativeSignNotAtHead
            },
            FormatterError::ExpectedMoreTokens() => Fault::ExpectedMoreTokens,
            FormatterError::ExpectedColonInKeyValuePair() => Fault::ExpectedColonInKeyValuePair,
            FormatterError::ExpectedStringLiteral(p) => Fault::ExpectedStringLiteral(*p as nat),
            FormatterError::DuplicateKeyEntry(k) => Fault::DuplicateKeyEntry(k@),
        }
    }
}

/// The decimal digit for `d < 10`.
pub open spec fn digit_char(d: nat) -> char {
    if d == 0 {
        '0'
    } else if d == 1 {
        '1'
    } else if d == 2 {
        '2'
    } else if d == 3 {
        '3'
    } else if d == 4 {
        '4'
    } else if d == 5 {
        '5'
    } else if d == 6 {
        '6'
    } else if d == 7 {
        '7'
    } else if d == 8 {
        '8'
    } else {
        '9'
    }
}

/// `n` written in decimal, without leading zeros.
pub open spec fn decimal(n: nat) -> Seq<char>
    decreases n,
{
    if n < 10 {
        seq![digit_char(n)]
    } else {
        decimal(n / 10).push(digit_char(n % 10))
    }
}

/// The human-readable description of a fault.
pub open spec fn fault_message(f: Fault) -> Seq<char> {
    match f {
        Fault::ExpectedMoreCharacters(p) => "Expected more tokens a position "@ + decimal(p) + "."@,
        Fault::InvalidTokenStartCharacter(p, c) => "Character ("@ + seq![c] + ") at postition ("@
            + decimal(p) + ") is not valid."@,
        Fault::WrongCharacter { literal, expected, found } => "Wrong Character: found ("@ + seq![
            found,
        ] + ") when expecting ("@ + seq![expected] + ") while trying to build token "@ + literal
            + "."@,
        Fault::InvalidNumberCharacter(p, c) => "Character ("@ + seq![c] + ") at postition ("@
            + decimal(p) + ") is not valid in a number."@,
        Fault::ExtraDotInNumber(p) => "Found and extra dot at postition ("@ + decimal(p)
            + ") which is not valid in a number."@,
        Fault::ExtraEInNumber(p) => "Found and extra e at postition ("@ + decimal(p)
            + ") which is not valid in a number."@,
        Fault::NumberLiteralEndingInE => "A number literal can not end with an 'e' character."@,
        Fault::NumberCanNotHaveANegativeSignNotAtHead => {
            "Number can not have a - at a position other than the start of string"@
        },
        Fault::ExpectedMoreTokens => "Ran out of tokens while parsing."@,
        Fault::ExpectedColonInKeyValuePair => "Key value pairs must be delimited by colons (:)."@,
        Fault::ExpectedStringLiteral(p) => "Expected string literal at position ("@ + decimal(p)
            + ")."@,
        Fault::DuplicateKeyEntry(k) => "Duplicate key ('"@ + k + "') entry."@,
    }
}

fn digit(d: usize) -> (c: char)
    requires
        d < 10,
    ensures
        c == digit_char(d as nat),
{
    if d == 0 {
        '0'
    } else if d == 1 {
        '1'
    } else if d == 2 {
        '2'
    } else if d == 3 {
        '3'
    } else if d == 4 {
        '4'
    } else if d == 5 {
        '5'
    } else if d == 6 {
        '6'
    } else if d == 7 {
        '7'
    } else if d == 8 {
        '8'
    } else {
        '9'
    }
}

/// Appends `n` in decimal to `out`.
pub fn push_decimal(out: &mut Vec<char>, n: usize)
    ensures
        final(out)@ == old(out)@ + decimal(n as nat),
    decreases n,
{
    if n >= 10 {
        push_decimal(out, n / 10);
    }
    out.push(digit(n % 10));
}

impl FormatterError {
    /// The human-readable description of this error.
    pub fn message(&self) -> (r: String)
        ensures
            r@ == fault_message(self@),
    {
        let mut out: Vec<char> = Vec::new();
        match self {
            FormatterError::ExpectedMoreCharacters(p) => {
                push_str(&mut out, "Expected more tokens a position ");
                push_decimal(&mut out, *p);
                push_str(&mut out, ".");
            },
            FormatterError::InvalidTokenStartCharacter(p, c) => {
                push_str(&mut out, "Character (");
                out.push(*c);
                push_str(&mut out, ") at postition (");
                push_decimal(&mut out, *p);
                push_str(&mut out, ") is not valid.");
            },
            FormatterError::WrongCharacter {
                attempted_token_literal,
                expected_character,
                wrong_character,
            } => {
                push_str(&mut out, "Wrong Character: found (");
                out.push(*wrong_character);
                push_str(&mut out, ") when expecting (");
                out.push(*expected_character);
                push_str(&mut out, ") while trying to build token ");
                push_str(&mut out, attempted_token_literal);
                push_str(&mut out, ".");
            },
            FormatterError::InvalidNumberCharacter(p, c) => {
                push_str(&mut out, "Character (");
                out.push(*c);
                push_str(&mut out, ") at postition (");
                push_decimal(&mut out, *p);
                push_str(&mut out, ") is not valid in a number.");
            },
            FormatterError::ExtraDotInNumber(p) => {
                push_str(&mut out, "Found and extra dot at postition (");
                push_decimal(&mut out, *p);
                push_str(&mut out, ") which is not valid in a number.");
            },
            FormatterError::ExtraEInNumber(p) => {
                push_str(&mut out, "Found and extra e at postition (");
                push_decimal(&mut out, *p);
                push_str(&mut out, ") which is not valid in a number.");
            },
            FormatterError::NumberLiteralEndingInE() => {
                push_str(&mut out, "A number literal can not end with an 'e' character.");
            },
            FormatterError::NumberCanNotHaveANegativeSignNotAtHead() => {
                push_str(
                    &mut out,
                    "Number can not have a - at a position other than the start of string",
                );
            },
            FormatterError::ExpectedMoreTokens() => {
                push_str(&mut out, "Ran out of tokens while parsing.");
            },
            FormatterError::ExpectedColonInKeyValuePair() => {
                push_str(&mut out, "Key value pairs must be delimited by colons (:).");
            },
            FormatterError::ExpectedStringLiteral(p) => {
                push_str(&mut out, "Expected string literal at position (");
                push_decimal(&mut out, *p);
                push_str(&mut out, ").");
            },
            FormatterError::DuplicateKeyEntry(k) => {
                push_str(&mut out, "Duplicate key ('");
                push_str(&mut out, k.as_str());
                push_str(&mut out, "') entry.");
            },
        }
        string_from(&out)
    }
}

} // verus!
