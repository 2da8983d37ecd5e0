use vstd::prelude::*;

use crate::cursor::IndexedCharacters;
use crate::errors::{Fault, FormatterError};
use crate::text::{chars_of, string_from};
use vstd::string::*;

verus! {

/// A lexical unit of the input, stamped with the offset of its first character.
#[derive(Debug, PartialEq)]
pub enum Token {
    // Singleton tokens
    CloseBrace(usize),
    CloseSquareBraket(usize),
    Colon(usize),
    Comma(usize),
    OpenBrace(usize),
    OpenSquareBraket(usize),
    WhiteSpace(usize, char),
    // Complex tokens
    Null(usize, &'static str),
    True(usize, &'static str),
    False(usize, &'static str),
    Number(usize, String),
    StringLiteral(usize, String),
}

/// The mathematical value of a `Token`.
pub enum Lexeme {
    CloseBrace(nat),
    CloseSquareBraket(nat),
    Colon(nat),
    Comma(nat),
    OpenBrace(nat),
    OpenSquareBraket(nat),
    WhiteSpace(nat, char),
    Null(nat, Seq<char>),
    True(nat, Seq<char>),
    False(nat, Seq<char>),
    Number(nat, Seq<char>),
    StringLiteral(nat, Seq<char>),
}

impl View for Token {
    type V = Lexeme;

    open spec fn view(&self) -> Lexeme {
        match self {
            Token::CloseBrace(p) => Lexeme::CloseBrace(*p as nat),
            Token::CloseSquareBraket(p) => Lexeme::CloseSquareBraket(*p as nat),
            Token::Colon(p) => Lexeme::Colon(*p as nat),
            Token::Comma(p) => Lexeme::Comma(*p as nat),
            Token::OpenBrace(p) => Lexeme::OpenBrace(*p as nat),
            Token::OpenSquareBraket(p) => Lexeme::OpenSquareBraket(*p as nat),
            Token::WhiteSpace(p, c) => Lexeme::WhiteSpace(*p as nat, *c),
            Token::Null(p, s) => Lexeme::Null(*p as nat, s@),
            Token::True(p, s) => Lexeme::True(*p as nat, s@),
            Token::False(p, s) => Lexeme::False(*p as nat, s@),
            Token::Number(p, s) => Lexeme::Number(*p as nat, s@),
            Token::StringLiteral(p, s) => Lexeme::StringLiteral(*p as nat, s@),
        }
    }
}

/// The views of a sequence of tokens.
pub open spec fn view_tokens(ts: Seq<Token>) -> Seq<Lexeme> {
    ts.map_values(|t: Token| t@)
}

/// The offset at which a token starts.
pub open spec fn lexeme_start(t: Lexeme) -> nat {
    match t {
        Lexeme::CloseBrace(p) => p,
        Lexeme::CloseSquareBraket(p) => p,
        Lexeme::Colon(p) => p,
        Lexeme::Comma(p) => p,
        Lexeme::OpenBrace(p) => p,
        Lexeme::OpenSquareBraket(p) => p,
        Lexeme::WhiteSpace(p, _) => p,
        Lexeme::Null(p, _) => p,
        Lexeme::True(p, _) => p,
        Lexeme::False(p, _) => p,
        Lexeme::Number(p, _) => p,
        Lexeme::StringLiteral(p, _) => p,
    }
}

/// The text a token carries; empty for the singleton tokens.
pub open spec fn lexeme_text(t: Lexeme) -> Seq<char> {
    match t {
        Lexeme::Null(_, s) => s,
        Lexeme::True(_, s) => s,
        Lexeme::False(_, s) => s,
        Lexeme::Number(_, s) => s,
        Lexeme::StringLiteral(_, s) => s,
        _ => Seq::empty(),
    }
}

/// The offset of the last character of a token's text, counted from its start;
/// the start itself for a singleton token or an empty text.
pub open spec fn lexeme_end(t: Lexeme) -> nat {
    if lexeme_text(t).len() == 0 {
        lexeme_start(t)
    } else {
        (lexeme_start(t) + lexeme_text(t).len() - 1) as nat
    }
}

/// An ASCII decimal digit.
pub open spec fn is_digit(c: char) -> bool {
    '0' <= c && c <= '9'
}

/// A character that may stand inside a number.
pub open spec fn is_number_char(c: char) -> bool {
    is_digit(c) || c == '.' || c == 'e' || c == '-'
}

/// A character that ends a number without being part of it.
pub open spec fn ends_number(c: char) -> bool {
    c == ',' || c == ']' || c == '}' || c == ' ' || c == '\n' || c == '\t'
}

/// Matching `word` against `s` from offset `start`, with its first `k` characters
/// already matched: the fault met, or `None` when the whole word is there.
pub open spec fn keyword_fault(s: Seq<char>, start: nat, word: Seq<char>, k: nat) -> Option<Fault>
    decreases word.len() - k,
{
    if k >= word.len() {
        None
    } else if start + k >= s.len() {
        Some(Fault::ExpectedMoreCharacters(start + k))
    } else if s[(start + k) as int] != word[k as int] {
        Some(Fault::WrongCharacter { literal: word, expected: word[k as int], found: s[(start + k) as int] })
    } else {
        keyword_fault(s, start, word, k + 1)
    }
}

/// Reading the body of a string literal from offset `i`, with `text` read so far:
/// the literal's text and the offset just past its closing quote.
/// A backslash escapes the character after it: the backslash is dropped and that
/// character kept, so an escaped quote is content and does not end the literal.
pub open spec fn scan_string(s: Seq<char>, i: nat, text: Seq<char>) -> Result<
    (Seq<char>, nat),
    Fault,
>
    decreases s.len() - i,
{
    if i >= s.len() {
        Err(Fault::ExpectedMoreCharacters(i))
    } else if s[i as int] == '"' {
        Ok((text, i + 1))
    } else if s[i as int] == '\\' {
        if i + 1 >= s.len() {
            Err(Fault::ExpectedMoreCharacters(i + 1))
        } else {
            scan_string(s, i + 2, text.push(s[i + 1int]))
        }
    } else {
        scan_string(s, i + 1, text.push(s[i as int]))
    }
}

/// How a number that starts at `start` ends, once the characters before `i` are taken.
pub open spec fn finish_number(s: Seq<char>, start: nat, i: nat) -> Result<nat, Fault> {
    if i > start && s[i - 1] == 'e' {
        Err(Fault::NumberLiteralEndingInE)
    } else {
        Ok(i)
    }
}

/// Reading a number that starts at `start`, from offset `i`, with `dot` and `e` telling
/// whether a `.` or an `e` was taken already: the offset just past the number.
pub open spec fn scan_number(s: Seq<char>, start: nat, i: nat, dot: bool, e: bool) -> Result<
    nat,
    Fault,
>
    decreases s.len() - i,
{
    if i >= s.len() || ends_number(s[i as int]) {
        finish_number(s, start, i)
    } else if is_number_char(s[i as int]) {
        let c = s[i as int];
        if c == '-' && i > start {
            Err(Fault::NumberCanNotHaveANegativeSignNotAtHead)
        } else if c == '.' && dot {
            Err(Fault::ExtraDotInNumber(i))
        } else if c == 'e' && e {
            Err(Fault::ExtraEInNumber(i))
        } else {
            scan_number(s, start, i + 1, dot || c == '.', e || c == 'e')
        }
    } else {
        Err(Fault::InvalidNumberCharacter(i, s[i as int]))
    }
}

/// The token that starts at offset `i < s.len()`, and the offset just past it.
pub open spec fn lex_token(s: Seq<char>, i: nat) -> Result<(Lexeme, nat), Fault> {
    let c = s[i as int];
    if c == '{' {
        Ok((Lexeme::OpenBrace(i), i + 1))
    } else if c == '}' {
        Ok((Lexeme::CloseBrace(i), i + 1))
    } else if c == '[' {
        Ok((Lexeme::OpenSquareBraket(i), i + 1))
    } else if c == ']' {
        Ok((Lexeme::CloseSquareBraket(i), i + 1))
    } else if c == ':' {
        Ok((Lexeme::Colon(i), i + 1))
    } else if c == ',' {
        Ok((Lexeme::Comma(i), i + 1))
    } else if c == '"' {
        match scan_string(s, i + 1, Seq::empty()) {
            Ok((text, j)) => Ok((Lexeme::StringLiteral(i, text), j)),
            Err(f) => Err(f),
        }
    } else if c == 'f' {
        match keyword_fault(s, i, "false"@, 0) {
            None => Ok((Lexeme::False(i, "false"@), i + "false"@.len())),
            Some(f) => Err(f),
        }
    } else if c == 't' {
        match keyword_fault(s, i, "true"@, 0) {
            None => Ok((Lexeme::True(i, "true"@), i + "true"@.len())),
            Some(f) => Err(f),
        }
    } else if c == 'n' {
        match keyword_fault(s, i, "null"@, 0) {
            None => Ok((Lexeme::Null(i, "null"@), i + "null"@.len())),
            Some(f) => Err(f),
        }
    } else if c == ' ' || c == '\n' || c == '\t' {
        Ok((Lexeme::WhiteSpace(i, c), i + 1))
    } else if is_digit(c) || c == '-' {
        match scan_number(s, i, i, false, false) {
            Ok(j) => Ok((Lexeme::Number(i, s.subrange(i as int, j as int)), j)),
            Err(f) => Err(f),
        }
    } else {
        Err(Fault::InvalidTokenStartCharacter(i, c))
    }
}

/// Puts `p` in front of a successful result.
pub open spec fn prepend(p: Seq<Lexeme>, r: Result<Seq<Lexeme>, Fault>) -> Result<
    Seq<Lexeme>,
    Fault,
> {
    match r {
        Ok(rest) => Ok(p + rest),
        Err(f) => Err(f),
    }
}

/// The tokens of `s` from offset `i` on, one per lexical unit, whitespace included,
/// or the first fault met.
pub open spec fn lex(s: Seq<char>, i: nat) -> Result<Seq<Lexeme>, Fault>
    decreases s.len() - i,
{
    if i >= s.len() {
        Ok(Seq::empty())
    } else {
        match lex_token(s, i) {
            Ok((t, j)) => if i < j && j <= s.len() {
                prepend(seq![t], lex(s, j))
            } else {
                Ok(Seq::empty())
            },
            Err(f) => Err(f),
        }
    }
}

/// A keyword that matches lies wholly inside the input.
pub proof fn lemma_keyword_fits(s: Seq<char>, start: nat, word: Seq<char>, k: nat)
    requires
        k <= word.len(),
        start + k <= s.len(),
    ensures
        keyword_fault(s, start, word, k) is None ==> start + word.len() <= s.len(),
    decreases word.len() - k,
{
    if k < word.len() && start + k < s.len() && s[(start + k) as int] == word[k as int] {
        lemma_keyword_fits(s, start, word, k + 1);
    }
}

/// A string literal that is closed ends past the offset it was read from, inside the input.
pub proof fn lemma_scan_string_bounds(s: Seq<char>, i: nat, text: Seq<char>)
    ensures
        scan_string(s, i, text) is Ok ==> i < scan_string(s, i, text)->Ok_0.1 <= s.len(),
    decreases s.len() - i,
{
    if i < s.len() && s[i as int] != '"' {
        if s[i as int] == '\\' {
            if i + 1 < s.len() {
                lemma_scan_string_bounds(s, i + 2, text.push(s[i + 1int]));
            }
        } else {
            lemma_scan_string_bounds(s, i + 1, text.push(s[i as int]));
        }
    }
}

/// A number that is read without fault ends at or past the offset it was read from, inside
/// the input.
pub proof fn lemma_scan_number_bounds(s: Seq<char>, start: nat, i: nat, dot: bool, e: bool)
    requires
        i <= s.len(),
    ensures
        scan_number(s, start, i, dot, e) is Ok ==> i <= scan_number(s, start, i, dot, e)->Ok_0
            <= s.len(),
    decreases s.len() - i,
{
    if i < s.len() && !ends_number(s[i as int]) && is_number_char(s[i as int]) {
        let c = s[i as int];
        lemma_scan_number_bounds(s, start, i + 1, dot || c == '.', e || c == 'e');
    }
}

/// A token takes at least one character, and no more than there are.
pub proof fn lemma_lex_token_advances(s: Seq<char>, i: nat)
    requires
        i < s.len(),
    ensures
        lex_token(s, i) is Ok ==> i < lex_token(s, i)->Ok_0.1 <= s.len(),
{
    reveal_strlit("false");
    reveal_strlit("true");
    reveal_strlit("null");
    lemma_scan_string_bounds(s, i + 1, Seq::empty());
    lemma_keyword_fits(s, i, "false"@, 0);
    lemma_keyword_fits(s, i, "true"@, 0);
    lemma_keyword_fits(s, i, "null"@, 0);
    lemma_scan_number_bounds(s, i, i + 1, s[i as int] == '.', s[i as int] == 'e');
}

/// Whether an exec result is the spec result `m`.
pub open spec fn tokens_match(
    r: Result<Vec<Token>, FormatterError>,
    m: Result<Seq<Lexeme>, Fault>,
) -> bool {
    match r {
        Ok(v) => m == Ok::<Seq<Lexeme>, Fault>(view_tokens(v@)),
        Err(e) => m == Err::<Seq<Lexeme>, Fault>(e@),
    }
}

/// Whether an exec step result is the spec step result `m`, on the characters `s`.
pub open spec fn step_matches<'a>(
    r: Result<(Token, IndexedCharacters<'a>), FormatterError>,
    s: Seq<char>,
    m: Result<(Lexeme, nat), Fault>,
) -> bool {
    match r {
        Ok((t, c)) => c.chars() == s && m == Ok::<(Lexeme, nat), Fault>((t@, c.offset())),
        Err(e) => m == Err::<(Lexeme, nat), Fault>(e@),
    }
}

/// The offset where a token starts.
pub fn get_start_index(token: &Token) -> (r: usize)
    ensures
        r == lexeme_start(token@),
{
    match token {
        Token::OpenBrace(position) => *position,
        Token::CloseBrace(position) => *position,
        Token::OpenSquareBraket(position) => *position,
        Token::CloseSquareBraket(position) => *position,
        Token::Colon(position) => *position,
        Token::Comma(position) => *position,
        Token::WhiteSpace(position, _) => *position,
        Token::Null(position, _) => *position,
        Token::True(position, _) => *position,
        Token::False(position, _) => *position,
        Token::Number(position, _) => *position,
        Token::StringLiteral(position, _) => *position,
    }
}

fn end_of(position: usize, text: &str) -> (r: usize)
    requires
        position + text@.len() <= usize::MAX + 1,
    ensures
        r == (if text@.len() == 0 {
            position as nat
        } else {
            (position + text@.len() - 1) as nat
        }),
{
    let n = text.unicode_len();
    if n == 0 {
        position
    } else {
        position + (n - 1)
    }
}

/// The offset of the last character of a token's text (see `lexeme_end`).
pub fn get_end_index(token: &Token) -> (r: usize)
    requires
        lexeme_end(token@) <= usize::MAX,
    ensures
        r == lexeme_end(token@),
{
    match token {
        Token::Null(position, literal) => end_of(*position, literal),
        Token::True(position, literal) => end_of(*position, literal),
        Token::False(position, literal) => end_of(*position, literal),
        Token::Number(position, literal) => end_of(*position, literal.as_str()),
        Token::StringLiteral(position, literal) => end_of(*position, literal.as_str()),
        _ => get_start_index(token),
    }
}

/// Matches the keyword `literal` from the cursor on. On success hands back `token` and
/// the cursor just past the keyword.
pub fn process_expectation<'a>(
    literal: &'static str,
    token: Token,
    indexed_characters: IndexedCharacters<'a>,
) -> (r: Result<(Token, IndexedCharacters<'a>), FormatterError>)
    ensures
        ({
            let s = indexed_characters.chars();
            let start = indexed_characters.offset();
            match keyword_fault(s, start, literal@, 0) {
                None => r is Ok && r->Ok_0.0 == token && r->Ok_0.1.chars() == s
                    && r->Ok_0.1.offset() == start + literal@.len(),
                Some(f) => r is Err && r->Err_0@ == f,
            }
        }),
{
    let ghost s = indexed_characters.chars();
    let ghost start = indexed_characters.offset();
    let expected = chars_of(literal);
    let mut cursor = indexed_characters;
    let mut k: usize = 0;
    while k < expected.len()
        invariant
            expected@ == literal@,
            s == indexed_characters.chars(),
            start == indexed_characters.offset(),
            k <= expected@.len(),
            cursor.chars() == s,
            cursor.offset() == start + k,
            keyword_fault(s, start, literal@, 0) == keyword_fault(s, start, literal@, k as nat),
        decreases expected@.len() - k,
    {
        match cursor.current_character() {
            Some(character) => {
                if *character != expected[k] {
                    return Err(
                        FormatterError::WrongCharacter {
                            attempted_token_literal: literal,
                            expected_character: expected[k],
                            wrong_character: *character,
                        },
                    );
                }
            },
            None => {
                return Err(FormatterError::ExpectedMoreCharacters(cursor.get_index()));
            },
        }
        proof {
            cursor.lemma_len_bound();
        }
        cursor = cursor.progress();
        k = k + 1;
    }
    Ok((token, cursor))
}

/// Reads a string literal whose opening quote is under the cursor.
pub fn process_string_literal<'a>(indexed_characters: IndexedCharacters<'a>) -> (r: Result<
    (Token, IndexedCharacters<'a>),
    FormatterError,
>)
    requires
        indexed_characters.offset() < indexed_characters.chars().len(),
    ensures
        ({
            let s = indexed_characters.chars();
            let start = indexed_characters.offset();
            step_matches(
                r,
                s,
                match scan_string(s, start + 1, Seq::empty()) {
                    Ok((text, j)) => Ok((Lexeme::StringLiteral(start, text), j)),
                    Err(f) => Err(f),
                },
            )
        }),
{
    let ghost s = indexed_characters.chars();
    proof {
        indexed_characters.lemma_len_bound();
    }
    let position = indexed_characters.get_index();
    let mut cursor = indexed_characters.progress();
    let mut literal: Vec<char> = Vec::new();
    loop
        invariant
            cursor.chars() == s,
            s == indexed_characters.chars(),
            position == indexed_characters.offset(),
            position < cursor.offset() <= s.len(),
            s.len() <= usize::MAX,
            scan_string(s, (position + 1) as nat, Seq::empty()) == scan_string(
                s,
                cursor.offset(),
                literal@,
            ),
        decreases s.len() - cursor.offset(),
    {
        match cursor.current_character() {
            Some(character) => {
                if *character == '"' {
                    let text = string_from(&literal);
                    return Ok((Token::StringLiteral(position, text), cursor.progress()));
                } else if *character == '\\' {
                    cursor = cursor.progress();
                    match cursor.current_character() {
                        Some(escaped) => {
                            literal.push(*escaped);
                        },
                        None => {
                            return Err(FormatterError::ExpectedMoreCharacters(cursor.get_index()));
                        },
                    }
                } else {
                    literal.push(*character);
                }
            },
            None => {
                return Err(FormatterError::ExpectedMoreCharacters(cursor.get_index()));
            },
        }
        cursor = cursor.progress();
    }
}

/// A number token for `literal`, unless the literal ends in `e`.
pub fn check_end_for_e(token_position: usize, literal: String) -> (r: Result<Token, FormatterError>)
    ensures
        if literal@.len() > 0 && literal@.last() == 'e' {
            r is Err && r->Err_0@ == Fault::NumberLiteralEndingInE
        } else {
            r is Ok && r->Ok_0@ == Lexeme::Number(token_position as nat, literal@)
        },
{
    let n = literal.as_str().unicode_len();
    if n != 0 && literal.as_str().get_char(n - 1) == 'e' {
        Err(FormatterError::NumberLiteralEndingInE())
    } else {
        Ok(Token::Number(token_position, literal))
    }
}

/// Reads a number whose first character is under the cursor.
pub fn process_number_literal<'a>(indexed_characters: IndexedCharacters<'a>) -> (r: Result<
    (Token, IndexedCharacters<'a>),
    FormatterError,
>)
    requires
        indexed_characters.offset() < indexed_characters.chars().len(),
    ensures
        ({
            let s = indexed_characters.chars();
            let start = indexed_characters.offset();
            step_matches(
                r,
                s,
                match scan_number(s, start, start, false, false) {
                    Ok(j) => Ok((Lexeme::Number(start, s.subrange(start as int, j as int)), j)),
                    Err(f) => Err(f),
                },
            )
        }),
{
    let ghost s = indexed_characters.chars();
    proof {
        indexed_characters.lemma_len_bound();
    }
    let token_position = indexed_characters.get_index();
    let mut cursor = indexed_characters;
    let mut literal: Vec<char> = Vec::new();
    let mut has_seen_dot = false;
    let mut has_seen_e = false;
    loop
        invariant
            cursor.chars() == s,
            s == indexed_characters.chars(),
            token_position == indexed_characters.offset(),
            token_position <= cursor.offset() <= s.len(),
            s.len() <= usize::MAX,
            literal@ == s.subrange(token_position as int, cursor.offset() as int),
            scan_number(s, token_position as nat, token_position as nat, false, false)
                == scan_number(s, token_position as nat, cursor.offset(), has_seen_dot, has_seen_e),
        decreases s.len() - cursor.offset(),
    {
        let ghost i = cursor.offset();
        let character = match cursor.current_character() {
            Some(character) => *character,
            None => {
                let text = string_from(&literal);
                return match check_end_for_e(token_position, text) {
                    Ok(token) => Ok((token, cursor)),
                    Err(e) => Err(e),
                };
            },
        };
        if character == ',' || character == ']' || character == '}' || character == ' '
            || character == '\n' || character == '\t' {
            let text = string_from(&literal);
            return match check_end_for_e(token_position, text) {
                Ok(token) => Ok((token, cursor)),
                Err(e) => Err(e),
            };
        } else if ('0' <= character && character <= '9') || character == '.' || character == 'e'
            || character == '-' {
            if character == '-' && literal.len() != 0 {
                return Err(FormatterError::NumberCanNotHaveANegativeSignNotAtHead());
            }
            if character == '.' {
                if has_seen_dot {
                    return Err(FormatterError::ExtraDotInNumber(cursor.get_index()));
                } else {
                    has_seen_dot = true;
                }
            } else if character == 'e' {
                if has_seen_e {
                    return Err(FormatterError::ExtraEInNumber(cursor.get_index()));
                } else {
                    has_seen_e = true;
                }
            }
            literal.push(character);
        } else {
            return Err(FormatterError::InvalidNumberCharacter(cursor.get_index(), character));
        }
        cursor = cursor.progress();
        assert(literal@ == s.subrange(token_position as int, cursor.offset() as int));
    }
}

/// Reads the token under the cursor, which must not be past the end.
pub fn get_next_token<'a>(indexed_characters: IndexedCharacters<'a>) -> (r: Result<
    (Token, IndexedCharacters<'a>),
    FormatterError,
>)
    requires
        indexed_characters.offset() < indexed_characters.chars().len(),
    ensures
        step_matches(
            r,
            indexed_characters.chars(),
            lex_token(indexed_characters.chars(), indexed_characters.offset()),
        ),
{
    proof {
        indexed_characters.lemma_len_bound();
    }
    let position = indexed_characters.get_index();
    let character = match indexed_characters.current_character() {
        Some(character) => *character,
        None => {
            return Err(FormatterError::ExpectedMoreCharacters(position));
        },
    };
    let next = indexed_characters.progress();
    if character == '{' {
        Ok((Token::OpenBrace(position), next))
    } else if character == '}' {
        Ok((Token::CloseBrace(position), next))
    } else if character == '[' {
        Ok((Token::OpenSquareBraket(position), next))
    } else if character == ']' {
        Ok((Token::CloseSquareBraket(position), next))
    } else if character == ':' {
        Ok((Token::Colon(position), next))
    } else if character == ',' {
        Ok((Token::Comma(position), next))
    } else if character == '"' {
        process_string_literal(indexed_characters)
    } else if character == 'f' {
        process_expectation("false", Token::False(position, "false"), indexed_characters)
    } else if character == 't' {
        process_expectation("true", Token::True(position, "true"), indexed_characters)
    } else if character == 'n' {
        process_expectation("null", Token::Null(position, "null"), indexed_characters)
    } else if character == ' ' || character == '\n' || character == '\t' {
        Ok((Token::WhiteSpace(position, character), next))
    } else if ('0' <= character && character <= '9') || character == '-' {
        process_number_literal(indexed_characters)
    } else {
        Err(FormatterError::InvalidTokenStartCharacter(position, character))
    }
}

/// Splits `input` into tokens, one per lexical unit, whitespace included.
pub fn tokenize(input: &str) -> (r: Result<Vec<Token>, FormatterError>)
    ensures
        tokens_match(r, lex(input@, 0)),
{
    let chars = chars_of(input);
    let mut cursor = IndexedCharacters::new(&chars);
    let mut tokens: Vec<Token> = Vec::new();
    loop
        invariant
            cursor.chars() == input@,
            cursor.offset() <= input@.len(),
            lex(input@, 0) == prepend(view_tokens(tokens@), lex(input@, cursor.offset())),
        decreases input@.len() - cursor.offset(),
    {
        if cursor.current_character().is_none() {
            assert(view_tokens(tokens@) + Seq::<Lexeme>::empty() == view_tokens(tokens@));
            return Ok(tokens);
        }
        match get_next_token(cursor) {
            Ok((token, next)) => {
                proof {
                    lemma_lex_token_advances(input@, cursor.offset());
                }
                let ghost before = tokens@;
                tokens.push(token);
                proof {
                    assert(view_tokens(tokens@) == view_tokens(before).push(token@));
                    match lex(input@, next.offset()) {
                        Ok(rest) => {
                            assert(view_tokens(before) + (seq![token@] + rest) == view_tokens(
                                tokens@,
                            ) + rest);
                        },
                        Err(_) => {},
                    }
                }
                cursor = next;
            },
            Err(e) => {
                return Err(e);
            },
        }
    }
}

} // verus!
