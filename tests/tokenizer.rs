use jsonist::cursor::IndexedCharacters;
use jsonist::tokenizer::{
    check_end_for_e, get_end_index, get_next_token, get_start_index, process_expectation,
    process_number_literal, process_string_literal, tokenize, Token,
};
use jsonist::FormatterError;

fn next_token(text: &str) -> Token {
    let chars = text.chars().collect::<Vec<char>>();
    let indexed_characters = IndexedCharacters::new(&chars);
    match get_next_token(indexed_characters) {
        Ok((token, _)) => token,
        Err(e) => panic!("{}", e.message()),
    }
}

#[test]
fn expect_false_with_correct_tokens() {
    let json = "false";
    let chars = json.chars().collect::<Vec<char>>();
    let indexed_characters = IndexedCharacters::new(&chars);
    let token = Token::StringLiteral(0, String::from("false"));
    let token2 = Token::StringLiteral(0, String::from("false"));
    match process_expectation("false", token, indexed_characters) {
        Ok((result, after)) => {
            assert_eq!(result, token2);
            assert_eq!(after.get_index(), 5);
        }
        Err(e) => panic!("{}", e.message()),
    }
}

#[test]
#[should_panic(
    expected = "Wrong Character: found (l) when expecting (s) while trying to build token false"
)]
fn expect_failure_when_false_is_spelt_wrong() {
    let json = "fall";
    let chars = json.chars().collect::<Vec<char>>();
    let indexed_characters = IndexedCharacters::new(&chars);
    let token = Token::StringLiteral(0, String::from("false"));
    let token2 = Token::StringLiteral(0, String::from("false"));
    match process_expectation("false", token, indexed_characters) {
        Ok((result, _)) => assert_eq!(result, token2),
        Err(e) => panic!("{}", e.message()),
    }
}

#[test]
#[should_panic(expected = "Expected more tokens a position 3")]
fn expect_failure_when_json_runs_out() {
    let json = "fal";
    let chars = json.chars().collect::<Vec<char>>();
    let indexed_characters = IndexedCharacters::new(&chars);
    let token = Token::StringLiteral(0, String::from("false"));
    let token2 = Token::StringLiteral(0, String::from("false"));
    match process_expectation("false", token, indexed_characters) {
        Ok((result, _)) => assert_eq!(result, token2),
        Err(e) => panic!("{}", e.message()),
    }
}

#[test]
fn string_literal() {
    let json = "\"tester\"";
    let chars = json.chars().collect::<Vec<char>>();
    let indexed_characters = IndexedCharacters::new(&chars);
    let expectation = Token::StringLiteral(0, String::from("tester"));
    match process_string_literal(indexed_characters) {
        Ok((result, after)) => {
            assert_eq!(result, expectation);
            assert_eq!(after.get_index(), 8);
        }
        Err(e) => panic!("{}", e.message()),
    }
}

#[test]
fn string_literal_with_an_escape_in_it() {
    let json = r#""tes\"ter""#;
    let chars = json.chars().collect::<Vec<char>>();
    let indexed_characters = IndexedCharacters::new(&chars);
    let expectation = Token::StringLiteral(0, String::from("tes\"ter"));
    match process_string_literal(indexed_characters) {
        Ok((result, after)) => {
            assert_eq!(result, expectation);
            assert_eq!(after.get_index(), 10);
        }
        Err(e) => panic!("{}", e.message()),
    }
}

#[test]
fn string_literal_with_lots_of_escaped_quotes_in_it() {
    let json = r#""tes\"te\"   \"r""#;
    let chars = json.chars().collect::<Vec<char>>();
    let indexed_characters = IndexedCharacters::new(&chars);
    let expectation = Token::StringLiteral(0, String::from("tes\"te\"   \"r"));
    match process_string_literal(indexed_characters) {
        Ok((result, _)) => assert_eq!(result, expectation),
        Err(e) => panic!("{}", e.message()),
    }
}

#[test]
#[should_panic(expected = "Expected more tokens a position 16")]
fn string_literal_no_end_quote() {
    let json = r#""tes\"te\"   \"r"#;
    let chars = json.chars().collect::<Vec<char>>();
    let indexed_characters = IndexedCharacters::new(&chars);
    let token = Token::Colon(0);
    match process_string_literal(indexed_characters) {
        Ok((result, _)) => assert_eq!(result, token),
        Err(e) => panic!("{}", e.message()),
    }
}

#[test]
fn open_brace() {
    assert_eq!(next_token("{"), Token::OpenBrace(0));
}

#[test]
fn close_brace() {
    assert_eq!(next_token("}"), Token::CloseBrace(0));
}

#[test]
fn open_square_bracket() {
    assert_eq!(next_token("["), Token::OpenSquareBraket(0));
}

#[test]
fn close_square_bracket() {
    assert_eq!(next_token("]"), Token::CloseSquareBraket(0));
}

#[test]
fn colon() {
    assert_eq!(next_token(":"), Token::Colon(0));
}

#[test]
fn whitespace() {
    assert_eq!(next_token(" "), Token::WhiteSpace(0, ' '));
    assert_eq!(next_token("\n"), Token::WhiteSpace(0, '\n'));
    assert_eq!(next_token("\t"), Token::WhiteSpace(0, '\t'));
}

#[test]
fn quote() {
    assert_eq!(next_token("\"test\""), Token::StringLiteral(0, String::from("test")));
}

#[test]
fn invalid_token_start_character() {
    let chars = "x".chars().collect::<Vec<char>>();
    let indexed_characters = IndexedCharacters::new(&chars);
    match get_next_token(indexed_characters) {
        Ok(_) => panic!("x cannot start a token"),
        Err(e) => assert_eq!(e, FormatterError::InvalidTokenStartCharacter(0, 'x')),
    }
}

#[test]
fn number_literal() {
    let json = r#"2.34e3"#;
    let chars = json.chars().collect::<Vec<char>>();
    let indexed_characters = IndexedCharacters::new(&chars);
    let expectation = Token::Number(0, String::from("2.34e3"));
    match process_number_literal(indexed_characters) {
        Ok((result, after)) => {
            assert_eq!(result, expectation);
            assert_eq!(after.get_index(), 6);
        }
        Err(e) => panic!("{}", e.message()),
    }
}

#[test]
#[should_panic(expected = "Character (f) at postition (4) is not valid in a number.")]
fn number_can_not_contain_letters_other_than_e() {
    let json = r#"2324f"#;
    let chars = json.chars().collect::<Vec<char>>();
    let indexed_characters = IndexedCharacters::new(&chars);
    let expectation = Token::Number(0, String::from(""));
    match process_number_literal(indexed_characters) {
        Ok((result, _)) => assert_eq!(result, expectation),
        Err(e) => panic!("{}", e.message()),
    }
}

#[test]
#[should_panic(expected = "Found and extra dot at postition (3) which is not valid in a number.")]
fn number_literal_can_not_have_two_dots() {
    let json = r#"2.3.4e3"#;
    let chars = json.chars().collect::<Vec<char>>();
    let indexed_characters = IndexedCharacters::new(&chars);
    let expectation = Token::Number(0, String::from(""));
    match process_number_literal(indexed_characters) {
        Ok((result, _)) => assert_eq!(result, expectation),
        Err(e) => panic!("{}", e.message()),
    }
}

#[test]
#[should_panic(expected = "Found and extra e at postition (5) which is not valid in a number.")]
fn number_literal_can_not_have_two_exponentials() {
    let json = r#"2.3e4e3"#;
    let chars = json.chars().collect::<Vec<char>>();
    let indexed_characters = IndexedCharacters::new(&chars);
    let expectation = Token::Number(0, String::from(""));
    match process_number_literal(indexed_characters) {
        Ok((result, _)) => assert_eq!(result, expectation),
        Err(e) => panic!("{}", e.message()),
    }
}

#[test]
#[should_panic(expected = "A number literal can not end with an 'e' character")]
fn number_literal_can_not_end_with_an_e() {
    let json = r#"2.3e"#;
    let chars = json.chars().collect::<Vec<char>>();
    let indexed_characters = IndexedCharacters::new(&chars);
    let expectation = Token::Number(0, String::from(""));
    match process_number_literal(indexed_characters) {
        Ok((result, _)) => assert_eq!(result, expectation),
        Err(e) => panic!("{}", e.message()),
    }
}

#[test]
fn number_literals_should_handle_negative_numbers() {
    let json = r#"-2.34"#;
    let chars = json.chars().collect::<Vec<char>>();
    let indexed_characters = IndexedCharacters::new(&chars);
    let expectation = Token::Number(0, String::from("-2.34"));
    match process_number_literal(indexed_characters) {
        Ok((result, _)) => assert_eq!(result, expectation),
        Err(e) => panic!("{}", e.message()),
    }
}

#[test]
#[should_panic(expected = "Number can not have a - at a position other than the start of string")]
fn number_literals_no_negative_symbol_at_postitions_other_than_the_first() {
    let json = r#"2-.34"#;
    let chars = json.chars().collect::<Vec<char>>();
    let indexed_characters = IndexedCharacters::new(&chars);
    let expectation = Token::Number(0, String::from("-2.34"));
    match process_number_literal(indexed_characters) {
        Ok((result, _)) => assert_eq!(result, expectation),
        Err(e) => panic!("{}", e.message()),
    }
}

#[test]
fn number_stops_before_a_terminator() {
    let chars = "12e5, 3".chars().collect::<Vec<char>>();
    let indexed_characters = IndexedCharacters::new(&chars);
    match process_number_literal(indexed_characters) {
        Ok((result, after)) => {
            assert_eq!(result, Token::Number(0, String::from("12e5")));
            assert_eq!(after.get_index(), 4);
        }
        Err(e) => panic!("{}", e.message()),
    }
}

#[test]
fn check_end_for_e_accepts_and_rejects() {
    assert_eq!(
        check_end_for_e(2, String::from("1e4")),
        Ok(Token::Number(2, String::from("1e4")))
    );
    assert_eq!(
        check_end_for_e(2, String::from("1e")),
        Err(FormatterError::NumberLiteralEndingInE())
    );
}

#[test]
fn tokenize_string() {
    let json = r#""w in""#;
    let win = Token::StringLiteral(0, String::from("w in"));
    let tokens = vec![win];
    match tokenize(json) {
        Ok(result) => assert_eq!(result, tokens),
        Err(e) => panic!("{}", e.message()),
    }
}

#[test]
fn tokenize_number() {
    let json = r#"23423.234e344"#;
    let number = Token::Number(0, String::from("23423.234e344"));
    let tokens = vec![number];
    match tokenize(json) {
        Ok(result) => assert_eq!(result, tokens),
        Err(e) => panic!("{}", e.message()),
    }
}

#[test]
fn tokenize_null() {
    let json = r#"null"#;
    let null = Token::Null(0, "null");
    let tokens = vec![null];
    match tokenize(json) {
        Ok(result) => assert_eq!(result, tokens),
        Err(e) => panic!("{}", e.message()),
    }
}

#[test]
fn tokenize_true() {
    let json = r#"true"#;
    let true_token = Token::True(0, "true");
    let tokens = vec![true_token];
    match tokenize(json) {
        Ok(result) => assert_eq!(result, tokens),
        Err(e) => panic!("{}", e.message()),
    }
}

#[test]
fn tokenize_false() {
    let json = r#"false"#;
    let false_token = Token::False(0, "false");
    let tokens = vec![false_token];
    match tokenize(json) {
        Ok(result) => assert_eq!(result, tokens),
        Err(e) => panic!("{}", e.message()),
    }
}

#[test]
fn mod_tokenize_an_object() {
    let json = r#" { "w in" : true }  "#;

    let whitespace = Token::WhiteSpace(0, ' ');
    let open_brace = Token::OpenBrace(1);
    let whitespace2 = Token::WhiteSpace(2, ' ');
    let win = Token::StringLiteral(3, String::from("w in"));
    let whitespace3 = Token::WhiteSpace(9, ' ');
    let colon = Token::Colon(10);
    let whitespace4 = Token::WhiteSpace(11, ' ');
    let true_token = Token::True(12, "true");
    let whitespace5 = Token::WhiteSpace(16, ' ');
    let close_brace = Token::CloseBrace(17);
    let whitespace6 = Token::WhiteSpace(18, ' ');
    let whitespace7 = Token::WhiteSpace(19, ' ');

    let tokens = vec![
        whitespace, open_brace, whitespace2, win, whitespace3, colon, whitespace4, true_token,
        whitespace5, close_brace, whitespace6, whitespace7,
    ];

    match tokenize(json) {
        Ok(result) => assert_eq!(result, tokens),
        Err(e) => panic!("{}", e.message()),
    }
}

#[test]
fn tokenize_an_array() {
    let json = r#" [ false, 23.23, true ]  "#;

    let whitespace = Token::WhiteSpace(0, ' ');
    let open_bracket = Token::OpenSquareBraket(1);
    let whitespace2 = Token::WhiteSpace(2, ' ');
    let false_token = Token::False(3, "false");
    let comma = Token::Comma(8);
    let whitespace3 = Token::WhiteSpace(9, ' ');
    let number = Token::Number(10, String::from("23.23"));
    let comma2 = Token::Comma(15);
    let whitespace4 = Token::WhiteSpace(16, ' ');
    let true_token = Token::True(17, "true");
    let whitespace5 = Token::WhiteSpace(21, ' ');
    let close_bracket = Token::CloseSquareBraket(22);
    let whitespace6 = Token::WhiteSpace(23, ' ');
    let whitespace7 = Token::WhiteSpace(24, ' ');

    let tokens = vec![
        whitespace, open_bracket, whitespace2, false_token, comma, whitespace3, number, comma2,
        whitespace4, true_token, whitespace5, close_bracket, whitespace6, whitespace7,
    ];

    match tokenize(json) {
        Ok(result) => assert_eq!(result, tokens),
        Err(e) => panic!("{}", e.message()),
    }
}

#[test]
fn tokenize_positions_after_an_escaped_string() {
    let json = r#""a\"b" ,"#;
    let tokens = vec![
        Token::StringLiteral(0, String::from("a\"b")),
        Token::WhiteSpace(6, ' '),
        Token::Comma(7),
    ];
    assert_eq!(tokenize(json), Ok(tokens));
}

#[test]
fn tokenize_reports_the_first_fault() {
    assert_eq!(tokenize("[1, x]"), Err(FormatterError::InvalidTokenStartCharacter(4, 'x')));
    assert_eq!(tokenize("[12a]"), Err(FormatterError::InvalidNumberCharacter(3, 'a')));
    assert_eq!(tokenize("\"open"), Err(FormatterError::ExpectedMoreCharacters(5)));
    assert_eq!(
        tokenize("[trve]"),
        Err(FormatterError::WrongCharacter {
            attempted_token_literal: "true",
            expected_character: 'u',
            wrong_character: 'v',
        })
    );
    assert_eq!(tokenize("1.2.3"), Err(FormatterError::ExtraDotInNumber(3)));
    assert_eq!(tokenize("1e2e3"), Err(FormatterError::ExtraEInNumber(3)));
    assert_eq!(tokenize("[1e]"), Err(FormatterError::NumberLiteralEndingInE()));
    assert_eq!(
        tokenize("1-2"),
        Err(FormatterError::NumberCanNotHaveANegativeSignNotAtHead())
    );
}

#[test]
fn string_literal_keeps_escaped_characters() {
    assert_eq!(
        tokenize(r#""a\\b""#),
        Ok(vec![Token::StringLiteral(0, String::from("a\\b"))])
    );
    assert_eq!(
        tokenize(r#""a\\" ,"#),
        Ok(vec![
            Token::StringLiteral(0, String::from("a\\")),
            Token::WhiteSpace(5, ' '),
            Token::Comma(6),
        ])
    );
    assert_eq!(tokenize(r#""\n""#), Ok(vec![Token::StringLiteral(0, String::from("n"))]));
    assert_eq!(tokenize(r#""ab\"#), Err(FormatterError::ExpectedMoreCharacters(4)));
}

#[test]
fn tokenize_empty_input() {
    assert_eq!(tokenize(""), Ok(vec![]));
}

#[test]
fn can_get_start_position_of_simple_token() {
    let position = 3;
    let token = Token::OpenBrace(position);
    assert_eq!(get_start_index(&token), position);
    assert_eq!(get_end_index(&token), position);
}

#[test]
fn can_get_end_position_of_a_complex_token() {
    let start_position = 3;
    let token = Token::StringLiteral(start_position, String::from("\"winning\""));
    assert_eq!(get_start_index(&token), start_position);
    assert_eq!(get_end_index(&token), 11);
}

#[test]
fn can_get_end_position_of_a_complex_token_null() {
    let start_position = 3;
    let token = Token::Null(start_position, "null");
    assert_eq!(get_start_index(&token), start_position);
    assert_eq!(get_end_index(&token), 6);
}

#[test]
fn cursor_moves_and_reads() {
    let chars = "ab".chars().collect::<Vec<char>>();
    let start = IndexedCharacters::new(&chars);
    assert_eq!(start.current_character(), Some(&'a'));
    assert_eq!(start.previous_character(), None);
    let next = start.progress();
    assert_eq!(next.get_index(), 1);
    assert_eq!(next.current_character(), Some(&'b'));
    assert_eq!(next.previous_character(), Some(&'a'));
    let end = start.jump(2);
    assert_eq!(end.current_character(), None);
}
