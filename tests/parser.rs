use jsonist::parser::{
    parse, parse_array, parse_literal, parse_node, parse_object, remove_whitespace, Node, AST,
};
use jsonist::tokenizer::Token;
use jsonist::FormatterError;

fn pair(key: &str, value: Node) -> Box<Node> {
    Box::new(Node::Pair {
        key: Box::new(Node::Literal { literal: String::from(key) }),
        value: Box::new(value),
    })
}

#[test]
fn utils_tokenize_an_object() {
    let whitespace = Token::WhiteSpace(0, ' ');
    let open_brace = Token::OpenBrace(1);
    let open_brace_remaining = Token::OpenBrace(1);
    let whitespace2 = Token::WhiteSpace(2, ' ');
    let win = Token::StringLiteral(3, String::from("w in"));
    let win_remaining = Token::StringLiteral(3, String::from("w in"));
    let whitespace3 = Token::WhiteSpace(9, ' ');
    let colon = Token::Colon(10);
    let colon_remaining = Token::Colon(10);
    let whitespace4 = Token::WhiteSpace(11, ' ');
    let true_token = Token::True(12, "true");
    let true_token_remaining = Token::True(12, "true");
    let whitespace5 = Token::WhiteSpace(16, ' ');
    let close_brace = Token::CloseBrace(17);
    let close_brace_remaining = Token::CloseBrace(17);
    let whitespace6 = Token::WhiteSpace(18, ' ');
    let whitespace7 = Token::WhiteSpace(19, ' ');

    let tokens = vec![
        whitespace, open_brace, whitespace2, win, whitespace3, colon, whitespace4, true_token,
        whitespace5, close_brace, whitespace6, whitespace7,
    ];

    let remaining_tokens = vec![
        open_brace_remaining,
        win_remaining,
        colon_remaining,
        true_token_remaining,
        close_brace_remaining,
    ];

    assert_eq!(remove_whitespace(tokens), remaining_tokens)
}

#[test]
fn parse_true() {
    let true_token = Token::True(0, "true");
    let ast = AST { root: Node::True };
    match parse(vec![true_token]) {
        Ok(result) => assert_eq!(result, ast),
        Err(e) => panic!("{}", e.message()),
    }
}

#[test]
fn parse_false() {
    let false_token = Token::False(0, "false");
    let ast = AST { root: Node::False };
    match parse(vec![false_token]) {
        Ok(result) => assert_eq!(result, ast),
        Err(e) => panic!("{}", e.message()),
    }
}

#[test]
fn null() {
    let null = Token::Null(0, "null");
    let ast = AST { root: Node::Null };
    match parse(vec![null]) {
        Ok(result) => assert_eq!(result, ast),
        Err(e) => panic!("{}", e.message()),
    }
}

#[test]
fn string() {
    let input = String::from("test mc test");
    let string = Token::StringLiteral(0, input.to_string());
    let ast = AST { root: Node::Literal { literal: input } };
    match parse(vec![string]) {
        Ok(result) => assert_eq!(result, ast),
        Err(e) => panic!("{}", e.message()),
    }
}

#[test]
fn number() {
    let number = Token::Number(0, String::from("34.4e3"));
    let ast = AST { root: Node::Number { literal: String::from("34.4e3") } };
    match parse(vec![number]) {
        Ok(result) => assert_eq!(result, ast),
        Err(e) => panic!("{}", e.message()),
    }
}

#[test]
fn array() {
    let tokens = vec![
        Token::WhiteSpace(0, ' '),
        Token::OpenSquareBraket(1),
        Token::WhiteSpace(2, ' '),
        Token::False(3, "false"),
        Token::Comma(8),
        Token::WhiteSpace(9, ' '),
        Token::Number(10, String::from("23.23")),
        Token::Comma(15),
        Token::WhiteSpace(16, ' '),
        Token::True(17, "true"),
        Token::WhiteSpace(21, ' '),
        Token::CloseSquareBraket(22),
        Token::WhiteSpace(23, ' '),
        Token::WhiteSpace(24, ' '),
    ];
    let ast = AST {
        root: Node::Array {
            items: vec![
                Box::new(Node::False),
                Box::new(Node::Number { literal: String::from("23.23") }),
                Box::new(Node::True),
            ],
        },
    };
    match parse(tokens) {
        Ok(result) => assert_eq!(result, ast),
        Err(e) => panic!("{}", e.message()),
    }
}

#[test]
fn parse_array_empty() {
    let open_bracket = Token::OpenSquareBraket(0);
    let close_bracket = Token::CloseSquareBraket(1);
    let node = Node::Array { items: vec![] };
    match parse_array(&vec![open_bracket, close_bracket], 1) {
        Ok((consumed, result)) => {
            assert_eq!(result, node);
            assert_eq!(consumed, 2);
        }
        Err(e) => panic!("{}", e.message()),
    }
}

#[test]
fn parse_array_with_a_single_item() {
    let open_bracket = Token::OpenSquareBraket(0);
    let false_token = Token::False(1, "false");
    let close_bracket = Token::CloseSquareBraket(6);
    let node = Node::Array { items: vec![Box::new(Node::False)] };
    match parse_array(&vec![open_bracket, false_token, close_bracket], 1) {
        Ok((_, result)) => assert_eq!(result, node),
        Err(e) => panic!("{}", e.message()),
    }
}

#[test]
fn parse_array_with_n_items() {
    let open_bracket = Token::OpenSquareBraket(0);
    let false_token = Token::False(1, "false");
    let comma = Token::Comma(6);
    let true_token = Token::True(7, "true");
    let close_bracket = Token::CloseSquareBraket(12);
    let node = Node::Array { items: vec![Box::new(Node::False), Box::new(Node::True)] };
    let tokens = vec![open_bracket, false_token, comma, true_token, close_bracket];
    match parse_array(&tokens, 1) {
        Ok((consumed, result)) => {
            assert_eq!(result, node);
            assert_eq!(consumed, 5);
        }
        Err(e) => panic!("{}", e.message()),
    }
}

#[test]
fn parse_array_rejects_a_trailing_comma() {
    let tokens = vec![
        Token::OpenSquareBraket(0),
        Token::True(1, "true"),
        Token::Comma(5),
        Token::CloseSquareBraket(6),
    ];
    assert_eq!(parse_array(&tokens, 1), Err(FormatterError::ExpectedMoreCharacters(6)));
}

#[test]
fn parse_array_runs_out_of_tokens() {
    let tokens = vec![Token::OpenSquareBraket(0), Token::True(1, "true")];
    assert_eq!(parse_array(&tokens, 1), Err(FormatterError::ExpectedMoreTokens()));
}

#[test]
fn parse_literal_normal() {
    let literal = Token::StringLiteral(0, String::from("literal literal"));
    match parse_literal(&vec![literal], 0) {
        Ok((_, result)) => {
            assert_eq!(result, Node::Literal { literal: String::from("literal literal") })
        }
        Err(e) => panic!("{}", e.message()),
    }
}

#[test]
#[should_panic(expected = "Expected string literal at position (0).")]
fn parse_literal_on_other_stuff() {
    let non_literal = Token::False(0, "false");
    match parse_literal(&vec![non_literal], 0) {
        Ok((_, result)) => {
            assert_eq!(result, Node::Literal { literal: String::from("literal literal") })
        }
        Err(e) => panic!("{}", e.message()),
    }
}

#[test]
fn mod_parse_object_empty() {
    let open_brace = Token::OpenBrace(0);
    let close_brace = Token::CloseBrace(1);
    let node = Node::Object { pairs: vec![] };
    match parse_object(&vec![open_brace, close_brace], 1) {
        Ok((consumed, result)) => {
            assert_eq!(result, node);
            assert_eq!(consumed, 2);
        }
        Err(e) => panic!("{}", e.message()),
    }
}

#[test]
fn mod_parse_object_one_pair() {
    let tokens = vec![
        Token::OpenBrace(1),
        Token::StringLiteral(3, String::from("w in")),
        Token::Colon(10),
        Token::True(12, "true"),
        Token::CloseBrace(17),
    ];
    let node = Node::Object { pairs: vec![pair("w in", Node::True)] };
    match parse_object(&tokens, 1) {
        Ok((consumed, result)) => {
            assert_eq!(result, node);
            assert_eq!(consumed, 5);
        }
        Err(e) => panic!("{}", e.message()),
    }
}

#[test]
#[should_panic(expected = "Key value pairs must be delimited by colons (:).")]
fn parse_object_one_pair_no_colon() {
    let tokens = vec![
        Token::OpenBrace(1),
        Token::StringLiteral(3, String::from("w in")),
        Token::CloseBrace(10),
        Token::True(12, "true"),
        Token::CloseBrace(17),
    ];
    let node = Node::Object { pairs: vec![pair("w in", Node::True)] };
    match parse_object(&tokens, 1) {
        Ok((_, result)) => assert_eq!(result, node),
        Err(e) => panic!("{}", e.message()),
    }
}

#[test]
#[should_panic(expected = "Expected string literal at position (1).")]
fn parse_object_key_must_be_a_literal() {
    let tokens = vec![
        Token::OpenBrace(1),
        Token::False(12, "false"),
        Token::Colon(10),
        Token::True(12, "true"),
        Token::CloseBrace(17),
    ];
    let node = Node::Object { pairs: vec![pair("w in", Node::True)] };
    match parse_object(&tokens, 1) {
        Ok((_, result)) => assert_eq!(result, node),
        Err(e) => panic!("{}", e.message()),
    }
}

#[test]
fn mod_parse_object_with_n_pair() {
    let tokens = vec![
        Token::OpenBrace(1),
        Token::StringLiteral(3, String::from("w in")),
        Token::Colon(10),
        Token::True(12, "true"),
        Token::Comma(18),
        Token::StringLiteral(19, String::from("wow")),
        Token::Colon(39),
        Token::False(45, "false"),
        Token::CloseBrace(56),
    ];
    let node = Node::Object { pairs: vec![pair("w in", Node::True), pair("wow", Node::False)] };
    match parse_object(&tokens, 1) {
        Ok((_, result)) => assert_eq!(result, node),
        Err(e) => panic!("{}", e.message()),
    }
}

#[test]
#[should_panic(expected = "Duplicate key ('w in') entry.")]
fn mod_parse_object_with_duplicate_keys_should_fail() {
    let tokens = vec![
        Token::OpenBrace(1),
        Token::StringLiteral(3, String::from("w in")),
        Token::Colon(10),
        Token::True(12, "true"),
        Token::Comma(18),
        Token::StringLiteral(19, String::from("w in")),
        Token::Colon(39),
        Token::True(45, "true"),
        Token::CloseBrace(56),
    ];
    let node = Node::Object { pairs: vec![pair("w in", Node::True), pair("w in", Node::True)] };
    match parse_object(&tokens, 1) {
        Ok((_, result)) => assert_eq!(result, node),
        Err(e) => panic!("{}", e.message()),
    }
}

#[test]
fn parse_object_rejects_a_trailing_comma() {
    let tokens = vec![
        Token::OpenBrace(0),
        Token::StringLiteral(1, String::from("a")),
        Token::Colon(4),
        Token::True(5, "true"),
        Token::Comma(9),
        Token::CloseBrace(10),
    ];
    assert_eq!(parse_object(&tokens, 1), Err(FormatterError::ExpectedStringLiteral(5)));
}

#[test]
fn parse_nested_containers_consume_their_tokens() {
    let tokens = vec![
        Token::OpenSquareBraket(0),
        Token::OpenBrace(1),
        Token::StringLiteral(2, String::from("k")),
        Token::Colon(5),
        Token::OpenSquareBraket(6),
        Token::CloseSquareBraket(7),
        Token::CloseBrace(8),
        Token::Comma(9),
        Token::Null(10, "null"),
        Token::CloseSquareBraket(14),
    ];
    let node = Node::Array {
        items: vec![
            Box::new(Node::Object { pairs: vec![pair("k", Node::Array { items: vec![] })] }),
            Box::new(Node::Null),
        ],
    };
    assert_eq!(parse_node(&tokens, 0), Ok((10, node)));
}

#[test]
fn parse_past_the_end_runs_out_of_tokens() {
    let tokens = vec![Token::True(0, "true")];
    assert_eq!(parse_node(&tokens, 1), Err(FormatterError::ExpectedMoreTokens()));
    assert_eq!(parse_node(&tokens, 7), Err(FormatterError::ExpectedMoreTokens()));
    assert_eq!(parse_array(&tokens, 5), Err(FormatterError::ExpectedMoreTokens()));
    assert_eq!(parse_object(&tokens, 5), Err(FormatterError::ExpectedMoreTokens()));
}

#[test]
fn parse_node_out_of_tokens() {
    assert_eq!(parse_node(&vec![], 0), Err(FormatterError::ExpectedMoreTokens()));
    assert_eq!(parse_node(&vec![Token::Colon(0)], 0), Err(FormatterError::ExpectedMoreCharacters(0)));
    let tokens = vec![Token::OpenSquareBraket(0), Token::CloseBrace(12)];
    assert_eq!(parse_node(&tokens, 0), Err(FormatterError::ExpectedMoreCharacters(12)));
}
