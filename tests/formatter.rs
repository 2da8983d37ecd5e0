use jsonist::formatter::format_with_config;
use jsonist::parser::{Node, AST};
use jsonist::{Delimiter, DelimiterCount, FormatConfig, FormatterError};

fn four() -> FormatConfig {
    FormatConfig::new(Delimiter::Spaces(DelimiterCount::Four))
}

fn print_root(node: Node) -> String {
    format_with_config(AST { root: node }, &four())
}

fn pair(key: &str, value: Node) -> Box<Node> {
    Box::new(Node::Pair {
        key: Box::new(Node::Literal { literal: String::from(key) }),
        value: Box::new(value),
    })
}

#[test]
fn i_can_display_an_invalid_character_display() {
    let invalid = FormatterError::InvalidTokenStartCharacter(3, 'k');
    let description: String = invalid.message();
    assert_eq!(description, String::from("Character (k) at postition (3) is not valid."))
}

#[test]
fn every_error_has_its_message() {
    assert_eq!(
        FormatterError::ExpectedMoreCharacters(120).message(),
        "Expected more tokens a position 120."
    );
    assert_eq!(
        FormatterError::WrongCharacter {
            attempted_token_literal: "null",
            expected_character: 'u',
            wrong_character: 'x',
        }
        .message(),
        "Wrong Character: found (x) when expecting (u) while trying to build token null."
    );
    assert_eq!(
        FormatterError::InvalidNumberCharacter(0, 'q').message(),
        "Character (q) at postition (0) is not valid in a number."
    );
    assert_eq!(
        FormatterError::ExtraDotInNumber(9).message(),
        "Found and extra dot at postition (9) which is not valid in a number."
    );
    assert_eq!(
        FormatterError::ExtraEInNumber(10).message(),
        "Found and extra e at postition (10) which is not valid in a number."
    );
    assert_eq!(
        FormatterError::NumberLiteralEndingInE().message(),
        "A number literal can not end with an 'e' character."
    );
    assert_eq!(
        FormatterError::NumberCanNotHaveANegativeSignNotAtHead().message(),
        "Number can not have a - at a position other than the start of string"
    );
    assert_eq!(FormatterError::ExpectedMoreTokens().message(), "Ran out of tokens while parsing.");
    assert_eq!(
        FormatterError::ExpectedColonInKeyValuePair().message(),
        "Key value pairs must be delimited by colons (:)."
    );
    assert_eq!(
        FormatterError::ExpectedStringLiteral(7).message(),
        "Expected string literal at position (7)."
    );
    assert_eq!(
        FormatterError::DuplicateKeyEntry(String::from("id")).message(),
        "Duplicate key ('id') entry."
    );
}

#[test]
fn print_node_true() {
    assert_eq!(print_root(Node::True), "true")
}

#[test]
fn print_node_false() {
    assert_eq!(print_root(Node::False), "false")
}

#[test]
fn print_node_null() {
    assert_eq!(print_root(Node::Null), "null")
}

#[test]
fn print_node_number() {
    assert_eq!(print_root(Node::Number { literal: String::from("3.141592") }), "3.141592")
}

#[test]
fn print_node_literal() {
    assert_eq!(print_root(Node::Literal { literal: "key".to_owned() }), r#""key""#)
}

#[test]
fn print_node_literal_escapes_quotes_and_backslashes() {
    assert_eq!(print_root(Node::Literal { literal: "tes\"ter".to_owned() }), r#""tes\"ter""#);
    assert_eq!(print_root(Node::Literal { literal: "a\\b".to_owned() }), r#""a\\b""#);
}

#[test]
fn print_node_pair() {
    let pair = Node::Pair {
        key: Box::new(Node::Literal { literal: "key".to_owned() }),
        value: Box::new(Node::True),
    };
    assert_eq!(print_root(pair), "\"key\": true")
}

#[test]
fn print_node_array() {
    let array = Node::Array { items: vec![Box::new(Node::True), Box::new(Node::True)] };
    let expected_string = "[
    true,
    true
]";
    assert_eq!(print_root(array), expected_string)
}

#[test]
fn print_node_object() {
    let object = Node::Object { pairs: vec![pair("key", Node::True)] };
    let expected_string = r#"{
    "key": true
}
"#;
    assert_eq!(print_root(object), expected_string)
}

#[test]
fn print_empty_containers_compactly() {
    assert_eq!(print_root(Node::Object { pairs: vec![] }), "{}\n");
    assert_eq!(print_root(Node::Array { items: vec![] }), "[]");
    let nested = Node::Array {
        items: vec![Box::new(Node::Object { pairs: vec![] }), Box::new(Node::Array { items: vec![] })],
    };
    assert_eq!(print_root(nested), "[\n    {},\n    []\n]");
}

#[test]
fn print_nested_indentation() {
    let object = Node::Object {
        pairs: vec![
            pair("a", Node::Array { items: vec![Box::new(Node::Null)] }),
            pair("b", Node::Object { pairs: vec![pair("c", Node::False)] }),
        ],
    };
    let two = FormatConfig::new(Delimiter::Spaces(DelimiterCount::Two));
    assert_eq!(
        format_with_config(AST { root: object }, &two),
        "{\n  \"a\": [\n    null\n  ],\n  \"b\": {\n    \"c\": false\n  }\n}\n"
    );
}

#[test]
fn format_uses_four_spaces() {
    let object = Node::Object { pairs: vec![pair("a", Node::True)] };
    assert_eq!(jsonist::formatter::format(AST { root: object }), "{\n    \"a\": true\n}\n");
}
