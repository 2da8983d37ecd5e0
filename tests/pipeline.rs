use jsonist::formatter::format_with_config;
use jsonist::parser::{parse, Node, AST};
use jsonist::tokenizer::{tokenize, Token};
use jsonist::{Delimiter, DelimiterCount, FormatConfig, FormatterError};

fn with(delimiter: Delimiter) -> Option<FormatConfig> {
    Some(FormatConfig::new(delimiter))
}

fn complex_json() -> String {
    r#"
{
	"destination_addresses": [
		"Washington, DC, USA",
		"Philadelphia, PA, USA"
	],
	"origin_addresses": [ "New York, NY, USA" ],
	"rows": [{
		"elements": [{
                                "distance": { "text": "227 mi", "value": 365468 },
				"status": "OK"
			},
			{
				"distance": { "text": "94.6 mi", "value": 152193 },
				"status": "OK"
			}
		]
	}],
	"status": "OK"
}
    "#
    .to_owned()
}

#[test]
fn integration_test_max_depth_one() {
    let json = r#"
        {
            "name": "Peter",
            "leg_count": 2,
            "languages": ["rust", "javascript", "lisp"],
            "address": {
                "street_name": "lets not put this online",
                "city": "a large one"
            },
            "winner": true
        }
    "#
    .to_owned();
    let expected = "{
    \"name\": \"Peter\",
    \"leg_count\": 2,
    \"languages\": [
        \"rust\",
        \"javascript\",
        \"lisp\"
    ],
    \"address\": {
        \"street_name\": \"lets not put this online\",
        \"city\": \"a large one\"
    },
    \"winner\": true
}
";
    match jsonist::format(json, None) {
        Ok(value) => assert_eq!(value, expected),
        Err(e) => panic!("{}", e.message()),
    }
}

#[test]
fn integration_test_more_depth() {
    let out = jsonist::format(complex_json(), None).unwrap();
    assert!(out.starts_with("{\n    \"destination_addresses\": [\n        \"Washington, DC, USA\",\n"));
    assert!(out.contains(
        "    \"rows\": [\n        {\n            \"elements\": [\n                {\n                    \"distance\": {\n                        \"text\": \"227 mi\",\n"
    ));
    assert!(out.ends_with("    \"status\": \"OK\"\n}\n"));
    assert_eq!(jsonist::format(out.clone(), None), Ok(out));
}

#[test]
fn integration_test_more_depth_two_spaces() {
    let config = with(Delimiter::Spaces(DelimiterCount::Two));
    let out = jsonist::format(complex_json(), config).unwrap();
    assert!(out.starts_with("{\n  \"destination_addresses\": [\n    \"Washington, DC, USA\",\n"));
    assert!(out.contains("  \"origin_addresses\": [\n    \"New York, NY, USA\"\n  ],\n"));
    assert_eq!(jsonist::format(out.clone(), config), Ok(out));
}

#[test]
fn integration_test_more_depth_tabs() {
    let config = with(Delimiter::Tabs);
    let out = jsonist::format(complex_json(), config).unwrap();
    assert!(out.starts_with("{\n\t\"destination_addresses\": [\n\t\t\"Washington, DC, USA\",\n"));
    assert!(out.contains("\t\t\t\t\t\"distance\": {\n\t\t\t\t\t\t\"text\": \"94.6 mi\",\n"));
    assert_eq!(jsonist::format(out.clone(), config), Ok(out));
}

#[test]
fn indentation_unit_for_each_delimiter() {
    let input = String::from(r#"{"a": true}"#);
    assert_eq!(
        jsonist::format(input.clone(), with(Delimiter::Spaces(DelimiterCount::Two))),
        Ok(String::from("{\n  \"a\": true\n}\n"))
    );
    assert_eq!(
        jsonist::format(input.clone(), with(Delimiter::Spaces(DelimiterCount::Four))),
        Ok(String::from("{\n    \"a\": true\n}\n"))
    );
    assert_eq!(jsonist::format(input, with(Delimiter::Tabs)), Ok(String::from("{\n\t\"a\": true\n}\n")));
}

#[test]
fn escape_round_trip() {
    let tokens = tokenize(r#""tes\"ter""#).unwrap();
    assert_eq!(tokens, vec![Token::StringLiteral(0, String::from("tes\"ter"))]);
    let ast = parse(tokens).unwrap();
    assert_eq!(ast, AST { root: Node::Literal { literal: String::from("tes\"ter") } });
    let config = FormatConfig::new(Delimiter::Spaces(DelimiterCount::Four));
    assert_eq!(format_with_config(ast, &config), r#""tes\"ter""#);
}

#[test]
fn backslashes_survive_formatting() {
    let config = FormatConfig::new(Delimiter::Spaces(DelimiterCount::Four));
    let ast = AST { root: Node::Literal { literal: String::from("a\\b\"c") } };
    let out = format_with_config(ast, &config);
    assert_eq!(out, r#""a\\b\"c""#);
    let back = parse(tokenize(out.as_str()).unwrap()).unwrap();
    assert_eq!(back, AST { root: Node::Literal { literal: String::from("a\\b\"c") } });
    assert_eq!(
        jsonist::format(String::from(r#"{"k\\": "v\\\""}"#), None),
        Ok(String::from("{\n    \"k\\\\\": \"v\\\\\\\"\"\n}\n"))
    );
}

#[test]
fn numeric_scenario_keeps_the_literal() {
    let ast = parse(tokenize("34.4e3").unwrap()).unwrap();
    assert_eq!(ast, AST { root: Node::Number { literal: String::from("34.4e3") } });
    assert_eq!(jsonist::format(String::from("34.4e3"), None), Ok(String::from("34.4e3")));
}

#[test]
fn array_scenario() {
    let ast = parse(tokenize("[false, 23.23, true]").unwrap()).unwrap();
    let expected = AST {
        root: Node::Array {
            items: vec![
                Box::new(Node::False),
                Box::new(Node::Number { literal: String::from("23.23") }),
                Box::new(Node::True),
            ],
        },
    };
    assert_eq!(ast, expected);
    assert_eq!(
        jsonist::format(String::from("[false, 23.23, true]"), None),
        Ok(String::from("[\n    false,\n    23.23,\n    true\n]"))
    );
}

#[test]
fn duplicate_keys_fail_at_any_depth() {
    assert_eq!(
        jsonist::format(String::from(r#"{"k": 1, "k": [true]}"#), None),
        Err(FormatterError::DuplicateKeyEntry(String::from("k")))
    );
    assert_eq!(
        jsonist::format(String::from(r#"[1, {"x": {"dup": null, "y": 2, "dup": "v"}}]"#), None),
        Err(FormatterError::DuplicateKeyEntry(String::from("dup")))
    );
    assert_eq!(
        jsonist::format(String::from(r#"{"k": {"k": 1}, "j": {"k": 2}}"#), None),
        Ok(String::from(
            "{\n    \"k\": {\n        \"k\": 1\n    },\n    \"j\": {\n        \"k\": 2\n    }\n}\n"
        ))
    );
}

#[test]
fn position_fidelity_in_numbers() {
    assert_eq!(
        jsonist::format(String::from("[1, 23x4]"), None),
        Err(FormatterError::InvalidNumberCharacter(6, 'x'))
    );
    assert_eq!(
        jsonist::format(String::from("{\n  \"n\": -7.5q\n}"), None),
        Err(FormatterError::InvalidNumberCharacter(13, 'q'))
    );
}

#[test]
fn formatting_is_a_fixed_point() {
    let inputs = [
        r#"{"a": [1, {"b": "x\"y"}, []], "c": {}, "d": null}"#,
        r#"[[], [[-0.5e7]], "s", false]"#,
        r#""plain""#,
        "12",
    ];
    for input in inputs.iter() {
        for config in [None, with(Delimiter::Tabs), with(Delimiter::Spaces(DelimiterCount::Two))] {
            let once = jsonist::format(String::from(*input), config).unwrap();
            let twice = jsonist::format(once.clone(), config).unwrap();
            assert_eq!(once, twice);
        }
    }
}

#[test]
fn parser_errors_through_the_pipeline() {
    assert_eq!(jsonist::format(String::from(""), None), Err(FormatterError::ExpectedMoreTokens()));
    assert_eq!(jsonist::format(String::from("[true"), None), Err(FormatterError::ExpectedMoreTokens()));
    assert_eq!(
        jsonist::format(String::from(r#"{"a" true}"#), None),
        Err(FormatterError::ExpectedColonInKeyValuePair())
    );
    assert_eq!(
        jsonist::format(String::from(r#"{1 : true}"#), None),
        Err(FormatterError::ExpectedStringLiteral(1))
    );
    assert_eq!(jsonist::format(String::from("[1,]"), None), Err(FormatterError::ExpectedMoreCharacters(3)));
    assert_eq!(jsonist::format(String::from("@"), None), Err(FormatterError::InvalidTokenStartCharacter(0, '@')));
}
