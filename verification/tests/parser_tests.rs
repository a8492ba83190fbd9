use json_front::lexer::{tokenize, LexError};
use json_front::parser::{build, mismatch_of, ParseError, Parser};
use json_front::pipeline::{parse_json_complete, JsonError};
use json_front::token::{Token, TokenType};
use json_front::tree::{number_text_ok, TreeValue};

fn token(token_type: TokenType, value: &str) -> Token {
    Token { token_type, value: value.to_string() }
}

fn num(text: &str) -> TreeValue {
    TreeValue::Number(text.to_string())
}

fn text(s: &str) -> TreeValue {
    TreeValue::String(s.to_string())
}

fn tree(input: &str) -> Result<TreeValue, ParseError> {
    build(&tokenize(input).unwrap())
}

#[test]
fn empty_tokens_are_unexpected_end_of_input() {
    assert_eq!(build(&[]), Err(ParseError::UnexpectedEndOfInput));
    assert_eq!(build(&tokenize("  \n ").unwrap()), Err(ParseError::UnexpectedEndOfInput));
}

#[test]
fn object_with_nested_array_builds() {
    let tokens = tokenize(r#"{"a": 1, "b": [true, false, null]}"#).unwrap();
    let built = build(&tokens).unwrap();
    assert_eq!(
        built,
        TreeValue::Object(vec![
            ("a".to_string(), num("1")),
            (
                "b".to_string(),
                TreeValue::Array(vec![TreeValue::True, TreeValue::False, TreeValue::Null])
            ),
        ])
    );
    match &built {
        TreeValue::Object(members) => match &members[0].1 {
            TreeValue::Number(digits) => assert_eq!(digits.parse::<f64>(), Ok(1.0)),
            _ => panic!("the first member is a number"),
        },
        _ => panic!("the value is an object"),
    }
}

#[test]
fn trailing_comma_in_object_is_rejected() {
    assert_eq!(tree(r#"{"a": 1,}"#), Err(ParseError::TrailingComma));
    assert_eq!(tree(r#"{"name": "John",}"#), Err(ParseError::TrailingComma));
}

#[test]
fn trailing_comma_in_array_is_rejected() {
    assert_eq!(tree("[1,]"), Err(ParseError::TrailingComma));
    assert_eq!(tree("[1, [2,], 3]"), Err(ParseError::TrailingComma));
}

#[test]
fn trailing_comma_is_rejected_after_any_number_of_items() {
    assert_eq!(tree(r#"{"a": 1, "b": 2, "c": [3], "d": {},}"#), Err(ParseError::TrailingComma));
    assert_eq!(tree("[1, 2, [3], {}, null,]"), Err(ParseError::TrailingComma));
    assert_eq!(tree(r#"[{"a": [1, 2,]}]"#), Err(ParseError::TrailingComma));
}

#[test]
fn missing_colon_is_rejected() {
    assert_eq!(tree(r#"{"a" 1}"#), Err(ParseError::ExpectedColon));
    assert_eq!(tree(r#"{"name" "John"}"#), Err(ParseError::ExpectedColon));
    assert_eq!(tree(r#"{"a", 1}"#), Err(ParseError::ExpectedColon));
}

#[test]
fn nested_empty_arrays_build() {
    assert_eq!(
        tree("[[[]]]"),
        Ok(TreeValue::Array(vec![TreeValue::Array(vec![TreeValue::Array(vec![])])]))
    );
}

#[test]
fn empty_array_and_empty_object_build() {
    assert_eq!(tree("[]"), Ok(TreeValue::Array(vec![])));
    assert_eq!(tree("{}"), Ok(TreeValue::Object(vec![])));
    assert_eq!(tree("[{}, []]"), Ok(TreeValue::Array(vec![TreeValue::Object(vec![]), TreeValue::Array(vec![])])));
}

#[test]
fn leaves_build() {
    assert_eq!(tree("true"), Ok(TreeValue::True));
    assert_eq!(tree("false"), Ok(TreeValue::False));
    assert_eq!(tree("null"), Ok(TreeValue::Null));
    assert_eq!(tree("42"), Ok(num("42")));
    assert_eq!(tree("3.25"), Ok(num("3.25")));
    assert_eq!(tree(r#""simple string""#), Ok(text("simple string")));
}

#[test]
fn number_text_parses_as_a_float() {
    for (input, value) in [("42", 42.0), ("3.25", 3.25), ("1.0", 1.0), ("007", 7.0), ("0.5", 0.5)] {
        match tree(input) {
            Ok(TreeValue::Number(digits)) => {
                assert_eq!(digits, input);
                assert_eq!(digits.parse::<f64>(), Ok(value));
            }
            other => panic!("not a number: {:?}", other),
        }
    }
}

#[test]
fn objects_and_arrays_build_in_order() {
    assert_eq!(
        tree(r#"{"name": "John", "age": 30}"#),
        Ok(TreeValue::Object(vec![
            ("name".to_string(), text("John")),
            ("age".to_string(), num("30")),
        ]))
    );
    assert_eq!(
        tree(r#"[1, 2, 3, "hello"]"#),
        Ok(TreeValue::Array(vec![num("1"), num("2"), num("3"), text("hello")]))
    );
    assert_eq!(
        tree(r#"{"active": true, "data": null}"#),
        Ok(TreeValue::Object(vec![
            ("active".to_string(), TreeValue::True),
            ("data".to_string(), TreeValue::Null),
        ]))
    );
    assert_eq!(
        tree(r#"{"nested": {"inner": "value"}, "array": [1, 2, 3]}"#),
        Ok(TreeValue::Object(vec![
            (
                "nested".to_string(),
                TreeValue::Object(vec![("inner".to_string(), text("value"))])
            ),
            ("array".to_string(), TreeValue::Array(vec![num("1"), num("2"), num("3")])),
        ]))
    );
}

#[test]
fn duplicate_keys_are_kept_in_order() {
    assert_eq!(
        tree(r#"{"a": 1, "a": 2, "b": 3, "a": 1}"#),
        Ok(TreeValue::Object(vec![
            ("a".to_string(), num("1")),
            ("a".to_string(), num("2")),
            ("b".to_string(), num("3")),
            ("a".to_string(), num("1")),
        ]))
    );
}

#[test]
fn tokens_after_the_value_are_not_looked_at() {
    assert_eq!(tree("1 2"), Ok(num("1")));
    assert_eq!(tree("[] }"), Ok(TreeValue::Array(vec![])));
    assert_eq!(tree(r#"{"a": 1} ,,"#), Ok(TreeValue::Object(vec![("a".to_string(), num("1"))])));
}

#[test]
fn token_in_value_position_must_start_a_value() {
    assert_eq!(tree("}"), Err(ParseError::UnexpectedToken));
    assert_eq!(tree("]"), Err(ParseError::UnexpectedToken));
    assert_eq!(tree(":"), Err(ParseError::UnexpectedToken));
    assert_eq!(tree(","), Err(ParseError::UnexpectedToken));
    assert_eq!(tree("[,]"), Err(ParseError::UnexpectedToken));
    assert_eq!(tree(r#"{"a": }"#), Err(ParseError::UnexpectedToken));
    assert_eq!(tree("[1, ,2]"), Err(ParseError::UnexpectedToken));
}

#[test]
fn key_must_be_a_string() {
    assert_eq!(tree("{1: 2}"), Err(ParseError::ExpectedStringKey));
    assert_eq!(tree("{true: 2}"), Err(ParseError::ExpectedStringKey));
    assert_eq!(tree(r#"{"a": 1, 2: 3}"#), Err(ParseError::ExpectedStringKey));
    assert_eq!(tree("{,}"), Err(ParseError::ExpectedStringKey));
    assert_eq!(tree("{[]: 1}"), Err(ParseError::ExpectedStringKey));
}

#[test]
fn member_must_be_followed_by_comma_or_brace() {
    assert_eq!(tree(r#"{"a": 1 "b": 2}"#), Err(ParseError::ExpectedCommaOrCloseObject));
    assert_eq!(tree(r#"{"a": 1]"#), Err(ParseError::ExpectedCommaOrCloseObject));
    assert_eq!(tree(r#"{"a": 1: 2}"#), Err(ParseError::ExpectedCommaOrCloseObject));
}

#[test]
fn element_must_be_followed_by_comma_or_bracket() {
    assert_eq!(tree("[1 2]"), Err(ParseError::ExpectedCommaOrCloseArray));
    assert_eq!(tree("[1}"), Err(ParseError::ExpectedCommaOrCloseArray));
    assert_eq!(tree(r#"["a": 1]"#), Err(ParseError::ExpectedCommaOrCloseArray));
}

#[test]
fn tokens_that_end_early_are_unexpected_end_of_input() {
    assert_eq!(tree("["), Err(ParseError::UnexpectedEndOfInput));
    assert_eq!(tree("{"), Err(ParseError::UnexpectedEndOfInput));
    assert_eq!(tree("[1"), Err(ParseError::UnexpectedEndOfInput));
    assert_eq!(tree("[1,"), Err(ParseError::UnexpectedEndOfInput));
    assert_eq!(tree(r#"{"a""#), Err(ParseError::UnexpectedEndOfInput));
    assert_eq!(tree(r#"{"a":"#), Err(ParseError::UnexpectedEndOfInput));
    assert_eq!(tree(r#"{"a": 1,"#), Err(ParseError::UnexpectedEndOfInput));
    assert_eq!(tree("[[[]]"), Err(ParseError::UnexpectedEndOfInput));
}

#[test]
fn tokens_that_end_behind_a_member_want_a_comma_or_a_brace() {
    assert_eq!(tree(r#"{"a": 1"#), Err(ParseError::ExpectedCommaOrCloseObject));
    assert_eq!(tree(r#"{"a": 1, "b": [2]"#), Err(ParseError::ExpectedCommaOrCloseObject));
    assert_eq!(tree(r#"[{"a": {}"#), Err(ParseError::ExpectedCommaOrCloseObject));
}

#[test]
fn number_token_must_parse_as_a_float() {
    assert_eq!(build(&[token(TokenType::Number, "abc")]), Err(ParseError::InvalidNumber));
    assert_eq!(build(&[token(TokenType::Number, "")]), Err(ParseError::InvalidNumber));
    assert_eq!(build(&[token(TokenType::Number, "1.2.3")]), Err(ParseError::InvalidNumber));
    assert_eq!(
        build(&[
            token(TokenType::OpenArray, "["),
            token(TokenType::Number, "1"),
            token(TokenType::Comma, ","),
            token(TokenType::Number, "x"),
            token(TokenType::CloseArray, "]"),
        ]),
        Err(ParseError::InvalidNumber)
    );
    assert_eq!(build(&[token(TokenType::Number, "12.5")]), Ok(num("12.5")));
    for written in ["1e5", "-1", "+2.5E-3", "1.", ".5", "inf", "-Infinity", "NaN"] {
        assert!(written.parse::<f64>().is_ok());
        assert_eq!(build(&[token(TokenType::Number, written)]), Ok(num(written)));
    }
    for written in ["1e", "--1", "0x10", " 1", "1 ", "e5", "+", "infinit", "1_000", "1.e"] {
        assert!(written.parse::<f64>().is_err());
        assert_eq!(build(&[token(TokenType::Number, written)]), Err(ParseError::InvalidNumber));
    }
}

#[test]
fn number_text_ok_agrees_with_the_float_parse() {
    let samples = [
        "0", "42", "3.14", "1.", ".5", "-1", "+1", "1e5", "1E5", "1e+5", "1e-5", "1.5e10", "1.e5",
        ".5e1", "-.5", "+.5E+0", "007", "0.0", "inf", "INF", "Inf", "+inf", "-inf", "infinity",
        "InFiNiTy", "-INFINITY", "nan", "NaN", "+nan", "-NAN", "", ".", "+", "-", "e", "e5", "1e",
        "1e+", "1e-", ".e5", "+.", "-.e1", "1.2.3", "1e5.0", "1e5e5", "1 ", " 1", "1 2", "--1",
        "+-1", "1-", "in", "infi", "infinit", "infinityy", "na", "nann", "nan1", "1nan", "inf.",
        "0x10", "1_000", "1,5", "1f", "\u{661}", "1\u{661}", "\u{ff11}", "i\u{307}nf", "abc", "1e5 ",
        "12345678901234567890123456789012345678901234567890", "1e99999", "0.000000000000000000001",
    ];
    for written in samples {
        assert_eq!(number_text_ok(written), written.parse::<f64>().is_ok(), "{:?}", written);
    }
    assert!(number_text_ok("1."));
    assert!(number_text_ok("-1"));
    assert!(number_text_ok("1e5"));
    assert!(!number_text_ok("1.2.3"));
    assert!(!number_text_ok(""));
}

#[test]
fn builds_from_tokens_made_by_hand() {
    let tokens = vec![
        token(TokenType::OpenObject, "{"),
        token(TokenType::String, "key"),
        token(TokenType::Colon, ":"),
        token(TokenType::String, "value"),
        token(TokenType::CloseObject, "}"),
    ];
    assert_eq!(
        build(&tokens),
        Ok(TreeValue::Object(vec![("key".to_string(), text("value"))]))
    );
}

#[test]
fn token_text_of_punctuation_and_keywords_is_not_read() {
    let tokens = vec![
        token(TokenType::OpenArray, ""),
        token(TokenType::True, "yes"),
        token(TokenType::CloseArray, "?"),
    ];
    assert_eq!(build(&tokens), Ok(TreeValue::Array(vec![TreeValue::True])));
}

#[test]
fn parser_generate_keeps_the_tree() {
    let tokens = tokenize("[1, [2]] 3").unwrap();
    let mut parser = Parser::new(&tokens);
    assert_eq!(parser.pos, 0);
    assert!(parser.ast.is_none());
    assert_eq!(parser.generate(), Ok(()));
    assert_eq!(parser.pos, 7);
    assert_eq!(
        parser.ast,
        Some(TreeValue::Array(vec![num("1"), TreeValue::Array(vec![num("2")])]))
    );
    assert_eq!(parser.parse(), Ok(num("3")));
    assert_eq!(parser.pos, 8);
    assert_eq!(parser.parse(), Err(ParseError::UnexpectedEndOfInput));
}

#[test]
fn parser_is_left_as_it_was_on_an_error() {
    let tokens = tokenize(r#"[1, {"a": [2,]}]"#).unwrap();
    let mut parser = Parser::new(&tokens);
    assert_eq!(parser.generate(), Err(ParseError::TrailingComma));
    assert_eq!(parser.pos, 0);
    assert!(parser.ast.is_none());
    parser.pos = 3;
    assert_eq!(parser.parse_object(), Err(ParseError::TrailingComma));
    assert_eq!(parser.pos, 3);
    assert_eq!(parser.parse_array(), Err(ParseError::UnexpectedToken));
    assert_eq!(parser.parse_basic(), Err(ParseError::UnexpectedToken));
    assert_eq!(parser.pos, 3);
}

#[test]
fn parser_steps_consume_what_they_read() {
    let tokens = tokenize(r#""k": 1.5, ]"#).unwrap();
    let mut parser = Parser::new(&tokens);
    assert_eq!(parser.peek_kind(), Some(TokenType::String));
    assert!(parser.at(TokenType::String));
    assert_eq!(parser.consume_string(), Ok("k".to_string()));
    assert_eq!(parser.pos, 1);
    assert_eq!(parser.consume_token(TokenType::Colon), Ok(()));
    assert_eq!(parser.pos, 2);
    assert_eq!(parser.parse_basic(), Ok(num("1.5")));
    assert_eq!(parser.pos, 3);
    assert_eq!(
        parser.separator(
            TokenType::CloseArray,
            ParseError::ExpectedCommaOrCloseArray,
            ParseError::UnexpectedEndOfInput
        ),
        Err(ParseError::TrailingComma)
    );
    assert_eq!(parser.pos, 3);
    assert_eq!(
        parser.separator(
            TokenType::CloseObject,
            ParseError::ExpectedCommaOrCloseObject,
            ParseError::ExpectedCommaOrCloseObject
        ),
        Ok(false)
    );
    assert_eq!(
        parser.separator(
            TokenType::CloseObject,
            ParseError::ExpectedCommaOrCloseObject,
            ParseError::ExpectedCommaOrCloseObject
        ),
        Err(ParseError::ExpectedCommaOrCloseObject)
    );
    assert_eq!(parser.pos, 4);
    assert_eq!(
        parser.separator(
            TokenType::CloseArray,
            ParseError::ExpectedCommaOrCloseArray,
            ParseError::UnexpectedEndOfInput
        ),
        Ok(true)
    );
    assert_eq!(parser.pos, 5);
    assert_eq!(parser.peek_kind(), None);
    assert_eq!(
        parser.separator(
            TokenType::CloseArray,
            ParseError::ExpectedCommaOrCloseArray,
            ParseError::UnexpectedEndOfInput
        ),
        Err(ParseError::UnexpectedEndOfInput)
    );
    assert_eq!(
        parser.separator(
            TokenType::CloseObject,
            ParseError::ExpectedCommaOrCloseObject,
            ParseError::ExpectedCommaOrCloseObject
        ),
        Err(ParseError::ExpectedCommaOrCloseObject)
    );
    assert_eq!(parser.pos, 5);
}

#[test]
fn consume_takes_the_token_it_refuses() {
    let tokens = tokenize(r#""k": 1 ]"#).unwrap();
    let mut parser = Parser::new(&tokens);
    assert_eq!(parser.consume_token(TokenType::Colon), Err(ParseError::ExpectedColon));
    assert_eq!(parser.pos, 1);
    assert_eq!(parser.consume_token(TokenType::Comma), Err(ParseError::UnexpectedToken));
    assert_eq!(parser.pos, 2);
    assert_eq!(parser.consume_string(), Err(ParseError::ExpectedStringKey));
    assert_eq!(parser.pos, 3);
    assert_eq!(parser.consume_token(TokenType::CloseArray), Ok(()));
    assert_eq!(parser.pos, 4);
    assert_eq!(parser.consume_string(), Err(ParseError::UnexpectedEndOfInput));
    assert_eq!(parser.consume_token(TokenType::Comma), Err(ParseError::UnexpectedEndOfInput));
    assert_eq!(parser.pos, 4);
    parser.pos = 0;
    assert_eq!(parser.consume_string(), Ok("k".to_string()));
    assert_eq!(parser.pos, 1);
}

#[test]
fn mismatch_names_the_missing_token() {
    assert_eq!(mismatch_of(TokenType::Colon), ParseError::ExpectedColon);
    assert_eq!(mismatch_of(TokenType::String), ParseError::ExpectedStringKey);
    assert_eq!(mismatch_of(TokenType::OpenObject), ParseError::UnexpectedToken);
    assert_eq!(mismatch_of(TokenType::CloseArray), ParseError::UnexpectedToken);
}

#[test]
fn text_to_tree_in_one_call() {
    assert_eq!(
        parse_json_complete(
            r#"{"users": [{"name": "Alice", "age": 25}, {"name": "Bob", "age": 30}]}"#
        ),
        Ok(TreeValue::Object(vec![(
            "users".to_string(),
            TreeValue::Array(vec![
                TreeValue::Object(vec![
                    ("name".to_string(), text("Alice")),
                    ("age".to_string(), num("25")),
                ]),
                TreeValue::Object(vec![
                    ("name".to_string(), text("Bob")),
                    ("age".to_string(), num("30")),
                ]),
            ])
        )]))
    );
    assert_eq!(
        parse_json_complete(r#"{"name": undefined}"#),
        Err(JsonError::Lex(LexError::UnknownKeyword("undefined".to_string())))
    );
    assert_eq!(
        parse_json_complete(r#"{"name": "John",}"#),
        Err(JsonError::Parse(ParseError::TrailingComma))
    );
    assert_eq!(parse_json_complete(""), Err(JsonError::Parse(ParseError::UnexpectedEndOfInput)));
}

fn mark(token_type: TokenType, value: &str, out: &mut Vec<Token>) {
    out.push(token(token_type, value));
}

fn render(tree: &TreeValue, out: &mut Vec<Token>) {
    match tree {
        TreeValue::Object(members) => {
            mark(TokenType::OpenObject, "{", out);
            for (i, (key, value)) in members.iter().enumerate() {
                if i > 0 {
                    mark(TokenType::Comma, ",", out);
                }
                mark(TokenType::String, key, out);
                mark(TokenType::Colon, ":", out);
                render(value, out);
            }
            mark(TokenType::CloseObject, "}", out);
        }
        TreeValue::Array(elements) => {
            mark(TokenType::OpenArray, "[", out);
            for (i, element) in elements.iter().enumerate() {
                if i > 0 {
                    mark(TokenType::Comma, ",", out);
                }
                render(element, out);
            }
            mark(TokenType::CloseArray, "]", out);
        }
        TreeValue::String(s) => mark(TokenType::String, s, out),
        TreeValue::Number(s) => mark(TokenType::Number, s, out),
        TreeValue::True => mark(TokenType::True, "true", out),
        TreeValue::False => mark(TokenType::False, "false", out),
        TreeValue::Null => mark(TokenType::Null, "null", out),
    }
}

fn spell(tokens: &[Token]) -> String {
    let mut out = String::new();
    for t in tokens {
        if t.token_type == TokenType::String {
            out.push('"');
            out.push_str(&t.value);
            out.push('"');
        } else {
            out.push_str(&t.value);
        }
        out.push(' ');
    }
    out
}

#[test]
fn rendering_a_tree_and_building_again_gives_the_tree() {
    let inputs = [
        r#"{"a": 1, "b": [true, false, null]}"#,
        r#"{"nested": {"inner": "value", "inner": {}}, "array": [1, [2.5, []], 3]}"#,
        "[[[]]]",
        "{}",
        r#""text""#,
        "12.5",
        "null",
    ];
    for input in inputs {
        let first = tree(input).unwrap();
        let mut tokens = Vec::new();
        render(&first, &mut tokens);
        assert_eq!(tokens, tokenize(input).unwrap());
        assert_eq!(build(&tokens).as_ref(), Ok(&first));
        let again = tokenize(&spell(&tokens)).unwrap();
        assert_eq!(again, tokens);
        assert_eq!(build(&again), Ok(first));
    }
}

#[test]
fn tokenizer_makes_no_number_that_the_builder_refuses() {
    for input in ["1", "1.0", "1.5", "[0.0, 10, 007.700]", r#"{"n": 9.25}"#] {
        let tokens = tokenize(input).unwrap();
        for t in &tokens {
            if t.token_type == TokenType::Number {
                assert!(number_text_ok(&t.value));
                assert!(t.value.parse::<f64>().is_ok());
            }
        }
        assert!(build(&tokens).is_ok());
    }
}
