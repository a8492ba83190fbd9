use json_front::chars::{chars_of, take_run, CharClass};
use json_front::lexer::{keyword_of, tokenize, LexError, Lexer};
use json_front::token::{Token, TokenType};

fn tok(token_type: TokenType, value: &str) -> Token {
    Token { token_type, value: value.to_string() }
}

fn kinds(tokens: &[Token]) -> Vec<TokenType> {
    tokens.iter().map(|t| t.token_type).collect()
}

#[test]
fn whitespace_only_gives_no_tokens() {
    assert_eq!(tokenize(""), Ok(vec![]));
    assert_eq!(tokenize(" "), Ok(vec![]));
    assert_eq!(tokenize(" \n\t\r  \r\n"), Ok(vec![]));
}

#[test]
fn whitespace_around_a_text_leaves_the_tokens_as_they_are() {
    for text in [r#"{"a": [1, 2.5, true], "b": null}"#, "true", "12", "\"x\"", "[false"] {
        let bare = tokenize(text);
        assert!(bare.is_ok());
        assert_eq!(tokenize(&format!(" \n\t {}", text)), bare);
        assert_eq!(tokenize(&format!("{}\r\n ", text)), bare);
        assert_eq!(tokenize(&format!("\t{} \n", text)), bare);
    }
}

#[test]
fn tokenize_twice_gives_the_same_tokens() {
    let text = r#"{"a": [1, 2.5, true], "b": null}"#;
    assert_eq!(tokenize(text), tokenize(text));
    let bad = r#"{"a": tru}"#;
    assert_eq!(tokenize(bad), tokenize(bad));
}

#[test]
fn object_with_nested_array_has_fifteen_tokens() {
    let tokens = tokenize(r#"{"a": 1, "b": [true, false, null]}"#).unwrap();
    assert_eq!(tokens.len(), 15);
    assert_eq!(tokens[14].token_type, TokenType::CloseObject);
    assert_eq!(
        tokens,
        vec![
            tok(TokenType::OpenObject, "{"),
            tok(TokenType::String, "a"),
            tok(TokenType::Colon, ":"),
            tok(TokenType::Number, "1"),
            tok(TokenType::Comma, ","),
            tok(TokenType::String, "b"),
            tok(TokenType::Colon, ":"),
            tok(TokenType::OpenArray, "["),
            tok(TokenType::True, "true"),
            tok(TokenType::Comma, ","),
            tok(TokenType::False, "false"),
            tok(TokenType::Comma, ","),
            tok(TokenType::Null, "null"),
            tok(TokenType::CloseArray, "]"),
            tok(TokenType::CloseObject, "}"),
        ]
    );
}

#[test]
fn string_token_holds_the_text_between_the_quotes() {
    assert_eq!(tokenize(r#""hello""#), Ok(vec![tok(TokenType::String, "hello")]));
    assert_eq!(tokenize(r#""""#), Ok(vec![tok(TokenType::String, "")]));
    assert_eq!(
        tokenize(r#""simple string""#),
        Ok(vec![tok(TokenType::String, "simple string")])
    );
}

#[test]
fn string_keeps_backslashes_and_structural_characters() {
    assert_eq!(tokenize(r#""a\nb""#), Ok(vec![tok(TokenType::String, r"a\nb")]));
    assert_eq!(tokenize(r#""{[,:]} 12 true""#), Ok(vec![tok(TokenType::String, "{[,:]} 12 true")]));
    assert_eq!(tokenize("\"line\nbreak\""), Ok(vec![tok(TokenType::String, "line\nbreak")]));
}

#[test]
fn backslash_does_not_escape_a_quote() {
    assert_eq!(
        tokenize(r#""a\"true"#),
        Ok(vec![tok(TokenType::String, r"a\"), tok(TokenType::True, "true")])
    );
    assert_eq!(tokenize(r#""a\" true""#), Err(LexError::UnterminatedString));
    assert_eq!(
        tokenize(r#""a\"true"x""#),
        Ok(vec![tok(TokenType::String, r"a\"), tok(TokenType::True, "true"), tok(TokenType::String, "x")])
    );
}

#[test]
fn unknown_keyword_is_reported_with_the_word() {
    assert_eq!(tokenize(r#"{"a": tru}"#), Err(LexError::UnknownKeyword("tru".to_string())));
    assert_eq!(
        tokenize(r#"{"name": undefined}"#),
        Err(LexError::UnknownKeyword("undefined".to_string()))
    );
    assert_eq!(tokenize(r#"{name: "John"}"#), Err(LexError::UnknownKeyword("name".to_string())));
    assert_eq!(tokenize("True"), Err(LexError::UnknownKeyword("True".to_string())));
    assert_eq!(tokenize("truefalse"), Err(LexError::UnknownKeyword("truefalse".to_string())));
    assert_eq!(tokenize("nulls"), Err(LexError::UnknownKeyword("nulls".to_string())));
}

#[test]
fn keyword_run_takes_every_alphabetic_character() {
    assert_eq!(tokenize("tru\u{e9}"), Err(LexError::UnknownKeyword("tru\u{e9}".to_string())));
    assert_eq!(tokenize("true\u{e9}"), Err(LexError::UnknownKeyword("true\u{e9}".to_string())));
    assert_eq!(tokenize("null\u{4eac}"), Err(LexError::UnknownKeyword("null\u{4eac}".to_string())));
}

#[test]
fn keywords_give_their_tokens() {
    assert_eq!(
        tokenize("true false null"),
        Ok(vec![
            tok(TokenType::True, "true"),
            tok(TokenType::False, "false"),
            tok(TokenType::Null, "null"),
        ])
    );
    assert_eq!(
        tokenize("true,null"),
        Ok(vec![tok(TokenType::True, "true"), tok(TokenType::Comma, ","), tok(TokenType::Null, "null")])
    );
}

#[test]
fn unterminated_string_is_an_error() {
    assert_eq!(tokenize("\"abc"), Err(LexError::UnterminatedString));
    assert_eq!(tokenize("\""), Err(LexError::UnterminatedString));
    assert_eq!(tokenize("[\"a\", \"b"), Err(LexError::UnterminatedString));
}

#[test]
fn unexpected_character_is_reported_with_its_index() {
    assert_eq!(tokenize("@"), Err(LexError::UnexpectedCharacter('@', 0)));
    assert_eq!(tokenize(r#"{"a": -1}"#), Err(LexError::UnexpectedCharacter('-', 6)));
    assert_eq!(tokenize("[1, .5]"), Err(LexError::UnexpectedCharacter('.', 4)));
    assert_eq!(tokenize("1 \u{e9}"), Err(LexError::UnexpectedCharacter('\u{e9}', 2)));
}

#[test]
fn index_of_an_error_counts_characters() {
    assert_eq!(tokenize("\"\u{e9}\u{4eac}\" #"), Err(LexError::UnexpectedCharacter('#', 5)));
}

#[test]
fn first_error_wins() {
    assert_eq!(tokenize("@ tru \"x"), Err(LexError::UnexpectedCharacter('@', 0)));
    assert_eq!(tokenize("tru @ \"x"), Err(LexError::UnknownKeyword("tru".to_string())));
    assert_eq!(tokenize("\"x @ tru"), Err(LexError::UnterminatedString));
}

#[test]
fn numbers_take_digits_and_one_decimal_part() {
    assert_eq!(tokenize("42"), Ok(vec![tok(TokenType::Number, "42")]));
    assert_eq!(tokenize("007"), Ok(vec![tok(TokenType::Number, "007")]));
    assert_eq!(tokenize("3.14"), Ok(vec![tok(TokenType::Number, "3.14")]));
    assert_eq!(tokenize("0.5"), Ok(vec![tok(TokenType::Number, "0.5")]));
    assert_eq!(tokenize("1.5]"), Ok(vec![tok(TokenType::Number, "1.5"), tok(TokenType::CloseArray, "]")]));
    assert_eq!(tokenize("1.2.3"), Err(LexError::UnexpectedCharacter('.', 3)));
    assert_eq!(tokenize("1e5"), Err(LexError::UnknownKeyword("e".to_string())));
    assert_eq!(
        tokenize("12 34"),
        Ok(vec![tok(TokenType::Number, "12"), tok(TokenType::Number, "34")])
    );
}

#[test]
fn nested_brackets_give_six_tokens() {
    let tokens = tokenize("[[[]]]").unwrap();
    assert_eq!(
        kinds(&tokens),
        vec![
            TokenType::OpenArray,
            TokenType::OpenArray,
            TokenType::OpenArray,
            TokenType::CloseArray,
            TokenType::CloseArray,
            TokenType::CloseArray,
        ]
    );
    assert_eq!(tokens[0].value, "[");
    assert_eq!(tokens[5].value, "]");
}

#[test]
fn punctuation_tokens_hold_their_character() {
    assert_eq!(
        tokenize("{}[]:,"),
        Ok(vec![
            tok(TokenType::OpenObject, "{"),
            tok(TokenType::CloseObject, "}"),
            tok(TokenType::OpenArray, "["),
            tok(TokenType::CloseArray, "]"),
            tok(TokenType::Colon, ":"),
            tok(TokenType::Comma, ","),
        ])
    );
}

#[test]
fn point_without_a_digit_behind_it_is_no_part_of_a_number() {
    assert_eq!(tokenize("1."), Err(LexError::UnexpectedCharacter('.', 1)));
    assert_eq!(tokenize("[12., 3]"), Err(LexError::UnexpectedCharacter('.', 3)));
    assert_eq!(tokenize("1.x"), Err(LexError::UnexpectedCharacter('.', 1)));
    assert_eq!(tokenize("1..2"), Err(LexError::UnexpectedCharacter('.', 1)));
    let mut lexer = Lexer::new("1.");
    assert_eq!(lexer.parse_number(), tok(TokenType::Number, "1"));
    assert_eq!(lexer.pos, 1);
    let mut lexer = Lexer::new("12.]");
    assert_eq!(lexer.parse_number(), tok(TokenType::Number, "12"));
    assert_eq!(lexer.pos, 2);
    let mut lexer = Lexer::new("12.5.7");
    assert_eq!(lexer.parse_number(), tok(TokenType::Number, "12.5"));
    assert_eq!(lexer.pos, 4);
}

#[test]
fn lexer_generate_keeps_the_tokens() {
    let mut lexer = Lexer::new(r#"{"hello": "world"}"#);
    assert_eq!(lexer.pos, 0);
    assert!(lexer.token_list.is_none());
    assert_eq!(lexer.generate(), Ok(()));
    assert_eq!(lexer.pos, 18);
    let tokens = lexer.token_list.unwrap();
    assert_eq!(tokens.len(), 5);
    assert_eq!(tokens[1], tok(TokenType::String, "hello"));
    assert_eq!(tokens[3], tok(TokenType::String, "world"));
}

#[test]
fn lexer_is_left_as_it_was_on_an_error() {
    let mut lexer = Lexer::new("[1, 2, oops]");
    assert_eq!(lexer.generate(), Err(LexError::UnknownKeyword("oops".to_string())));
    assert_eq!(lexer.pos, 0);
    assert!(lexer.token_list.is_none());
    assert_eq!(lexer.parse(), Err(LexError::UnknownKeyword("oops".to_string())));
    assert_eq!(lexer.pos, 0);
}

#[test]
fn lexer_parse_starts_at_the_cursor() {
    let mut lexer = Lexer::new("@ [1]");
    lexer.pos = 1;
    assert_eq!(
        lexer.parse(),
        Ok(vec![
            tok(TokenType::OpenArray, "["),
            tok(TokenType::Number, "1"),
            tok(TokenType::CloseArray, "]"),
        ])
    );
    assert_eq!(lexer.pos, 5);
    assert_eq!(lexer.parse(), Ok(vec![]));
    lexer.pos = 9;
    assert_eq!(lexer.parse(), Ok(vec![]));
    assert_eq!(lexer.pos, 9);
}

#[test]
fn sub_scanners_read_one_lexeme() {
    let mut lexer = Lexer::new(r#":"k"12.50null,"#);
    assert_eq!(lexer.parse_simple_token(), tok(TokenType::Colon, ":"));
    assert_eq!(lexer.pos, 1);
    assert_eq!(lexer.parse_string(), Ok(tok(TokenType::String, "k")));
    assert_eq!(lexer.pos, 4);
    assert_eq!(lexer.parse_number(), tok(TokenType::Number, "12.50"));
    assert_eq!(lexer.pos, 9);
    assert_eq!(lexer.parse_keyword(), Ok(tok(TokenType::Null, "null")));
    assert_eq!(lexer.pos, 13);
    assert_eq!(lexer.consume_char(','), Ok(','));
    assert_eq!(lexer.pos, 14);
    assert_eq!(lexer.consume_char(','), Err(LexError::UnterminatedString));
    assert_eq!(lexer.parse_string(), Err(LexError::UnterminatedString));
    assert_eq!(lexer.parse_number(), tok(TokenType::Number, ""));
    assert_eq!(lexer.parse_keyword(), Err(LexError::UnknownKeyword(String::new())));
    assert_eq!(lexer.pos, 14);
}

#[test]
fn failed_scanners_leave_the_lexer_as_it_was() {
    let mut lexer = Lexer::new(r#"x"abc"#);
    assert_eq!(lexer.parse_string(), Err(LexError::UnexpectedCharacter('x', 0)));
    assert_eq!(lexer.pos, 0);
    assert_eq!(lexer.parse_keyword(), Err(LexError::UnknownKeyword("x".to_string())));
    assert_eq!(lexer.pos, 0);
    lexer.pos = 1;
    assert_eq!(lexer.parse_string(), Err(LexError::UnterminatedString));
    assert_eq!(lexer.pos, 1);
    assert_eq!(lexer.parse_number(), tok(TokenType::Number, ""));
    assert_eq!(lexer.pos, 1);
}

#[test]
fn consume_char_takes_the_character_it_refuses() {
    let mut lexer = Lexer::new("xy");
    assert_eq!(lexer.consume_char('"'), Err(LexError::UnexpectedCharacter('x', 0)));
    assert_eq!(lexer.pos, 1);
    assert_eq!(lexer.consume_char('y'), Ok('y'));
    assert_eq!(lexer.pos, 2);
    assert_eq!(lexer.consume_char('y'), Err(LexError::UnterminatedString));
    assert_eq!(lexer.pos, 2);
}

#[test]
fn take_run_stops_at_the_first_character_outside_the_class() {
    let chars = chars_of("123abc\"x");
    assert_eq!(take_run(&chars, 0, CharClass::Digit), ("123".to_string(), 3));
    assert_eq!(take_run(&chars, 1, CharClass::Digit), ("23".to_string(), 2));
    assert_eq!(take_run(&chars, 3, CharClass::Digit), (String::new(), 0));
    assert_eq!(take_run(&chars, 3, CharClass::Letter), ("abc".to_string(), 3));
    assert_eq!(take_run(&chars, 0, CharClass::StringBody), ("123abc".to_string(), 6));
    assert_eq!(take_run(&chars, 7, CharClass::StringBody), ("x".to_string(), 1));
    assert_eq!(take_run(&chars, 8, CharClass::StringBody), (String::new(), 0));
    assert_eq!(take_run(&chars, 9, CharClass::StringBody), (String::new(), 0));
}

#[test]
fn char_classes_accept_their_characters() {
    assert!(CharClass::Digit.accepts('0'));
    assert!(CharClass::Digit.accepts('9'));
    assert!(!CharClass::Digit.accepts('a'));
    assert!(!CharClass::Digit.accepts('\u{663}'));
    assert!(CharClass::Letter.accepts('a'));
    assert!(CharClass::Letter.accepts('\u{e9}'));
    assert!(!CharClass::Letter.accepts('1'));
    assert!(CharClass::StringBody.accepts('\\'));
    assert!(!CharClass::StringBody.accepts('"'));
}

#[test]
fn chars_of_gives_the_characters_in_order() {
    assert_eq!(chars_of(""), Vec::<char>::new());
    assert_eq!(chars_of("a\u{e9}1"), vec!['a', '\u{e9}', '1']);
}

#[test]
fn keyword_of_knows_the_three_keywords() {
    assert_eq!(keyword_of("true"), Some(TokenType::True));
    assert_eq!(keyword_of("false"), Some(TokenType::False));
    assert_eq!(keyword_of("null"), Some(TokenType::Null));
    assert_eq!(keyword_of("nul"), None);
    assert_eq!(keyword_of("truth"), None);
    assert_eq!(keyword_of("TRUE"), None);
    assert_eq!(keyword_of(""), None);
}
