//! The tokenizer: one pass over the characters, left to right, with one
//! character of lookahead.

use crate::chars::{
    chars_of, is_ascii_letter, is_digit, is_space, lemma_run_holds, lemma_run_len, lemma_run_stops,
    lemma_run_within, quote_free, run_len, run_text, take_run, CharClass,
};
use crate::token::{token_views, Token, TokenType, TokenView};
use crate::tree::{is_number_text, unsigned_start};
use vstd::prelude::*;
use vstd::string::*;

verus! {

/// Why the tokenizer stopped.
#[derive(Debug, PartialEq, Eq)]
pub enum LexError {
    /// A character that starts no token, with its index among the
    /// characters of the input.
    UnexpectedCharacter(char, usize),
    /// The input ended inside a string.
    UnterminatedString,
    /// A word that is none of `true`, `false` and `null`.
    UnknownKeyword(String),
}

/// The mathematical value of a `LexError`.
pub enum LexErrorView {
    UnexpectedCharacter(char, int),
    UnterminatedString,
    UnknownKeyword(Seq<char>),
}

impl View for LexError {
    type V = LexErrorView;

    open spec fn view(&self) -> LexErrorView {
        match self {
            LexError::UnexpectedCharacter(c, at) => LexErrorView::UnexpectedCharacter(*c, *at as int),
            LexError::UnterminatedString => LexErrorView::UnterminatedString,
            LexError::UnknownKeyword(word) => LexErrorView::UnknownKeyword(word@),
        }
    }
}

/// What scanning one lexeme gives: the token and the index after it.
pub type Lexeme = Result<(TokenView, int), LexErrorView>;

/// The kind of the token that the single character `c` makes, if any.
pub open spec fn simple_kind(c: char) -> Option<TokenType> {
    if c == '{' {
        Some(TokenType::OpenObject)
    } else if c == '}' {
        Some(TokenType::CloseObject)
    } else if c == '[' {
        Some(TokenType::OpenArray)
    } else if c == ']' {
        Some(TokenType::CloseArray)
    } else if c == ':' {
        Some(TokenType::Colon)
    } else if c == ',' {
        Some(TokenType::Comma)
    } else {
        None
    }
}

/// The kind of the keyword that `word` spells, if any.
pub open spec fn keyword_kind(word: Seq<char>) -> Option<TokenType> {
    if word == seq!['t', 'r', 'u', 'e'] {
        Some(TokenType::True)
    } else if word == seq!['f', 'a', 'l', 's', 'e'] {
        Some(TokenType::False)
    } else if word == seq!['n', 'u', 'l', 'l'] {
        Some(TokenType::Null)
    } else {
        None
    }
}

/// The character at index `i` is there and is `c`.
pub open spec fn char_at_is(s: Seq<char>, i: int, c: char) -> bool {
    0 <= i < s.len() && s[i] == c
}

/// A string lexeme at `i`: a quote, every character up to the next quote,
/// and that quote. The token's text is what stands between the two.
pub open spec fn string_lexeme(s: Seq<char>, i: int) -> Lexeme {
    if !(0 <= i < s.len()) {
        Err(LexErrorView::UnterminatedString)
    } else if s[i] != '"' {
        Err(LexErrorView::UnexpectedCharacter(s[i], i))
    } else {
        let body = run_text(s, i + 1, CharClass::StringBody);
        if i + 1 + body.len() < s.len() {
            Ok((TokenView { token_type: TokenType::String, value: body }, i + body.len() + 2))
        } else {
            Err(LexErrorView::UnterminatedString)
        }
    }
}

/// Whether a decimal part stands at `i`: a point with a digit behind it.
pub open spec fn decimal_part_at(s: Seq<char>, i: int) -> bool {
    char_at_is(s, i, '.') && run_len(s, i + 1, CharClass::Digit) > 0
}

/// The length of a number lexeme at `i`: the digits there, and after them,
/// if a point with a digit behind it follows, the point and the digits
/// behind it. A point with no digit behind it is not part of the number.
pub open spec fn number_len(s: Seq<char>, i: int) -> nat {
    let whole = run_len(s, i, CharClass::Digit);
    if decimal_part_at(s, i + whole) {
        whole + 1 + run_len(s, i + whole + 1, CharClass::Digit)
    } else {
        whole
    }
}

/// Whether `text` is a number lexeme: one digit or more, and after them, if
/// anything follows, a point and one digit or more to the end.
pub open spec fn is_number_lexeme(text: Seq<char>) -> bool {
    text.len() > 0 && is_digit(text[0]) && number_len(text, 0) == text.len()
}

/// A number lexeme at `i`. Its text is the lexeme itself.
pub open spec fn number_lexeme(s: Seq<char>, i: int) -> (TokenView, int) {
    let text = if 0 <= i <= s.len() {
        s.subrange(i, i + number_len(s, i))
    } else {
        Seq::empty()
    };
    (TokenView { token_type: TokenType::Number, value: text }, i + number_len(s, i))
}

/// A keyword lexeme at `i`: the alphabetic characters there, which must
/// spell one of the three keywords.
pub open spec fn keyword_lexeme(s: Seq<char>, i: int) -> Lexeme {
    let word = run_text(s, i, CharClass::Letter);
    match keyword_kind(word) {
        Some(kind) => Ok((TokenView { token_type: kind, value: word }, i + word.len())),
        None => Err(LexErrorView::UnknownKeyword(word)),
    }
}

/// The lexeme that starts at `i`, where a character that is no whitespace
/// stands.
pub open spec fn lexeme_at(s: Seq<char>, i: int) -> Lexeme
    recommends
        0 <= i < s.len(),
{
    let c = s[i];
    if simple_kind(c) is Some {
        Ok((TokenView { token_type: simple_kind(c)->0, value: seq![c] }, i + 1))
    } else if c == '"' {
        string_lexeme(s, i)
    } else if is_digit(c) {
        Ok(number_lexeme(s, i))
    } else if is_ascii_letter(c) {
        keyword_lexeme(s, i)
    } else {
        Err(LexErrorView::UnexpectedCharacter(c, i))
    }
}

/// `first` before the tokens of `rest`, or the error of `rest`.
pub open spec fn token_then(first: TokenView, rest: Result<Seq<TokenView>, LexErrorView>) -> Result<
    Seq<TokenView>,
    LexErrorView,
> {
    match rest {
        Ok(tokens) => Ok(seq![first] + tokens),
        Err(e) => Err(e),
    }
}

/// The tokens of `s` from index `i` on, or the first error met: whitespace
/// is passed over, and each lexeme gives one token.
pub open spec fn lex_from(s: Seq<char>, i: int) -> Result<Seq<TokenView>, LexErrorView>
    decreases s.len() - i,
    via lex_from_ends
{
    if !(0 <= i < s.len()) {
        Ok(Seq::empty())
    } else if is_space(s[i]) {
        lex_from(s, i + 1)
    } else {
        match lexeme_at(s, i) {
            Ok(found) => token_then(found.0, lex_from(s, found.1)),
            Err(e) => Err(e),
        }
    }
}

/// `lex_from` ends, for a lexeme is not empty.
#[via_fn]
proof fn lex_from_ends(s: Seq<char>, i: int) {
    if 0 <= i < s.len() && !is_space(s[i]) && lexeme_at(s, i) is Ok {
        lemma_lexeme_advances(s, i);
    }
}

/// The tokens of the text `s`, or the first error met.
pub open spec fn lex(s: Seq<char>) -> Result<Seq<TokenView>, LexErrorView> {
    lex_from(s, 0)
}

/// The tokens `done` before the tokens of `rest`, or the error of `rest`.
pub open spec fn tokens_then(done: Seq<TokenView>, rest: Result<Seq<TokenView>, LexErrorView>) -> Result<
    Seq<TokenView>,
    LexErrorView,
> {
    match rest {
        Ok(tokens) => Ok(done + tokens),
        Err(e) => Err(e),
    }
}

/// No tokens before those of `rest` change nothing.
pub proof fn lemma_tokens_then_none(rest: Result<Seq<TokenView>, LexErrorView>)
    ensures
        tokens_then(Seq::empty(), rest) == rest,
{
    if let Ok(tokens) = rest {
        assert(Seq::<TokenView>::empty() + tokens =~= tokens);
    }
}

/// One token may be counted with those before it or with those after it.
pub proof fn lemma_tokens_then_push(
    done: Seq<TokenView>,
    token: TokenView,
    rest: Result<Seq<TokenView>, LexErrorView>,
)
    ensures
        tokens_then(done, token_then(token, rest)) == tokens_then(done.push(token), rest),
{
    if let Ok(tokens) = rest {
        assert(done + (seq![token] + tokens) =~= done.push(token) + tokens);
    }
}

/// A lexeme is not empty and ends within the input.
pub proof fn lemma_lexeme_advances(s: Seq<char>, i: int)
    requires
        0 <= i < s.len(),
        lexeme_at(s, i) is Ok,
    ensures
        i < lexeme_at(s, i)->Ok_0.1 <= s.len(),
{
    let c = s[i];
    if simple_kind(c) is Some {
    } else if c == '"' {
    } else if is_digit(c) {
        let whole = run_len(s, i, CharClass::Digit);
        lemma_run_within(s, i, CharClass::Digit);
        if decimal_part_at(s, i + whole) {
            lemma_run_within(s, i + whole + 1, CharClass::Digit);
        }
    } else {
        lemma_run_within(s, i, CharClass::Letter);
    }
}

/// A tokenizer over the characters of one text.
///
/// `pos` is the index of the next character to read; at or past the end of
/// `input` nothing is left. `token_list` holds what `generate` produced.
#[derive(Debug)]
pub struct Lexer {
    pub input: Vec<char>,
    pub pos: usize,
    pub token_list: Option<Vec<Token>>,
}

impl Lexer {
    /// The lexer is `before` with the cursor moved to `pos`.
    pub open spec fn moved(&self, before: &Lexer, pos: int) -> bool {
        &&& self.input == before.input
        &&& self.token_list == before.token_list
        &&& self.pos == pos
    }

    /// A lexer at the start of `input`, with no tokens yet.
    pub fn new(input: &str) -> (lexer: Lexer)
        ensures
            lexer.input@ == input@,
            lexer.pos == 0,
            lexer.token_list is None,
    {
        Lexer { input: chars_of(input), pos: 0, token_list: None }
    }

    /// Tokenizes what is left of the input and keeps the tokens in
    /// `token_list`. On an error the lexer is left as it was.
    pub fn generate(&mut self) -> (r: Result<(), LexError>)
        ensures
            match r {
                Ok(_) => {
                    &&& final(self).token_list is Some
                    &&& lex_from(old(self).input@, old(self).pos as int) == Ok::<
                        Seq<TokenView>,
                        LexErrorView,
                    >(token_views(final(self).token_list->0@))
                    &&& final(self).input == old(self).input
                    &&& final(self).pos == vstd::math::max(
                        old(self).pos as int,
                        old(self).input.len() as int,
                    )
                },
                Err(e) => {
                    &&& lex_from(old(self).input@, old(self).pos as int) == Err::<
                        Seq<TokenView>,
                        LexErrorView,
                    >(e@)
                    &&& *final(self) == *old(self)
                },
            },
    {
        match self.parse() {
            Ok(tokens) => {
                self.token_list = Some(tokens);
                Ok(())
            },
            Err(e) => Err(e),
        }
    }

    /// Tokenizes what is left of the input: the tokens in the order of the
    /// text, or the first error. On success the cursor stands at the end; on
    /// an error the lexer is left as it was.
    pub fn parse(&mut self) -> (r: Result<Vec<Token>, LexError>)
        ensures
            match r {
                Ok(tokens) => {
                    &&& lex_from(old(self).input@, old(self).pos as int) == Ok::<
                        Seq<TokenView>,
                        LexErrorView,
                    >(token_views(tokens@))
                    &&& final(self).moved(
                        old(self),
                        vstd::math::max(old(self).pos as int, old(self).input.len() as int),
                    )
                },
                Err(e) => {
                    &&& lex_from(old(self).input@, old(self).pos as int) == Err::<
                        Seq<TokenView>,
                        LexErrorView,
                    >(e@)
                    &&& *final(self) == *old(self)
                },
            },
    {
        let start = self.pos;
        let mut token_list: Vec<Token> = Vec::new();
        proof {
            assert(token_views(token_list@) =~= Seq::empty());
            lemma_tokens_then_none(lex_from(self.input@, start as int));
        }
        while self.pos < self.input.len()
            invariant
                self.input == old(self).input,
                self.token_list == old(self).token_list,
                start == old(self).pos,
                start <= self.pos,
                self.pos <= vstd::math::max(start as int, self.input.len() as int),
                lex_from(self.input@, start as int) == tokens_then(
                    token_views(token_list@),
                    lex_from(self.input@, self.pos as int),
                ),
            decreases self.input.len() - self.pos,
        {
            let ghost s = self.input@;
            let ghost at = self.pos as int;
            let ghost done = token_views(token_list@);
            let c = self.input[self.pos];
            proof {
                if !is_space(c) && lexeme_at(s, at) is Ok {
                    lemma_lexeme_advances(s, at);
                }
            }
            let scanned = if c == ' ' || c == '\n' || c == '\t' || c == '\r' {
                self.pos = self.pos + 1;
                None
            } else if c == '{' || c == '}' || c == '[' || c == ']' || c == ':' || c == ',' {
                Some(Ok(self.parse_simple_token()))
            } else if c == '"' {
                Some(self.parse_string())
            } else if '0' <= c && c <= '9' {
                Some(Ok(self.parse_number()))
            } else if ('a' <= c && c <= 'z') || ('A' <= c && c <= 'Z') {
                Some(self.parse_keyword())
            } else {
                Some(Err(LexError::UnexpectedCharacter(c, self.pos)))
            };
            match scanned {
                None => {},
                Some(Ok(token)) => {
                    proof {
                        assert(token_views(token_list@.push(token)) =~= done.push(token@));
                        lemma_tokens_then_push(done, token@, lex_from(s, self.pos as int));
                    }
                    token_list.push(token);
                },
                Some(Err(e)) => {
                    self.pos = start;
                    return Err(e);
                },
            }
        }
        proof {
            assert(token_views(token_list@) + Seq::<TokenView>::empty() =~= token_views(
                token_list@,
            ));
        }
        Ok(token_list)
    }

    /// Reads the single-character token at the cursor.
    pub fn parse_simple_token(&mut self) -> (token: Token)
        requires
            old(self).pos < old(self).input.len(),
            simple_kind(old(self).input@[old(self).pos as int]) is Some,
        ensures
            lexeme_at(old(self).input@, old(self).pos as int) == Ok::<(TokenView, int), LexErrorView>(
                (token@, final(self).pos as int),
            ),
            final(self).moved(old(self), old(self).pos + 1),
    {
        let ch = self.input[self.pos];
        self.pos = self.pos + 1;
        proof {
            reveal_strlit("{");
            reveal_strlit("}");
            reveal_strlit("[");
            reveal_strlit("]");
            reveal_strlit(":");
            reveal_strlit(",");
        }
        let token = if ch == '{' {
            Token { token_type: TokenType::OpenObject, value: "{".to_owned() }
        } else if ch == '}' {
            Token { token_type: TokenType::CloseObject, value: "}".to_owned() }
        } else if ch == '[' {
            Token { token_type: TokenType::OpenArray, value: "[".to_owned() }
        } else if ch == ']' {
            Token { token_type: TokenType::CloseArray, value: "]".to_owned() }
        } else if ch == ':' {
            Token { token_type: TokenType::Colon, value: ":".to_owned() }
        } else {
            Token { token_type: TokenType::Comma, value: ",".to_owned() }
        };
        assert(token.value@ =~= seq![ch]);
        token
    }

    /// Reads the string at the cursor: the opening quote, the text up to the
    /// next quote, and that quote. On an error the lexer is left as it was.
    pub fn parse_string(&mut self) -> (r: Result<Token, LexError>)
        ensures
            match r {
                Ok(token) => {
                    &&& string_lexeme(old(self).input@, old(self).pos as int) == Ok::<
                        (TokenView, int),
                        LexErrorView,
                    >((token@, final(self).pos as int))
                    &&& final(self).moved(old(self), final(self).pos as int)
                },
                Err(e) => {
                    &&& string_lexeme(old(self).input@, old(self).pos as int) == Err::<
                        (TokenView, int),
                        LexErrorView,
                    >(e@)
                    &&& *final(self) == *old(self)
                },
            },
    {
        let start = self.pos;
        match self.consume_char('"') {
            Ok(_) => {},
            Err(e) => {
                self.pos = start;
                return Err(e);
            },
        }
        let (value, n) = take_run(&self.input, self.pos, CharClass::StringBody);
        proof {
            lemma_run_within(self.input@, self.pos as int, CharClass::StringBody);
            lemma_run_stops(self.input@, self.pos as int, CharClass::StringBody);
        }
        self.pos = self.pos + n;
        match self.consume_char('"') {
            Ok(_) => Ok(Token { token_type: TokenType::String, value }),
            Err(e) => {
                self.pos = start;
                Err(LexError::UnterminatedString)
            },
        }
    }

    /// Reads the number at the cursor: the digits there and, where a point
    /// with a digit behind it follows them, the point and the digits behind
    /// it.
    pub fn parse_number(&mut self) -> (token: Token)
        ensures
            number_lexeme(old(self).input@, old(self).pos as int) == (token@, final(self).pos as int),
            final(self).moved(old(self), final(self).pos as int),
    {
        let ghost s = self.input@;
        let ghost at = self.pos as int;
        if self.pos > self.input.len() {
            return Token { token_type: TokenType::Number, value: String::new() };
        }
        let (mut value, whole) = take_run(&self.input, self.pos, CharClass::Digit);
        self.pos = self.pos + whole;
        if self.pos < self.input.len() && self.input[self.pos] == '.' {
            let (fraction, n) = take_run(&self.input, self.pos + 1, CharClass::Digit);
            if n > 0 {
                proof {
                    reveal_strlit(".");
                    assert(s.subrange(at, at + whole) + "."@ + fraction@ =~= s.subrange(
                        at,
                        at + whole + 1 + n,
                    ));
                }
                value.append(".");
                value.append(fraction.as_str());
                self.pos = self.pos + 1 + n;
            }
        }
        Token { token_type: TokenType::Number, value }
    }

    /// Reads the word at the cursor, which must be `true`, `false` or
    /// `null`. On an error the lexer is left as it was.
    pub fn parse_keyword(&mut self) -> (r: Result<Token, LexError>)
        ensures
            match r {
                Ok(token) => {
                    &&& keyword_lexeme(old(self).input@, old(self).pos as int) == Ok::<
                        (TokenView, int),
                        LexErrorView,
                    >((token@, final(self).pos as int))
                    &&& final(self).moved(old(self), final(self).pos as int)
                },
                Err(e) => {
                    &&& keyword_lexeme(old(self).input@, old(self).pos as int) == Err::<
                        (TokenView, int),
                        LexErrorView,
                    >(e@)
                    &&& *final(self) == *old(self)
                },
            },
    {
        let (keyword, n) = take_run(&self.input, self.pos, CharClass::Letter);
        match keyword_of(keyword.as_str()) {
            Some(token_type) => {
                self.pos = self.pos + n;
                Ok(Token { token_type, value: keyword })
            },
            None => Err(LexError::UnknownKeyword(keyword)),
        }
    }

    /// Consumes the character at the cursor, which must be `expected`. A
    /// character that is not the expected one is consumed too; at the end of
    /// the input nothing moves.
    pub fn consume_char(&mut self, expected: char) -> (r: Result<char, LexError>)
        ensures
            match r {
                Ok(c) => {
                    &&& c == expected
                    &&& char_at_is(old(self).input@, old(self).pos as int, expected)
                    &&& final(self).moved(old(self), old(self).pos + 1)
                },
                Err(e) => {
                    &&& !char_at_is(old(self).input@, old(self).pos as int, expected)
                    &&& e@ == (if old(self).pos < old(self).input.len() {
                        LexErrorView::UnexpectedCharacter(
                            old(self).input@[old(self).pos as int],
                            old(self).pos as int,
                        )
                    } else {
                        LexErrorView::UnterminatedString
                    })
                    &&& if old(self).pos < old(self).input.len() {
                        final(self).moved(old(self), old(self).pos + 1)
                    } else {
                        *final(self) == *old(self)
                    }
                },
            },
    {
        if self.pos < self.input.len() {
            let c = self.input[self.pos];
            if c == expected {
                self.pos = self.pos + 1;
                Ok(c)
            } else {
                let at = self.pos;
                self.pos = self.pos + 1;
                Err(LexError::UnexpectedCharacter(c, at))
            }
        } else {
            Err(LexError::UnterminatedString)
        }
    }
}

/// The kind of the keyword that `word` spells, if it spells one.
pub fn keyword_of(word: &str) -> (kind: Option<TokenType>)
    ensures
        kind == keyword_kind(word@),
{
    let w = word;
    let n = w.unicode_len();
    if n == 4 && w.get_char(0) == 't' && w.get_char(1) == 'r' && w.get_char(2) == 'u' && w.get_char(3)
        == 'e' {
        assert(word@ =~= seq!['t', 'r', 'u', 'e']);
        Some(TokenType::True)
    } else if n == 5 && w.get_char(0) == 'f' && w.get_char(1) == 'a' && w.get_char(2) == 'l'
        && w.get_char(3) == 's' && w.get_char(4) == 'e' {
        assert(word@ =~= seq!['f', 'a', 'l', 's', 'e']);
        Some(TokenType::False)
    } else if n == 4 && w.get_char(0) == 'n' && w.get_char(1) == 'u' && w.get_char(2) == 'l'
        && w.get_char(3) == 'l' {
        assert(word@ =~= seq!['n', 'u', 'l', 'l']);
        Some(TokenType::Null)
    } else {
        proof {
            let t = seq!['t', 'r', 'u', 'e'];
            let f = seq!['f', 'a', 'l', 's', 'e'];
            let l = seq!['n', 'u', 'l', 'l'];
            assert(t.len() == 4 && t[0] == 't' && t[1] == 'r' && t[2] == 'u' && t[3] == 'e');
            assert(f.len() == 5 && f[0] == 'f' && f[1] == 'a' && f[2] == 'l' && f[3] == 's' && f[4]
                == 'e');
            assert(l.len() == 4 && l[0] == 'n' && l[1] == 'u' && l[2] == 'l' && l[3] == 'l');
        }
        None
    }
}

/// `r` is what tokenizing the text `s` gives: the tokens of `s`, or the
/// first error met in it.
pub open spec fn tokenized(s: Seq<char>, r: Result<Vec<Token>, LexError>) -> bool {
    match r {
        Ok(tokens) => lex(s) == Ok::<Seq<TokenView>, LexErrorView>(token_views(tokens@)),
        Err(e) => lex(s) == Err::<Seq<TokenView>, LexErrorView>(e@),
    }
}

/// Tokenizes `input`: its tokens in the order of the text, or the first
/// error met. Whitespace separates tokens and makes none.
pub fn tokenize(input: &str) -> (r: Result<Vec<Token>, LexError>)
    ensures
        tokenized(input@, r),
{
    let mut lexer = Lexer::new(input);
    lexer.parse()
}

/// Tokenizing depends on the text alone: two runs on one text give the same
/// tokens, or the same error.
pub proof fn lemma_tokenize_twice(
    s: Seq<char>,
    first: Result<Vec<Token>, LexError>,
    second: Result<Vec<Token>, LexError>,
)
    requires
        tokenized(s, first),
        tokenized(s, second),
    ensures
        match (first, second) {
            (Ok(a), Ok(b)) => token_views(a@) == token_views(b@),
            (Err(a), Err(b)) => a@ == b@,
            _ => false,
        },
{
}

/// Whether every character of `s` is whitespace.
pub open spec fn all_space(s: Seq<char>) -> bool {
    forall|k: int| 0 <= k < s.len() ==> is_space(#[trigger] s[k])
}

/// Whitespace makes no token, from any index on.
pub proof fn lemma_space_from(s: Seq<char>, i: int)
    requires
        all_space(s),
    ensures
        lex_from(s, i) == Ok::<Seq<TokenView>, LexErrorView>(Seq::empty()),
    decreases s.len() - i,
{
    if 0 <= i < s.len() {
        lemma_space_from(s, i + 1);
    }
}

/// A text that holds nothing but whitespace has no tokens.
pub proof fn lemma_whitespace_only(s: Seq<char>)
    requires
        all_space(s),
    ensures
        lex(s) == Ok::<Seq<TokenView>, LexErrorView>(Seq::empty()),
{
    lemma_space_from(s, 0);
}

/// Whether the text of `token` is a lexeme of its kind: the character of a
/// punctuation token, the spelling of a keyword, a decimal number, or a
/// string without a quote in it.
pub open spec fn lexeme_text(token: TokenView) -> bool {
    match token.token_type {
        TokenType::String => quote_free(token.value),
        TokenType::Number => is_number_lexeme(token.value),
        TokenType::True | TokenType::False | TokenType::Null => keyword_kind(token.value) == Some(
            token.token_type,
        ),
        _ => token.value.len() == 1 && simple_kind(token.value[0]) == Some(token.token_type),
    }
}

/// The text of a number lexeme that starts with a digit is a number lexeme
/// by itself.
pub proof fn lemma_number_text(s: Seq<char>, i: int)
    requires
        0 <= i < s.len(),
        is_digit(s[i]),
    ensures
        is_number_lexeme(number_lexeme(s, i).0.value),
{
    let digit = CharClass::Digit;
    let whole = run_len(s, i, digit) as int;
    lemma_run_within(s, i, digit);
    lemma_run_holds(s, i, digit);
    lemma_run_stops(s, i, digit);
    let text = number_lexeme(s, i).0.value;
    if decimal_part_at(s, i + whole) {
        let fraction = run_len(s, i + whole + 1, digit) as int;
        lemma_run_within(s, i + whole + 1, digit);
        lemma_run_holds(s, i + whole + 1, digit);
        assert(text.len() == whole + 1 + fraction);
        assert forall|k: int| 0 <= k < whole implies digit.holds(#[trigger] text[k]) by {
            assert(text[k] == s[i + k]);
        }
        assert(text[whole] == s[i + whole]);
        lemma_run_len(text, 0, whole, digit);
        assert forall|k: int| whole + 1 <= k < whole + 1 + fraction implies digit.holds(
            #[trigger] text[k],
        ) by {
            assert(text[k] == s[i + k]);
        }
        lemma_run_len(text, whole + 1, fraction, digit);
    } else {
        assert(text.len() == whole);
        assert forall|k: int| 0 <= k < whole implies digit.holds(#[trigger] text[k]) by {
            assert(text[k] == s[i + k]);
        }
        lemma_run_len(text, 0, whole, digit);
        assert(!char_at_is(text, whole, '.'));
    }
    assert(text[0] == s[i]);
}

/// A number lexeme is written as a floating-point number.
pub proof fn lemma_number_lexeme_parses(text: Seq<char>)
    requires
        is_number_lexeme(text),
    ensures
        is_number_text(text),
{
    let whole = run_len(text, 0, CharClass::Digit);
    assert(whole >= 1);
    assert(unsigned_start(text) == 0);
    if decimal_part_at(text, whole as int) {
    } else {
        assert(!char_at_is(text, whole as int, '.'));
    }
}

/// The text of the token of a lexeme is a lexeme of the token's kind.
pub proof fn lemma_lexeme_text(s: Seq<char>, i: int)
    requires
        0 <= i < s.len(),
        lexeme_at(s, i) is Ok,
    ensures
        lexeme_text(lexeme_at(s, i)->Ok_0.0),
{
    let c = s[i];
    let token = lexeme_at(s, i)->Ok_0.0;
    if simple_kind(c) is Some {
        assert(token.value[0] == c);
    } else if c == '"' {
        lemma_run_within(s, i + 1, CharClass::StringBody);
        lemma_run_holds(s, i + 1, CharClass::StringBody);
        assert forall|k: int| 0 <= k < token.value.len() implies #[trigger] token.value[k]
            != '"' by {
            assert(token.value[k] == s[i + 1 + k]);
        }
    } else if is_digit(c) {
        lemma_number_text(s, i);
    } else {
    }
}

/// Every token that the tokenizer makes holds a lexeme of its kind. So the
/// text of each number token is a decimal number.
pub proof fn lemma_lexed_tokens(s: Seq<char>, i: int)
    requires
        lex_from(s, i) is Ok,
    ensures
        forall|k: int|
            0 <= k < lex_from(s, i)->Ok_0.len() ==> lexeme_text(#[trigger] lex_from(s, i)->Ok_0[k]),
    decreases s.len() - i,
{
    if 0 <= i < s.len() {
        if is_space(s[i]) {
            lemma_lexed_tokens(s, i + 1);
        } else {
            lemma_lexeme_advances(s, i);
            lemma_lexeme_text(s, i);
            lemma_lexed_tokens(s, lexeme_at(s, i)->Ok_0.1);
        }
    }
}

} // verus!
