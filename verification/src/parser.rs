//! The tree builder: recursive descent over the tokens, with one token of
//! lookahead.

use crate::token::{token_views, Token, TokenType, TokenView};
use crate::tree::{
    element_views, is_number_text, lemma_array_view, lemma_object_view, member_views,
    number_text_ok, TreeValue, TreeView,
};
use vstd::prelude::*;

verus! {

/// Why the tree builder stopped.
#[derive(Debug, PartialEq, Eq, Copy, Clone, Structural)]
pub enum ParseError {
    /// The tokens ended where one more was needed.
    UnexpectedEndOfInput,
    /// A token that cannot stand where it was found.
    UnexpectedToken,
    /// The key of a member is not a string.
    ExpectedStringKey,
    /// No colon follows the key of a member.
    ExpectedColon,
    /// A member is followed by neither a comma nor the closing brace.
    ExpectedCommaOrCloseObject,
    /// An element is followed by neither a comma nor the closing bracket.
    ExpectedCommaOrCloseArray,
    /// A comma stands right before the closing brace or bracket.
    TrailingComma,
    /// The text of a number token is not written as a floating-point number.
    InvalidNumber,
}

/// What parsing one construct gives: its value and the number of tokens
/// that it takes.
pub type Parsed<T> = Result<(T, nat), ParseError>;

/// A member of an object: its key and its value.
pub type MemberView = (Seq<char>, TreeView);

/// The kind of the token at index `i`, if there is one.
pub open spec fn kind_at(t: Seq<TokenView>, i: int) -> Option<TokenType> {
    if 0 <= i < t.len() {
        Some(t[i].token_type)
    } else {
        None
    }
}

/// The error for a token that is not the `expected` one.
pub open spec fn mismatch(expected: TokenType) -> ParseError {
    match expected {
        TokenType::Colon => ParseError::ExpectedColon,
        TokenType::String => ParseError::ExpectedStringKey,
        _ => ParseError::UnexpectedToken,
    }
}

/// The token at `i` must be of the kind `expected`.
pub open spec fn token_at(t: Seq<TokenView>, i: int, expected: TokenType) -> Result<(), ParseError> {
    match kind_at(t, i) {
        None => Err(ParseError::UnexpectedEndOfInput),
        Some(kind) => if kind == expected {
            Ok(())
        } else {
            Err(mismatch(expected))
        },
    }
}

/// The value of the single token at `i`, which must be a string, a number
/// or a keyword.
pub open spec fn leaf_at(t: Seq<TokenView>, i: int) -> Parsed<TreeView> {
    match kind_at(t, i) {
        None => Err(ParseError::UnexpectedEndOfInput),
        Some(TokenType::True) => Ok((TreeView::True, 1)),
        Some(TokenType::False) => Ok((TreeView::False, 1)),
        Some(TokenType::Null) => Ok((TreeView::Null, 1)),
        Some(TokenType::String) => Ok((TreeView::String(t[i].value), 1)),
        Some(TokenType::Number) => if is_number_text(t[i].value) {
            Ok((TreeView::Number(t[i].value), 1))
        } else {
            Err(ParseError::InvalidNumber)
        },
        Some(_) => Err(ParseError::UnexpectedToken),
    }
}

/// The items `done`, which took `taken` tokens, before the items of `rest`,
/// or the error of `rest`.
pub open spec fn items_then<T>(done: Seq<T>, taken: nat, rest: Parsed<Seq<T>>) -> Parsed<Seq<T>> {
    match rest {
        Ok(found) => Ok((done + found.0, taken + found.1)),
        Err(e) => Err(e),
    }
}

/// What follows an item of an object or an array, at `i`: a comma that is
/// not followed by `close` (`Ok(false)`: more items follow), or `close`
/// (`Ok(true)`). Another token is `otherwise`, and no token is `at_end`.
pub open spec fn separator_at(
    t: Seq<TokenView>,
    i: int,
    close: TokenType,
    otherwise: ParseError,
    at_end: ParseError,
) -> Result<bool, ParseError> {
    match kind_at(t, i) {
        None => Err(at_end),
        Some(kind) => if kind == TokenType::Comma {
            if kind_at(t, i + 1) == Some(close) {
                Err(ParseError::TrailingComma)
            } else {
                Ok(false)
            }
        } else if kind == close {
            Ok(true)
        } else {
            Err(otherwise)
        },
    }
}

/// The value that starts at `i`: an object, an array or a leaf.
pub open spec fn value_at(t: Seq<TokenView>, i: int) -> Parsed<TreeView>
    decreases t.len() - i, 2int,
{
    match kind_at(t, i) {
        None => Err(ParseError::UnexpectedEndOfInput),
        Some(TokenType::OpenObject) => match object_at(t, i) {
            Ok(found) => Ok((TreeView::Object(found.0), found.1)),
            Err(e) => Err(e),
        },
        Some(TokenType::OpenArray) => match array_at(t, i) {
            Ok(found) => Ok((TreeView::Array(found.0), found.1)),
            Err(e) => Err(e),
        },
        Some(TokenType::CloseObject) | Some(TokenType::CloseArray) | Some(TokenType::Colon) | Some(
            TokenType::Comma,
        ) => Err(ParseError::UnexpectedToken),
        Some(_) => leaf_at(t, i),
    }
}

/// The members of the object whose opening brace stands at `i`.
pub open spec fn object_at(t: Seq<TokenView>, i: int) -> Parsed<Seq<MemberView>>
    decreases t.len() - i, 1int,
{
    match token_at(t, i, TokenType::OpenObject) {
        Err(e) => Err(e),
        Ok(_) => if kind_at(t, i + 1) == Some(TokenType::CloseObject) {
            Ok((Seq::empty(), 2))
        } else {
            items_then(Seq::empty(), 1, members_at(t, i + 1))
        },
    }
}

/// The members of an object from the key at `i` on, through the closing
/// brace. A member takes its key, the colon and its value; the comma or the
/// brace behind it is counted with it.
pub open spec fn members_at(t: Seq<TokenView>, i: int) -> Parsed<Seq<MemberView>>
    decreases t.len() - i, 0int,
{
    if token_at(t, i, TokenType::String) is Err {
        Err(token_at(t, i, TokenType::String)->Err_0)
    } else if token_at(t, i + 1, TokenType::Colon) is Err {
        Err(token_at(t, i + 1, TokenType::Colon)->Err_0)
    } else {
        match value_at(t, i + 2) {
            Err(e) => Err(e),
            Ok(found) => {
                let member = (t[i].value, found.0);
                let taken = 2 + found.1 + 1;
                match separator_at(
                    t,
                    i + 2 + found.1,
                    TokenType::CloseObject,
                    ParseError::ExpectedCommaOrCloseObject,
                    ParseError::ExpectedCommaOrCloseObject,
                ) {
                    Err(e) => Err(e),
                    Ok(closed) => if closed {
                        Ok((seq![member], taken))
                    } else {
                        items_then(seq![member], taken, members_at(t, i + taken))
                    },
                }
            },
        }
    }
}

/// The elements of the array whose opening bracket stands at `i`.
pub open spec fn array_at(t: Seq<TokenView>, i: int) -> Parsed<Seq<TreeView>>
    decreases t.len() - i, 1int,
{
    match token_at(t, i, TokenType::OpenArray) {
        Err(e) => Err(e),
        Ok(_) => if kind_at(t, i + 1) == Some(TokenType::CloseArray) {
            Ok((Seq::empty(), 2))
        } else {
            items_then(Seq::empty(), 1, elements_at(t, i + 1))
        },
    }
}

/// The elements of an array from the value at `i` on, through the closing
/// bracket. The comma or the bracket behind an element is counted with it.
pub open spec fn elements_at(t: Seq<TokenView>, i: int) -> Parsed<Seq<TreeView>>
    decreases t.len() - i, 3int,
{
    match value_at(t, i) {
        Err(e) => Err(e),
        Ok(found) => match separator_at(
            t,
            i + found.1,
            TokenType::CloseArray,
            ParseError::ExpectedCommaOrCloseArray,
            ParseError::UnexpectedEndOfInput,
        ) {
            Err(e) => Err(e),
            Ok(closed) => if closed {
                Ok((seq![found.0], found.1 + 1))
            } else {
                items_then(seq![found.0], found.1 + 1, elements_at(t, i + found.1 + 1))
            },
        },
    }
}

/// The tree of the value that starts the tokens `t`. Tokens after that
/// value are not looked at.
pub open spec fn tree_of(t: Seq<TokenView>) -> Result<TreeView, ParseError> {
    match value_at(t, 0) {
        Ok(found) => Ok(found.0),
        Err(e) => Err(e),
    }
}

/// One item may be counted with those before it or with those after it.
pub proof fn lemma_items_then_push<T>(
    done: Seq<T>,
    taken: nat,
    item: T,
    more: nat,
    rest: Parsed<Seq<T>>,
)
    ensures
        items_then(done, taken, items_then(seq![item], more, rest)) == items_then(
            done.push(item),
            taken + more,
            rest,
        ),
{
    if let Ok(found) = rest {
        assert(done + (seq![item] + found.0) =~= done.push(item) + found.0);
    }
}

/// A value takes one token or more and ends within the tokens.
pub proof fn lemma_value_advances(t: Seq<TokenView>, i: int)
    ensures
        value_at(t, i) is Ok ==> 0 <= i && value_at(t, i)->Ok_0.1 >= 1 && i + value_at(t, i)->Ok_0.1 <= t.len(),
    decreases t.len() - i, 2int,
{
    match kind_at(t, i) {
        Some(TokenType::OpenObject) => lemma_object_advances(t, i),
        Some(TokenType::OpenArray) => lemma_array_advances(t, i),
        _ => {},
    }
}

/// An object takes one token or more and ends within the tokens.
pub proof fn lemma_object_advances(t: Seq<TokenView>, i: int)
    ensures
        object_at(t, i) is Ok ==> 0 <= i && object_at(t, i)->Ok_0.1 >= 1 && i + object_at(t, i)->Ok_0.1 <= t.len(),
    decreases t.len() - i, 1int,
{
    if token_at(t, i, TokenType::OpenObject) is Ok && kind_at(t, i + 1) != Some(
        TokenType::CloseObject,
    ) {
        lemma_members_advances(t, i + 1);
    }
}

/// The members of an object, with its closing brace, end within the tokens.
pub proof fn lemma_members_advances(t: Seq<TokenView>, i: int)
    ensures
        members_at(t, i) is Ok ==> 0 <= i && members_at(t, i)->Ok_0.1 >= 1 && i + members_at(t, i)->Ok_0.1 <= t.len(),
    decreases t.len() - i, 0int,
{
    if token_at(t, i, TokenType::String) is Ok && token_at(t, i + 1, TokenType::Colon) is Ok {
        lemma_value_advances(t, i + 2);
        if let Ok(found) = value_at(t, i + 2) {
            if separator_at(
                t,
                i + 2 + found.1,
                TokenType::CloseObject,
                ParseError::ExpectedCommaOrCloseObject,
                ParseError::ExpectedCommaOrCloseObject,
            ) == Ok::<bool, ParseError>(false) {
                lemma_members_advances(t, i + 2 + found.1 + 1);
            }
        }
    }
}

/// An array takes one token or more and ends within the tokens.
pub proof fn lemma_array_advances(t: Seq<TokenView>, i: int)
    ensures
        array_at(t, i) is Ok ==> 0 <= i && array_at(t, i)->Ok_0.1 >= 1 && i + array_at(t, i)->Ok_0.1 <= t.len(),
    decreases t.len() - i, 1int,
{
    if token_at(t, i, TokenType::OpenArray) is Ok && kind_at(t, i + 1) != Some(
        TokenType::CloseArray,
    ) {
        lemma_elements_advances(t, i + 1);
    }
}

/// The elements of an array, with its closing bracket, end within the
/// tokens.
pub proof fn lemma_elements_advances(t: Seq<TokenView>, i: int)
    ensures
        elements_at(t, i) is Ok ==> 0 <= i && elements_at(t, i)->Ok_0.1 >= 1 && i + elements_at(t, i)->Ok_0.1 <= t.len(),
    decreases t.len() - i, 3int,
{
    lemma_value_advances(t, i);
    if let Ok(found) = value_at(t, i) {
        if separator_at(
            t,
            i + found.1,
            TokenType::CloseArray,
            ParseError::ExpectedCommaOrCloseArray,
            ParseError::UnexpectedEndOfInput,
        ) == Ok::<bool, ParseError>(false) {
            lemma_elements_advances(t, i + found.1 + 1);
        }
    }
}

/// Whether the text of every number token of `t` is written as a
/// floating-point number.
pub open spec fn numbers_are_floats(t: Seq<TokenView>) -> bool {
    forall|k: int|
        0 <= k < t.len() && (#[trigger] t[k]).token_type == TokenType::Number ==> is_number_text(
            t[k].value,
        )
}

/// Where every number token is written as a floating-point number, no
/// value fails on a number.
pub proof fn lemma_value_numbers(t: Seq<TokenView>, i: int)
    requires
        numbers_are_floats(t),
    ensures
        value_at(t, i) != Err::<(TreeView, nat), ParseError>(ParseError::InvalidNumber),
    decreases t.len() - i, 2int,
{
    match kind_at(t, i) {
        Some(TokenType::OpenObject) => lemma_object_numbers(t, i),
        Some(TokenType::OpenArray) => lemma_array_numbers(t, i),
        _ => {},
    }
}

/// Where every number token is written as a floating-point number, no
/// object fails on a number.
pub proof fn lemma_object_numbers(t: Seq<TokenView>, i: int)
    requires
        numbers_are_floats(t),
    ensures
        object_at(t, i) != Err::<(Seq<MemberView>, nat), ParseError>(ParseError::InvalidNumber),
    decreases t.len() - i, 1int,
{
    if token_at(t, i, TokenType::OpenObject) is Ok && kind_at(t, i + 1) != Some(
        TokenType::CloseObject,
    ) {
        lemma_members_numbers(t, i + 1);
    }
}

/// Where every number token is written as a floating-point number, no
/// member fails on a number.
pub proof fn lemma_members_numbers(t: Seq<TokenView>, i: int)
    requires
        numbers_are_floats(t),
    ensures
        members_at(t, i) != Err::<(Seq<MemberView>, nat), ParseError>(ParseError::InvalidNumber),
    decreases t.len() - i, 0int,
{
    if token_at(t, i, TokenType::String) is Ok && token_at(t, i + 1, TokenType::Colon) is Ok {
        lemma_value_numbers(t, i + 2);
        if let Ok(found) = value_at(t, i + 2) {
            if separator_at(
                t,
                i + 2 + found.1,
                TokenType::CloseObject,
                ParseError::ExpectedCommaOrCloseObject,
                ParseError::ExpectedCommaOrCloseObject,
            ) == Ok::<bool, ParseError>(false) {
                lemma_members_numbers(t, i + 2 + found.1 + 1);
            }
        }
    }
}

/// Where every number token is written as a floating-point number, no
/// array fails on a number.
pub proof fn lemma_array_numbers(t: Seq<TokenView>, i: int)
    requires
        numbers_are_floats(t),
    ensures
        array_at(t, i) != Err::<(Seq<TreeView>, nat), ParseError>(ParseError::InvalidNumber),
    decreases t.len() - i, 1int,
{
    if token_at(t, i, TokenType::OpenArray) is Ok && kind_at(t, i + 1) != Some(
        TokenType::CloseArray,
    ) {
        lemma_elements_numbers(t, i + 1);
    }
}

/// Where every number token is written as a floating-point number, no
/// element fails on a number.
pub proof fn lemma_elements_numbers(t: Seq<TokenView>, i: int)
    requires
        numbers_are_floats(t),
    ensures
        elements_at(t, i) != Err::<(Seq<TreeView>, nat), ParseError>(ParseError::InvalidNumber),
    decreases t.len() - i, 3int,
{
    lemma_value_numbers(t, i);
    if let Ok(found) = value_at(t, i) {
        if separator_at(
            t,
            i + found.1,
            TokenType::CloseArray,
            ParseError::ExpectedCommaOrCloseArray,
            ParseError::UnexpectedEndOfInput,
        ) == Ok::<bool, ParseError>(false) {
            lemma_elements_numbers(t, i + found.1 + 1);
        }
    }
}

/// A tree builder over one sequence of tokens.
///
/// `pos` is the index of the next token to read; at or past the end of
/// `tokens` nothing is left. `ast` holds what `generate` produced.
#[derive(Debug)]
pub struct Parser<'a> {
    pub tokens: &'a [Token],
    pub pos: usize,
    pub ast: Option<TreeValue>,
}

impl<'a> Parser<'a> {
    /// The values of the tokens that the parser reads.
    pub open spec fn input(&self) -> Seq<TokenView> {
        token_views(self.tokens@)
    }

    /// The parser is `before` with the cursor moved to `pos`.
    pub open spec fn moved(&self, before: &Parser<'a>, pos: int) -> bool {
        &&& self.tokens == before.tokens
        &&& self.ast == before.ast
        &&& self.pos == pos
    }

    /// A parser at the start of `tokens`, with no tree yet.
    pub fn new(tokens: &'a [Token]) -> (parser: Parser<'a>)
        ensures
            parser.tokens == tokens,
            parser.pos == 0,
            parser.ast is None,
    {
        Parser { tokens, pos: 0, ast: None }
    }

    /// Parses the value at the cursor and keeps its tree in `ast`. On an
    /// error the parser is left as it was.
    pub fn generate(&mut self) -> (r: Result<(), ParseError>)
        ensures
            match r {
                Ok(_) => {
                    &&& final(self).ast is Some
                    &&& value_at(old(self).input(), old(self).pos as int) == Ok::<
                        (TreeView, nat),
                        ParseError,
                    >((final(self).ast->0@, (final(self).pos - old(self).pos) as nat))
                    &&& final(self).tokens == old(self).tokens
                    &&& old(self).pos < final(self).pos <= old(self).tokens.len()
                },
                Err(e) => {
                    &&& value_at(old(self).input(), old(self).pos as int) == Err::<
                        (TreeView, nat),
                        ParseError,
                    >(e)
                    &&& *final(self) == *old(self)
                },
            },
    {
        match self.parse() {
            Ok(tree) => {
                self.ast = Some(tree);
                Ok(())
            },
            Err(e) => Err(e),
        }
    }

    /// The kind of the token at the cursor, if one is left.
    pub fn peek_kind(&self) -> (kind: Option<TokenType>)
        ensures
            kind == kind_at(self.input(), self.pos as int),
            kind is Some <==> self.pos < self.tokens.len(),
    {
        if self.pos < self.tokens.len() {
            Some(self.tokens[self.pos].token_type)
        } else {
            None
        }
    }

    /// Whether the token at the cursor is of the kind `kind`.
    pub fn at(&self, kind: TokenType) -> (b: bool)
        ensures
            b == (kind_at(self.input(), self.pos as int) == Some(kind)),
    {
        match self.peek_kind() {
            Some(found) => found == kind,
            None => false,
        }
    }

    /// Parses the value at the cursor. On success the cursor stands behind
    /// the value; on an error the parser is left as it was.
    pub fn parse(&mut self) -> (r: Result<TreeValue, ParseError>)
        ensures
            match r {
                Ok(tree) => {
                    &&& value_at(old(self).input(), old(self).pos as int) == Ok::<
                        (TreeView, nat),
                        ParseError,
                    >((tree@, (final(self).pos - old(self).pos) as nat))
                    &&& final(self).moved(old(self), final(self).pos as int)
                    &&& old(self).pos < final(self).pos <= old(self).tokens.len()
                },
                Err(e) => {
                    &&& value_at(old(self).input(), old(self).pos as int) == Err::<
                        (TreeView, nat),
                        ParseError,
                    >(e)
                    &&& *final(self) == *old(self)
                },
            },
        decreases old(self).tokens.len() - old(self).pos, 2int,
    {
        match self.peek_kind() {
            None => Err(ParseError::UnexpectedEndOfInput),
            Some(TokenType::OpenObject) => match self.parse_object() {
                Ok(members) => {
                    proof {
                        lemma_object_view(members);
                    }
                    Ok(TreeValue::Object(members))
                },
                Err(e) => Err(e),
            },
            Some(TokenType::OpenArray) => match self.parse_array() {
                Ok(elements) => {
                    proof {
                        lemma_array_view(elements);
                    }
                    Ok(TreeValue::Array(elements))
                },
                Err(e) => Err(e),
            },
            Some(TokenType::True) | Some(TokenType::False) | Some(TokenType::Null) | Some(
                TokenType::Number,
            ) | Some(TokenType::String) => self.parse_basic(),
            Some(_) => Err(ParseError::UnexpectedToken),
        }
    }

    /// Parses the leaf at the cursor: one token, which must be a string, a
    /// number or a keyword. On an error the parser is left as it was.
    pub fn parse_basic(&mut self) -> (r: Result<TreeValue, ParseError>)
        ensures
            match r {
                Ok(tree) => {
                    &&& leaf_at(old(self).input(), old(self).pos as int) == Ok::<
                        (TreeView, nat),
                        ParseError,
                    >((tree@, (final(self).pos - old(self).pos) as nat))
                    &&& final(self).moved(old(self), old(self).pos + 1)
                    &&& old(self).pos < old(self).tokens.len()
                },
                Err(e) => {
                    &&& leaf_at(old(self).input(), old(self).pos as int) == Err::<
                        (TreeView, nat),
                        ParseError,
                    >(e)
                    &&& *final(self) == *old(self)
                },
            },
    {
        if self.pos >= self.tokens.len() {
            return Err(ParseError::UnexpectedEndOfInput);
        }
        let tokens = self.tokens;
        let token = &tokens[self.pos];
        let leaf = match token.token_type {
            TokenType::True => TreeValue::True,
            TokenType::False => TreeValue::False,
            TokenType::Null => TreeValue::Null,
            TokenType::String => TreeValue::String(token.value.clone()),
            TokenType::Number => {
                if !number_text_ok(token.value.as_str()) {
                    return Err(ParseError::InvalidNumber);
                }
                TreeValue::Number(token.value.clone())
            },
            _ => {
                return Err(ParseError::UnexpectedToken);
            },
        };
        self.pos = self.pos + 1;
        Ok(leaf)
    }

    /// Parses the object at the cursor: the opening brace, the members with
    /// commas between them, and the closing brace. On an error the parser is
    /// left as it was.
    pub fn parse_object(&mut self) -> (r: Result<Vec<(String, TreeValue)>, ParseError>)
        ensures
            match r {
                Ok(members) => {
                    &&& object_at(old(self).input(), old(self).pos as int) == Ok::<
                        (Seq<MemberView>, nat),
                        ParseError,
                    >((member_views(members@), (final(self).pos - old(self).pos) as nat))
                    &&& final(self).moved(old(self), final(self).pos as int)
                    &&& old(self).pos < final(self).pos <= old(self).tokens.len()
                },
                Err(e) => {
                    &&& object_at(old(self).input(), old(self).pos as int) == Err::<
                        (Seq<MemberView>, nat),
                        ParseError,
                    >(e)
                    &&& *final(self) == *old(self)
                },
            },
        decreases old(self).tokens.len() - old(self).pos, 1int,
    {
        let start = self.pos;
        let ghost t = self.input();
        match self.consume_token(TokenType::OpenObject) {
            Ok(_) => {},
            Err(e) => {
                self.pos = start;
                return Err(e);
            },
        }
        let mut properties: Vec<(String, TreeValue)> = Vec::new();
        if self.at(TokenType::CloseObject) {
            self.pos = self.pos + 1;
            assert(member_views(properties@) =~= Seq::empty());
            return Ok(properties);
        }
        proof {
            assert(member_views(properties@) =~= Seq::empty());
        }
        loop
            invariant
                self.tokens == old(self).tokens,
                self.ast == old(self).ast,
                t == self.input(),
                start == old(self).pos,
                start < self.pos <= self.tokens.len(),
                object_at(t, start as int) == items_then(
                    member_views(properties@),
                    (self.pos - start) as nat,
                    members_at(t, self.pos as int),
                ),
            decreases self.tokens.len() - self.pos,
        {
            let ghost done = member_views(properties@);
            let ghost at = self.pos as int;
            let key = match self.consume_string() {
                Ok(key) => key,
                Err(e) => {
                    self.pos = start;
                    return Err(e);
                },
            };
            match self.consume_token(TokenType::Colon) {
                Ok(_) => {},
                Err(e) => {
                    self.pos = start;
                    return Err(e);
                },
            }
            let value = match self.parse() {
                Ok(value) => value,
                Err(e) => {
                    self.pos = start;
                    return Err(e);
                },
            };
            let closed = match self.separator(
                TokenType::CloseObject,
                ParseError::ExpectedCommaOrCloseObject,
                ParseError::ExpectedCommaOrCloseObject,
            ) {
                Ok(closed) => closed,
                Err(e) => {
                    self.pos = start;
                    return Err(e);
                },
            };
            proof {
                let member = (key@, value@);
                assert(member_views(properties@.push((key, value))) =~= done.push(member));
                if closed {
                    assert(done + seq![member] =~= done.push(member));
                } else {
                    lemma_items_then_push(
                        done,
                        (at - start) as nat,
                        member,
                        (self.pos - at) as nat,
                        members_at(t, self.pos as int),
                    );
                }
            }
            properties.push((key, value));
            if closed {
                return Ok(properties);
            }
        }
    }

    /// Parses the array at the cursor: the opening bracket, the elements
    /// with commas between them, and the closing bracket. On an error the
    /// parser is left as it was.
    pub fn parse_array(&mut self) -> (r: Result<Vec<TreeValue>, ParseError>)
        ensures
            match r {
                Ok(elements) => {
                    &&& array_at(old(self).input(), old(self).pos as int) == Ok::<
                        (Seq<TreeView>, nat),
                        ParseError,
                    >((element_views(elements@), (final(self).pos - old(self).pos) as nat))
                    &&& final(self).moved(old(self), final(self).pos as int)
                    &&& old(self).pos < final(self).pos <= old(self).tokens.len()
                },
                Err(e) => {
                    &&& array_at(old(self).input(), old(self).pos as int) == Err::<
                        (Seq<TreeView>, nat),
                        ParseError,
                    >(e)
                    &&& *final(self) == *old(self)
                },
            },
        decreases old(self).tokens.len() - old(self).pos, 1int,
    {
        let start = self.pos;
        let ghost t = self.input();
        match self.consume_token(TokenType::OpenArray) {
            Ok(_) => {},
            Err(e) => {
                self.pos = start;
                return Err(e);
            },
        }
        let mut elements: Vec<TreeValue> = Vec::new();
        if self.at(TokenType::CloseArray) {
            self.pos = self.pos + 1;
            assert(element_views(elements@) =~= Seq::empty());
            return Ok(elements);
        }
        proof {
            assert(element_views(elements@) =~= Seq::empty());
        }
        loop
            invariant
                self.tokens == old(self).tokens,
                self.ast == old(self).ast,
                t == self.input(),
                start == old(self).pos,
                start < self.pos <= self.tokens.len(),
                array_at(t, start as int) == items_then(
                    element_views(elements@),
                    (self.pos - start) as nat,
                    elements_at(t, self.pos as int),
                ),
            decreases self.tokens.len() - self.pos,
        {
            let ghost done = element_views(elements@);
            let ghost at = self.pos as int;
            let element = match self.parse() {
                Ok(element) => element,
                Err(e) => {
                    self.pos = start;
                    return Err(e);
                },
            };
            let closed = match self.separator(
                TokenType::CloseArray,
                ParseError::ExpectedCommaOrCloseArray,
                ParseError::UnexpectedEndOfInput,
            ) {
                Ok(closed) => closed,
                Err(e) => {
                    self.pos = start;
                    return Err(e);
                },
            };
            proof {
                assert(element_views(elements@.push(element)) =~= done.push(element@));
                if closed {
                    assert(done + seq![element@] =~= done.push(element@));
                } else {
                    lemma_items_then_push(
                        done,
                        (at - start) as nat,
                        element@,
                        (self.pos - at) as nat,
                        elements_at(t, self.pos as int),
                    );
                }
            }
            elements.push(element);
            if closed {
                return Ok(elements);
            }
        }
    }

    /// Reads what follows an item: a comma, after which `close` may not
    /// stand (`false`: more items follow), or `close` (`true`). Either is
    /// consumed. Another token gives `otherwise`, and the end of the tokens
    /// `at_end`. On an error the parser is left as it was.
    pub fn separator(&mut self, close: TokenType, otherwise: ParseError, at_end: ParseError) -> (r:
        Result<bool, ParseError>)
        ensures
            r == separator_at(old(self).input(), old(self).pos as int, close, otherwise, at_end),
            match r {
                Ok(_) => final(self).moved(old(self), old(self).pos + 1) && old(self).pos < old(
                    self,
                ).tokens.len(),
                Err(_) => *final(self) == *old(self),
            },
    {
        match self.peek_kind() {
            None => Err(at_end),
            Some(kind) => {
                if kind == TokenType::Comma {
                    self.pos = self.pos + 1;
                    if self.at(close) {
                        self.pos = self.pos - 1;
                        Err(ParseError::TrailingComma)
                    } else {
                        Ok(false)
                    }
                } else if kind == close {
                    self.pos = self.pos + 1;
                    Ok(true)
                } else {
                    Err(otherwise)
                }
            },
        }
    }

    /// Consumes the token at the cursor, which must be a string, and gives
    /// its text. A token of another kind is consumed too; at the end of the
    /// tokens nothing moves.
    pub fn consume_string(&mut self) -> (r: Result<String, ParseError>)
        ensures
            match r {
                Ok(text) => {
                    &&& token_at(old(self).input(), old(self).pos as int, TokenType::String) is Ok
                    &&& text@ == old(self).input()[old(self).pos as int].value
                    &&& final(self).moved(old(self), old(self).pos + 1)
                },
                Err(e) => {
                    &&& token_at(old(self).input(), old(self).pos as int, TokenType::String) == Err::<
                        (),
                        ParseError,
                    >(e)
                    &&& if old(self).pos < old(self).tokens.len() {
                        final(self).moved(old(self), old(self).pos + 1)
                    } else {
                        *final(self) == *old(self)
                    }
                },
            },
    {
        match self.consume_token(TokenType::String) {
            Ok(_) => {
                let tokens = self.tokens;
                Ok(tokens[self.pos - 1].value.clone())
            },
            Err(e) => Err(e),
        }
    }

    /// Consumes the token at the cursor, which must be of the kind
    /// `expected`. A token of another kind is consumed too; at the end of
    /// the tokens nothing moves.
    pub fn consume_token(&mut self, expected: TokenType) -> (r: Result<(), ParseError>)
        ensures
            r == token_at(old(self).input(), old(self).pos as int, expected),
            if old(self).pos < old(self).tokens.len() {
                final(self).moved(old(self), old(self).pos + 1)
            } else {
                *final(self) == *old(self)
            },
    {
        match self.peek_kind() {
            None => Err(ParseError::UnexpectedEndOfInput),
            Some(kind) => {
                self.pos = self.pos + 1;
                if kind == expected {
                    Ok(())
                } else {
                    Err(mismatch_of(expected))
                }
            },
        }
    }
}

/// The error for a token that is not the `expected` one.
pub fn mismatch_of(expected: TokenType) -> (e: ParseError)
    ensures
        e == mismatch(expected),
{
    match expected {
        TokenType::Colon => ParseError::ExpectedColon,
        TokenType::String => ParseError::ExpectedStringKey,
        _ => ParseError::UnexpectedToken,
    }
}

/// Builds the tree of the value that starts `tokens`. Tokens after that
/// value are not looked at: whether any may follow is for the caller to say.
pub fn build(tokens: &[Token]) -> (r: Result<TreeValue, ParseError>)
    ensures
        match r {
            Ok(tree) => tree_of(token_views(tokens@)) == Ok::<TreeView, ParseError>(tree@),
            Err(e) => tree_of(token_views(tokens@)) == Err::<TreeView, ParseError>(e),
        },
{
    let mut parser = Parser::new(tokens);
    parser.parse()
}

} // verus!
