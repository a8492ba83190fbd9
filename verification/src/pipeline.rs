//! Text to tree in one call: the tokenizer, then the tree builder.

use crate::lexer::{
    all_space, lemma_lexed_tokens, lemma_number_lexeme_parses, lemma_whitespace_only, lex,
    lexeme_text, tokenize, LexError, LexErrorView,
};
use crate::parser::{build, lemma_value_numbers, numbers_are_floats, tree_of, ParseError};
use crate::render::{
    all_lexemes, lemma_built_value, lemma_tokens_are_lexemes, lemma_value_of_tokens,
    numbers_decimal, strings_quote_free, tokens_of,
};
use crate::spelling::{ascii_alphabetic_are_letters, lemma_lex_of_spelling, text_of};
use crate::token::{TokenType, TokenView};
use crate::tree::{is_number_text, TreeValue, TreeView};
use vstd::prelude::*;

verus! {

/// Why a text has no tree: the error of the stage that stopped.
#[derive(Debug, PartialEq, Eq)]
pub enum JsonError {
    Lex(LexError),
    Parse(ParseError),
}

/// The mathematical value of a `JsonError`.
pub enum JsonErrorView {
    Lex(LexErrorView),
    Parse(ParseError),
}

impl View for JsonError {
    type V = JsonErrorView;

    open spec fn view(&self) -> JsonErrorView {
        match self {
            JsonError::Lex(e) => JsonErrorView::Lex(e@),
            JsonError::Parse(e) => JsonErrorView::Parse(*e),
        }
    }
}

/// The tree of the text `s`: the tree of its tokens, or the error of the
/// first stage that fails.
pub open spec fn tree_of_text(s: Seq<char>) -> Result<TreeView, JsonErrorView> {
    match lex(s) {
        Err(e) => Err(JsonErrorView::Lex(e)),
        Ok(tokens) => match tree_of(tokens) {
            Err(e) => Err(JsonErrorView::Parse(e)),
            Ok(tree) => Ok(tree),
        },
    }
}

/// Tokenizes `input` and builds the tree of its tokens.
pub fn parse_json_complete(input: &str) -> (r: Result<TreeValue, JsonError>)
    ensures
        match r {
            Ok(tree) => tree_of_text(input@) == Ok::<TreeView, JsonErrorView>(tree@),
            Err(e) => tree_of_text(input@) == Err::<TreeView, JsonErrorView>(e@),
        },
{
    let tokens = match tokenize(input) {
        Ok(tokens) => tokens,
        Err(e) => {
            return Err(JsonError::Lex(e));
        },
    };
    match build(tokens.as_slice()) {
        Ok(tree) => Ok(tree),
        Err(e) => Err(JsonError::Parse(e)),
    }
}

/// No tokens hold no value: building from none fails at the end of input.
/// So does a text that holds nothing but whitespace.
pub proof fn lemma_nothing_to_build(s: Seq<char>)
    requires
        all_space(s),
    ensures
        tree_of(Seq::<TokenView>::empty()) == Err::<TreeView, ParseError>(
            ParseError::UnexpectedEndOfInput,
        ),
        tree_of_text(s) == Err::<TreeView, JsonErrorView>(
            JsonErrorView::Parse(ParseError::UnexpectedEndOfInput),
        ),
{
    lemma_whitespace_only(s);
}

/// The tokenizer makes no number token that the tree builder refuses: no
/// text fails with `InvalidNumber`.
pub proof fn lemma_numbers_of_text(s: Seq<char>)
    ensures
        lex(s) is Ok ==> numbers_are_floats(lex(s)->Ok_0),
        tree_of_text(s) != Err::<TreeView, JsonErrorView>(
            JsonErrorView::Parse(ParseError::InvalidNumber),
        ),
{
    if let Ok(tokens) = lex(s) {
        lemma_lexed_tokens(s, 0);
        assert forall|k: int|
            0 <= k < tokens.len() && (#[trigger] tokens[k]).token_type
                == TokenType::Number implies is_number_text(tokens[k].value) by {
            assert(lexeme_text(tokens[k]));
            lemma_number_lexeme_parses(tokens[k].value);
        }
        lemma_value_numbers(tokens, 0);
    }
}

/// The canonical text of a tree: the spelling of each of its canonical
/// tokens, with a space behind it.
pub open spec fn canonical_text(tree: TreeView) -> Seq<char> {
    text_of(tokens_of(tree), 0)
}

/// The canonical text of a tree has that tree, where the numbers of the tree
/// are decimal, its strings and keys hold no quote, and the alphabetic
/// characters among the ASCII characters are the ASCII letters.
pub proof fn lemma_canonical_text(tree: TreeView)
    requires
        numbers_decimal(tree),
        strings_quote_free(tree),
    ensures
        ascii_alphabetic_are_letters() ==> tree_of_text(canonical_text(tree)) == Ok::<
            TreeView,
            JsonErrorView,
        >(tree),
{
    let tokens = tokens_of(tree);
    lemma_tokens_are_lexemes(tree);
    lemma_lex_of_spelling(tokens);
    lemma_value_of_tokens(tree, tokens, 0);
}

/// A tree that a text has is the tree of its own canonical text, where the
/// alphabetic characters among the ASCII characters are the ASCII letters.
pub proof fn lemma_round_trip(s: Seq<char>)
    ensures
        tree_of_text(s) is Ok && ascii_alphabetic_are_letters() ==> tree_of_text(
            canonical_text(tree_of_text(s)->Ok_0),
        ) == tree_of_text(s),
{
    if let Ok(tree) = tree_of_text(s) {
        let tokens = lex(s)->Ok_0;
        lemma_lexed_tokens(s, 0);
        assert(all_lexemes(tokens));
        lemma_built_value(tokens, 0);
        lemma_canonical_text(tree);
    }
}

} // verus!
