//! The canonical text of tokens, and the proof that tokenizing it gives the
//! tokens back.

use crate::chars::{
    alphabetic, is_ascii_letter, is_space, lemma_run_holds, lemma_run_len, lemma_run_stops,
    lemma_run_within, run_len, run_text, CharClass,
};
use crate::lexer::{
    char_at_is, decimal_part_at, is_number_lexeme, keyword_kind, keyword_lexeme, lex_from,
    lexeme_at, lexeme_text, number_len,
    number_lexeme, token_then, LexErrorView,
};
use crate::token::{TokenType, TokenView};
use vstd::prelude::*;

verus! {

/// Whether the alphabetic characters among the ASCII characters are the
/// ASCII letters.
pub open spec fn ascii_alphabetic_are_letters() -> bool {
    forall|c: char| c <= '\u{7f}' ==> #[trigger] alphabetic(c) == is_ascii_letter(c)
}

/// The canonical spelling of a token: its text, between quotes for a string.
pub open spec fn spelling(token: TokenView) -> Seq<char> {
    if token.token_type == TokenType::String {
        seq!['"'] + token.value + seq!['"']
    } else {
        token.value
    }
}

/// The canonical text of the tokens from the `k`-th on: the spelling of
/// each, with a space behind it.
pub open spec fn text_of(tokens: Seq<TokenView>, k: nat) -> Seq<char>
    decreases tokens.len() - k,
{
    if k >= tokens.len() {
        Seq::empty()
    } else {
        spelling(tokens[k as int]) + seq![' '] + text_of(tokens, k + 1)
    }
}

/// The characters `r` stand in `s` from index `p` on.
pub open spec fn spelled_at(s: Seq<char>, p: int, r: Seq<char>) -> bool {
    &&& 0 <= p
    &&& p + r.len() <= s.len()
    &&& forall|k: int| 0 <= k < r.len() ==> s[p + k] == #[trigger] r[k]
}

/// Where `a + b` stands, `a` stands, and `b` stands behind it.
pub proof fn lemma_spelled_split(s: Seq<char>, p: int, a: Seq<char>, b: Seq<char>)
    requires
        spelled_at(s, p, a + b),
    ensures
        spelled_at(s, p, a),
        spelled_at(s, p + a.len(), b),
{
    let r = a + b;
    assert forall|k: int| 0 <= k < a.len() implies s[p + k] == #[trigger] a[k] by {
        assert(r[k] == a[k]);
    }
    assert forall|k: int| 0 <= k < b.len() implies s[p + a.len() + k] == #[trigger] b[k] by {
        assert(r[a.len() + k] == b[k]);
    }
}

/// A run of `class` that stands in `s` at `p`, with a character outside the
/// class behind it, is the run of `s` at `p`.
proof fn lemma_run_spelled(s: Seq<char>, p: int, r: Seq<char>, class: CharClass)
    requires
        spelled_at(s, p, r),
        forall|k: int| 0 <= k < r.len() ==> class.holds(#[trigger] r[k]),
        p + r.len() < s.len() ==> !class.holds(s[p + r.len()]),
    ensures
        run_len(s, p, class) == r.len(),
        run_text(s, p, class) == r,
{
    assert forall|k: int| p <= k < p + r.len() implies class.holds(#[trigger] s[k]) by {
        assert(s[p + (k - p)] == r[k - p]);
    }
    lemma_run_len(s, p, r.len() as int, class);
    assert(s.subrange(p, p + r.len()) =~= r) by {
        assert forall|k: int| 0 <= k < r.len() implies s.subrange(p, p + r.len())[k] == r[k] by {
            assert(s[p + k] == r[k]);
        }
    }
}

/// A number lexeme that stands in `s` at `p`, with a space behind it, is
/// the number lexeme of `s` at `p`.
proof fn lemma_number_spelled(s: Seq<char>, p: int, text: Seq<char>)
    requires
        is_number_lexeme(text),
        spelled_at(s, p, text + seq![' ']),
    ensures
        number_lexeme(s, p) == (
            TokenView { token_type: TokenType::Number, value: text },
            p + text.len(),
        ),
{
    let digit = CharClass::Digit;
    let whole = run_len(text, 0, digit) as int;
    lemma_spelled_split(s, p, text, seq![' ']);
    assert(s[p + text.len() + 0] == seq![' '][0]);
    lemma_run_within(text, 0, digit);
    lemma_run_holds(text, 0, digit);
    lemma_run_stops(text, 0, digit);
    let head = text.subrange(0, whole);
    assert(spelled_at(s, p, head)) by {
        assert forall|k: int| 0 <= k < head.len() implies s[p + k] == #[trigger] head[k] by {
            assert(s[p + k] == text[k]);
        }
    }
    assert(p + whole < s.len() && !digit.holds(s[p + whole])) by {
        if whole < text.len() {
            assert(s[p + whole] == text[whole]);
        }
    }
    lemma_run_spelled(s, p, head, digit);
    if decimal_part_at(text, whole) {
        assert(s[p + whole] == text[whole]);
        let fraction = run_len(text, whole + 1, digit) as int;
        lemma_run_within(text, whole + 1, digit);
        lemma_run_holds(text, whole + 1, digit);
        let tail = text.subrange(whole + 1, whole + 1 + fraction);
        assert(spelled_at(s, p + whole + 1, tail)) by {
            assert forall|k: int| 0 <= k < tail.len() implies s[p + whole + 1 + k]
                == #[trigger] tail[k] by {
                assert(s[p + (whole + 1 + k)] == text[whole + 1 + k]);
            }
        }
        lemma_run_spelled(s, p + whole + 1, tail, digit);
    } else {
        assert(whole == text.len());
        assert(!char_at_is(s, p + whole, '.'));
    }
    assert(number_len(s, p) == text.len());
    assert(s.subrange(p, p + text.len()) =~= text) by {
        assert forall|k: int| 0 <= k < text.len() implies s.subrange(p, p + text.len())[k]
            == text[k] by {
            assert(s[p + k] == text[k]);
        }
    }
}

/// A keyword that stands in `s` at `p`, with a space behind it, is the
/// keyword lexeme of `s` at `p`.
proof fn lemma_keyword_spelled(s: Seq<char>, p: int, word: Seq<char>)
    requires
        ascii_alphabetic_are_letters(),
        keyword_kind(word) is Some,
        spelled_at(s, p, word + seq![' ']),
    ensures
        keyword_lexeme(s, p) == Ok::<(TokenView, int), LexErrorView>(
            (TokenView { token_type: keyword_kind(word)->0, value: word }, p + word.len()),
        ),
        is_ascii_letter(s[p]),
{
    lemma_spelled_split(s, p, word, seq![' ']);
    assert(s[p + word.len() + 0] == seq![' '][0]);
    assert(!alphabetic(' '));
    assert forall|k: int| 0 <= k < word.len() implies CharClass::Letter.holds(
        #[trigger] word[k],
    ) by {
        let c = word[k];
        assert(is_ascii_letter(c));
        assert(alphabetic(c));
    }
    lemma_run_spelled(s, p, word, CharClass::Letter);
    assert(s[p + 0] == word[0]);
}

/// The spelling of a token that stands in `s` at `p`, with a space behind
/// it, is the lexeme of `s` at `p`, and that lexeme gives the token.
proof fn lemma_lexeme_spelled(s: Seq<char>, p: int, token: TokenView)
    requires
        ascii_alphabetic_are_letters(),
        lexeme_text(token),
        spelled_at(s, p, spelling(token) + seq![' ']),
    ensures
        0 <= p < s.len(),
        !is_space(s[p]),
        lexeme_at(s, p) == Ok::<(TokenView, int), LexErrorView>(
            (token, p + spelling(token).len()),
        ),
        p + spelling(token).len() < s.len(),
        is_space(s[p + spelling(token).len()]),
{
    let space = seq![' '];
    lemma_spelled_split(s, p, spelling(token), space);
    assert(s[p + spelling(token).len() + 0] == space[0]);
    match token.token_type {
        TokenType::String => {
            let quote = seq!['"'];
            assert(spelling(token) =~= quote + (token.value + quote));
            lemma_spelled_split(s, p, quote, token.value + quote);
            assert(s[p + 0] == quote[0]);
            lemma_spelled_split(s, p + 1, token.value, quote);
            assert(s[p + 1 + token.value.len() + 0] == quote[0]);
            lemma_run_spelled(s, p + 1, token.value, CharClass::StringBody);
        },
        TokenType::Number => {
            lemma_number_spelled(s, p, token.value);
            assert(s[p + 0] == token.value[0]);
        },
        TokenType::True | TokenType::False | TokenType::Null => {
            lemma_keyword_spelled(s, p, token.value);
        },
        _ => {
            assert(s[p + 0] == token.value[0]);
            assert(token.value =~= seq![token.value[0]]);
        },
    }
}

/// Tokenizing the canonical text of tokens that hold lexemes of their kinds
/// gives the tokens back, wherever that text ends `s`.
proof fn lemma_lex_of_text(tokens: Seq<TokenView>, k: nat, s: Seq<char>, p: int)
    requires
        ascii_alphabetic_are_letters(),
        forall|j: int| 0 <= j < tokens.len() ==> lexeme_text(#[trigger] tokens[j]),
        k <= tokens.len(),
        spelled_at(s, p, text_of(tokens, k)),
        p + text_of(tokens, k).len() == s.len(),
    ensures
        lex_from(s, p) == Ok::<Seq<TokenView>, LexErrorView>(tokens.skip(k as int)),
    decreases tokens.len() - k,
{
    if k >= tokens.len() {
        assert(tokens.skip(k as int) =~= Seq::empty());
    } else {
        let token = tokens[k as int];
        let space = seq![' '];
        let rest = text_of(tokens, k + 1);
        assert(text_of(tokens, k) =~= (spelling(token) + space) + rest);
        lemma_spelled_split(s, p, spelling(token) + space, rest);
        lemma_lexeme_spelled(s, p, token);
        let next = p + spelling(token).len();
        lemma_lex_of_text(tokens, k + 1, s, next + 1);
        assert(lex_from(s, next) == lex_from(s, next + 1));
        assert(lex_from(s, p) == token_then(token, lex_from(s, next)));
        assert(seq![token] + tokens.skip(k + 1 as int) =~= tokens.skip(k as int));
    }
}

/// Tokenizing the canonical text of tokens gives the tokens back, where each
/// token holds a lexeme of its kind and the alphabetic characters among the
/// ASCII characters are the ASCII letters.
pub proof fn lemma_lex_of_spelling(tokens: Seq<TokenView>)
    requires
        forall|j: int| 0 <= j < tokens.len() ==> lexeme_text(#[trigger] tokens[j]),
    ensures
        ascii_alphabetic_are_letters() ==> lex_from(text_of(tokens, 0), 0) == Ok::<
            Seq<TokenView>,
            LexErrorView,
        >(tokens),
{
    if ascii_alphabetic_are_letters() {
        lemma_lex_of_text(tokens, 0, text_of(tokens, 0), 0);
        assert(tokens.skip(0) =~= tokens);
    }
}

} // verus!
