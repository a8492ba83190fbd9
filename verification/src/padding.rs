//! Whitespace around a text: the proof that it leaves the tokens as they
//! are.

use crate::chars::{
    alphabetic, is_digit, is_space, lemma_run_within, run_len, run_text, CharClass,
};
use crate::lexer::{
    all_space, decimal_part_at, lemma_lexeme_advances, lex, lex_from, lexeme_at,
    number_len, simple_kind, LexErrorView,
};
use crate::token::TokenView;
use vstd::prelude::*;

verus! {

/// Whether none of the whitespace characters is alphabetic.
pub open spec fn space_is_not_alphabetic() -> bool {
    forall|c: char| is_space(c) ==> !#[trigger] alphabetic(c)
}

/// A run of `s` is the same run behind any text before `s`.
pub proof fn lemma_run_shift(before: Seq<char>, s: Seq<char>, i: int, class: CharClass)
    requires
        0 <= i <= s.len(),
    ensures
        run_len(before + s, before.len() + i, class) == run_len(s, i, class),
        run_text(before + s, before.len() + i, class) == run_text(s, i, class),
    decreases s.len() - i,
{
    let u = before + s;
    if i < s.len() {
        assert(u[before.len() + i] == s[i]);
        if class.holds(s[i]) {
            lemma_run_shift(before, s, i + 1, class);
        }
    }
    lemma_run_within(s, i, class);
    let n = run_len(s, i, class) as int;
    assert(u.subrange(before.len() + i, before.len() + i + n) =~= s.subrange(i, i + n));
}

/// A run of `s` is the same run before any text behind `s` that does not
/// start with a character of the class.
pub proof fn lemma_run_extend(s: Seq<char>, after: Seq<char>, i: int, class: CharClass)
    requires
        0 <= i <= s.len(),
        after.len() == 0 || !class.holds(after[0]) || i + run_len(s, i, class) < s.len(),
    ensures
        run_len(s + after, i, class) == run_len(s, i, class),
        run_text(s + after, i, class) == run_text(s, i, class),
    decreases s.len() - i,
{
    let v = s + after;
    if i < s.len() {
        assert(v[i] == s[i]);
        if class.holds(s[i]) {
            lemma_run_extend(s, after, i + 1, class);
        }
    } else if after.len() > 0 {
        assert(v[i] == after[0]);
    }
    lemma_run_within(s, i, class);
    let n = run_len(s, i, class) as int;
    assert(v.subrange(i, i + n) =~= s.subrange(i, i + n));
}

/// A lexeme of `s` is the same lexeme, further on, behind any text before
/// `s`.
pub proof fn lemma_lexeme_shift(before: Seq<char>, s: Seq<char>, i: int)
    requires
        0 <= i < s.len(),
        lexeme_at(s, i) is Ok,
    ensures
        lexeme_at(before + s, before.len() + i) == Ok::<(TokenView, int), LexErrorView>(
            (lexeme_at(s, i)->Ok_0.0, lexeme_at(s, i)->Ok_0.1 + before.len()),
        ),
{
    let u = before + s;
    let b = before.len() as int;
    let c = s[i];
    assert(u[b + i] == c);
    if simple_kind(c) is Some {
    } else if c == '"' {
        lemma_run_shift(before, s, i + 1, CharClass::StringBody);
        lemma_run_within(s, i + 1, CharClass::StringBody);
    } else if is_digit(c) {
        let digit = CharClass::Digit;
        let whole = run_len(s, i, digit) as int;
        lemma_run_shift(before, s, i, digit);
        lemma_run_within(s, i, digit);
        if i + whole < s.len() {
            assert(u[b + i + whole] == s[i + whole]);
            lemma_run_shift(before, s, i + whole + 1, digit);
            lemma_run_within(s, i + whole + 1, digit);
        }
        assert(decimal_part_at(u, b + i + whole) == decimal_part_at(s, i + whole));
        assert(number_len(u, b + i) == number_len(s, i));
        let n = number_len(s, i) as int;
        assert(u.subrange(b + i, b + i + n) =~= s.subrange(i, i + n));
    } else {
        lemma_run_shift(before, s, i, CharClass::Letter);
    }
}

/// A lexeme of `s` is the same lexeme before whitespace behind `s`, where
/// whitespace is not alphabetic.
proof fn lemma_lexeme_extend(s: Seq<char>, after: Seq<char>, i: int)
    requires
        space_is_not_alphabetic(),
        all_space(after),
        0 <= i < s.len(),
        lexeme_at(s, i) is Ok,
    ensures
        lexeme_at(s + after, i) == lexeme_at(s, i),
{
    let v = s + after;
    let c = s[i];
    assert(v[i] == c);
    if after.len() > 0 {
        assert(is_space(after[0]));
        assert(!alphabetic(after[0]));
    }
    if simple_kind(c) is Some {
    } else if c == '"' {
        lemma_run_within(s, i + 1, CharClass::StringBody);
        lemma_run_extend(s, after, i + 1, CharClass::StringBody);
    } else if is_digit(c) {
        let digit = CharClass::Digit;
        let whole = run_len(s, i, digit) as int;
        lemma_run_extend(s, after, i, digit);
        lemma_run_within(s, i, digit);
        if i + whole < s.len() {
            assert(v[i + whole] == s[i + whole]);
            lemma_run_extend(s, after, i + whole + 1, digit);
            lemma_run_within(s, i + whole + 1, digit);
        } else if after.len() > 0 {
            assert(v[i + whole] == after[0]);
        }
        assert(decimal_part_at(v, i + whole) == decimal_part_at(s, i + whole));
        assert(number_len(v, i) == number_len(s, i));
        let n = number_len(s, i) as int;
        assert(v.subrange(i, i + n) =~= s.subrange(i, i + n));
    } else {
        lemma_run_extend(s, after, i, CharClass::Letter);
    }
}

/// Whitespace from `k` up to `b` is passed over.
pub proof fn lemma_skip_space(u: Seq<char>, k: int, b: int)
    requires
        0 <= k <= b <= u.len(),
        forall|j: int| k <= j < b ==> is_space(#[trigger] u[j]),
    ensures
        lex_from(u, k) == lex_from(u, b),
    decreases b - k,
{
    if k < b {
        assert(is_space(u[k]));
        lemma_skip_space(u, k + 1, b);
    }
}

/// The tokens of `s` from `i` on are those of `before + s` from the same
/// place on.
pub proof fn lemma_lex_shift(before: Seq<char>, s: Seq<char>, i: int)
    requires
        0 <= i <= s.len(),
        lex_from(s, i) is Ok,
    ensures
        lex_from(before + s, before.len() + i) == lex_from(s, i),
    decreases s.len() - i,
{
    let u = before + s;
    let b = before.len() as int;
    if i < s.len() {
        assert(u[b + i] == s[i]);
        if is_space(s[i]) {
            lemma_lex_shift(before, s, i + 1);
        } else {
            lemma_lexeme_advances(s, i);
            lemma_lexeme_shift(before, s, i);
            lemma_lex_shift(before, s, lexeme_at(s, i)->Ok_0.1);
        }
    }
}

/// The tokens of `s` from `i` on are those of `s + after` from there on,
/// where `after` is whitespace and whitespace is not alphabetic.
proof fn lemma_lex_extend(s: Seq<char>, after: Seq<char>, i: int)
    requires
        space_is_not_alphabetic(),
        all_space(after),
        0 <= i <= s.len(),
        lex_from(s, i) is Ok,
    ensures
        lex_from(s + after, i) == lex_from(s, i),
    decreases s.len() - i,
{
    let v = s + after;
    if i < s.len() {
        assert(v[i] == s[i]);
        if is_space(s[i]) {
            lemma_lex_extend(s, after, i + 1);
        } else {
            lemma_lexeme_advances(s, i);
            lemma_lexeme_extend(s, after, i);
            lemma_lex_extend(s, after, lexeme_at(s, i)->Ok_0.1);
        }
    } else {
        assert forall|j: int| i <= j < v.len() implies is_space(#[trigger] v[j]) by {
            assert(v[j] == after[j - s.len()]);
        }
        lemma_skip_space(v, i, v.len() as int);
    }
}

/// Whitespace before a text that has tokens leaves the tokens as they are.
/// So does whitespace behind it, where whitespace is not alphabetic.
pub proof fn lemma_padding(before: Seq<char>, s: Seq<char>, after: Seq<char>)
    requires
        all_space(before),
        all_space(after),
        lex(s) is Ok,
    ensures
        lex(before + s) == lex(s),
        space_is_not_alphabetic() ==> lex(before + s + after) == lex(s),
{
    let u = before + s;
    assert forall|j: int| 0 <= j < before.len() implies is_space(#[trigger] u[j]) by {
        assert(u[j] == before[j]);
    }
    lemma_skip_space(u, 0, before.len() as int);
    lemma_lex_shift(before, s, 0);
    if space_is_not_alphabetic() {
        let v = s + after;
        let w = before + v;
        lemma_lex_extend(s, after, 0);
        assert forall|j: int| 0 <= j < before.len() implies is_space(#[trigger] w[j]) by {
            assert(w[j] == before[j]);
        }
        lemma_skip_space(w, 0, before.len() as int);
        lemma_lex_shift(before, v, 0);
        assert(before + s + after =~= w);
    }
}

} // verus!
