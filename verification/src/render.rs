//! The canonical tokens of a tree, and the proof that building from them
//! gives the tree back.

use crate::chars::quote_free;
use crate::lexer::{is_number_lexeme, lemma_number_lexeme_parses, lexeme_text, simple_kind};
use crate::parser::{
    array_at, elements_at, kind_at, members_at, object_at, separator_at, token_at, value_at,
    MemberView, ParseError,
};
use crate::token::{TokenType, TokenView};
use crate::tree::TreeView;
use vstd::prelude::*;

verus! {

/// The token of the punctuation character `c`, of the kind `kind`.
pub open spec fn mark(kind: TokenType, c: char) -> TokenView {
    TokenView { token_type: kind, value: seq![c] }
}

/// Whether the text of every number in `tree` is a number lexeme: digits,
/// with a point and digits behind them or without.
pub open spec fn numbers_decimal(tree: TreeView) -> bool
    decreases tree,
{
    match tree {
        TreeView::Object(members) => forall|k: int|
            0 <= k < members.len() ==> numbers_decimal(#[trigger] members[k].1),
        TreeView::Array(elements) => forall|k: int|
            0 <= k < elements.len() ==> numbers_decimal(#[trigger] elements[k]),
        TreeView::Number(text) => is_number_lexeme(text),
        _ => true,
    }
}

/// Whether no string and no key in `tree` holds a double quote.
pub open spec fn strings_quote_free(tree: TreeView) -> bool
    decreases tree,
{
    match tree {
        TreeView::Object(members) => forall|k: int|
            0 <= k < members.len() ==> quote_free((#[trigger] members[k]).0) && strings_quote_free(
                members[k].1,
            ),
        TreeView::Array(elements) => forall|k: int|
            0 <= k < elements.len() ==> strings_quote_free(#[trigger] elements[k]),
        TreeView::String(text) => quote_free(text),
        _ => true,
    }
}

/// The canonical tokens of `tree`: the tokens of a text that spells it.
pub open spec fn tokens_of(tree: TreeView) -> Seq<TokenView>
    decreases tree, 0nat,
{
    match tree {
        TreeView::Object(members) => seq![mark(TokenType::OpenObject, '{')] + member_tokens(
            members,
            0,
        ) + seq![mark(TokenType::CloseObject, '}')],
        TreeView::Array(elements) => seq![mark(TokenType::OpenArray, '[')] + element_tokens(
            elements,
            0,
        ) + seq![mark(TokenType::CloseArray, ']')],
        TreeView::String(text) => seq![TokenView { token_type: TokenType::String, value: text }],
        TreeView::Number(text) => seq![TokenView { token_type: TokenType::Number, value: text }],
        TreeView::True => seq![
            TokenView { token_type: TokenType::True, value: seq!['t', 'r', 'u', 'e'] },
        ],
        TreeView::False => seq![
            TokenView { token_type: TokenType::False, value: seq!['f', 'a', 'l', 's', 'e'] },
        ],
        TreeView::Null => seq![
            TokenView { token_type: TokenType::Null, value: seq!['n', 'u', 'l', 'l'] },
        ],
    }
}

/// The canonical tokens of the members of an object from the `k`-th on,
/// with a comma between each two.
pub open spec fn member_tokens(members: Seq<MemberView>, k: nat) -> Seq<TokenView>
    decreases members, members.len() - k,
{
    if k >= members.len() {
        Seq::empty()
    } else {
        let member = seq![
            TokenView { token_type: TokenType::String, value: members[k as int].0 },
            mark(TokenType::Colon, ':'),
        ] + tokens_of(members[k as int].1);
        if k + 1 < members.len() {
            member + seq![mark(TokenType::Comma, ',')] + member_tokens(members, k + 1)
        } else {
            member
        }
    }
}

/// The canonical tokens of the elements of an array from the `k`-th on, with
/// a comma between each two.
pub open spec fn element_tokens(elements: Seq<TreeView>, k: nat) -> Seq<TokenView>
    decreases elements, elements.len() - k,
{
    if k >= elements.len() {
        Seq::empty()
    } else if k + 1 < elements.len() {
        tokens_of(elements[k as int]) + seq![mark(TokenType::Comma, ',')] + element_tokens(
            elements,
            k + 1,
        )
    } else {
        tokens_of(elements[k as int])
    }
}

/// The tokens `r` stand in `t` from index `i` on.
pub open spec fn stands_at(t: Seq<TokenView>, i: int, r: Seq<TokenView>) -> bool {
    &&& 0 <= i
    &&& i + r.len() <= t.len()
    &&& forall|k: int| 0 <= k < r.len() ==> t[i + k] == #[trigger] r[k]
}

/// Where `a + b` stands, `a` stands, and `b` stands behind it.
pub proof fn lemma_stands_split(t: Seq<TokenView>, i: int, a: Seq<TokenView>, b: Seq<TokenView>)
    requires
        stands_at(t, i, a + b),
    ensures
        stands_at(t, i, a),
        stands_at(t, i + a.len(), b),
{
    let r = a + b;
    assert forall|k: int| 0 <= k < a.len() implies t[i + k] == #[trigger] a[k] by {
        assert(r[k] == a[k]);
    }
    assert forall|k: int| 0 <= k < b.len() implies t[i + a.len() + k] == #[trigger] b[k] by {
        assert(r[a.len() + k] == b[k]);
    }
}

/// The canonical tokens of a tree start with a token that starts a value.
pub proof fn lemma_first_token(tree: TreeView)
    ensures
        tokens_of(tree).len() > 0,
        tokens_of(tree)[0].token_type != TokenType::CloseObject,
        tokens_of(tree)[0].token_type != TokenType::CloseArray,
        tokens_of(tree)[0].token_type != TokenType::Comma,
        tokens_of(tree)[0].token_type != TokenType::Colon,
{
}

/// Building from the canonical tokens of a tree gives the tree back, wherever
/// among other tokens they stand.
pub proof fn lemma_value_of_tokens(tree: TreeView, t: Seq<TokenView>, i: int)
    requires
        numbers_decimal(tree),
        stands_at(t, i, tokens_of(tree)),
    ensures
        value_at(t, i) == Ok::<(TreeView, nat), ParseError>((tree, tokens_of(tree).len())),
    decreases tree, 0nat,
{
    let r = tokens_of(tree);
    lemma_first_token(tree);
    assert(t[i + 0] == r[0]);
    match tree {
        TreeView::Object(members) => {
            let open = seq![mark(TokenType::OpenObject, '{')];
            let inner = member_tokens(members, 0);
            let close = seq![mark(TokenType::CloseObject, '}')];
            assert(r == open + (inner + close)) by {
                assert(open + inner + close =~= open + (inner + close));
            }
            lemma_stands_split(t, i, open, inner + close);
            assert(t[i] == open[0]);
            if members.len() == 0 {
                assert(t[i + 1 + 0] == (inner + close)[0]);
                assert(members =~= Seq::empty());
            } else {
                lemma_first_member_token(members, 0);
                assert(t[i + 1 + 0] == (inner + close)[0]);
                lemma_members_of_tokens(members, 0, t, i + 1);
                assert(Seq::<MemberView>::empty() + members.skip(0) =~= members);
            }
        },
        TreeView::Array(elements) => {
            let open = seq![mark(TokenType::OpenArray, '[')];
            let inner = element_tokens(elements, 0);
            let close = seq![mark(TokenType::CloseArray, ']')];
            assert(r == open + (inner + close)) by {
                assert(open + inner + close =~= open + (inner + close));
            }
            lemma_stands_split(t, i, open, inner + close);
            assert(t[i] == open[0]);
            if elements.len() == 0 {
                assert(t[i + 1 + 0] == (inner + close)[0]);
                assert(elements =~= Seq::empty());
            } else {
                lemma_first_element_token(elements, 0);
                assert(t[i + 1 + 0] == (inner + close)[0]);
                lemma_elements_of_tokens(elements, 0, t, i + 1);
                assert(Seq::<TreeView>::empty() + elements.skip(0) =~= elements);
            }
        },
        TreeView::Number(text) => {
            lemma_number_lexeme_parses(text);
        },
        _ => {},
    }
}

/// The canonical tokens of members start with the key of the first.
pub proof fn lemma_first_member_token(members: Seq<MemberView>, k: nat)
    requires
        k < members.len(),
    ensures
        member_tokens(members, k).len() > 0,
        member_tokens(members, k)[0].token_type == TokenType::String,
{
}

/// The canonical tokens of elements start with a token that starts a value.
pub proof fn lemma_first_element_token(elements: Seq<TreeView>, k: nat)
    requires
        k < elements.len(),
    ensures
        element_tokens(elements, k).len() > 0,
        element_tokens(elements, k)[0] == tokens_of(elements[k as int])[0],
{
    lemma_first_token(elements[k as int]);
}

/// Building from the canonical tokens of the members of an object from the
/// `k`-th on, with the closing brace behind them, gives those members back.
pub proof fn lemma_members_of_tokens(members: Seq<MemberView>, k: nat, t: Seq<TokenView>, i: int)
    requires
        k < members.len(),
        forall|j: int| 0 <= j < members.len() ==> numbers_decimal(#[trigger] members[j].1),
        stands_at(
            t,
            i,
            member_tokens(members, k) + seq![mark(TokenType::CloseObject, '}')],
        ),
    ensures
        members_at(t, i) == Ok::<(Seq<MemberView>, nat), ParseError>(
            (members.skip(k as int), member_tokens(members, k).len() + 1),
        ),
    decreases members, members.len() - k,
{
    let close = seq![mark(TokenType::CloseObject, '}')];
    let key = seq![
        TokenView { token_type: TokenType::String, value: members[k as int].0 },
        mark(TokenType::Colon, ':'),
    ];
    let value = tokens_of(members[k as int].1);
    let member = (members[k as int].0, members[k as int].1);
    assert(member == members[k as int]);
    assert(numbers_decimal(members[k as int].1));
    if k + 1 < members.len() {
        let comma = seq![mark(TokenType::Comma, ',')];
        let rest = member_tokens(members, k + 1);
        assert(member_tokens(members, k) + close =~= key + (value + (comma + (rest + close))));
        lemma_stands_split(t, i, key, value + (comma + (rest + close)));
        assert(t[i + 0] == key[0]);
        assert(t[i + 1] == key[1]);
        lemma_stands_split(t, i + 2, value, comma + (rest + close));
        lemma_value_of_tokens(members[k as int].1, t, i + 2);
        let j = i + 2 + value.len();
        lemma_stands_split(t, j, comma, rest + close);
        assert(t[j + 0] == comma[0]);
        lemma_first_member_token(members, k + 1);
        assert(t[j + 1 + 0] == (rest + close)[0]);
        lemma_members_of_tokens(members, k + 1, t, j + 1);
        assert(seq![member] + members.skip(k + 1 as int) =~= members.skip(k as int));
    } else {
        assert(member_tokens(members, k) + close =~= key + (value + close));
        lemma_stands_split(t, i, key, value + close);
        assert(t[i + 0] == key[0]);
        assert(t[i + 1] == key[1]);
        lemma_stands_split(t, i + 2, value, close);
        lemma_value_of_tokens(members[k as int].1, t, i + 2);
        let j = i + 2 + value.len();
        assert(t[j + 0] == close[0]);
        assert(seq![member] =~= members.skip(k as int));
    }
}

/// Building from the canonical tokens of the elements of an array from the
/// `k`-th on, with the closing bracket behind them, gives those elements
/// back.
pub proof fn lemma_elements_of_tokens(elements: Seq<TreeView>, k: nat, t: Seq<TokenView>, i: int)
    requires
        k < elements.len(),
        forall|j: int| 0 <= j < elements.len() ==> numbers_decimal(#[trigger] elements[j]),
        stands_at(
            t,
            i,
            element_tokens(elements, k) + seq![mark(TokenType::CloseArray, ']')],
        ),
    ensures
        elements_at(t, i) == Ok::<(Seq<TreeView>, nat), ParseError>(
            (elements.skip(k as int), element_tokens(elements, k).len() + 1),
        ),
    decreases elements, elements.len() - k,
{
    let close = seq![mark(TokenType::CloseArray, ']')];
    let element = elements[k as int];
    let value = tokens_of(element);
    assert(numbers_decimal(element));
    if k + 1 < elements.len() {
        let comma = seq![mark(TokenType::Comma, ',')];
        let rest = element_tokens(elements, k + 1);
        assert(element_tokens(elements, k) + close =~= value + (comma + (rest + close)));
        lemma_stands_split(t, i, value, comma + (rest + close));
        lemma_value_of_tokens(element, t, i);
        let j = i + value.len();
        lemma_stands_split(t, j, comma, rest + close);
        assert(t[j + 0] == comma[0]);
        lemma_first_element_token(elements, k + 1);
        assert(t[j + 1 + 0] == (rest + close)[0]);
        lemma_elements_of_tokens(elements, k + 1, t, j + 1);
        assert(seq![element] + elements.skip(k + 1 as int) =~= elements.skip(k as int));
    } else {
        assert(element_tokens(elements, k) + close =~= value + close);
        lemma_stands_split(t, i, value, close);
        lemma_value_of_tokens(element, t, i);
        let j = i + value.len();
        assert(t[j + 0] == close[0]);
        assert(seq![element] =~= elements.skip(k as int));
    }
}

/// A comma between the last member and the closing brace: the members from
/// the `k`-th on are refused with `TrailingComma`, however many they are.
pub proof fn lemma_members_trailing_comma(
    members: Seq<MemberView>,
    k: nat,
    t: Seq<TokenView>,
    i: int,
)
    requires
        k < members.len(),
        forall|j: int| 0 <= j < members.len() ==> numbers_decimal(#[trigger] members[j].1),
        stands_at(
            t,
            i,
            member_tokens(members, k) + seq![
                mark(TokenType::Comma, ','),
                mark(TokenType::CloseObject, '}'),
            ],
        ),
    ensures
        members_at(t, i) == Err::<(Seq<MemberView>, nat), ParseError>(ParseError::TrailingComma),
    decreases members, members.len() - k,
{
    let end = seq![mark(TokenType::Comma, ','), mark(TokenType::CloseObject, '}')];
    let key = seq![
        TokenView { token_type: TokenType::String, value: members[k as int].0 },
        mark(TokenType::Colon, ':'),
    ];
    let value = tokens_of(members[k as int].1);
    assert(numbers_decimal(members[k as int].1));
    if k + 1 < members.len() {
        let comma = seq![mark(TokenType::Comma, ',')];
        let rest = member_tokens(members, k + 1);
        assert(member_tokens(members, k) + end =~= key + (value + (comma + (rest + end))));
        lemma_stands_split(t, i, key, value + (comma + (rest + end)));
        assert(t[i + 0] == key[0]);
        assert(t[i + 1] == key[1]);
        lemma_stands_split(t, i + 2, value, comma + (rest + end));
        lemma_value_of_tokens(members[k as int].1, t, i + 2);
        let j = i + 2 + value.len();
        lemma_stands_split(t, j, comma, rest + end);
        assert(t[j + 0] == comma[0]);
        lemma_first_member_token(members, k + 1);
        assert(t[j + 1 + 0] == (rest + end)[0]);
        lemma_members_trailing_comma(members, k + 1, t, j + 1);
    } else {
        assert(member_tokens(members, k) + end =~= key + (value + end));
        lemma_stands_split(t, i, key, value + end);
        assert(t[i + 0] == key[0]);
        assert(t[i + 1] == key[1]);
        lemma_stands_split(t, i + 2, value, end);
        lemma_value_of_tokens(members[k as int].1, t, i + 2);
        let j = i + 2 + value.len();
        assert(t[j + 0] == end[0]);
        assert(t[j + 1] == end[1]);
    }
}

/// An object with a comma between its last member and its closing brace is
/// refused with `TrailingComma`, however many members it has.
pub proof fn lemma_object_trailing_comma(members: Seq<MemberView>, t: Seq<TokenView>, i: int)
    requires
        members.len() > 0,
        forall|j: int| 0 <= j < members.len() ==> numbers_decimal(#[trigger] members[j].1),
        stands_at(
            t,
            i,
            seq![mark(TokenType::OpenObject, '{')] + member_tokens(members, 0) + seq![
                mark(TokenType::Comma, ','),
                mark(TokenType::CloseObject, '}'),
            ],
        ),
    ensures
        value_at(t, i) == Err::<(TreeView, nat), ParseError>(ParseError::TrailingComma),
{
    let open = seq![mark(TokenType::OpenObject, '{')];
    let inner = member_tokens(members, 0);
    let end = seq![mark(TokenType::Comma, ','), mark(TokenType::CloseObject, '}')];
    assert(open + inner + end =~= open + (inner + end));
    lemma_stands_split(t, i, open, inner + end);
    assert(t[i + 0] == open[0]);
    lemma_first_member_token(members, 0);
    assert(t[i + 1 + 0] == (inner + end)[0]);
    lemma_members_trailing_comma(members, 0, t, i + 1);
}

/// A comma between the last element and the closing bracket: the elements
/// from the `k`-th on are refused with `TrailingComma`, however many they
/// are.
pub proof fn lemma_elements_trailing_comma(
    elements: Seq<TreeView>,
    k: nat,
    t: Seq<TokenView>,
    i: int,
)
    requires
        k < elements.len(),
        forall|j: int| 0 <= j < elements.len() ==> numbers_decimal(#[trigger] elements[j]),
        stands_at(
            t,
            i,
            element_tokens(elements, k) + seq![
                mark(TokenType::Comma, ','),
                mark(TokenType::CloseArray, ']'),
            ],
        ),
    ensures
        elements_at(t, i) == Err::<(Seq<TreeView>, nat), ParseError>(ParseError::TrailingComma),
    decreases elements, elements.len() - k,
{
    let end = seq![mark(TokenType::Comma, ','), mark(TokenType::CloseArray, ']')];
    let element = elements[k as int];
    let value = tokens_of(element);
    assert(numbers_decimal(element));
    if k + 1 < elements.len() {
        let comma = seq![mark(TokenType::Comma, ',')];
        let rest = element_tokens(elements, k + 1);
        assert(element_tokens(elements, k) + end =~= value + (comma + (rest + end)));
        lemma_stands_split(t, i, value, comma + (rest + end));
        lemma_value_of_tokens(element, t, i);
        let j = i + value.len();
        lemma_stands_split(t, j, comma, rest + end);
        assert(t[j + 0] == comma[0]);
        lemma_first_element_token(elements, k + 1);
        assert(t[j + 1 + 0] == (rest + end)[0]);
        lemma_elements_trailing_comma(elements, k + 1, t, j + 1);
    } else {
        assert(element_tokens(elements, k) + end =~= value + end);
        lemma_stands_split(t, i, value, end);
        lemma_value_of_tokens(element, t, i);
        let j = i + value.len();
        assert(t[j + 0] == end[0]);
        assert(t[j + 1] == end[1]);
    }
}

/// An array with a comma between its last element and its closing bracket
/// is refused with `TrailingComma`, however many elements it has.
pub proof fn lemma_array_trailing_comma(elements: Seq<TreeView>, t: Seq<TokenView>, i: int)
    requires
        elements.len() > 0,
        forall|j: int| 0 <= j < elements.len() ==> numbers_decimal(#[trigger] elements[j]),
        stands_at(
            t,
            i,
            seq![mark(TokenType::OpenArray, '[')] + element_tokens(elements, 0) + seq![
                mark(TokenType::Comma, ','),
                mark(TokenType::CloseArray, ']'),
            ],
        ),
    ensures
        value_at(t, i) == Err::<(TreeView, nat), ParseError>(ParseError::TrailingComma),
{
    let open = seq![mark(TokenType::OpenArray, '[')];
    let inner = element_tokens(elements, 0);
    let end = seq![mark(TokenType::Comma, ','), mark(TokenType::CloseArray, ']')];
    assert(open + inner + end =~= open + (inner + end));
    lemma_stands_split(t, i, open, inner + end);
    assert(t[i + 0] == open[0]);
    lemma_first_element_token(elements, 0);
    assert(t[i + 1 + 0] == (inner + end)[0]);
    lemma_elements_trailing_comma(elements, 0, t, i + 1);
}

/// Whether every token of `r` holds a lexeme of its kind.
pub open spec fn all_lexemes(r: Seq<TokenView>) -> bool {
    forall|k: int| 0 <= k < r.len() ==> lexeme_text(#[trigger] r[k])
}

/// Lexemes followed by lexemes are lexemes.
pub proof fn lemma_lexemes_join(a: Seq<TokenView>, b: Seq<TokenView>)
    requires
        all_lexemes(a),
        all_lexemes(b),
    ensures
        all_lexemes(a + b),
{
    let r = a + b;
    assert forall|k: int| 0 <= k < r.len() implies lexeme_text(#[trigger] r[k]) by {
        if k < a.len() {
            assert(r[k] == a[k]);
        } else {
            assert(r[k] == b[k - a.len()]);
        }
    }
}

/// The token of a punctuation character holds a lexeme of its kind.
pub proof fn lemma_mark_is_lexeme(kind: TokenType, c: char)
    requires
        simple_kind(c) == Some(kind),
    ensures
        all_lexemes(seq![mark(kind, c)]),
{
    assert(mark(kind, c).value[0] == c);
}

/// Each canonical token of a tree holds a lexeme of its kind, where the
/// numbers of the tree are decimal and its strings hold no quote.
pub proof fn lemma_tokens_are_lexemes(tree: TreeView)
    requires
        numbers_decimal(tree),
        strings_quote_free(tree),
    ensures
        all_lexemes(tokens_of(tree)),
    decreases tree, 0nat,
{
    match tree {
        TreeView::Object(members) => {
            let open = seq![mark(TokenType::OpenObject, '{')];
            let close = seq![mark(TokenType::CloseObject, '}')];
            lemma_mark_is_lexeme(TokenType::OpenObject, '{');
            lemma_mark_is_lexeme(TokenType::CloseObject, '}');
            assert forall|j: int| 0 <= j < members.len() implies quote_free(
                (#[trigger] members[j]).0,
            ) && strings_quote_free(members[j].1) && numbers_decimal(members[j].1) by {}
            lemma_member_tokens_are_lexemes(members, 0);
            lemma_lexemes_join(open, member_tokens(members, 0));
            lemma_lexemes_join(open + member_tokens(members, 0), close);
        },
        TreeView::Array(elements) => {
            let open = seq![mark(TokenType::OpenArray, '[')];
            let close = seq![mark(TokenType::CloseArray, ']')];
            lemma_mark_is_lexeme(TokenType::OpenArray, '[');
            lemma_mark_is_lexeme(TokenType::CloseArray, ']');
            assert forall|j: int| 0 <= j < elements.len() implies strings_quote_free(
                #[trigger] elements[j],
            ) && numbers_decimal(elements[j]) by {}
            lemma_element_tokens_are_lexemes(elements, 0);
            lemma_lexemes_join(open, element_tokens(elements, 0));
            lemma_lexemes_join(open + element_tokens(elements, 0), close);
        },
        _ => {},
    }
}

/// Each canonical token of the members of an object holds a lexeme of its
/// kind.
pub proof fn lemma_member_tokens_are_lexemes(members: Seq<MemberView>, k: nat)
    requires
        forall|j: int|
            0 <= j < members.len() ==> quote_free((#[trigger] members[j]).0) && strings_quote_free(
                members[j].1,
            ) && numbers_decimal(members[j].1),
    ensures
        all_lexemes(member_tokens(members, k)),
    decreases members, members.len() - k,
{
    if k < members.len() {
        let head = seq![
            TokenView { token_type: TokenType::String, value: members[k as int].0 },
            mark(TokenType::Colon, ':'),
        ];
        assert(quote_free(members[k as int].0));
        assert(lexeme_text(head[0]));
        assert(head[1].value[0] == ':');
        assert(lexeme_text(head[1]));
        lemma_tokens_are_lexemes(members[k as int].1);
        lemma_lexemes_join(head, tokens_of(members[k as int].1));
        if k + 1 < members.len() {
            let comma = seq![mark(TokenType::Comma, ',')];
            lemma_mark_is_lexeme(TokenType::Comma, ',');
            lemma_member_tokens_are_lexemes(members, k + 1);
            lemma_lexemes_join(head + tokens_of(members[k as int].1), comma);
            lemma_lexemes_join(
                head + tokens_of(members[k as int].1) + comma,
                member_tokens(members, k + 1),
            );
        }
    }
}

/// Each canonical token of the elements of an array holds a lexeme of its
/// kind.
pub proof fn lemma_element_tokens_are_lexemes(elements: Seq<TreeView>, k: nat)
    requires
        forall|j: int|
            0 <= j < elements.len() ==> strings_quote_free(#[trigger] elements[j])
                && numbers_decimal(elements[j]),
    ensures
        all_lexemes(element_tokens(elements, k)),
    decreases elements, elements.len() - k,
{
    if k < elements.len() {
        lemma_tokens_are_lexemes(elements[k as int]);
        if k + 1 < elements.len() {
            let comma = seq![mark(TokenType::Comma, ',')];
            lemma_mark_is_lexeme(TokenType::Comma, ',');
            lemma_element_tokens_are_lexemes(elements, k + 1);
            lemma_lexemes_join(tokens_of(elements[k as int]), comma);
            lemma_lexemes_join(
                tokens_of(elements[k as int]) + comma,
                element_tokens(elements, k + 1),
            );
        }
    }
}

/// Whether each member has a key without a quote and a value whose numbers
/// are decimal and whose strings hold no quote.
pub open spec fn members_fit(members: Seq<MemberView>) -> bool {
    forall|j: int|
        0 <= j < members.len() ==> quote_free((#[trigger] members[j]).0) && strings_quote_free(
            members[j].1,
        ) && numbers_decimal(members[j].1)
}

/// Whether the numbers of each element are decimal and its strings hold no
/// quote.
pub open spec fn elements_fit(elements: Seq<TreeView>) -> bool {
    forall|j: int|
        0 <= j < elements.len() ==> strings_quote_free(#[trigger] elements[j]) && numbers_decimal(
            elements[j],
        )
}

/// A value built from tokens that hold lexemes of their kinds has decimal
/// numbers, and strings without a quote.
pub proof fn lemma_built_value(t: Seq<TokenView>, i: int)
    requires
        all_lexemes(t),
    ensures
        value_at(t, i) is Ok ==> numbers_decimal(value_at(t, i)->Ok_0.0) && strings_quote_free(
            value_at(t, i)->Ok_0.0,
        ),
    decreases t.len() - i, 2int,
{
    match kind_at(t, i) {
        Some(TokenType::OpenObject) => {
            lemma_built_object(t, i);
        },
        Some(TokenType::OpenArray) => {
            lemma_built_array(t, i);
        },
        Some(_) => {
            assert(lexeme_text(t[i]));
        },
        None => {},
    }
}

/// The members of an object built from such tokens fit.
pub proof fn lemma_built_object(t: Seq<TokenView>, i: int)
    requires
        all_lexemes(t),
    ensures
        object_at(t, i) is Ok ==> members_fit(object_at(t, i)->Ok_0.0),
    decreases t.len() - i, 1int,
{
    if token_at(t, i, TokenType::OpenObject) is Ok && kind_at(t, i + 1) != Some(
        TokenType::CloseObject,
    ) {
        lemma_built_members(t, i + 1);
    }
}

/// The members built from such tokens fit.
pub proof fn lemma_built_members(t: Seq<TokenView>, i: int)
    requires
        all_lexemes(t),
    ensures
        members_at(t, i) is Ok ==> members_fit(members_at(t, i)->Ok_0.0),
    decreases t.len() - i, 0int,
{
    if token_at(t, i, TokenType::String) is Ok && token_at(t, i + 1, TokenType::Colon) is Ok {
        assert(lexeme_text(t[i]));
        lemma_built_value(t, i + 2);
        if let Ok(found) = value_at(t, i + 2) {
            let first = seq![(t[i].value, found.0)];
            assert(members_fit(first));
            let next = i + 2 + found.1 + 1;
            if separator_at(
                t,
                next - 1,
                TokenType::CloseObject,
                ParseError::ExpectedCommaOrCloseObject,
                ParseError::ExpectedCommaOrCloseObject,
            ) == Ok::<bool, ParseError>(false) {
                lemma_built_members(t, next);
                if let Ok(more) = members_at(t, next) {
                    let all = first + more.0;
                    assert forall|j: int| 0 <= j < all.len() implies quote_free(
                        (#[trigger] all[j]).0,
                    ) && strings_quote_free(all[j].1) && numbers_decimal(all[j].1) by {
                        if j > 0 {
                            assert(all[j] == more.0[j - 1]);
                        }
                    }
                }
            }
        }
    }
}

/// The elements of an array built from such tokens fit.
pub proof fn lemma_built_array(t: Seq<TokenView>, i: int)
    requires
        all_lexemes(t),
    ensures
        array_at(t, i) is Ok ==> elements_fit(array_at(t, i)->Ok_0.0),
    decreases t.len() - i, 1int,
{
    if token_at(t, i, TokenType::OpenArray) is Ok && kind_at(t, i + 1) != Some(
        TokenType::CloseArray,
    ) {
        lemma_built_elements(t, i + 1);
    }
}

/// The elements built from such tokens fit.
pub proof fn lemma_built_elements(t: Seq<TokenView>, i: int)
    requires
        all_lexemes(t),
    ensures
        elements_at(t, i) is Ok ==> elements_fit(elements_at(t, i)->Ok_0.0),
    decreases t.len() - i, 3int,
{
    lemma_built_value(t, i);
    if let Ok(found) = value_at(t, i) {
        let first = seq![found.0];
        assert(elements_fit(first));
        let next = i + found.1 + 1;
        if separator_at(
            t,
            next - 1,
            TokenType::CloseArray,
            ParseError::ExpectedCommaOrCloseArray,
            ParseError::UnexpectedEndOfInput,
        ) == Ok::<bool, ParseError>(false) {
            lemma_built_elements(t, next);
            if let Ok(more) = elements_at(t, next) {
                let all = first + more.0;
                assert forall|j: int| 0 <= j < all.len() implies strings_quote_free(
                    #[trigger] all[j],
                ) && numbers_decimal(all[j]) by {
                    if j > 0 {
                        assert(all[j] == more.0[j - 1]);
                    }
                }
            }
        }
    }
}

} // verus!
