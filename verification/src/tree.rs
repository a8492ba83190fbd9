//! The tree that the builder produces.

use crate::chars::{chars_of, run_len, take_run, CharClass};
use crate::lexer::char_at_is;
use vstd::prelude::*;

verus! {

/// A parsed JSON value.
///
/// An object keeps its members in the order of the text, and keeps members
/// with equal keys. A number keeps its text (see `is_number_text`).
#[derive(Debug, PartialEq, Eq)]
pub enum TreeValue {
    Object(Vec<(String, TreeValue)>),
    Array(Vec<TreeValue>),
    String(String),
    Number(String),
    True,
    False,
    Null,
}

/// The mathematical value of a `TreeValue`.
pub enum TreeView {
    Object(Seq<(Seq<char>, TreeView)>),
    Array(Seq<TreeView>),
    String(Seq<char>),
    Number(Seq<char>),
    True,
    False,
    Null,
}

impl View for TreeValue {
    type V = TreeView;

    open spec fn view(&self) -> TreeView
        decreases self,
    {
        match self {
            TreeValue::Object(members) => TreeView::Object(
                Seq::new(
                    members.len() as nat,
                    |i: int|
                        (
                            members[i].0@,
                            if 0 <= i < members.len() {
                                members[i].1.view()
                            } else {
                                TreeView::Null
                            },
                        ),
                ),
            ),
            TreeValue::Array(elements) => TreeView::Array(
                Seq::new(
                    elements.len() as nat,
                    |i: int|
                        if 0 <= i < elements.len() {
                            elements[i].view()
                        } else {
                            TreeView::Null
                        },
                ),
            ),
            TreeValue::String(text) => TreeView::String(text@),
            TreeValue::Number(text) => TreeView::Number(text@),
            TreeValue::True => TreeView::True,
            TreeValue::False => TreeView::False,
            TreeValue::Null => TreeView::Null,
        }
    }
}

/// The values of the members of an object, in order.
pub open spec fn member_views(members: Seq<(String, TreeValue)>) -> Seq<(Seq<char>, TreeView)> {
    Seq::new(members.len(), |i: int| (members[i].0@, members[i].1@))
}

/// The values of the elements of an array, in order.
pub open spec fn element_views(elements: Seq<TreeValue>) -> Seq<TreeView> {
    Seq::new(elements.len(), |i: int| elements[i]@)
}

/// The view of an object is made of the views of its members.
pub proof fn lemma_object_view(members: Vec<(String, TreeValue)>)
    ensures
        TreeValue::Object(members)@ == TreeView::Object(member_views(members@)),
{
    assert(TreeValue::Object(members)@->Object_0 =~= member_views(members@));
}

/// The view of an array is made of the views of its elements.
pub proof fn lemma_array_view(elements: Vec<TreeValue>)
    ensures
        TreeValue::Array(elements)@ == TreeView::Array(element_views(elements@)),
{
    assert(TreeValue::Array(elements)@->Array_0 =~= element_views(elements@));
}

/// Whether `c` is a sign.
pub open spec fn is_sign(c: char) -> bool {
    c == '+' || c == '-'
}

/// The character at index `k` of `text` is there and is the letter `lower`
/// or its capital `upper`.
pub open spec fn letter_at(text: Seq<char>, k: int, lower: char, upper: char) -> bool {
    0 <= k < text.len() && (text[k] == lower || text[k] == upper)
}

/// Whether `text` from index `i` to its end spells `inf`, `infinity` or
/// `nan`, in capitals or not.
pub open spec fn is_inf_or_nan(text: Seq<char>, i: int) -> bool {
    ||| {
        &&& text.len() == i + 3
        &&& letter_at(text, i, 'i', 'I')
        &&& letter_at(text, i + 1, 'n', 'N')
        &&& letter_at(text, i + 2, 'f', 'F')
    }
    ||| {
        &&& text.len() == i + 3
        &&& letter_at(text, i, 'n', 'N')
        &&& letter_at(text, i + 1, 'a', 'A')
        &&& letter_at(text, i + 2, 'n', 'N')
    }
    ||| {
        &&& text.len() == i + 8
        &&& letter_at(text, i, 'i', 'I')
        &&& letter_at(text, i + 1, 'n', 'N')
        &&& letter_at(text, i + 2, 'f', 'F')
        &&& letter_at(text, i + 3, 'i', 'I')
        &&& letter_at(text, i + 4, 'n', 'N')
        &&& letter_at(text, i + 5, 'i', 'I')
        &&& letter_at(text, i + 6, 't', 'T')
        &&& letter_at(text, i + 7, 'y', 'Y')
    }
}

/// Where the digits of an exponent start, whose letter stands at `k`: behind
/// the letter, and behind the sign if one follows it.
pub open spec fn exponent_digits_at(text: Seq<char>, k: int) -> int {
    if 0 <= k + 1 < text.len() && is_sign(text[k + 1]) {
        k + 2
    } else {
        k + 1
    }
}

/// Whether `text` from index `k` to its end is an exponent: the letter `e`,
/// a sign or none, and one digit or more.
pub open spec fn is_exponent(text: Seq<char>, k: int) -> bool {
    let digits = exponent_digits_at(text, k);
    &&& letter_at(text, k, 'e', 'E')
    &&& run_len(text, digits, CharClass::Digit) >= 1
    &&& digits + run_len(text, digits, CharClass::Digit) == text.len()
}

/// Where the mantissa that starts at `i` ends: behind its digits, and behind
/// the point and the digits after it if a point follows.
pub open spec fn mantissa_end(text: Seq<char>, i: int) -> int {
    let whole = run_len(text, i, CharClass::Digit);
    if char_at_is(text, i + whole, '.') {
        i + whole + 1 + run_len(text, i + whole + 1, CharClass::Digit)
    } else {
        i + whole
    }
}

/// The number of digits in the mantissa that starts at `i`.
pub open spec fn mantissa_digits(text: Seq<char>, i: int) -> nat {
    let whole = run_len(text, i, CharClass::Digit);
    if char_at_is(text, i + whole, '.') {
        whole + run_len(text, i + whole + 1, CharClass::Digit)
    } else {
        whole
    }
}

/// Whether `text` from index `i` to its end is a number: digits with a point
/// before, among or behind them or with none, one digit at least, and an
/// exponent or none.
pub open spec fn is_decimal_from(text: Seq<char>, i: int) -> bool {
    &&& mantissa_digits(text, i) >= 1
    &&& mantissa_end(text, i) == text.len() || is_exponent(text, mantissa_end(text, i))
}

/// Where the text behind the sign starts: at 1 if `text` starts with a
/// sign, else at 0.
pub open spec fn unsigned_start(text: Seq<char>) -> int {
    if text.len() > 0 && is_sign(text[0]) {
        1
    } else {
        0
    }
}

/// Whether `text` is written as a floating-point number: a sign or none,
/// then `inf`, `infinity` or `nan`, or digits with a point or none and an
/// exponent or none. This is the grammar of the texts that parse as a
/// double-precision number; whitespace is no part of it.
pub open spec fn is_number_text(text: Seq<char>) -> bool {
    is_inf_or_nan(text, unsigned_start(text)) || is_decimal_from(text, unsigned_start(text))
}

/// Tests whether the letter `lower`, or its capital `upper`, stands at index
/// `k` of `chars`.
pub fn has_letter_at(chars: &Vec<char>, k: usize, lower: char, upper: char) -> (b: bool)
    ensures
        b == letter_at(chars@, k as int, lower, upper),
{
    k < chars.len() && (chars[k] == lower || chars[k] == upper)
}

/// Tests whether `chars` from index `i` to the end spell `inf`, `infinity`
/// or `nan`.
pub fn spells_inf_or_nan(chars: &Vec<char>, i: usize) -> (b: bool)
    ensures
        b == is_inf_or_nan(chars@, i as int),
{
    if i > chars.len() {
        return false;
    }
    let rest = chars.len() - i;
    if rest == 3 {
        (has_letter_at(chars, i, 'i', 'I') && has_letter_at(chars, i + 1, 'n', 'N') && has_letter_at(
            chars,
            i + 2,
            'f',
            'F',
        )) || (has_letter_at(chars, i, 'n', 'N') && has_letter_at(chars, i + 1, 'a', 'A')
            && has_letter_at(chars, i + 2, 'n', 'N'))
    } else if rest == 8 {
        has_letter_at(chars, i, 'i', 'I') && has_letter_at(chars, i + 1, 'n', 'N') && has_letter_at(
            chars,
            i + 2,
            'f',
            'F',
        ) && has_letter_at(chars, i + 3, 'i', 'I') && has_letter_at(chars, i + 4, 'n', 'N')
            && has_letter_at(chars, i + 5, 'i', 'I') && has_letter_at(chars, i + 6, 't', 'T')
            && has_letter_at(chars, i + 7, 'y', 'Y')
    } else {
        false
    }
}

/// Tests whether `text` is written as a floating-point number.
pub fn number_text_ok(text: &str) -> (ok: bool)
    ensures
        ok == is_number_text(text@),
{
    let chars = chars_of(text);
    let n = chars.len();
    let start: usize = if n > 0 && (chars[0] == '+' || chars[0] == '-') {
        1
    } else {
        0
    };
    if spells_inf_or_nan(&chars, start) {
        return true;
    }
    let (_, whole) = take_run(&chars, start, CharClass::Digit);
    let mut digits: usize = whole;
    let mut end: usize = start + whole;
    if end < n && chars[end] == '.' {
        let (_, fraction) = take_run(&chars, end + 1, CharClass::Digit);
        digits = whole + fraction;
        end = end + 1 + fraction;
    }
    if digits == 0 {
        return false;
    }
    if end == n {
        return true;
    }
    if !has_letter_at(&chars, end, 'e', 'E') {
        return false;
    }
    let mut exponent: usize = end + 1;
    if exponent < n && (chars[exponent] == '+' || chars[exponent] == '-') {
        exponent = exponent + 1;
    }
    let (_, power) = take_run(&chars, exponent, CharClass::Digit);
    power >= 1 && exponent + power == n
}

} // verus!
