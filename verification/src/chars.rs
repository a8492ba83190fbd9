//! Characters: the input as a sequence of `char`, and the classes of
//! characters that the tokenizer scans runs of.

use itertools::Itertools;
use vstd::prelude::*;

verus! {

/// Whether `c` has the Unicode property Alphabetic, as `char::is_alphabetic`
/// reports it.
pub uninterp spec fn alphabetic(c: char) -> bool;

/// `char::is_alphabetic` of std. Its result is given the name `alphabetic`;
/// nothing more is claimed of it.
#[verifier::external_body]
fn is_alphabetic(c: char) -> (b: bool)
    ensures
        b == alphabetic(c),
{
    c.is_alphabetic()
}

/// Whether `c` is one of the ten ASCII digits.
pub open spec fn is_digit(c: char) -> bool {
    '0' <= c <= '9'
}

/// Whether `c` is an ASCII letter.
pub open spec fn is_ascii_letter(c: char) -> bool {
    ('a' <= c <= 'z') || ('A' <= c <= 'Z')
}

/// Whether `c` is one of the four whitespace characters that separate tokens.
pub open spec fn is_space(c: char) -> bool {
    c == ' ' || c == '\n' || c == '\t' || c == '\r'
}

/// Whether no character of `text` is the double quote.
pub open spec fn quote_free(text: Seq<char>) -> bool {
    forall|k: int| 0 <= k < text.len() ==> #[trigger] text[k] != '"'
}

/// A class of characters of which the tokenizer takes a maximal run.
#[derive(Debug, PartialEq, Eq, Copy, Clone, Structural)]
pub enum CharClass {
    /// Every character but the double quote: the body of a string.
    StringBody,
    /// The ASCII digits.
    Digit,
    /// The alphabetic characters.
    Letter,
}

impl CharClass {
    /// Whether `c` belongs to the class.
    pub open spec fn holds(self, c: char) -> bool {
        match self {
            CharClass::StringBody => c != '"',
            CharClass::Digit => is_digit(c),
            CharClass::Letter => alphabetic(c),
        }
    }

    /// Tests whether `c` belongs to the class.
    pub fn accepts(self, c: char) -> (b: bool)
        ensures
            b == self.holds(c),
    {
        match self {
            CharClass::StringBody => c != '"',
            CharClass::Digit => '0' <= c && c <= '9',
            CharClass::Letter => is_alphabetic(c),
        }
    }
}

/// The length of the longest run of characters of `class` that starts at
/// index `i` of `s`.
pub open spec fn run_len(s: Seq<char>, i: int, class: CharClass) -> nat
    decreases s.len() - i,
{
    if 0 <= i < s.len() && class.holds(s[i]) {
        1 + run_len(s, i + 1, class)
    } else {
        0
    }
}

/// `Itertools::peeking_take_while` of itertools, on the characters of `chars`
/// from `start` on, collected into a string. The contract says what the
/// adaptor's documentation says: the items handed out are the leading ones,
/// each is accepted by the predicate, and the adaptor stops at the first item
/// that is rejected, or at the end.
#[verifier::external_body]
fn take_while_class(chars: &Vec<char>, start: usize, class: CharClass) -> (run: String)
    requires
        start <= chars.len(),
    ensures
        start + run@.len() <= chars.len(),
        run@ == chars@.subrange(start as int, start + run@.len()),
        forall|k: int| 0 <= k < run@.len() ==> class.holds(#[trigger] run@[k]),
        start + run@.len() < chars.len() ==> !class.holds(chars@[start + run@.len()]),
{
    let mut rest = chars[start..].iter().copied().peekable();
    rest.peeking_take_while(|c| class.accepts(*c)).collect()
}

/// A run that consists of characters of `class` and is followed by the end or
/// by a character outside the class has the length `run_len`.
pub proof fn lemma_run_len(s: Seq<char>, i: int, n: int, class: CharClass)
    requires
        0 <= i,
        0 <= n,
        i + n <= s.len(),
        forall|k: int| i <= k < i + n ==> class.holds(#[trigger] s[k]),
        i + n < s.len() ==> !class.holds(s[i + n]),
    ensures
        run_len(s, i, class) == n,
    decreases n,
{
    if n > 0 {
        lemma_run_len(s, i + 1, n - 1, class);
    }
}

/// The longest run of characters of `class` that starts at index `i` of `s`.
pub open spec fn run_text(s: Seq<char>, i: int, class: CharClass) -> Seq<char> {
    if 0 <= i <= s.len() {
        s.subrange(i, i + run_len(s, i, class))
    } else {
        Seq::empty()
    }
}

/// A run ends within the sequence.
pub proof fn lemma_run_within(s: Seq<char>, i: int, class: CharClass)
    requires
        0 <= i <= s.len(),
    ensures
        i + run_len(s, i, class) <= s.len(),
    decreases s.len() - i,
{
    if i < s.len() && class.holds(s[i]) {
        lemma_run_within(s, i + 1, class);
    }
}

/// Every character of a run belongs to the class.
pub proof fn lemma_run_holds(s: Seq<char>, i: int, class: CharClass)
    requires
        0 <= i <= s.len(),
    ensures
        forall|k: int| i <= k < i + run_len(s, i, class) ==> class.holds(#[trigger] s[k]),
    decreases s.len() - i,
{
    if i < s.len() && class.holds(s[i]) {
        lemma_run_holds(s, i + 1, class);
    }
}

/// A run stops at the end or before a character outside the class.
pub proof fn lemma_run_stops(s: Seq<char>, i: int, class: CharClass)
    requires
        0 <= i <= s.len(),
    ensures
        i + run_len(s, i, class) == s.len() || !class.holds(s[i + run_len(s, i, class)]),
    decreases s.len() - i,
{
    if i < s.len() && class.holds(s[i]) {
        lemma_run_stops(s, i + 1, class);
    }
}

/// The characters of `class` that start at `start`, as far as they go, with
/// their number.
pub fn take_run(chars: &Vec<char>, start: usize, class: CharClass) -> (r: (String, usize))
    ensures
        r.0@ == run_text(chars@, start as int, class),
        r.1 == run_len(chars@, start as int, class),
        start <= chars.len() ==> start + r.1 <= chars.len(),
{
    if start > chars.len() {
        return (String::new(), 0);
    }
    let run = take_while_class(chars, start, class);
    let n = run.as_str().unicode_len();
    proof {
        assert forall|k: int| start <= k < start + n implies class.holds(#[trigger] chars@[k]) by {
            assert(run@[k - start] == chars@[k]);
        }
        lemma_run_len(chars@, start as int, n as int, class);
    }
    (run, n)
}

/// The characters of a string slice, in order.
pub fn chars_of(text: &str) -> (chars: Vec<char>)
    ensures
        chars@ == text@,
{
    let mut chars: Vec<char> = Vec::new();
    for c in iter: text.chars()
        invariant
            iter.seq() == text@,
            chars@ == text@.take(iter.index()),
    {
        chars.push(c);
        assert(text@.take(iter.index() + 1) =~= text@.take(iter.index()).push(c));
    }
    assert(text@.take(text@.len() as int) =~= text@);
    chars
}

} // verus!
