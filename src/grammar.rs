//! The lexical grammar, stated over sequences of characters.
use vstd::prelude::*;

use crate::token::{LexErrorView, TokenView};

verus! {

/// ASCII letter or underscore: a character that may start a word.
pub open spec fn is_word_start(c: char) -> bool {
    ('a' <= c && c <= 'z') || ('A' <= c && c <= 'Z') || c == '_'
}

/// ASCII decimal digit.
pub open spec fn is_digit(c: char) -> bool {
    '0' <= c && c <= '9'
}

/// ASCII letter, digit or underscore.
pub open spec fn is_word_char(c: char) -> bool {
    is_word_start(c) || is_digit(c)
}

/// Characters with the Unicode `White_Space` property.
pub open spec fn is_whitespace_char(c: char) -> bool {
    ('\u{9}' <= c && c <= '\u{d}') || c == ' ' || c == '\u{85}' || c == '\u{a0}' || c == '\u{1680}'
        || ('\u{2000}' <= c && c <= '\u{200a}') || c == '\u{2028}' || c == '\u{2029}' || c
        == '\u{202f}' || c == '\u{205f}' || c == '\u{3000}'
}

/// Length of the longest prefix of `s` made of word characters.
pub open spec fn word_len(s: Seq<char>) -> nat
    decreases s.len(),
{
    if s.len() > 0 && is_word_char(s[0]) {
        1 + word_len(s.drop_first())
    } else {
        0
    }
}

pub open spec fn all_digits(s: Seq<char>) -> bool {
    forall|i: int| 0 <= i < s.len() ==> is_digit(#[trigger] s[i])
}

pub open spec fn digit_value(c: char) -> int {
    (c as u32) as int - ('0' as u32) as int
}

/// The value of a run of decimal digits, read positionally.
pub open spec fn decimal_value(s: Seq<char>) -> int
    decreases s.len(),
{
    if s.len() == 0 {
        0
    } else {
        10 * decimal_value(s.drop_last()) + digit_value(s.last())
    }
}

pub open spec fn is_keyword(w: Seq<char>) -> bool {
    w == seq!['i', 'n', 't'] || w == seq!['v', 'o', 'i', 'd'] || w == seq![
        'r',
        'e',
        't',
        'u',
        'r',
        'n',
    ]
}

/// The token for a word: its keyword if it is reserved, an identifier otherwise.
pub open spec fn word_token(w: Seq<char>) -> TokenView {
    if w == seq!['i', 'n', 't'] {
        TokenView::Int
    } else if w == seq!['v', 'o', 'i', 'd'] {
        TokenView::Void
    } else if w == seq!['r', 'e', 't', 'u', 'r', 'n'] {
        TokenView::Return
    } else {
        TokenView::Identifier(w)
    }
}

pub open spec fn punctuation(c: char) -> Option<TokenView> {
    if c == '(' {
        Some(TokenView::LeftParen)
    } else if c == ')' {
        Some(TokenView::RightParen)
    } else if c == '{' {
        Some(TokenView::LeftBrace)
    } else if c == '}' {
        Some(TokenView::RightBrace)
    } else if c == ';' {
        Some(TokenView::Semicolon)
    } else {
        None
    }
}

/// The token at the front of `s` and the number of characters it spans, or
/// `None` when no rule matches there.
///
/// A word starting with a letter or underscore is a keyword or an identifier.
/// A word starting with a digit is a number only when it is all digits and its
/// value fits in an `i64`; a digit run glued to letters is never split.
pub open spec fn scan_token(s: Seq<char>) -> Option<(TokenView, nat)> {
    if s.len() == 0 {
        None
    } else if is_word_start(s[0]) {
        let w = s.take(word_len(s) as int);
        Some((word_token(w), w.len()))
    } else if is_digit(s[0]) {
        let w = s.take(word_len(s) as int);
        if all_digits(w) && decimal_value(w) <= i64::MAX {
            Some((TokenView::Number(decimal_value(w)), w.len()))
        } else {
            None
        }
    } else {
        match punctuation(s[0]) {
            Some(t) => Some((t, 1)),
            None => None,
        }
    }
}

/// The tokens of one line, or the unconsumed remainder of the line at the
/// point where no rule matched.
pub open spec fn lex_line(s: Seq<char>) -> Result<Seq<TokenView>, Seq<char>>
    decreases s.len(),
    via lex_line_decreases
{
    if s.len() == 0 {
        Ok(Seq::empty())
    } else if is_whitespace_char(s[0]) {
        lex_line(s.drop_first())
    } else {
        match scan_token(s) {
            None => Err(s),
            Some((t, n)) => match lex_line(s.skip(n as int)) {
                Ok(ts) => Ok(seq![t] + ts),
                Err(r) => Err(r),
            },
        }
    }
}

#[via_fn]
proof fn lex_line_decreases(s: Seq<char>) {
    if s.len() > 0 {
        lemma_word_len_bounds(s);
    }
}

/// Number of characters before the first line feed of `text`, or its length
/// when it holds none.
pub open spec fn line_len(text: Seq<char>) -> nat
    decreases text.len(),
{
    if text.len() == 0 || text[0] == '\n' {
        0
    } else {
        1 + line_len(text.drop_first())
    }
}

/// The text after the first line and its terminator.
pub open spec fn after_line(text: Seq<char>) -> Seq<char> {
    let e = line_len(text);
    if e < text.len() {
        text.skip(e + 1 as int)
    } else {
        Seq::empty()
    }
}

/// Number of physical lines in `text`; a final line needs no line feed.
pub open spec fn line_count(text: Seq<char>) -> nat
    decreases text.len(),
{
    if text.len() == 0 {
        0
    } else {
        1 + line_count(after_line(text))
    }
}

/// Prepends `ts` to a successful outcome; passes a failure on.
pub open spec fn prepend(ts: Seq<TokenView>, r: Result<Seq<TokenView>, LexErrorView>) -> Result<
    Seq<TokenView>,
    LexErrorView,
> {
    match r {
        Ok(us) => Ok(ts + us),
        Err(e) => Err(e),
    }
}

/// The outcome of tokenizing `text`, whose lines are numbered from `done + 1`.
pub open spec fn lex_text(text: Seq<char>, done: nat) -> Result<Seq<TokenView>, LexErrorView>
    decreases text.len(),
{
    if text.len() == 0 {
        Ok(Seq::empty())
    } else {
        match lex_line(text.take(line_len(text) as int)) {
            Err(r) => Err(LexErrorView::Lexical { line: done + 1, rest: r }),
            Ok(ts) => prepend(ts, lex_text(after_line(text), done + 1)),
        }
    }
}

/// The outcome of tokenizing a whole input text.
pub open spec fn tokenize_spec(text: Seq<char>) -> Result<Seq<TokenView>, LexErrorView> {
    lex_text(text, 0)
}

pub proof fn lemma_prepend_empty(r: Result<Seq<TokenView>, LexErrorView>)
    ensures
        prepend(Seq::empty(), r) == r,
{
    if let Ok(us) = r {
        assert(Seq::<TokenView>::empty() + us =~= us);
    }
}

pub proof fn lemma_prepend_concat(
    a: Seq<TokenView>,
    b: Seq<TokenView>,
    r: Result<Seq<TokenView>, LexErrorView>,
)
    ensures
        prepend(a, prepend(b, r)) == prepend(a + b, r),
{
    if let Ok(us) = r {
        assert(a + (b + us) =~= (a + b) + us);
    }
}

pub proof fn lemma_word_len_bounds(s: Seq<char>)
    ensures
        word_len(s) <= s.len(),
        s.len() > 0 && is_word_char(s[0]) ==> word_len(s) > 0,
    decreases s.len(),
{
    if s.len() > 0 && is_word_char(s[0]) {
        lemma_word_len_bounds(s.drop_first());
    }
}

/// The first run of word characters is made of word characters and is not
/// followed by one.
pub proof fn lemma_word_len_facts(s: Seq<char>)
    ensures
        word_len(s) <= s.len(),
        forall|i: int| 0 <= i < word_len(s) ==> is_word_char(#[trigger] s[i]),
        word_len(s) < s.len() ==> !is_word_char(s[word_len(s) as int]),
    decreases s.len(),
{
    if s.len() > 0 && is_word_char(s[0]) {
        let t = s.drop_first();
        lemma_word_len_facts(t);
        assert forall|i: int| 0 <= i < word_len(s) implies is_word_char(#[trigger] s[i]) by {
            if i > 0 {
                assert(s[i] == t[i - 1]);
            }
        }
        if word_len(s) < s.len() {
            assert(s[word_len(s) as int] == t[word_len(t) as int]);
        }
    }
}

/// The first line holds no line feed and is followed by one, if anything.
pub proof fn lemma_line_len_facts(text: Seq<char>)
    ensures
        line_len(text) <= text.len(),
        forall|i: int| 0 <= i < line_len(text) ==> #[trigger] text[i] != '\n',
        line_len(text) < text.len() ==> text[line_len(text) as int] == '\n',
    decreases text.len(),
{
    if text.len() > 0 && text[0] != '\n' {
        let t = text.drop_first();
        lemma_line_len_facts(t);
        assert forall|i: int| 0 <= i < line_len(text) implies #[trigger] text[i] != '\n' by {
            if i > 0 {
                assert(text[i] == t[i - 1]);
            }
        }
        if line_len(text) < text.len() {
            assert(text[line_len(text) as int] == t[line_len(t) as int]);
        }
    }
}

/// A prefix of `k` word characters lies within the first run of word
/// characters, and is that run when no word character follows it.
pub proof fn lemma_word_len_run(s: Seq<char>, k: int)
    requires
        0 <= k <= s.len(),
        forall|i: int| 0 <= i < k ==> is_word_char(#[trigger] s[i]),
    ensures
        k <= word_len(s) <= s.len(),
        (k == s.len() || !is_word_char(s[k])) ==> word_len(s) == k,
    decreases s.len(),
{
    if s.len() > 0 && is_word_char(s[0]) {
        let t = s.drop_first();
        assert forall|i: int| 0 <= i < k - 1 implies is_word_char(#[trigger] t[i]) by {
            assert(t[i] == s[i + 1]);
        }
        if 0 < k < s.len() {
            assert(t[k - 1] == s[k]);
        }
        lemma_word_len_run(t, if k > 0 { k - 1 } else { 0 });
    } else if k > 0 {
        assert(is_word_char(s[0]));
    }
}

/// A prefix of `k` characters other than a line feed lies within the first
/// line, and is that line when a line feed or the end of the text follows it.
pub proof fn lemma_line_len_run(text: Seq<char>, k: int)
    requires
        0 <= k <= text.len(),
        forall|i: int| 0 <= i < k ==> #[trigger] text[i] != '\n',
    ensures
        k <= line_len(text) <= text.len(),
        (k == text.len() || text[k] == '\n') ==> line_len(text) == k,
    decreases text.len(),
{
    if text.len() > 0 && text[0] != '\n' {
        let t = text.drop_first();
        assert forall|i: int| 0 <= i < k - 1 implies #[trigger] t[i] != '\n' by {
            assert(t[i] == text[i + 1]);
        }
        if 0 < k < text.len() {
            assert(t[k - 1] == text[k]);
        }
        lemma_line_len_run(t, if k > 0 { k - 1 } else { 0 });
    } else if k > 0 {
        assert(text[0] != '\n');
    }
}

/// Leading whitespace does not change how a line tokenizes.
pub proof fn lemma_lex_line_skip_whitespace(s: Seq<char>, k: int)
    requires
        0 <= k <= s.len(),
        forall|i: int| 0 <= i < k ==> is_whitespace_char(#[trigger] s[i]),
    ensures
        lex_line(s.skip(k)) == lex_line(s),
    decreases k,
{
    if k > 0 {
        let t = s.drop_first();
        assert forall|i: int| 0 <= i < k - 1 implies is_whitespace_char(#[trigger] t[i]) by {
            assert(t[i] == s[i + 1]);
        }
        lemma_lex_line_skip_whitespace(t, k - 1);
        assert(lex_line(s) == lex_line(t));
        assert(t.skip(k - 1) =~= s.skip(k));
    } else {
        assert(s.skip(0) =~= s);
    }
}

} // verus!
