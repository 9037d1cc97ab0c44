//! Properties of tokenization as a whole.
use vstd::prelude::*;

use crate::grammar::{
    after_line, all_digits, decimal_value, is_digit, is_keyword, is_whitespace_char,
    is_word_char, is_word_start, lemma_lex_line_skip_whitespace, lemma_line_len_facts, lemma_line_len_run, lemma_word_len_bounds, lemma_word_len_facts, lemma_word_len_run, lex_line,
    lex_text, line_len, punctuation, scan_token, tokenize_spec, word_len, word_token,
};
use crate::token::{outcome_view, LexError, LexErrorView, Token, TokenView};

verus! {

/// A text made of one line, with no line feed, tokenizes as that line does.
proof fn lemma_single_line(s: Seq<char>)
    requires
        s.len() > 0,
        forall|i: int| 0 <= i < s.len() ==> #[trigger] s[i] != '\n',
    ensures
        tokenize_spec(s) == match lex_line(s) {
            Ok(ts) => Ok(ts),
            Err(r) => Err(LexErrorView::Lexical { line: 1, rest: r }),
        },
{
    lemma_line_len_run(s, s.len() as int);
    assert(s.take(s.len() as int) =~= s);
    assert(after_line(s) =~= Seq::<char>::empty());
    assert(lex_text(Seq::<char>::empty(), 1) == Ok::<Seq<TokenView>, LexErrorView>(Seq::empty()));
    if let Ok(ts) = lex_line(s) {
        assert(ts + Seq::<TokenView>::empty() =~= ts);
    }
}

/// A single token that spans the whole line is the line's only token.
proof fn lemma_single_token(s: Seq<char>, t: TokenView)
    requires
        s.len() > 0,
        !is_whitespace_char(s[0]),
        scan_token(s) == Some((t, s.len())),
    ensures
        lex_line(s) == Ok::<Seq<TokenView>, Seq<char>>(seq![t]),
{
    assert(s.skip(s.len() as int) =~= Seq::<char>::empty());
    assert(lex_line(Seq::<char>::empty()) == Ok::<Seq<TokenView>, Seq<char>>(Seq::empty()));
    assert(seq![t] + Seq::<TokenView>::empty() =~= seq![t]);
}

/// A word alone tokenizes to the single token for that word.
pub proof fn lemma_word_alone(w: Seq<char>)
    requires
        w.len() > 0,
        is_word_start(w[0]),
        forall|i: int| 0 <= i < w.len() ==> is_word_char(#[trigger] w[i]),
    ensures
        tokenize_spec(w) == Ok::<Seq<TokenView>, LexErrorView>(seq![word_token(w)]),
{
    lemma_word_len_run(w, w.len() as int);
    assert(w.take(w.len() as int) =~= w);
    lemma_single_token(w, word_token(w));
    lemma_single_line(w);
}

/// Input made only of whitespace, line feeds included, has no tokens.
pub proof fn lemma_whitespace_only(text: Seq<char>)
    requires
        forall|i: int| 0 <= i < text.len() ==> is_whitespace_char(#[trigger] text[i]),
    ensures
        tokenize_spec(text) == Ok::<Seq<TokenView>, LexErrorView>(Seq::empty()),
{
    lemma_whitespace_lines(text, 0);
}

proof fn lemma_whitespace_lines(text: Seq<char>, done: nat)
    requires
        forall|i: int| 0 <= i < text.len() ==> is_whitespace_char(#[trigger] text[i]),
    ensures
        lex_text(text, done) == Ok::<Seq<TokenView>, LexErrorView>(Seq::empty()),
    decreases text.len(),
{
    if text.len() > 0 {
        lemma_line_len_run(text, 0);
        let line = text.take(line_len(text) as int);
        assert forall|i: int| 0 <= i < line.len() implies is_whitespace_char(#[trigger] line[i]) by {
            assert(line[i] == text[i]);
        }
        lemma_lex_line_skip_whitespace(line, line.len() as int);
        assert(line.skip(line.len() as int) =~= Seq::<char>::empty());
        let rest = after_line(text);
        assert forall|i: int| 0 <= i < rest.len() implies is_whitespace_char(#[trigger] rest[i]) by {
            assert(rest[i] == text[line_len(text) + 1 + i]);
        }
        lemma_whitespace_lines(rest, done + 1);
        assert(Seq::<TokenView>::empty() + Seq::<TokenView>::empty() =~= Seq::<TokenView>::empty());
    }
}

/// A reserved word alone tokenizes to its keyword, never to an identifier.
pub proof fn lemma_keyword_alone(w: Seq<char>)
    requires
        is_keyword(w),
    ensures
        tokenize_spec(w) == Ok::<Seq<TokenView>, LexErrorView>(seq![word_token(w)]),
        !(word_token(w) is Identifier),
{
    assert(w.len() > 0 && is_word_start(w[0]));
    assert(forall|i: int| 0 <= i < w.len() ==> is_word_char(#[trigger] w[i]));
    lemma_word_alone(w);
}

/// A word that is not reserved tokenizes to one identifier carrying exactly
/// that word.
pub proof fn lemma_identifier_alone(w: Seq<char>)
    requires
        w.len() > 0,
        is_word_start(w[0]),
        forall|i: int| 0 <= i < w.len() ==> is_word_char(#[trigger] w[i]),
        !is_keyword(w),
    ensures
        tokenize_spec(w) == Ok::<Seq<TokenView>, LexErrorView>(seq![TokenView::Identifier(w)]),
{
    lemma_word_alone(w);
}

/// A run of digits alone tokenizes to one number holding its decimal value,
/// provided that value fits in an `i64`.
pub proof fn lemma_number_alone(d: Seq<char>)
    requires
        d.len() > 0,
        all_digits(d),
        decimal_value(d) <= i64::MAX,
    ensures
        tokenize_spec(d) == Ok::<Seq<TokenView>, LexErrorView>(
            seq![TokenView::Number(decimal_value(d))],
        ),
{
    assert(is_digit(d[0]));
    assert forall|i: int| 0 <= i < d.len() implies is_word_char(#[trigger] d[i]) by {
        assert(is_digit(d[i]));
    }
    lemma_word_len_run(d, d.len() as int);
    assert(d.take(d.len() as int) =~= d);
    lemma_single_token(d, TokenView::Number(decimal_value(d)));
    assert forall|i: int| 0 <= i < d.len() implies #[trigger] d[i] != '\n' by {
        assert(is_digit(d[i]));
    }
    lemma_single_line(d);
}

/// A line that starts with a digit run glued to a letter or underscore fails
/// at once, on its whole text.
proof fn lemma_glued_line_err(line: Seq<char>, d: Seq<char>, c: char)
    requires
        d.len() > 0,
        all_digits(d),
        is_word_start(c),
        line.len() > d.len(),
        forall|i: int| 0 <= i < d.len() ==> #[trigger] line[i] == d[i],
        line[d.len() as int] == c,
    ensures
        lex_line(line) == Err::<Seq<TokenView>, Seq<char>>(line),
{
    let k = d.len() + 1int;
    assert forall|i: int| 0 <= i < k implies is_word_char(#[trigger] line[i]) by {
        if i < d.len() {
            assert(line[i] == d[i]);
            assert(is_digit(d[i]));
        }
    }
    lemma_word_len_run(line, k);
    let w = line.take(word_len(line) as int);
    assert(w[d.len() as int] == c);
    assert(!all_digits(w));
    assert(line[0] == d[0]);
    assert(is_digit(d[0]));
    assert(scan_token(line) is None);
}

/// A digit run glued to a letter or underscore at the start of the input is
/// a lexical error on the first line, whatever follows.
pub proof fn lemma_digits_then_letter_fail(d: Seq<char>, c: char, rest: Seq<char>)
    requires
        d.len() > 0,
        all_digits(d),
        is_word_start(c),
    ensures
        tokenize_spec(d + seq![c] + rest) matches Err(LexErrorView::Lexical { line, .. }) && line
            == 1,
{
    let text = d + seq![c] + rest;
    let k = d.len() + 1int;
    assert forall|i: int| 0 <= i < k implies #[trigger] text[i] != '\n' by {
        if i < d.len() {
            assert(text[i] == d[i]);
            assert(is_digit(d[i]));
        } else {
            assert(text[i] == c);
        }
    }
    lemma_line_len_run(text, k);
    let line = text.take(line_len(text) as int);
    assert forall|i: int| 0 <= i < d.len() implies #[trigger] line[i] == d[i] by {
        assert(line[i] == text[i]);
    }
    assert(line[d.len() as int] == text[d.len() as int]);
    lemma_glued_line_err(line, d, c);
}

/// Where no word character precedes it, the front of a line scans the same
/// whatever follows.
proof fn lemma_scan_extend(q: Seq<char>, s: Seq<char>)
    requires
        q.len() > 0,
        !is_word_char(q.last()),
    ensures
        scan_token(q + s) == scan_token(q),
{
    let qs = q + s;
    let k = word_len(q);
    lemma_word_len_facts(q);
    if k == q.len() {
        assert(is_word_char(q[q.len() - 1]));
    }
    assert forall|i: int| 0 <= i < k implies is_word_char(#[trigger] qs[i]) by {
        assert(qs[i] == q[i]);
    }
    assert(qs[k as int] == q[k as int]);
    lemma_word_len_run(qs, k as int);
    assert(qs.take(k as int) =~= q.take(k as int));
    assert(qs[0] == q[0]);
}

/// A line whose front lexes cleanly up to a non-word character fails when
/// what follows fails.
proof fn lemma_line_prefix_err(q: Seq<char>, s: Seq<char>)
    requires
        lex_line(q) is Ok,
        q.len() == 0 || !is_word_char(q.last()),
        lex_line(s) is Err,
    ensures
        lex_line(q + s) is Err,
    decreases q.len(),
{
    let qs = q + s;
    if q.len() == 0 {
        assert(qs =~= s);
    } else {
        assert(qs[0] == q[0]);
        if is_whitespace_char(q[0]) {
            let t = q.drop_first();
            assert(qs.drop_first() =~= t + s);
            if t.len() > 0 {
                assert(t.last() == q.last());
            }
            lemma_line_prefix_err(t, s);
        } else {
            lemma_scan_extend(q, s);
            lemma_word_len_bounds(q);
            let n: nat = match scan_token(q) {
                Some((_, m)) => m,
                None => 0,
            };
            let t = q.skip(n as int);
            assert(qs.skip(n as int) =~= t + s);
            if t.len() > 0 {
                assert(t.last() == q.last());
            }
            lemma_line_prefix_err(t, s);
        }
    }
}

/// Text after whole lines that lex cleanly fails when its first line fails.
proof fn lemma_text_prefix_err(a: Seq<char>, b: Seq<char>, done: nat)
    requires
        a.len() == 0 || a.last() == '\n',
        lex_text(a, done) is Ok,
        lex_line(b.take(line_len(b) as int)) is Err,
    ensures
        lex_text(a + b, done) is Err,
    decreases a.len(),
{
    let ab = a + b;
    if a.len() == 0 {
        assert(ab =~= b);
        if b.len() == 0 {
            assert(b.take(0) =~= Seq::<char>::empty());
        }
    } else {
        let k = line_len(a);
        lemma_line_len_facts(a);
        if k == a.len() {
            assert(a[a.len() - 1] != '\n');
        }
        assert forall|i: int| 0 <= i < k implies #[trigger] ab[i] != '\n' by {
            assert(ab[i] == a[i]);
        }
        assert(ab[k as int] == a[k as int]);
        lemma_line_len_run(ab, k as int);
        assert(ab.take(k as int) =~= a.take(k as int));
        let r = after_line(a);
        assert(after_line(ab) =~= r + b);
        if r.len() > 0 {
            assert(r.last() == a.last());
        }
        lemma_text_prefix_err(r, b, done + 1);
    }
}

/// A digit run glued to a letter or underscore is a lexical error wherever a
/// token starts there: after any lines that lex cleanly, and after any front
/// of its own line that lexes cleanly and ends in a non-word character. It is
/// never split into a number and a word.
pub proof fn lemma_glued_digits_fail(
    before: Seq<char>,
    q: Seq<char>,
    d: Seq<char>,
    c: char,
    rest: Seq<char>,
)
    requires
        before.len() == 0 || before.last() == '\n',
        lex_text(before, 0) is Ok,
        forall|i: int| 0 <= i < q.len() ==> #[trigger] q[i] != '\n',
        lex_line(q) is Ok,
        q.len() == 0 || !is_word_char(q.last()),
        d.len() > 0,
        all_digits(d),
        is_word_start(c),
    ensures
        tokenize_spec(before + (q + d + seq![c] + rest)) is Err,
{
    let tail = d + seq![c] + rest;
    let b = q + tail;
    let k = q.len() + d.len() + 1int;
    assert forall|i: int| 0 <= i < k implies #[trigger] b[i] != '\n' by {
        if i < q.len() {
            assert(b[i] == q[i]);
        } else if i < q.len() + d.len() {
            assert(b[i] == d[i - q.len()]);
            assert(is_digit(d[i - q.len()]));
        } else {
            assert(b[i] == c);
        }
    }
    lemma_line_len_run(b, k);
    let line = b.take(line_len(b) as int);
    let line2 = line.skip(q.len() as int);
    assert(line =~= q + line2);
    assert forall|i: int| 0 <= i < d.len() implies #[trigger] line2[i] == d[i] by {
        assert(line2[i] == b[q.len() + i]);
    }
    assert(line2[d.len() as int] == b[q.len() + d.len() as int]);
    lemma_glued_line_err(line2, d, c);
    lemma_line_prefix_err(q, line2);
    assert(b =~= q + d + seq![c] + rest);
    lemma_text_prefix_err(before, b, 0);
}

/// Each punctuation character alone tokenizes to its fixed token.
pub proof fn lemma_punctuation_alone(c: char)
    requires
        punctuation(c) is Some,
    ensures
        tokenize_spec(seq![c]) == Ok::<Seq<TokenView>, LexErrorView>(seq![punctuation(c)->0]),
{
    let s = seq![c];
    lemma_single_token(s, punctuation(c)->0);
    lemma_single_line(s);
}

/// An identifier token carries a non-empty word that is not reserved.
pub open spec fn identifier_ok(t: TokenView) -> bool {
    t matches TokenView::Identifier(w) ==> w.len() > 0 && !is_keyword(w)
}

proof fn lemma_scan_identifier_ok(s: Seq<char>)
    ensures
        scan_token(s) matches Some((t, _)) ==> identifier_ok(t),
{
    lemma_word_len_bounds(s);
}

proof fn lemma_line_identifiers_ok(s: Seq<char>)
    ensures
        lex_line(s) matches Ok(ts) ==> forall|i: int| 0 <= i < ts.len() ==> identifier_ok(#[trigger] ts[i]),
    decreases s.len(),
{
    if s.len() > 0 {
        if is_whitespace_char(s[0]) {
            lemma_line_identifiers_ok(s.drop_first());
        } else {
            lemma_scan_identifier_ok(s);
            if let Some((t, n)) = scan_token(s) {
                lemma_word_len_bounds(s);
                lemma_line_identifiers_ok(s.skip(n as int));
                if let Ok(us) = lex_line(s.skip(n as int)) {
                    let ts = seq![t] + us;
                    assert forall|i: int| 0 <= i < ts.len() implies identifier_ok(#[trigger] ts[i]) by {
                        if i > 0 {
                            assert(ts[i] == us[i - 1]);
                        }
                    }
                }
            }
        }
    }
}

proof fn lemma_text_identifiers_ok(text: Seq<char>, done: nat)
    ensures
        lex_text(text, done) matches Ok(ts) ==> forall|i: int| 0 <= i < ts.len() ==> identifier_ok(#[trigger] ts[i]),
    decreases text.len(),
{
    if text.len() > 0 {
        let line = text.take(line_len(text) as int);
        lemma_line_identifiers_ok(line);
        lemma_text_identifiers_ok(after_line(text), done + 1);
        if let Ok(ls) = lex_line(line) {
            if let Ok(us) = lex_text(after_line(text), done + 1) {
                let ts = ls + us;
                assert forall|i: int| 0 <= i < ts.len() implies identifier_ok(#[trigger] ts[i]) by {
                    if i >= ls.len() {
                        assert(ts[i] == us[i - ls.len()]);
                    } else {
                        assert(ts[i] == ls[i]);
                    }
                }
            }
        }
    }
}

/// Every identifier that tokenization produces is a non-empty word distinct
/// from the reserved spellings: keywords always win over identifiers.
pub proof fn lemma_identifiers_not_reserved(text: Seq<char>)
    ensures
        tokenize_spec(text) matches Ok(ts) ==> forall|i: int|
            0 <= i < ts.len() ==> identifier_ok(#[trigger] ts[i]),
{
    lemma_text_identifiers_ok(text, 0);
}

/// Tokenization is a function of the input text: two runs over the same text
/// have the same outcome.
pub proof fn lemma_tokenize_deterministic(
    text: Seq<char>,
    r1: Result<Vec<Token>, LexError>,
    r2: Result<Vec<Token>, LexError>,
)
    requires
        outcome_view(r1) == tokenize_spec(text),
        outcome_view(r2) == tokenize_spec(text),
    ensures
        outcome_view(r1) == outcome_view(r2),
{
}

} // verus!
