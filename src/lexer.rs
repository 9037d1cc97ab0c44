//! The line-buffered scanner.
use vstd::prelude::*;

use crate::grammar::{
    after_line, all_digits, decimal_value, is_digit, is_whitespace_char, is_word_char,
    is_word_start, lemma_lex_line_skip_whitespace, lemma_prepend_concat, lemma_prepend_empty,
    lemma_line_len_run, lemma_word_len_bounds, lemma_word_len_run, lex_line, lex_text, line_len, prepend,
    line_count, scan_token, tokenize_spec, word_len,
};
use crate::token::{outcome_view, tokens_view, LexError, LexErrorView, Token, TokenView};

verus! {

fn is_whitespace(c: char) -> (r: bool)
    ensures
        r == is_whitespace_char(c),
{
    ('\u{9}' <= c && c <= '\u{d}') || c == ' ' || c == '\u{85}' || c == '\u{a0}' || c == '\u{1680}'
        || ('\u{2000}' <= c && c <= '\u{200a}') || c == '\u{2028}' || c == '\u{2029}' || c
        == '\u{202f}' || c == '\u{205f}' || c == '\u{3000}'
}

/// Relies on `String::push`: appends one character.
#[verifier::external_body]
fn push_char(s: &mut String, c: char)
    ensures
        final(s)@ == old(s)@.push(c),
{
    s.push(c)
}

fn is_word_start_exec(c: char) -> (r: bool)
    ensures
        r == is_word_start(c),
{
    ('a' <= c && c <= 'z') || ('A' <= c && c <= 'Z') || c == '_'
}

fn is_digit_exec(c: char) -> (r: bool)
    ensures
        r == is_digit(c),
{
    '0' <= c && c <= '9'
}

/// Scans one input text into tokens, one physical line at a time.
///
/// The text is held as characters. The current line is the span
/// `col..line_end`, of which the front part has already been consumed; the
/// text not read yet starts at `next`. `line_number` counts the attempts to
/// read a line so far.
pub struct Tokenizer {
    input: Vec<char>,
    next: usize,
    col: usize,
    line_end: usize,
    line_number: usize,
}

impl Tokenizer {
    /// The spans are ordered within the input, and the line counter cannot
    /// overflow while the unread text is read line by line.
    pub closed spec fn wf(&self) -> bool {
        &&& self.col <= self.line_end <= self.next <= self.input.len()
        &&& self.line_number + (self.input.len() - self.next) <= usize::MAX
    }

    /// What is left of the current line.
    pub closed spec fn buffer(&self) -> Seq<char> {
        self.input@.subrange(self.col as int, self.line_end as int)
    }

    /// The text after the current line.
    pub closed spec fn unread(&self) -> Seq<char> {
        self.input@.skip(self.next as int)
    }

    /// The outcome that [`Tokenizer::tokenize`] has from this state: the
    /// unread text, with lines numbered on from the count of lines read.
    pub closed spec fn pending(&self) -> Result<Seq<TokenView>, LexErrorView> {
        lex_text(self.unread(), self.line_number as nat)
    }

    /// The line count once every unread line and the final attempt at the
    /// end of the input have been counted (it stops at `usize::MAX`).
    pub closed spec fn line_number_at_end(&self) -> nat {
        let n = self.line_number + line_count(self.unread());
        if n < usize::MAX {
            (n + 1) as nat
        } else {
            usize::MAX as nat
        }
    }

    pub closed spec fn line_number_spec(&self) -> nat {
        self.line_number as nat
    }

    /// The outcome of tokenizing the rest of the current line and then the
    /// unread text.
    pub closed spec fn lex_rest(&self) -> Result<Seq<TokenView>, LexErrorView> {
        match lex_line(self.buffer()) {
            Err(r) => Err(LexErrorView::Lexical { line: self.line_number as nat, rest: r }),
            Ok(ts) => prepend(ts, lex_text(self.unread(), self.line_number as nat)),
        }
    }

    /// A tokenizer over `text`, before its first line is read.
    pub fn new(text: &str) -> (r: Tokenizer)
        ensures
            r.wf(),
            r.pending() == tokenize_spec(text@),
            r.line_number_spec() == 0,
    {
        let mut input: Vec<char> = Vec::new();
        for c in it: text.chars()
            invariant
                input@ == it.seq().take(it.index()),
        {
            input.push(c);
        }
        proof {
            broadcast use vstd::string::group_string_axioms;
            assert(input@ =~= text@);
        }
        let r = Tokenizer { input, next: 0, col: 0, line_end: 0, line_number: 0 };
        assert(r.unread() =~= text@);
        r
    }

    /// Tokenizes the whole unread input: the ordered tokens of every line, or
    /// the first failure with the number of the line it occurred on.
    pub fn tokenize(&mut self) -> (r: Result<Vec<Token>, LexError>)
        requires
            old(self).wf(),
        ensures
            final(self).wf(),
            outcome_view(r) == old(self).pending(),
            r is Ok ==> final(self).pending() == Ok::<Seq<TokenView>, LexErrorView>(Seq::empty()),
            r is Ok ==> final(self).line_number_spec() == old(self).line_number_at_end(),
            r matches Err(e) ==> e@ matches LexErrorView::Lexical { line, .. } && line
                == final(self).line_number_spec(),
    {
        let mut tokens: Vec<Token> = Vec::new();
        assert(tokens_view(tokens@) =~= Seq::<TokenView>::empty());
        proof {
            lemma_prepend_empty(old(self).pending());
        }
        loop
            invariant
                self.wf(),
                self.input == old(self).input,
                old(self).pending() == prepend(tokens_view(tokens@), self.pending()),
                self.line_number + line_count(self.unread()) == old(self).line_number
                    + line_count(old(self).unread()),
            decreases self.input.len() - self.next,
        {
            let ghost ts0 = tokens_view(tokens@);
            let ghost old_pending = self.pending();
            if !self.read_line() {
                proof {
                    assert(self.unread().len() == 0);
                    assert(ts0 + Seq::<TokenView>::empty() =~= ts0);
                }
                return Ok(tokens);
            }
            let ghost n0 = self.next;
            assert(self.lex_rest() == old_pending);
            while self.col < self.line_end
                invariant
                    self.wf(),
                    self.input == old(self).input,
                    old(self).pending() == prepend(tokens_view(tokens@), self.lex_rest()),
                    self.next == n0,
                    self.line_number + line_count(self.unread()) == old(self).line_number
                        + line_count(old(self).unread()),
                decreases self.line_end - self.col,
            {
                if is_whitespace(self.input[self.col]) {
                    self.trim_start_inplace();
                } else {
                    let ghost s = self.buffer();
                    let ghost before = self.lex_rest();
                    match self.next_token() {
                        Ok(t) => {
                            proof {
                                lemma_word_len_bounds(s);
                                let tv = tokens_view(tokens@);
                                let rest = lex_text(self.unread(), self.line_number as nat);
                                assert(!is_whitespace_char(s[0]));
                                if let Ok(ts) = lex_line(self.buffer()) {
                                    lemma_prepend_concat(seq![t@], ts, rest);
                                }
                                assert(before == prepend(seq![t@], self.lex_rest()));
                                lemma_prepend_concat(tv, seq![t@], self.lex_rest());
                            }
                            let ghost old_tokens = tokens@;
                            tokens.push(t);
                            assert(tokens_view(tokens@) =~= tokens_view(old_tokens) + seq![t@]);
                        },
                        Err(e) => {
                            return Err(e);
                        },
                    }
                }
            }
            proof {
                assert(self.buffer() =~= Seq::<char>::empty());
                lemma_prepend_empty(self.pending());
            }
        }
    }

    /// The 1-based number of the line read last (0 before the first read).
    pub fn line_number(&self) -> (r: usize)
        ensures
            r == self.line_number_spec(),
    {
        self.line_number
    }

    /// Reads the next physical line into the buffer, without its line feed,
    /// dropping what was left of the previous one. Returns false at the end
    /// of the input. Counts the attempt either way (the count stops at
    /// `usize::MAX`).
    fn read_line(&mut self) -> (r: bool)
        requires
            old(self).wf(),
        ensures
            final(self).wf(),
            final(self).input == old(self).input,
            r ==> final(self).line_number == old(self).line_number + 1,
            !r ==> final(self).line_number == if old(self).line_number < usize::MAX {
                old(self).line_number + 1
            } else {
                old(self).line_number as int
            },
            r == (old(self).unread().len() > 0),
            r ==> final(self).buffer() == old(self).unread().take(
                line_len(old(self).unread()) as int,
            ),
            r ==> final(self).unread() == after_line(old(self).unread()),
            r ==> final(self).next > old(self).next,
            !r ==> final(self).buffer().len() == 0 && final(self).unread() == old(self).unread(),
    {
        if self.next == self.input.len() {
            self.col = self.line_end;
            if self.line_number < usize::MAX {
                self.line_number = self.line_number + 1;
            }
            return false;
        }
        self.line_number = self.line_number + 1;
        let ghost text = self.unread();
        let start = self.next;
        let mut end = start;
        while end < self.input.len() && self.input[end] != '\n'
            invariant
                start <= end <= self.input.len(),
                start == self.next,
                text == self.input@.skip(start as int),
                forall|i: int| start <= i < end ==> self.input@[i] != '\n',
            decreases self.input.len() - end,
        {
            end = end + 1;
        }
        proof {
            lemma_line_len_run(text, end - start);
        }
        self.col = start;
        self.line_end = end;
        if end < self.input.len() {
            self.next = end + 1;
        } else {
            self.next = end;
        }
        assert(self.buffer() =~= text.take(line_len(text) as int));
        assert(self.unread() =~= after_line(text));
        true
    }

    /// Consumes the whole run of whitespace at the front of the buffer, and
    /// nothing else.
    fn trim_start_inplace(&mut self)
        requires
            old(self).wf(),
        ensures
            final(self).wf(),
            final(self).input == old(self).input,
            final(self).next == old(self).next,
            final(self).line_end == old(self).line_end,
            final(self).line_number == old(self).line_number,
            old(self).col <= final(self).col,
            forall|i: int|
                old(self).col <= i < final(self).col ==> is_whitespace_char(
                    #[trigger] old(self).input@[i],
                ),
            final(self).buffer().len() == 0 || !is_whitespace_char(final(self).buffer()[0]),
            old(self).buffer().len() == 0 || !is_whitespace_char(old(self).buffer()[0])
                ==> final(self).buffer() == old(self).buffer(),
            lex_line(final(self).buffer()) == lex_line(old(self).buffer()),
    {
        let ghost s = self.buffer();
        let start = self.col;
        while self.col < self.line_end && is_whitespace(self.input[self.col])
            invariant
                start <= self.col <= self.line_end <= self.next <= self.input.len(),
                self.input == old(self).input,
                self.next == old(self).next,
                self.line_end == old(self).line_end,
                self.line_number == old(self).line_number,
                start == old(self).col,
                self.line_number + (self.input.len() - self.next) <= usize::MAX,
                s == self.input@.subrange(start as int, self.line_end as int),
                forall|i: int| start <= i < self.col ==> is_whitespace_char(#[trigger] self.input@[i]),
            decreases self.line_end - self.col,
        {
            self.col = self.col + 1;
        }
        proof {
            let k = self.col - start;
            assert forall|i: int| 0 <= i < k implies is_whitespace_char(#[trigger] s[i]) by {
                assert(s[i] == self.input@[start + i]);
            }
            lemma_lex_line_skip_whitespace(s, k);
            assert(self.buffer() =~= s.skip(k));
            if self.col < self.line_end {
                assert(self.buffer()[0] == self.input@[self.col as int]);
            }
            if k > 0 {
                assert(s[0] == self.input@[start as int]);
            }
        }
    }

    /// End of the run of word characters that starts at `col`.
    fn word_end(&self) -> (r: usize)
        requires
            self.wf(),
        ensures
            self.col <= r <= self.line_end,
            r - self.col == word_len(self.buffer()),
    {
        let mut j = self.col;
        while j < self.line_end && (is_word_start_exec(self.input[j]) || is_digit_exec(
            self.input[j],
        ))
            invariant
                self.wf(),
                self.col <= j <= self.line_end,
                forall|i: int| self.col <= i < j ==> is_word_char(#[trigger] self.input@[i]),
            decreases self.line_end - j,
        {
            j = j + 1;
        }
        proof {
            let s = self.buffer();
            assert forall|i: int| 0 <= i < j - self.col implies is_word_char(#[trigger] s[i]) by {
                assert(s[i] == self.input@[self.col + i]);
            }
            if j < self.line_end {
                assert(s[j - self.col] == self.input@[j as int]);
            }
            lemma_word_len_run(s, j - self.col);
        }
        j
    }

    /// The characters `from..to` of the input as a string.
    fn text_between(&self, from: usize, to: usize) -> (r: String)
        requires
            from <= to <= self.input.len(),
        ensures
            r@ == self.input@.subrange(from as int, to as int),
    {
        let mut out = String::new();
        let mut i = from;
        while i < to
            invariant
                from <= i <= to <= self.input.len(),
                out@ == self.input@.subrange(from as int, i as int),
            decreases to - i,
        {
            push_char(&mut out, self.input[i]);
            i = i + 1;
            assert(out@ =~= self.input@.subrange(from as int, i as int));
        }
        out
    }

    /// Matches a keyword or an identifier at the front of the buffer; gives
    /// the token and the number of characters it spans.
    fn match_identifier(&self) -> (r: Option<(Token, usize)>)
        requires
            self.wf(),
        ensures
            match r {
                Some((t, n)) => self.buffer().len() > 0 && is_word_start(self.buffer()[0])
                    && scan_token(self.buffer()) == Some((t@, n as nat)),
                None => !(self.buffer().len() > 0 && is_word_start(self.buffer()[0])),
            },
    {
        if self.col >= self.line_end || !is_word_start_exec(self.input[self.col]) {
            return None;
        }
        let end = self.word_end();
        let n = end - self.col;
        let ghost w = self.buffer().take(n as int);
        assert(w =~= self.input@.subrange(self.col as int, end as int));
        let c = self.col;
        if n == 3 && self.input[c] == 'i' && self.input[c + 1] == 'n' && self.input[c + 2] == 't' {
            assert(w =~= seq!['i', 'n', 't']);
            return Some((Token::Int, 3));
        }
        if n == 4 && self.input[c] == 'v' && self.input[c + 1] == 'o' && self.input[c + 2] == 'i'
            && self.input[c + 3] == 'd' {
            assert(w =~= seq!['v', 'o', 'i', 'd']);
            return Some((Token::Void, 4));
        }
        if n == 6 && self.input[c] == 'r' && self.input[c + 1] == 'e' && self.input[c + 2] == 't'
            && self.input[c + 3] == 'u' && self.input[c + 4] == 'r' && self.input[c + 5] == 'n' {
            assert(w =~= seq!['r', 'e', 't', 'u', 'r', 'n']);
            return Some((Token::Return, 6));
        }
        proof {
            if w == seq!['i', 'n', 't'] {
                assert(w[0] == 'i' && w[1] == 'n' && w[2] == 't');
            }
            if w == seq!['v', 'o', 'i', 'd'] {
                assert(w[0] == 'v' && w[1] == 'o' && w[2] == 'i' && w[3] == 'd');
            }
            if w == seq!['r', 'e', 't', 'u', 'r', 'n'] {
                assert(w[0] == 'r' && w[1] == 'e' && w[2] == 't' && w[3] == 'u' && w[4] == 'r'
                    && w[5] == 'n');
            }
        }
        let name = self.text_between(self.col, end);
        Some((Token::Identifier(name), n))
    }

    /// Matches a decimal literal at the front of the buffer; gives the token
    /// and the number of characters it spans.
    fn match_number(&self) -> (r: Option<(Token, usize)>)
        requires
            self.wf(),
        ensures
            self.buffer().len() > 0 && is_digit(self.buffer()[0]) ==> match r {
                Some((t, n)) => scan_token(self.buffer()) == Some((t@, n as nat)),
                None => scan_token(self.buffer()) is None,
            },
            !(self.buffer().len() > 0 && is_digit(self.buffer()[0])) ==> r is None,
    {
        if self.col >= self.line_end || !is_digit_exec(self.input[self.col]) {
            return None;
        }
        let end = self.word_end();
        let ghost w = self.buffer().take(end - self.col);
        assert(w =~= self.input@.subrange(self.col as int, end as int));
        let mut value: i64 = 0;
        let mut overflow = false;
        let mut i = self.col;
        while i < end
            invariant
                self.wf(),
                self.col <= i <= end <= self.line_end,
                w == self.input@.subrange(self.col as int, end as int),
                w == self.buffer().take(word_len(self.buffer()) as int),
                self.buffer().len() > 0 && is_digit(self.buffer()[0]),
                forall|k: int| self.col <= k < i ==> is_digit(#[trigger] self.input@[k]),
                overflow ==> decimal_value(self.input@.subrange(self.col as int, i as int))
                    > i64::MAX,
                !overflow ==> value == decimal_value(
                    self.input@.subrange(self.col as int, i as int),
                ) && value >= 0,
            decreases end - i,
        {
            let c = self.input[i];
            if !is_digit_exec(c) {
                assert(w[i - self.col] == c);
                assert(!all_digits(w));
                return None;
            }
            let d = (c as u32 - '0' as u32) as i64;
            let ghost prev = self.input@.subrange(self.col as int, i as int);
            let ghost cur = self.input@.subrange(self.col as int, i + 1);
            assert(cur.drop_last() =~= prev);
            assert(decimal_value(cur) == 10 * decimal_value(prev) + d);
            if !overflow {
                if value > (i64::MAX - d) / 10 {
                    assert(10 * value + d > i64::MAX) by (nonlinear_arith)
                        requires
                            value > (i64::MAX - d) / 10,
                            0 <= d <= 9,
                    ;
                    overflow = true;
                } else {
                    assert(10 * value + d <= i64::MAX) by (nonlinear_arith)
                        requires
                            value <= (i64::MAX - d) / 10,
                            0 <= d <= 9,
                            value >= 0,
                    ;
                    value = value * 10 + d;
                }
            } else {
                assert(10 * decimal_value(prev) + d > i64::MAX) by (nonlinear_arith)
                    requires
                        decimal_value(prev) > i64::MAX,
                        0 <= d <= 9,
                ;
            }
            i = i + 1;
        }
        assert(all_digits(w));
        if overflow {
            return None;
        }
        Some((Token::Number(value), end - self.col))
    }

    /// Scans one token from the front of the buffer and consumes it.
    fn next_token(&mut self) -> (r: Result<Token, LexError>)
        requires
            old(self).wf(),
        ensures
            final(self).wf(),
            final(self).input == old(self).input,
            final(self).next == old(self).next,
            final(self).line_number == old(self).line_number,
            final(self).line_end == old(self).line_end,
            r is Err ==> final(self).col == old(self).col,
            r is Err ==> final(self).buffer() == old(self).buffer(),
            match r {
                Ok(t) => match scan_token(old(self).buffer()) {
                    Some((tv, n)) => tv == t@ && final(self).buffer() == old(self).buffer().skip(
                        n as int,
                    ),
                    None => false,
                },
                Err(e) => scan_token(old(self).buffer()) is None && e@ == (LexErrorView::Lexical {
                    line: old(self).line_number as nat,
                    rest: old(self).buffer(),
                }),
            },
    {
        if self.col >= self.line_end {
            assert(self.buffer() =~= Seq::<char>::empty());
            return Err(LexError::Lexical { line: self.line_number, rest: String::new() });
        }
        let matched = match self.match_identifier() {
            Some(m) => Some(m),
            None => self.match_number(),
        };
        if let Some((token, len)) = matched {
            proof {
                lemma_word_len_bounds(self.buffer());
            }
            let ghost s = self.buffer();
            self.col = self.col + len;
            assert(self.buffer() =~= s.skip(len as int));
            return Ok(token);
        }
        let token = match self.input[self.col] {
            '(' => Token::LeftParen,
            ')' => Token::RightParen,
            '{' => Token::LeftBrace,
            '}' => Token::RightBrace,
            ';' => Token::Semicolon,
            _ => {
                let rest = self.text_between(self.col, self.line_end);
                return Err(LexError::Lexical { line: self.line_number, rest });
            },
        };
        let ghost s = self.buffer();
        self.col = self.col + 1;
        assert(self.buffer() =~= s.skip(1));
        Ok(token)
    }
}

} // verus!
