use vstd::prelude::*;

verus! {

/// A lexical unit of the language.
#[derive(Debug, PartialEq)]
pub enum Token {
    /// A name that is not a reserved keyword.
    Identifier(String),
    /// A decimal integer literal.
    Number(i64),
    Int,
    Void,
    Return,
    LeftParen,
    RightParen,
    LeftBrace,
    RightBrace,
    Semicolon,
}

/// The mathematical value of a [`Token`]: an identifier's text as a sequence
/// of characters, a number as an integer.
pub enum TokenView {
    Identifier(Seq<char>),
    Number(int),
    Int,
    Void,
    Return,
    LeftParen,
    RightParen,
    LeftBrace,
    RightBrace,
    Semicolon,
}

impl View for Token {
    type V = TokenView;

    open spec fn view(&self) -> TokenView {
        match self {
            Token::Identifier(s) => TokenView::Identifier(s@),
            Token::Number(n) => TokenView::Number(*n as int),
            Token::Int => TokenView::Int,
            Token::Void => TokenView::Void,
            Token::Return => TokenView::Return,
            Token::LeftParen => TokenView::LeftParen,
            Token::RightParen => TokenView::RightParen,
            Token::LeftBrace => TokenView::LeftBrace,
            Token::RightBrace => TokenView::RightBrace,
            Token::Semicolon => TokenView::Semicolon,
        }
    }
}

/// The views of a sequence of tokens, in order.
pub open spec fn tokens_view(ts: Seq<Token>) -> Seq<TokenView> {
    ts.map_values(|t: Token| t@)
}

/// Why a tokenization run failed. Both kinds carry the 1-based number of the
/// physical line at which the failure occurred.
#[derive(Debug, PartialEq)]
pub enum LexError {
    /// The input source could not produce the next line.
    Io { line: usize },
    /// No token rule matched at the front of `rest`, the unconsumed remainder
    /// of the line.
    Lexical { line: usize, rest: String },
}

/// The mathematical value of a [`LexError`].
pub enum LexErrorView {
    Io { line: nat },
    Lexical { line: nat, rest: Seq<char> },
}

impl View for LexError {
    type V = LexErrorView;

    open spec fn view(&self) -> LexErrorView {
        match self {
            LexError::Io { line } => LexErrorView::Io { line: *line as nat },
            LexError::Lexical { line, rest } => LexErrorView::Lexical {
                line: *line as nat,
                rest: rest@,
            },
        }
    }
}

/// The mathematical value of the outcome of a tokenization run.
pub open spec fn outcome_view(r: Result<Vec<Token>, LexError>) -> Result<
    Seq<TokenView>,
    LexErrorView,
> {
    match r {
        Ok(ts) => Ok(tokens_view(ts@)),
        Err(e) => Err(e@),
    }
}

} // verus!
