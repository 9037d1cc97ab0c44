use c_lexer::lexer::Tokenizer;
use c_lexer::token::{LexError, Token};

fn lex(text: &str) -> Result<Vec<Token>, LexError> {
    let mut tokenizer = Tokenizer::new(text);
    tokenizer.tokenize()
}

fn ident(s: &str) -> Token {
    Token::Identifier(s.to_string())
}

#[test]
fn empty_input_has_no_tokens() {
    assert_eq!(lex(""), Ok(vec![]));
}

#[test]
fn whitespace_only_input_has_no_tokens() {
    assert_eq!(lex("   \t \n\n  \t\n \r\n"), Ok(vec![]));
    assert_eq!(lex("\u{a0}\u{3000}\n"), Ok(vec![]));
}

#[test]
fn keywords_alone() {
    assert_eq!(lex("int"), Ok(vec![Token::Int]));
    assert_eq!(lex("void"), Ok(vec![Token::Void]));
    assert_eq!(lex("return"), Ok(vec![Token::Return]));
}

#[test]
fn words_near_keywords_are_identifiers() {
    assert_eq!(lex("integer"), Ok(vec![ident("integer")]));
    assert_eq!(lex("in"), Ok(vec![ident("in")]));
    assert_eq!(lex("Int"), Ok(vec![ident("Int")]));
    assert_eq!(lex("returns"), Ok(vec![ident("returns")]));
    assert_eq!(lex("voi"), Ok(vec![ident("voi")]));
}

#[test]
fn identifier_keeps_its_text() {
    assert_eq!(lex("main"), Ok(vec![ident("main")]));
    assert_eq!(lex("_x9_Y"), Ok(vec![ident("_x9_Y")]));
    assert_eq!(lex("_"), Ok(vec![ident("_")]));
}

#[test]
fn numbers_read_in_decimal() {
    assert_eq!(lex("007"), Ok(vec![Token::Number(7)]));
    assert_eq!(lex("0"), Ok(vec![Token::Number(0)]));
    assert_eq!(lex("1234"), Ok(vec![Token::Number(1234)]));
    assert_eq!(
        lex("9223372036854775807"),
        Ok(vec![Token::Number(9223372036854775807)])
    );
}

#[test]
fn number_beyond_i64_is_an_error() {
    assert_eq!(
        lex("9223372036854775808"),
        Err(LexError::Lexical { line: 1, rest: "9223372036854775808".to_string() })
    );
}

#[test]
fn digits_glued_to_letters_fail() {
    assert_eq!(
        lex("123abc"),
        Err(LexError::Lexical { line: 1, rest: "123abc".to_string() })
    );
    assert!(matches!(lex("1_"), Err(LexError::Lexical { line: 1, .. })));
}

#[test]
fn punctuation_alone() {
    assert_eq!(lex("("), Ok(vec![Token::LeftParen]));
    assert_eq!(lex(")"), Ok(vec![Token::RightParen]));
    assert_eq!(lex("{"), Ok(vec![Token::LeftBrace]));
    assert_eq!(lex("}"), Ok(vec![Token::RightBrace]));
    assert_eq!(lex(";"), Ok(vec![Token::Semicolon]));
}

#[test]
fn punctuation_run_in_order() {
    assert_eq!(
        lex("(){};"),
        Ok(vec![
            Token::LeftParen,
            Token::RightParen,
            Token::LeftBrace,
            Token::RightBrace,
            Token::Semicolon,
        ])
    );
}

#[test]
fn main_function_line() {
    assert_eq!(
        lex("int main(void) { return 0 ; }"),
        Ok(vec![
            Token::Int,
            ident("main"),
            Token::LeftParen,
            Token::Void,
            Token::RightParen,
            Token::LeftBrace,
            Token::Return,
            Token::Number(0),
            Token::Semicolon,
            Token::RightBrace,
        ])
    );
}

#[test]
fn tokens_continue_across_lines() {
    assert_eq!(
        lex("int x\nreturn x;\n"),
        Ok(vec![Token::Int, ident("x"), Token::Return, ident("x"), Token::Semicolon])
    );
}

#[test]
fn a_word_does_not_span_a_line_feed() {
    assert_eq!(lex("ab\ncd"), Ok(vec![ident("ab"), ident("cd")]));
}

#[test]
fn invalid_character_on_first_line() {
    assert_eq!(lex("@\n"), Err(LexError::Lexical { line: 1, rest: "@".to_string() }));
}

#[test]
fn error_reports_its_line_and_rest() {
    assert_eq!(
        lex("int x;\n\n  return x @ y;\nvoid"),
        Err(LexError::Lexical { line: 3, rest: "@ y;".to_string() })
    );
}

#[test]
fn tokenizing_twice_gives_the_same_result() {
    let text = "int main(void) {\n\treturn 42;\n}\n";
    assert_eq!(lex(text), lex(text));
    assert_eq!(lex("x @"), lex("x @"));
}

#[test]
fn second_run_on_a_finished_tokenizer_is_empty() {
    let mut tokenizer = Tokenizer::new("int x;");
    assert_eq!(tokenizer.tokenize(), Ok(vec![Token::Int, ident("x"), Token::Semicolon]));
    assert_eq!(tokenizer.tokenize(), Ok(vec![]));
}

#[test]
fn line_number_counts_reads() {
    let mut tokenizer = Tokenizer::new("a\nb\n");
    assert_eq!(tokenizer.line_number(), 0);
    assert!(tokenizer.tokenize().is_ok());
    assert_eq!(tokenizer.line_number(), 3);
}

#[test]
fn glued_digits_fail_mid_line_and_on_later_lines() {
    assert_eq!(
        lex("int x;\nreturn 12ab;"),
        Err(LexError::Lexical { line: 2, rest: "12ab;".to_string() })
    );
    assert_eq!(
        lex("f(123_)"),
        Err(LexError::Lexical { line: 1, rest: "123_)".to_string() })
    );
}

#[test]
fn line_number_after_error_is_the_error_line() {
    let mut tokenizer = Tokenizer::new("a\n\nb $\nc");
    assert_eq!(
        tokenizer.tokenize(),
        Err(LexError::Lexical { line: 3, rest: "$".to_string() })
    );
    assert_eq!(tokenizer.line_number(), 3);
}
