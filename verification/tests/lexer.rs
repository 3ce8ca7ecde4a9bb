use kaleidoscope::frontend::lexer::{Lexer, Token};

fn ident(s: &str) -> Token {
    Token::Identifier(s.to_string())
}

fn num(s: &str) -> Token {
    Token::Number(s.to_string())
}

fn tokens(text: &str) -> Vec<Token> {
    let mut lexer = Lexer::new(text);
    let mut out = Vec::new();
    loop {
        let t = lexer.gettok();
        let end = t == Token::Eof;
        out.push(t);
        if end {
            break;
        }
    }
    out
}

#[test]
fn lexes_a_definition() {
    assert_eq!(
        tokens("def foo(x y) x+y*2"),
        vec![
            Token::Def,
            ident("foo"),
            Token::Char('('),
            ident("x"),
            ident("y"),
            Token::Char(')'),
            ident("x"),
            Token::Char('+'),
            ident("y"),
            Token::Char('*'),
            num("2"),
            Token::Eof,
        ]
    );
}

#[test]
fn whitespace_before_a_token_is_skipped() {
    assert_eq!(tokens("   \t 42"), vec![num("42"), Token::Eof]);
    assert_eq!(tokens("42"), vec![num("42"), Token::Eof]);
}

#[test]
fn eof_repeats_at_the_end() {
    let mut lexer = Lexer::new("  ");
    assert_eq!(lexer.gettok(), Token::Eof);
    assert_eq!(lexer.gettok(), Token::Eof);
}

#[test]
fn numbers_keep_their_decimal_literal() {
    assert_eq!(tokens("3.14"), vec![num("3.14"), Token::Eof]);
    assert_eq!(tokens("1."), vec![num("1."), Token::Eof]);
    assert_eq!(tokens("007"), vec![num("007"), Token::Eof]);
}

#[test]
fn a_number_stops_at_a_letter() {
    assert_eq!(tokens("12ab"), vec![num("12"), ident("ab"), Token::Eof]);
}

#[test]
fn malformed_numbers_are_reported() {
    let mut lexer = Lexer::new("1.2.3 x");
    assert_eq!(lexer.next_token(), Err("1.2.3".to_string()));
    assert_eq!(lexer.next_token(), Ok(ident("x")));
}

#[test]
fn only_ascii_digits_start_a_number() {
    let mut lexer = Lexer::new("\u{663}");
    assert_eq!(lexer.next_token(), Ok(Token::Char('\u{663}')));
    assert_eq!(lexer.next_token(), Ok(Token::Eof));
    assert_eq!(tokens("\u{663}1"), vec![Token::Char('\u{663}'), num("1"), Token::Eof]);
}

#[test]
fn keywords_are_not_identifiers() {
    assert_eq!(
        tokens("define extern externs def"),
        vec![ident("define"), Token::Extern, ident("externs"), Token::Def, Token::Eof]
    );
}

#[test]
fn words_are_ascii_letters_and_digits() {
    assert_eq!(tokens("x\u{e9}"), vec![ident("x"), Token::Char('\u{e9}'), Token::Eof]);
    assert_eq!(
        tokens("a\u{e9}1"),
        vec![ident("a"), Token::Char('\u{e9}'), num("1"), Token::Eof]
    );
    assert_eq!(tokens("\u{e9}a"), vec![Token::Char('\u{e9}'), ident("a"), Token::Eof]);
    assert_eq!(tokens("ab12c"), vec![ident("ab12c"), Token::Eof]);
}

#[test]
fn whitespace_is_the_unicode_white_space_set() {
    assert_eq!(tokens("\u{a0}\u{3000}\u{2028}7"), vec![num("7"), Token::Eof]);
    assert_eq!(tokens("\u{200b}7"), vec![Token::Char('\u{200b}'), num("7"), Token::Eof]);
}

#[test]
fn a_comment_runs_to_the_end_of_the_line() {
    assert_eq!(tokens("# note\n1"), vec![Token::Char('\n'), num("1"), Token::Eof]);
    assert_eq!(tokens("# note\r"), vec![Token::Char('\r'), Token::Eof]);
    assert_eq!(tokens("1 # only a comment"), vec![num("1"), Token::Eof]);
}

#[test]
fn other_characters_are_tokens() {
    assert_eq!(
        tokens("(,);<"),
        vec![
            Token::Char('('),
            Token::Char(','),
            Token::Char(')'),
            Token::Char(';'),
            Token::Char('<'),
            Token::Eof,
        ]
    );
}

#[test]
fn lexing_ends_within_the_length_of_the_text() {
    let text = "def f(x) x*2 # done";
    let toks = tokens(text);
    assert!(toks.len() - 1 <= text.chars().count());
    assert_eq!(toks.last(), Some(&Token::Eof));
    assert!(toks[..toks.len() - 1].iter().all(|t| *t != Token::Eof));
    let mut lexer = Lexer::new("x");
    assert_eq!(lexer.gettok(), ident("x"));
    for _ in 0..3 {
        assert_eq!(lexer.gettok(), Token::Eof);
    }
}

#[test]
fn lexemes_after_wide_characters_are_copied_whole() {
    assert_eq!(
        tokens("\u{e9}\u{3000}x12 \u{1f600}3.5"),
        vec![Token::Char('\u{e9}'), ident("x12"), Token::Char('\u{1f600}'), num("3.5"), Token::Eof]
    );
}
