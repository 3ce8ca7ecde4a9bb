use kaleidoscope::frontend::driver::{Command, LineError, parse_line};
use kaleidoscope::frontend::lexer::Token;
use kaleidoscope::frontend::parser::ExprAST;

#[test]
fn empty_and_ended_lines_do_nothing() {
    for line in ["", ";", "# a comment", "; 1 2"] {
        let r = parse_line(line);
        assert!(!r.evaluates);
        assert!(matches!(r.result, Ok(Command::Nothing)), "{line}");
    }
}

#[test]
fn dump_is_a_command() {
    assert!(matches!(parse_line(":dump").result, Ok(Command::Dump)));
    assert!(matches!(parse_line(":dum").result, Err(LineError::Syntax(_))));
}

#[test]
fn definitions_and_declarations() {
    match parse_line("def f(x) x * 2;").result {
        Ok(Command::Define(f)) => {
            assert_eq!(f.0 .0, "f");
            assert_eq!(f.1, ExprAST::Binary('*', Box::new(ExprAST::Variable("x".to_string())), Box::new(ExprAST::Number("2".to_string()))));
        }
        _ => panic!("expected a definition"),
    }
    match parse_line("extern sin(x)").result {
        Ok(Command::Declare(p)) => assert_eq!(p.0, "sin"),
        _ => panic!("expected a declaration"),
    }
}

#[test]
fn expressions_are_evaluated() {
    let r = parse_line("1 + 2");
    assert!(r.evaluates);
    match r.result {
        Ok(Command::Evaluate(f)) => assert_eq!(f.0 .0, "__anon_expr"),
        _ => panic!("expected an expression"),
    }
    let r = parse_line("1 +");
    assert!(r.evaluates);
    assert!(matches!(r.result, Err(LineError::Syntax(m)) if m == "unknown token when expecting an expression"));
}

#[test]
fn trailing_input_is_refused() {
    match parse_line("1 2").result {
        Err(LineError::TrailingInput(t)) => assert_eq!(t, Token::Number("2".to_string())),
        _ => panic!("expected trailing input"),
    }
    match parse_line("def f(x) x )").result {
        Err(LineError::TrailingInput(t)) => assert_eq!(t, Token::Char(')')),
        _ => panic!("expected trailing input"),
    }
}

#[test]
fn malformed_numbers_stop_the_line() {
    assert!(matches!(parse_line("1..2").result, Err(LineError::MalformedNumber(x)) if x == "1..2"));
    assert!(matches!(parse_line("def f(x) x + 3.1.4").result, Err(LineError::MalformedNumber(x)) if x == "3.1.4"));
}

#[test]
fn a_malformed_number_after_an_error_is_never_read() {
    assert!(matches!(parse_line("def f(x) x ) 1..2").result, Err(LineError::TrailingInput(Token::Char(')')))));
}
