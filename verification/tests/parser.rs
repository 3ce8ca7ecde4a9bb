use kaleidoscope::frontend::lexer::{Lexer, Token};
use kaleidoscope::frontend::parser::{ExprAST, ParseFailure, Parser, PrototypeAST};

fn parser_at_start(text: &str) -> Parser {
    let mut p = Parser::new(Lexer::new(text));
    p.get_next_token();
    p
}

fn n(s: &str) -> ExprAST {
    ExprAST::Number(s.to_string())
}

fn v(s: &str) -> ExprAST {
    ExprAST::Variable(s.to_string())
}

fn bin(op: char, l: ExprAST, r: ExprAST) -> ExprAST {
    ExprAST::Binary(op, Box::new(l), Box::new(r))
}

fn expr(text: &str) -> Result<ExprAST, String> {
    parser_at_start(text).parse_expression()
}

#[test]
fn multiplication_binds_more_strongly_than_addition() {
    assert_eq!(expr("2 + 3 * 4"), Ok(bin('+', n("2"), bin('*', n("3"), n("4")))));
    assert_eq!(expr("2 * 3 + 4"), Ok(bin('+', bin('*', n("2"), n("3")), n("4"))));
}

#[test]
fn equal_precedence_associates_to_the_left() {
    assert_eq!(expr("2 + 3 - 4"), Ok(bin('-', bin('+', n("2"), n("3")), n("4"))));
    assert_eq!(expr("1 - 2 - 3 - 4"), Ok(bin('-', bin('-', bin('-', n("1"), n("2")), n("3")), n("4"))));
}

#[test]
fn comparison_binds_least() {
    assert_eq!(expr("a < b + c"), Ok(bin('<', v("a"), bin('+', v("b"), v("c")))));
    assert_eq!(expr("a * b < c"), Ok(bin('<', bin('*', v("a"), v("b")), v("c"))));
}

#[test]
fn parentheses_group() {
    assert_eq!(expr("(2 + 3) * 4"), Ok(bin('*', bin('+', n("2"), n("3")), n("4"))));
}

#[test]
fn calls_take_argument_lists() {
    assert_eq!(
        expr("foo(1, x, 2+3)"),
        Ok(ExprAST::Call("foo".to_string(), vec![n("1"), v("x"), bin('+', n("2"), n("3"))]))
    );
    assert_eq!(expr("foo()"), Ok(ExprAST::Call("foo".to_string(), vec![])));
}

#[test]
fn expression_errors() {
    assert_eq!(expr("foo(1 2)"), Err("Expected ')' or ',' in argument list".to_string()));
    assert_eq!(expr("(1"), Err("Expected ')'".to_string()));
    assert_eq!(expr(")"), Err("unknown token when expecting an expression".to_string()));
    assert_eq!(expr("1 +"), Err("unknown token when expecting an expression".to_string()));
}

#[test]
fn the_parser_stops_at_the_token_after_the_expression() {
    let mut p = parser_at_start("1 + 2 ; 3");
    assert_eq!(p.parse_expression(), Ok(bin('+', n("1"), n("2"))));
    assert_eq!(p.cur_tok(), &Token::Char(';'));
    assert!(p.is_fully_parsed());
    let mut p = parser_at_start("1 2");
    assert_eq!(p.parse_expression(), Ok(n("1")));
    assert!(!p.is_fully_parsed());
}

#[test]
fn number_and_paren_expressions() {
    let mut p = parser_at_start("42 x");
    assert_eq!(p.parse_num_expr(), Ok(n("42")));
    assert_eq!(p.cur_tok(), &Token::Identifier("x".to_string()));
    let mut p = parser_at_start("(a*b) c");
    assert_eq!(p.parse_paren_expr(), Ok(bin('*', v("a"), v("b"))));
    assert_eq!(p.cur_tok(), &Token::Identifier("c".to_string()));
}

#[test]
fn definitions_parse_to_functions() {
    let mut p = parser_at_start("def f(a, b) a + b");
    let f = p.parse_function().unwrap();
    assert_eq!(f.0.get_name(), "f");
    assert_eq!(f.0 .1, vec!["a".to_string(), "b".to_string()]);
    assert_eq!(f.1, bin('+', v("a"), v("b")));
    assert_eq!(p.cur_tok(), &Token::Eof);
}

#[test]
fn parameters_need_no_commas() {
    let mut p = parser_at_start("extern g(a b,,c)");
    let proto = p.parse_extern().unwrap();
    assert_eq!(proto.0, "g");
    assert_eq!(proto.1, vec!["a".to_string(), "b".to_string(), "c".to_string()]);
}

#[test]
fn prototype_errors() {
    let mut p = parser_at_start("def 1");
    assert_eq!(p.parse_function().err(), Some("Expected function name in prototype".to_string()));
    let mut p = parser_at_start("def f x");
    assert_eq!(p.parse_function().err(), Some("Expected a '(' in prototype".to_string()));
    let mut p = parser_at_start("def f(a 1)");
    assert_eq!(p.parse_function().err(), Some("Expected ')' in prototype".to_string()));
}

#[test]
fn a_prototype_can_be_parsed_from_its_name() {
    let mut p = parser_at_start("h(x) 1");
    let proto = p.parse_prototype().unwrap();
    assert_eq!(proto.get_name(), "h");
    assert_eq!(p.cur_tok(), &Token::Number("1".to_string()));
}

#[test]
fn top_level_expressions_become_anonymous_functions() {
    let mut p = parser_at_start("1 + x");
    let f = p.parse_top_level_expr().unwrap();
    assert_eq!(f.0.get_name(), "__anon_expr");
    assert!(f.0 .1.is_empty());
    assert_eq!(f.1, bin('+', n("1"), v("x")));
}

#[test]
fn a_new_prototype_keeps_its_name_and_parameters() {
    let p = PrototypeAST::new("sum".to_string(), vec!["a".to_string()]);
    assert_eq!(p.get_name(), "sum");
    assert_eq!(p.1, vec!["a".to_string()]);
}

#[test]
fn long_operator_chains_group_by_precedence() {
    // 1 < 2 + 3 * 4 - 5 * x reads as 1 < ((2 + (3 * 4)) - (5 * x))
    assert_eq!(
        expr("1 < 2 + 3 * 4 - 5 * x ;"),
        Ok(bin(
            '<',
            n("1"),
            bin('-', bin('+', n("2"), bin('*', n("3"), n("4"))), bin('*', n("5"), v("x")))
        ))
    );
    assert_eq!(
        expr("a * b * c + d < e"),
        Ok(bin('<', bin('+', bin('*', bin('*', v("a"), v("b")), v("c")), v("d")), v("e")))
    );
}

#[test]
fn a_top_level_expression_fails_as_its_expression_does() {
    let mut p = parser_at_start("foo(1 2)");
    assert_eq!(p.parse_top_level_expr().err(), Some("Expected ')' or ',' in argument list".to_string()));
    let mut p = parser_at_start("1 2");
    let f = p.parse_top_level_expr().unwrap();
    assert_eq!(f.1, n("1"));
    assert_eq!(p.cur_tok(), &Token::Number("2".to_string()));
}

#[test]
fn a_malformed_number_is_reported_by_the_checking_entry_points() {
    let mut p = parser_at_start("1 + 2.3.4");
    assert_eq!(p.try_parse_expression(), Err(ParseFailure::MalformedNumber("2.3.4".to_string())));
    let mut p = parser_at_start("1 + 2.5");
    assert_eq!(p.try_parse_expression(), Ok(bin('+', n("1"), n("2.5"))));
    let mut p = Parser::new(Lexer::new("1..2"));
    assert_eq!(p.try_get_next_token(), Err(ParseFailure::MalformedNumber("1..2".to_string())));
    let mut p = Parser::new(Lexer::new("def f(x) x"));
    assert_eq!(p.try_get_next_token(), Ok(()));
    let f = p.try_parse_function().unwrap();
    assert_eq!(f.0.get_name(), "f");
    let mut p = parser_at_start("def f(x) 1.1.1");
    assert_eq!(p.try_parse_function().err(), Some(ParseFailure::MalformedNumber("1.1.1".to_string())));
    let mut p = parser_at_start("extern g(x y)");
    assert_eq!(p.try_parse_extern().map(|q| q.1.len()), Ok(2));
    let mut p = parser_at_start("(3.3.3)");
    assert_eq!(p.try_parse_paren_expr(), Err(ParseFailure::MalformedNumber("3.3.3".to_string())));
    let mut p = parser_at_start("h(a)");
    assert_eq!(p.try_parse_prototype().map(|q| q.0), Ok("h".to_string()));
    let mut p = parser_at_start("7");
    assert_eq!(p.try_parse_num_expr(), Ok(n("7")));
    let mut p = parser_at_start("x + 0.1.");
    assert!(p.try_parse_top_level_expr().is_err());
}
