use vstd::prelude::*;

use crate::frontend::lexer::{Item, Lexer, SpecToken, Stream, Token, chars_of, item, tokenize};
use crate::frontend::parser::{
    FunctionAST, Outcome, ParseFailure, Parser, PrototypeAST, SpecFunction, SpecProto, cur,
    is_char, p_extern, p_function, p_top_level,
};

verus! {

/// What a line of input asks for.
pub enum Command {
    /// Nothing: the line is empty, or its first token ends it.
    Nothing,
    /// Print the module.
    Dump,
    /// Emit a function definition.
    Define(FunctionAST),
    /// Declare an external function.
    Declare(PrototypeAST),
    /// Emit the anonymous function of a top-level expression and run it.
    Evaluate(FunctionAST),
}

/// Why a line is refused.
pub enum LineError {
    /// A syntax error, with its message.
    Syntax(String),
    /// The line goes on after a complete item; this is the token met there.
    TrailingInput(Token),
    /// A run of number characters that is no decimal literal.
    MalformedNumber(String),
}

/// A parsed line: whether it is a top-level expression (which replaces the
/// previous anonymous function even when it fails to parse), and what it asks.
pub struct ParsedLine {
    pub evaluates: bool,
    pub result: Result<Command, LineError>,
}

pub enum SpecCommand {
    Nothing,
    Dump,
    Define(SpecFunction),
    Declare(SpecProto),
    Evaluate(SpecFunction),
}

pub enum SpecLineError {
    Syntax(Seq<char>),
    TrailingInput(SpecToken),
    MalformedNumber(Seq<char>),
}

impl View for Command {
    type V = SpecCommand;

    open spec fn view(&self) -> SpecCommand {
        match self {
            Command::Nothing => SpecCommand::Nothing,
            Command::Dump => SpecCommand::Dump,
            Command::Define(f) => SpecCommand::Define(f@),
            Command::Declare(p) => SpecCommand::Declare(p@),
            Command::Evaluate(f) => SpecCommand::Evaluate(f@),
        }
    }
}

impl View for LineError {
    type V = SpecLineError;

    open spec fn view(&self) -> SpecLineError {
        match self {
            LineError::Syntax(m) => SpecLineError::Syntax(m@),
            LineError::TrailingInput(t) => SpecLineError::TrailingInput(t@),
            LineError::MalformedNumber(x) => SpecLineError::MalformedNumber(x@),
        }
    }
}

pub open spec fn result_view(r: Result<Command, LineError>) -> Result<SpecCommand, SpecLineError> {
    match r {
        Ok(c) => Ok(c@),
        Err(e) => Err(e@),
    }
}

/// Whether a token ends a line's item: `Eof` or `;`.
pub open spec fn ends_item(t: Option<SpecToken>) -> bool {
    t == Some(SpecToken::Eof) || is_char(t, ';')
}

/// After an item parsed with `m` reads: the item, unless more input follows.
pub open spec fn finish_item(st: Stream, m: nat, c: SpecCommand) -> Result<
    SpecCommand,
    SpecLineError,
> {
    if ends_item(cur(st, m)) {
        Ok(c)
    } else {
        Err(SpecLineError::TrailingInput(cur(st, m)->0))
    }
}

pub open spec fn define_outcome(st: Stream) -> Result<SpecCommand, SpecLineError> {
    match p_function(st, 1) {
        Outcome::Parsed(f, m) => finish_item(st, m, SpecCommand::Define(f)),
        Outcome::Failed(e, _) => Err(SpecLineError::Syntax(e)),
        Outcome::Halted(b) => Err(SpecLineError::MalformedNumber(b)),
    }
}

pub open spec fn declare_outcome(st: Stream) -> Result<SpecCommand, SpecLineError> {
    match p_extern(st, 1) {
        Outcome::Parsed(p, m) => finish_item(st, m, SpecCommand::Declare(p)),
        Outcome::Failed(e, _) => Err(SpecLineError::Syntax(e)),
        Outcome::Halted(b) => Err(SpecLineError::MalformedNumber(b)),
    }
}

pub open spec fn evaluate_outcome(st: Stream) -> Result<SpecCommand, SpecLineError> {
    match p_top_level(st, 1) {
        Outcome::Parsed(f, m) => finish_item(st, m, SpecCommand::Evaluate(f)),
        Outcome::Failed(e, _) => Err(SpecLineError::Syntax(e)),
        Outcome::Halted(b) => Err(SpecLineError::MalformedNumber(b)),
    }
}

pub open spec fn dump_command() -> Seq<char> {
    seq![':', 'd', 'u', 'm', 'p']
}

/// What a (trimmed) line asks for: an empty line nothing; `:dump` a dump of
/// the module; otherwise its first token decides: `Eof` or `;` nothing,
/// `def` a definition, `extern` a declaration, anything else a top-level
/// expression; each must be followed by `Eof` or `;`.
pub open spec fn line_outcome(s: Seq<char>) -> (bool, Result<SpecCommand, SpecLineError>) {
    if s.len() == 0 {
        (false, Ok(SpecCommand::Nothing))
    } else if s == dump_command() {
        (false, Ok(SpecCommand::Dump))
    } else {
        let st = tokenize(s);
        match item(st, 0) {
            Item::Bad(b) => (false, Err(SpecLineError::MalformedNumber(b))),
            Item::Tok(t) => {
                if t is Eof {
                    (false, Ok(SpecCommand::Nothing))
                } else if t == SpecToken::Char(';') {
                    match item(st, 1) {
                        Item::Bad(b) => (false, Err(SpecLineError::MalformedNumber(b))),
                        Item::Tok(_) => (false, Ok(SpecCommand::Nothing)),
                    }
                } else if t is Def {
                    (false, define_outcome(st))
                } else if t is Extern {
                    (false, declare_outcome(st))
                } else {
                    (true, evaluate_outcome(st))
                }
            },
        }
    }
}

/// An item of a line (a definition, an external declaration or a top-level
/// expression) that parses is accepted exactly when the token after it is the
/// end of the line or `;`; any other token there is refused as trailing
/// input. Only a top-level expression replaces the previous anonymous
/// function.
pub proof fn law_items_end_at_eof_or_semicolon(s: Seq<char>)
    requires
        s.len() > 0,
        s != dump_command(),
        item(tokenize(s), 0) is Tok,
        item(tokenize(s), 0) != Item::Tok(SpecToken::Eof),
        item(tokenize(s), 0) != Item::Tok(SpecToken::Char(';')),
    ensures
        ({
            let st = tokenize(s);
            let first = item(st, 0)->Tok_0;
            let parsed = if first is Def {
                match p_function(st, 1) {
                    Outcome::Parsed(f, m) => Some((SpecCommand::Define(f), m)),
                    _ => None,
                }
            } else if first is Extern {
                match p_extern(st, 1) {
                    Outcome::Parsed(p, m) => Some((SpecCommand::Declare(p), m)),
                    _ => None,
                }
            } else {
                match p_top_level(st, 1) {
                    Outcome::Parsed(f, m) => Some((SpecCommand::Evaluate(f), m)),
                    _ => None,
                }
            };
            &&& line_outcome(s).0 == !(first is Def || first is Extern)
            &&& parsed matches Some((c, m)) ==> line_outcome(s).1 == if cur(st, m) == Some(
                SpecToken::Eof,
            ) || cur(st, m) == Some(SpecToken::Char(';')) {
                Ok::<SpecCommand, SpecLineError>(c)
            } else {
                Err(SpecLineError::TrailingInput(cur(st, m)->0))
            }
        }),
{
}

fn is_dump(chars: &Vec<char>) -> (b: bool)
    ensures
        b == (chars@ == dump_command()),
{
    if chars.len() == 5 && chars[0] == ':' && chars[1] == 'd' && chars[2] == 'u' && chars[3]
        == 'm' && chars[4] == 'p' {
        assert(chars@ =~= dump_command());
        true
    } else {
        assert(chars@ != dump_command()) by {
            if chars@ == dump_command() {
                assert(chars@[0] == ':' && chars@[1] == 'd' && chars@[2] == 'u' && chars@[3]
                    == 'm' && chars@[4] == 'p');
            }
        }
        false
    }
}

fn failure(e: ParseFailure) -> (r: LineError)
    ensures
        match e {
            ParseFailure::Syntax(m) => r == LineError::Syntax(m),
            ParseFailure::MalformedNumber(x) => r == LineError::MalformedNumber(x),
        },
{
    match e {
        ParseFailure::Syntax(m) => LineError::Syntax(m),
        ParseFailure::MalformedNumber(x) => LineError::MalformedNumber(x),
    }
}

/// Parses a (trimmed) line of input into what it asks for.
pub fn parse_line(line: &str) -> (r: ParsedLine)
    ensures
        (r.evaluates, result_view(r.result)) == line_outcome(line@),
{
    let chars = chars_of(line);
    if chars.len() == 0 {
        return ParsedLine { evaluates: false, result: Ok(Command::Nothing) };
    }
    if is_dump(&chars) {
        return ParsedLine { evaluates: false, result: Ok(Command::Dump) };
    }
    let mut parser = Parser::new(Lexer::new(line));
    let ghost st = parser.stream();
    match parser.advance() {
        Ok(_) => {},
        Err(e) => {
            return ParsedLine { evaluates: false, result: Err(failure(e)) };
        },
    }
    let first = match parser.cur_tok() {
        Token::Eof => 0u8,
        Token::Char(c) => {
            if *c == ';' {
                1u8
            } else {
                4u8
            }
        },
        Token::Def => 2u8,
        Token::Extern => 3u8,
        _ => 4u8,
    };
    if first == 0 {
        return ParsedLine { evaluates: false, result: Ok(Command::Nothing) };
    }
    if first == 1 {
        let result = match parser.advance() {
            Ok(_) => Ok(Command::Nothing),
            Err(e) => Err(failure(e)),
        };
        return ParsedLine { evaluates: false, result };
    }
    if first == 2 {
        let result = match parser.try_parse_function() {
            Ok(f) => {
                if parser.is_fully_parsed() {
                    Ok(Command::Define(f))
                } else {
                    Err(LineError::TrailingInput(parser.into_current()))
                }
            },
            Err(e) => Err(failure(e)),
        };
        return ParsedLine { evaluates: false, result };
    }
    if first == 3 {
        let result = match parser.try_parse_extern() {
            Ok(p) => {
                if parser.is_fully_parsed() {
                    Ok(Command::Declare(p))
                } else {
                    Err(LineError::TrailingInput(parser.into_current()))
                }
            },
            Err(e) => Err(failure(e)),
        };
        return ParsedLine { evaluates: false, result };
    }
    let result = match parser.try_parse_top_level_expr() {
        Ok(f) => {
            if parser.is_fully_parsed() {
                Ok(Command::Evaluate(f))
            } else {
                Err(LineError::TrailingInput(parser.into_current()))
            }
        },
        Err(e) => Err(failure(e)),
    };
    ParsedLine { evaluates: true, result }
}

} // verus!
