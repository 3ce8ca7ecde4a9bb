use vstd::prelude::*;

use crate::frontend::lexer::{
    Item, Lexer, SpecToken, Stream, Token, drop_reads, item, lemma_read_step, tokenize_from,
};

verus! {

broadcast use vstd::string::group_string_axioms;

// ---------------------------------------------------------------------------
// Syntax trees
// ---------------------------------------------------------------------------

/// An expression. A number is kept as its decimal literal.
#[derive(PartialEq, Debug)]
pub enum ExprAST {
    Number(String),
    /// Variable - Expression enum for referencing a variable, like "a".
    Variable(String),
    /// Binary - Expression enum for a binary operator.
    Binary(char, Box<ExprAST>, Box<ExprAST>),
    /// Call - Expression enum for function calls.
    Call(String, Vec<ExprAST>),
}

/// The mathematical value of an expression.
pub enum SpecExpr {
    Number(Seq<char>),
    Variable(Seq<char>),
    Binary(char, Box<SpecExpr>, Box<SpecExpr>),
    Call(Seq<char>, Seq<SpecExpr>),
}

/// The value of an expression.
pub open spec fn expr_view(e: ExprAST) -> SpecExpr
    decreases e,
{
    match e {
        ExprAST::Number(n) => SpecExpr::Number(n@),
        ExprAST::Variable(n) => SpecExpr::Variable(n@),
        ExprAST::Binary(op, l, r) => SpecExpr::Binary(op, Box::new(expr_view(*l)), Box::new(expr_view(*r))),
        ExprAST::Call(n, args) => SpecExpr::Call(n@, expr_views(args@)),
    }
}

/// The values of a sequence of expressions.
pub open spec fn expr_views(s: Seq<ExprAST>) -> Seq<SpecExpr>
    decreases s,
{
    if s.len() == 0 {
        Seq::empty()
    } else {
        expr_views(s.drop_last()).push(expr_view(s.last()))
    }
}

impl View for ExprAST {
    type V = SpecExpr;

    open spec fn view(&self) -> SpecExpr {
        expr_view(*self)
    }
}

pub proof fn lemma_expr_views_push(s: Seq<ExprAST>, e: ExprAST)
    ensures
        expr_views(s.push(e)) == expr_views(s).push(e@),
{
    assert(s.push(e).drop_last() =~= s);
}

/// A prototype: the function's name and the names of its parameters.
pub struct PrototypeAST(pub String, pub Vec<String>);

pub struct SpecProto {
    pub name: Seq<char>,
    pub params: Seq<Seq<char>>,
}

impl View for PrototypeAST {
    type V = SpecProto;

    open spec fn view(&self) -> SpecProto {
        SpecProto { name: self.0@, params: self.1@.map_values(|p: String| p@) }
    }
}

/// A function definition: its prototype and its body.
pub struct FunctionAST(pub PrototypeAST, pub ExprAST);

pub struct SpecFunction {
    pub proto: SpecProto,
    pub body: SpecExpr,
}

impl View for FunctionAST {
    type V = SpecFunction;

    open spec fn view(&self) -> SpecFunction {
        SpecFunction { proto: self.0@, body: self.1@ }
    }
}

impl PrototypeAST {
    pub fn new(name: String, args: Vec<String>) -> (p: Self)
        ensures
            p.0 == name,
            p.1 == args,
    {
        Self(name, args)
    }

    pub fn get_name(&self) -> (n: &String)
        ensures
            n == &self.0,
    {
        &self.0
    }
}

// ---------------------------------------------------------------------------
// The grammar, over the token stream
// ---------------------------------------------------------------------------

/// What a parse gives: a value and how many reads of the stream have been
/// made; or an error message and the reads made; or the malformed number on
/// which lexing stopped. `Halted` with no characters also marks the cases a
/// rule is not meant for (no current token yet, a current token the rule does
/// not start with, reads going backwards); the parser's functions exclude
/// them by their `requires` or never reach them.
pub enum Outcome<T> {
    Parsed(T, nat),
    Failed(Seq<char>, nat),
    Halted(Seq<char>),
}

/// The current token after `n` reads of the stream (none before the first).
pub open spec fn cur(st: Stream, n: nat) -> Option<SpecToken> {
    if n == 0 {
        None
    } else {
        match item(st, n - 1) {
            Item::Tok(t) => Some(t),
            Item::Bad(_) => None,
        }
    }
}

pub open spec fn is_char(t: Option<SpecToken>, c: char) -> bool {
    t == Some(SpecToken::Char(c))
}

/// Binding strength of a binary operator; -1 for anything else.
pub open spec fn prec(t: Option<SpecToken>) -> int {
    match t {
        Some(SpecToken::Char(c)) => {
            if c == '<' {
                10
            } else if c == '+' || c == '-' {
                20
            } else if c == '*' {
                40
            } else {
                -1
            }
        },
        _ => -1,
    }
}

/// Reads left before the stream gives only its end.
pub open spec fn fuel(st: Stream, n: nat) -> nat {
    if n <= st.toks.len() + 1 {
        (st.toks.len() + 1 - n) as nat
    } else {
        0
    }
}

pub open spec fn msg_unknown_token() -> Seq<char> {
    "unknown token when expecting an expression"@
}

pub open spec fn msg_expected_rparen() -> Seq<char> {
    "Expected ')'"@
}

pub open spec fn msg_arg_list() -> Seq<char> {
    "Expected ')' or ',' in argument list"@
}

pub open spec fn msg_proto_name() -> Seq<char> {
    "Expected function name in prototype"@
}

pub open spec fn msg_proto_lparen() -> Seq<char> {
    "Expected a '(' in prototype"@
}

pub open spec fn msg_proto_rparen() -> Seq<char> {
    "Expected ')' in prototype"@
}

pub open spec fn anon_name() -> Seq<char> {
    "__anon_expr"@
}

/// numberexpr ::= number
pub open spec fn p_number(st: Stream, n: nat) -> Outcome<SpecExpr> {
    match cur(st, n) {
        Some(SpecToken::Number(x)) => match item(st, n as int) {
            Item::Bad(b) => Outcome::Halted(b),
            Item::Tok(_) => Outcome::Parsed(SpecExpr::Number(x), n + 1),
        },
        _ => Outcome::Halted(Seq::empty()),
    }
}

/// parenexpr ::= '(' expression ')'   (the current token is taken as the '(').
/// Once the stream gives only its end, the expression meets `Eof` at once.
pub open spec fn p_paren(st: Stream, n: nat) -> Outcome<SpecExpr>
    decreases fuel(st, n), 0nat,
{
    if fuel(st, n + 1) < fuel(st, n) {
        match item(st, n as int) {
            Item::Bad(b) => Outcome::Halted(b),
            Item::Tok(_) => p_paren_rest(st, n + 1),
        }
    } else {
        match item(st, n as int) {
            Item::Bad(b) => Outcome::Halted(b),
            Item::Tok(_) => Outcome::Failed(msg_unknown_token(), n + 1),
        }
    }
}

pub open spec fn p_paren_rest(st: Stream, n: nat) -> Outcome<SpecExpr>
    decreases fuel(st, n), 3nat,
{
    match p_expression(st, n) {
        Outcome::Parsed(v, m) => {
            if is_char(cur(st, m), ')') {
                match item(st, m as int) {
                    Item::Bad(b) => Outcome::Halted(b),
                    Item::Tok(_) => Outcome::Parsed(v, m + 1),
                }
            } else {
                Outcome::Failed(msg_expected_rparen(), m)
            }
        },
        Outcome::Failed(e, m) => Outcome::Failed(e, m),
        Outcome::Halted(b) => Outcome::Halted(b),
    }
}

/// identifierexpr ::= identifier | identifier '(' expression (',' expression)* ')'
pub open spec fn p_identifier(st: Stream, n: nat) -> Outcome<SpecExpr>
    decreases fuel(st, n), 0nat,
{
    match cur(st, n) {
        Some(SpecToken::Identifier(id)) => match item(st, n as int) {
            Item::Bad(b) => Outcome::Halted(b),
            Item::Tok(_) => p_ident_rest(st, n + 1, id),
        },
        _ => Outcome::Halted(Seq::empty()),
    }
}

pub open spec fn p_ident_rest(st: Stream, n: nat, id: Seq<char>) -> Outcome<SpecExpr>
    decreases fuel(st, n), 5nat,
{
    if is_char(cur(st, n), '(') {
        match item(st, n as int) {
            Item::Bad(b) => Outcome::Halted(b),
            Item::Tok(_) => p_call_args(st, n + 1, id),
        }
    } else {
        Outcome::Parsed(SpecExpr::Variable(id), n)
    }
}

pub open spec fn p_call_args(st: Stream, n: nat, id: Seq<char>) -> Outcome<SpecExpr>
    decreases fuel(st, n), 4nat,
{
    if is_char(cur(st, n), ')') {
        match item(st, n as int) {
            Item::Bad(b) => Outcome::Halted(b),
            Item::Tok(_) => Outcome::Parsed(SpecExpr::Call(id, Seq::empty()), n + 1),
        }
    } else {
        p_args(st, n, id, Seq::empty())
    }
}

pub open spec fn p_args(st: Stream, n: nat, id: Seq<char>, acc: Seq<SpecExpr>) -> Outcome<
    SpecExpr,
>
    decreases fuel(st, n), 3nat,
{
    match p_expression(st, n) {
        Outcome::Parsed(a, m) => {
            if m < n {
                Outcome::Halted(Seq::empty())
            } else if is_char(cur(st, m), ')') {
                match item(st, m as int) {
                    Item::Bad(b) => Outcome::Halted(b),
                    Item::Tok(_) => Outcome::Parsed(SpecExpr::Call(id, acc.push(a)), m + 1),
                }
            } else if is_char(cur(st, m), ',') {
                match item(st, m as int) {
                    Item::Bad(b) => Outcome::Halted(b),
                    Item::Tok(_) => p_args(st, m + 1, id, acc.push(a)),
                }
            } else {
                Outcome::Failed(msg_arg_list(), m)
            }
        },
        Outcome::Failed(e, m) => Outcome::Failed(e, m),
        Outcome::Halted(b) => Outcome::Halted(b),
    }
}

/// primary ::= identifierexpr | numberexpr | parenexpr
pub open spec fn p_primary(st: Stream, n: nat) -> Outcome<SpecExpr>
    decreases fuel(st, n), 1nat,
{
    match cur(st, n) {
        Some(SpecToken::Number(_)) => p_number(st, n),
        Some(SpecToken::Char(c)) => {
            if c == '(' {
                p_paren(st, n)
            } else {
                Outcome::Failed(msg_unknown_token(), n)
            }
        },
        Some(SpecToken::Identifier(_)) => p_identifier(st, n),
        Some(_) => Outcome::Failed(msg_unknown_token(), n),
        None => Outcome::Halted(Seq::empty()),
    }
}

/// expression ::= primary binoprhs
pub open spec fn p_expression(st: Stream, n: nat) -> Outcome<SpecExpr>
    decreases fuel(st, n), 2nat,
{
    match p_primary(st, n) {
        Outcome::Parsed(lhs, m) => {
            if m < n {
                Outcome::Halted(Seq::empty())
            } else {
                p_binrhs(st, m, 0, lhs)
            }
        },
        Outcome::Failed(e, m) => Outcome::Failed(e, m),
        Outcome::Halted(b) => Outcome::Halted(b),
    }
}

/// binoprhs ::= (binop primary)*, where an operator binding at least as
/// strongly as `expr_prec` continues the expression, and the right operand
/// takes every following operator that binds more strongly than its own.
pub open spec fn p_binrhs(st: Stream, n: nat, expr_prec: int, lhs: SpecExpr) -> Outcome<
    SpecExpr,
>
    decreases fuel(st, n), 1nat,
{
    let tok_prec = prec(cur(st, n));
    if tok_prec < expr_prec {
        Outcome::Parsed(lhs, n)
    } else {
        match cur(st, n) {
            Some(SpecToken::Char(op)) => match item(st, n as int) {
                Item::Bad(b) => Outcome::Halted(b),
                Item::Tok(_) => match p_primary(st, n + 1) {
                    Outcome::Parsed(rhs, m) => {
                        if m < n + 1 {
                            Outcome::Halted(Seq::empty())
                        } else {
                            let r = if tok_prec < prec(cur(st, m)) {
                                p_binrhs(st, m, tok_prec + 1, rhs)
                            } else {
                                Outcome::Parsed(rhs, m)
                            };
                            match r {
                                Outcome::Parsed(rhs2, m2) => {
                                    if m2 < m {
                                        Outcome::Halted(Seq::empty())
                                    } else {
                                        p_binrhs(
                                            st,
                                            m2,
                                            expr_prec,
                                            SpecExpr::Binary(op, Box::new(lhs), Box::new(rhs2)),
                                        )
                                    }
                                },
                                Outcome::Failed(e, k) => Outcome::Failed(e, k),
                                Outcome::Halted(b) => Outcome::Halted(b),
                            }
                        }
                    },
                    Outcome::Failed(e, k) => Outcome::Failed(e, k),
                    Outcome::Halted(b) => Outcome::Halted(b),
                },
            },
            _ => Outcome::Halted(Seq::empty()),
        }
    }
}

/// prototype ::= identifier '(' (identifier | ',')* ')'
pub open spec fn p_prototype(st: Stream, n: nat) -> Outcome<SpecProto> {
    match cur(st, n) {
        Some(SpecToken::Identifier(id)) => match item(st, n as int) {
            Item::Bad(b) => Outcome::Halted(b),
            Item::Tok(_) => {
                if !is_char(cur(st, n + 1), '(') {
                    Outcome::Failed(msg_proto_lparen(), n + 1)
                } else {
                    p_params(st, n + 1, id, Seq::empty())
                }
            },
        },
        _ => Outcome::Failed(msg_proto_name(), n),
    }
}

pub open spec fn p_params(st: Stream, n: nat, id: Seq<char>, params: Seq<Seq<char>>) -> Outcome<
    SpecProto,
>
    decreases fuel(st, n),
{
    match item(st, n as int) {
        Item::Bad(b) => Outcome::Halted(b),
        Item::Tok(t) => match t {
            SpecToken::Identifier(a) => p_params(st, n + 1, id, params.push(a)),
            SpecToken::Char(c) => {
                if c == ',' {
                    p_params(st, n + 1, id, params)
                } else if c == ')' {
                    match item(st, n + 1 as int) {
                        Item::Bad(b) => Outcome::Halted(b),
                        Item::Tok(_) => Outcome::Parsed(SpecProto { name: id, params }, n + 2),
                    }
                } else {
                    Outcome::Failed(msg_proto_rparen(), n + 1)
                }
            },
            _ => Outcome::Failed(msg_proto_rparen(), n + 1),
        },
    }
}

/// definition ::= 'def' prototype expression   (the current token is taken as 'def')
pub open spec fn p_function(st: Stream, n: nat) -> Outcome<SpecFunction> {
    match item(st, n as int) {
        Item::Bad(b) => Outcome::Halted(b),
        Item::Tok(_) => match p_prototype(st, n + 1) {
            Outcome::Parsed(proto, m) => match p_expression(st, m) {
                Outcome::Parsed(body, k) => Outcome::Parsed(SpecFunction { proto, body }, k),
                Outcome::Failed(e, k) => Outcome::Failed(e, k),
                Outcome::Halted(b) => Outcome::Halted(b),
            },
            Outcome::Failed(e, m) => Outcome::Failed(e, m),
            Outcome::Halted(b) => Outcome::Halted(b),
        },
    }
}

/// external ::= 'extern' prototype   (the current token is taken as 'extern')
pub open spec fn p_extern(st: Stream, n: nat) -> Outcome<SpecProto> {
    match item(st, n as int) {
        Item::Bad(b) => Outcome::Halted(b),
        Item::Tok(_) => p_prototype(st, n + 1),
    }
}

/// toplevelexpr ::= expression, as the body of a function `__anon_expr()`.
pub open spec fn p_top_level(st: Stream, n: nat) -> Outcome<SpecFunction> {
    match p_expression(st, n) {
        Outcome::Parsed(body, m) => Outcome::Parsed(
            SpecFunction { proto: SpecProto { name: anon_name(), params: Seq::empty() }, body },
            m,
        ),
        Outcome::Failed(e, m) => Outcome::Failed(e, m),
        Outcome::Halted(b) => Outcome::Halted(b),
    }
}

// ---------------------------------------------------------------------------
// Laws of the grammar
// ---------------------------------------------------------------------------

pub open spec fn binop_prec(c: char) -> int {
    prec(Some(SpecToken::Char(c)))
}

/// The binary operators and how strongly they bind: `*` more strongly than
/// `+` and `-`, which bind alike, and these more strongly than `<`; no other
/// token is a binary operator.
pub proof fn law_operator_strengths(t: SpecToken)
    ensures
        0 <= binop_prec('<') < binop_prec('+'),
        binop_prec('+') == binop_prec('-'),
        binop_prec('-') < binop_prec('*'),
        prec(Some(t)) >= 0 <==> (t == SpecToken::Char('<') || t == SpecToken::Char('+') || t
            == SpecToken::Char('-') || t == SpecToken::Char('*')),
{
}

/// Operator precedence: in `a o1 b o2 c` followed by a token that is no
/// operator, the operator binding less strongly is applied last, and of two
/// operators binding equally strongly the left one is applied first.
pub proof fn law_operator_precedence(
    st: Stream,
    n: nat,
    a: Seq<char>,
    o1: char,
    b: Seq<char>,
    o2: char,
    c: Seq<char>,
    t: SpecToken,
)
    requires
        n >= 1,
        item(st, n - 1) == Item::Tok(SpecToken::Number(a)),
        item(st, n as int) == Item::Tok(SpecToken::Char(o1)),
        item(st, n + 1 as int) == Item::Tok(SpecToken::Number(b)),
        item(st, n + 2 as int) == Item::Tok(SpecToken::Char(o2)),
        item(st, n + 3 as int) == Item::Tok(SpecToken::Number(c)),
        item(st, n + 4 as int) == Item::Tok(t),
        prec(Some(t)) < 0,
        binop_prec(o1) >= 0,
        binop_prec(o2) >= 0,
    ensures
        p_expression(st, n) == Outcome::Parsed(
            if binop_prec(o1) >= binop_prec(o2) {
                SpecExpr::Binary(
                    o2,
                    Box::new(
                        SpecExpr::Binary(
                            o1,
                            Box::new(SpecExpr::Number(a)),
                            Box::new(SpecExpr::Number(b)),
                        ),
                    ),
                    Box::new(SpecExpr::Number(c)),
                )
            } else {
                SpecExpr::Binary(
                    o1,
                    Box::new(SpecExpr::Number(a)),
                    Box::new(
                        SpecExpr::Binary(
                            o2,
                            Box::new(SpecExpr::Number(b)),
                            Box::new(SpecExpr::Number(c)),
                        ),
                    ),
                )
            },
            n + 5,
        ),
{
    let ea = SpecExpr::Number(a);
    let eb = SpecExpr::Number(b);
    let ec = SpecExpr::Number(c);
    assert(cur(st, n) == Some(SpecToken::Number(a)));
    assert(cur(st, n + 1) == Some(SpecToken::Char(o1)));
    assert(cur(st, n + 2) == Some(SpecToken::Number(b)));
    assert(cur(st, n + 3) == Some(SpecToken::Char(o2)));
    assert(cur(st, n + 4) == Some(SpecToken::Number(c)));
    assert(cur(st, n + 5) == Some(t));
    assert(p_primary(st, n) == Outcome::Parsed(ea, n + 1));
    assert(p_primary(st, n + 2) == Outcome::Parsed(eb, n + 3));
    assert(p_primary(st, n + 4) == Outcome::Parsed(ec, n + 5));
    let bc = SpecExpr::Binary(o2, Box::new(eb), Box::new(ec));
    let ab = SpecExpr::Binary(o1, Box::new(ea), Box::new(eb));
    if binop_prec(o1) >= binop_prec(o2) {
        assert(p_binrhs(st, n + 5, 0, SpecExpr::Binary(o2, Box::new(ab), Box::new(ec)))
            == Outcome::Parsed(SpecExpr::Binary(o2, Box::new(ab), Box::new(ec)), n + 5));
        assert(p_binrhs(st, n + 3, 0, ab) == Outcome::Parsed(
            SpecExpr::Binary(o2, Box::new(ab), Box::new(ec)),
            n + 5,
        ));
        assert(p_binrhs(st, n + 1, 0, ea) == Outcome::Parsed(
            SpecExpr::Binary(o2, Box::new(ab), Box::new(ec)),
            n + 5,
        ));
    } else {
        assert(p_binrhs(st, n + 5, binop_prec(o1) + 1, bc) == Outcome::Parsed(bc, n + 5));
        assert(p_binrhs(st, n + 3, binop_prec(o1) + 1, eb) == Outcome::Parsed(bc, n + 5));
        let abc = SpecExpr::Binary(o1, Box::new(ea), Box::new(bc));
        assert(p_binrhs(st, n + 5, 0, abc) == Outcome::Parsed(abc, n + 5));
        assert(p_binrhs(st, n + 1, 0, ea) == Outcome::Parsed(abc, n + 5));
    }
}

/// Whether a token is a leaf of an operator chain: a number or a name.
pub open spec fn is_leaf_token(t: SpecToken) -> bool {
    t is Number || t is Identifier
}

/// The expression a leaf token stands for.
pub open spec fn leaf_expr(t: SpecToken) -> SpecExpr {
    match t {
        SpecToken::Identifier(x) => SpecExpr::Variable(x),
        SpecToken::Number(x) => SpecExpr::Number(x),
        _ => SpecExpr::Number(Seq::empty()),
    }
}

/// The tokens an expression of leaves and binary operators is written with,
/// in order.
pub open spec fn infix_tokens(e: SpecExpr) -> Seq<SpecToken>
    decreases e,
{
    match e {
        SpecExpr::Number(x) => seq![SpecToken::Number(x)],
        SpecExpr::Variable(x) => seq![SpecToken::Identifier(x)],
        SpecExpr::Binary(o, l, r) => infix_tokens(*l) + seq![SpecToken::Char(o)] + infix_tokens(
            *r,
        ),
        SpecExpr::Call(f, _) => seq![SpecToken::Identifier(f)],
    }
}

/// Grouping by precedence: a tree of leaves and binary operators in which
/// the left operand of an operator binds at least as strongly as it, and the
/// right operand more strongly.
pub open spec fn well_grouped(e: SpecExpr) -> bool
    decreases e,
{
    match e {
        SpecExpr::Number(_) => true,
        SpecExpr::Variable(_) => true,
        SpecExpr::Binary(o, l, r) => {
            &&& well_grouped(*l)
            &&& well_grouped(*r)
            &&& (*l matches SpecExpr::Binary(lo, _, _) ==> binop_prec(lo) >= binop_prec(o))
            &&& (*r matches SpecExpr::Binary(ro, _, _) ==> binop_prec(ro) > binop_prec(o))
        },
        SpecExpr::Call(_, _) => false,
    }
}

/// From the current token after `n` reads on, the stream holds `toks` (leaves
/// at even places, binary operators at odd places) and then `t`, which is
/// neither an operator nor `(`.
pub open spec fn is_operator_chain(st: Stream, n: nat, toks: Seq<SpecToken>, t: SpecToken) -> bool {
    &&& n >= 1
    &&& toks.len() % 2 == 1
    &&& forall|i: int| 0 <= i < toks.len() ==> item(st, n - 1 + i) == Item::Tok(#[trigger] toks[i])
    &&& forall|i: int| 0 <= i < toks.len() && i % 2 == 0 ==> is_leaf_token(#[trigger] toks[i])
    &&& forall|i: int| 0 <= i < toks.len() && i % 2 == 1 ==> prec(Some(#[trigger] toks[i])) >= 0
    &&& item(st, n + toks.len() - 1) == Item::Tok(t)
    &&& prec(Some(t)) < 0
    &&& t != SpecToken::Char('(')
}

proof fn lemma_chain_leaf(st: Stream, n: nat, toks: Seq<SpecToken>, t: SpecToken, a: int)
    requires
        is_operator_chain(st, n, toks, t),
        0 <= a < toks.len(),
        a % 2 == 0,
    ensures
        p_primary(st, (n + a) as nat) == Outcome::Parsed(leaf_expr(toks[a]), (n + a + 1) as nat),
        infix_tokens(leaf_expr(toks[a])) == seq![toks[a]],
        well_grouped(leaf_expr(toks[a])),
        !(leaf_expr(toks[a]) is Binary),
{
    assert(item(st, n - 1 + a) == Item::Tok(toks[a]));
    assert(is_leaf_token(toks[a]));
    let next = if a + 1 < toks.len() {
        toks[a + 1]
    } else {
        t
    };
    if a + 1 < toks.len() {
        assert(item(st, n - 1 + (a + 1)) == Item::Tok(toks[a + 1]));
        assert(prec(Some(toks[a + 1])) >= 0);
    }
    assert(item(st, n + a) == Item::Tok(next));
    assert(next != SpecToken::Char('('));
    assert(cur(st, (n + a) as nat) == Some(toks[a]));
    assert(cur(st, (n + a + 1) as nat) == Some(next));
}

/// The operator part of a chain, from the operator at odd place `q0`:
/// operators that bind at least as strongly as `expr_prec` are taken, each
/// right operand taking the operators that bind more strongly than its own.
proof fn lemma_chain_binrhs(
    st: Stream,
    n: nat,
    toks: Seq<SpecToken>,
    t: SpecToken,
    q0: int,
    expr_prec: int,
    lhs: SpecExpr,
)
    requires
        is_operator_chain(st, n, toks, t),
        1 <= q0 <= toks.len(),
        q0 % 2 == 1,
        expr_prec >= 0,
        well_grouped(lhs),
        (lhs is Binary && q0 < toks.len()) ==> prec(Some(toks[q0])) <= binop_prec(
            lhs->Binary_0,
        ),
    ensures
        p_binrhs(st, (n + q0) as nat, expr_prec, lhs) matches Outcome::Parsed(e, m) && {
            let q = m - n;
            &&& q0 <= q <= toks.len()
            &&& q % 2 == 1
            &&& infix_tokens(e) == infix_tokens(lhs) + toks.subrange(q0, q)
            &&& well_grouped(e)
            &&& q == q0 ==> e == lhs
            &&& q > q0 ==> (e is Binary && binop_prec(e->Binary_0) >= expr_prec)
            &&& q == toks.len() || prec(Some(toks[q])) < expr_prec
        },
    decreases toks.len() - q0,
{
    let len = toks.len() as int;
    let r = (n + q0) as nat;
    if q0 == len {
        assert(cur(st, r) == Some(t));
        assert(toks.subrange(q0, q0) =~= Seq::<SpecToken>::empty());
        assert(infix_tokens(lhs) + toks.subrange(q0, q0) =~= infix_tokens(lhs));
        return ;
    }
    let ot = toks[q0];
    assert(item(st, n - 1 + q0) == Item::Tok(ot));
    assert(cur(st, r) == Some(ot));
    let tp = prec(Some(ot));
    assert(tp >= 0);
    if tp < expr_prec {
        assert(toks.subrange(q0, q0) =~= Seq::<SpecToken>::empty());
        assert(infix_tokens(lhs) + toks.subrange(q0, q0) =~= infix_tokens(lhs));
        return ;
    }
    let o = ot->Char_0;
    assert(ot == SpecToken::Char(o));
    assert(item(st, n - 1 + (q0 + 1)) == Item::Tok(toks[q0 + 1]));
    lemma_chain_leaf(st, n, toks, t, q0 + 1);
    let x = leaf_expr(toks[q0 + 1]);
    let m1 = (n + q0 + 2) as nat;
    let np = prec(cur(st, m1));
    if q0 + 2 < len {
        assert(item(st, n - 1 + (q0 + 2)) == Item::Tok(toks[q0 + 2]));
        assert(np == prec(Some(toks[q0 + 2])));
    } else {
        assert(np == prec(Some(t)));
    }
    let (rhs, q1) = if tp < np {
        lemma_chain_binrhs(st, n, toks, t, q0 + 2, tp + 1, x);
        let o2 = p_binrhs(st, m1, tp + 1, x);
        (o2->Parsed_0, o2->Parsed_1 - n)
    } else {
        assert(toks.subrange(q0 + 2, q0 + 2) =~= Seq::<SpecToken>::empty());
        assert(infix_tokens(x) + toks.subrange(q0 + 2, q0 + 2) =~= infix_tokens(x));
        (x, q0 + 2)
    };
    assert(infix_tokens(rhs) == infix_tokens(x) + toks.subrange(q0 + 2, q1));
    assert(q1 == len || prec(Some(toks[q1])) < tp + 1);
    let lhs2 = SpecExpr::Binary(o, Box::new(lhs), Box::new(rhs));
    assert(well_grouped(lhs2));
    lemma_chain_binrhs(st, n, toks, t, q1, expr_prec, lhs2);
    let fin = p_binrhs(st, (n + q1) as nat, expr_prec, lhs2);
    assert(p_binrhs(st, r, expr_prec, lhs) == fin);
    let q = fin->Parsed_1 - n;
    assert(infix_tokens(lhs2) =~= infix_tokens(lhs) + toks.subrange(q0, q1)) by {
        assert(seq![SpecToken::Char(o)] =~= toks.subrange(q0, q0 + 1));
        assert(infix_tokens(x) =~= toks.subrange(q0 + 1, q0 + 2));
    }
    assert(infix_tokens(lhs) + toks.subrange(q0, q1) + toks.subrange(q1, q) =~= infix_tokens(lhs)
        + toks.subrange(q0, q));
}

/// Operator precedence for chains of any length: an expression written as
/// leaves (numbers, names) separated by binary operators and ended by a
/// token that is neither an operator nor `(` is read whole, into the tree of
/// exactly those tokens, in order, in which every operator's left operand
/// binds at least as strongly as it and its right operand more strongly (so
/// operators of equal precedence group to the left); the ending token is then
/// current.
pub proof fn law_operator_chains(st: Stream, n: nat, toks: Seq<SpecToken>, t: SpecToken)
    requires
        is_operator_chain(st, n, toks, t),
    ensures
        p_expression(st, n) matches Outcome::Parsed(e, m) && {
            &&& m == n + toks.len()
            &&& infix_tokens(e) == toks
            &&& well_grouped(e)
            &&& cur(st, m) == Some(t)
        },
{
    lemma_chain_leaf(st, n, toks, t, 0);
    let x = leaf_expr(toks[0]);
    lemma_chain_binrhs(st, n, toks, t, 1, 0, x);
    let o = p_binrhs(st, (n + 1) as nat, 0, x);
    let q = o->Parsed_1 - n;
    if q < toks.len() {
        assert(prec(Some(toks[q])) >= 0);
    }
    assert(seq![toks[0]] + toks.subrange(1, toks.len() as int) =~= toks);
    assert(cur(st, (n + toks.len()) as nat) == Some(t));
}

/// The shape of a tree of binary operators over operands numbered from 0.
pub enum Shape {
    Leaf(nat),
    Node(char, Box<Shape>, Box<Shape>),
}

/// The expression of a shape, with each operand put in its place.
pub open spec fn fill(sh: Shape, operands: Seq<SpecExpr>) -> SpecExpr
    decreases sh,
{
    match sh {
        Shape::Leaf(i) => operands[i as int],
        Shape::Node(o, l, r) => SpecExpr::Binary(
            o,
            Box::new(fill(*l, operands)),
            Box::new(fill(*r, operands)),
        ),
    }
}

/// The operands of a shape, left to right.
pub open spec fn shape_leaves(sh: Shape) -> Seq<nat>
    decreases sh,
{
    match sh {
        Shape::Leaf(i) => seq![i],
        Shape::Node(_, l, r) => shape_leaves(*l) + shape_leaves(*r),
    }
}

/// The operators of a shape, left to right.
pub open spec fn shape_ops(sh: Shape) -> Seq<char>
    decreases sh,
{
    match sh {
        Shape::Leaf(_) => Seq::empty(),
        Shape::Node(o, l, r) => shape_ops(*l) + seq![o] + shape_ops(*r),
    }
}

/// Grouping by precedence: the left operand of an operator binds at least
/// as strongly as it, the right operand more strongly.
pub open spec fn shape_grouped(sh: Shape) -> bool
    decreases sh,
{
    match sh {
        Shape::Leaf(_) => true,
        Shape::Node(o, l, r) => {
            &&& shape_grouped(*l)
            &&& shape_grouped(*r)
            &&& (*l is Node ==> binop_prec(l->Node_0) >= binop_prec(o))
            &&& (*r is Node ==> binop_prec(r->Node_0) > binop_prec(o))
        },
    }
}

/// The numbers from `a` up to `b`.
pub open spec fn span(a: int, b: int) -> Seq<nat> {
    Seq::new((b - a) as nat, |i: int| (a + i) as nat)
}

/// Where operand `i` of a chain starts: at `n`, or just after the operator
/// that follows operand `i - 1`.
pub open spec fn operand_start(n: nat, ends: Seq<nat>, i: int) -> nat {
    if i == 0 {
        n
    } else {
        (ends[i - 1] + 1) as nat
    }
}

/// From the current token after `n` reads on, the stream holds primary
/// expressions (numbers, names, calls, parenthesized expressions) separated
/// by binary operators: operand `i` reads as `operands[i]` and ends with
/// `ends[i]` reads, where operator `ops[i]` is current; after the last operand
/// the current token is no operator.
pub open spec fn is_operand_chain(
    st: Stream,
    n: nat,
    operands: Seq<SpecExpr>,
    ends: Seq<nat>,
    ops: Seq<char>,
) -> bool {
    &&& operands.len() >= 1
    &&& ends.len() == operands.len()
    &&& ops.len() + 1 == operands.len()
    &&& forall|i: int|
        #![trigger p_primary(st, operand_start(n, ends, i))]
        0 <= i < operands.len() ==> ends[i] >= operand_start(n, ends, i) && p_primary(
            st,
            operand_start(n, ends, i),
        ) == Outcome::Parsed(operands[i], ends[i])
    &&& forall|i: int|
        #![trigger ops[i]]
        0 <= i < ops.len() ==> cur(st, ends[i]) == Some(SpecToken::Char(ops[i])) && binop_prec(
            ops[i],
        ) >= 0
    &&& prec(cur(st, ends.last())) < 0
}

/// `p_primary` reads `e` from `s` on, ending with `m >= s` reads.
#[verifier::opaque]
spec fn primary_reads(st: Stream, s: nat, e: SpecExpr, m: nat) -> bool {
    m >= s && p_primary(st, s) == Outcome::Parsed(e, m)
}

/// `p_binrhs` from `m` on, with `lhs` read, gives `e` and ends with `mf` reads.
#[verifier::opaque]
spec fn binrhs_reads(st: Stream, m: nat, expr_prec: int, lhs: SpecExpr, e: SpecExpr, mf: nat) -> bool {
    p_binrhs(st, m, expr_prec, lhs) == Outcome::Parsed(e, mf)
}

/// `is_operand_chain` with the reads of the operands kept opaque.
spec fn operand_chain_reads(
    st: Stream,
    n: nat,
    operands: Seq<SpecExpr>,
    ends: Seq<nat>,
    ops: Seq<char>,
) -> bool {
    &&& operands.len() >= 1
    &&& ends.len() == operands.len()
    &&& ops.len() + 1 == operands.len()
    &&& forall|i: int|
        #![trigger primary_reads(st, operand_start(n, ends, i), operands[i], ends[i])]
        0 <= i < operands.len() ==> primary_reads(
            st,
            operand_start(n, ends, i),
            operands[i],
            ends[i],
        )
    &&& forall|i: int|
        #![trigger ops[i]]
        0 <= i < ops.len() ==> cur(st, ends[i]) == Some(SpecToken::Char(ops[i])) && binop_prec(
            ops[i],
        ) >= 0
    &&& prec(cur(st, ends.last())) < 0
}

/// `p_binrhs` stops at a token that binds less strongly than `expr_prec`.
proof fn lemma_binrhs_stop(st: Stream, m: nat, expr_prec: int, lhs: SpecExpr)
    requires
        prec(cur(st, m)) < expr_prec,
    ensures
        binrhs_reads(st, m, expr_prec, lhs, lhs, m),
{
    reveal(binrhs_reads);
}

/// One operator step of `p_binrhs`: the operator is read, its right operand
/// parsed and extended by the operators that bind more strongly, and the
/// reading goes on with the combined left operand.
proof fn lemma_binrhs_step(
    st: Stream,
    m: nat,
    expr_prec: int,
    lhs: SpecExpr,
    o: char,
    rhs: SpecExpr,
    m1: nat,
    rhs2: SpecExpr,
    m2: nat,
    e: SpecExpr,
    mf: nat,
)
    requires
        cur(st, m) == Some(SpecToken::Char(o)),
        binop_prec(o) >= expr_prec,
        primary_reads(st, m + 1, rhs, m1),
        m1 >= m + 1,
        if binop_prec(o) < prec(cur(st, m1)) {
            binrhs_reads(st, m1, binop_prec(o) + 1, rhs, rhs2, m2)
        } else {
            rhs2 == rhs && m2 == m1
        },
        m2 >= m1,
        binrhs_reads(st, m2, expr_prec, SpecExpr::Binary(o, Box::new(lhs), Box::new(rhs2)), e, mf),
    ensures
        binrhs_reads(st, m, expr_prec, lhs, e, mf),
{
    reveal(binrhs_reads);
    reveal(primary_reads);
    assert(cur(st, m + 1) is Some);
    assert(item(st, m as int) is Tok);
}

#[verifier::spinoff_prover]
#[verifier::rlimit(40)]
proof fn lemma_operand_binrhs(
    st: Stream,
    n: nat,
    operands: Seq<SpecExpr>,
    ends: Seq<nat>,
    ops: Seq<char>,
    j: int,
    expr_prec: int,
    lsh: Shape,
) -> (r: (Shape, int))
    requires
        operand_chain_reads(st, n, operands, ends, ops),
        0 <= j < operands.len(),
        expr_prec >= 0,
        shape_grouped(lsh),
        (lsh is Node && j < ops.len()) ==> binop_prec(ops[j]) <= binop_prec(lsh->Node_0),
    ensures
        j <= r.1 < operands.len(),
        ends[r.1] >= ends[j],
        binrhs_reads(st, ends[j], expr_prec, fill(lsh, operands), fill(r.0, operands), ends[r.1]),
        shape_leaves(r.0) == shape_leaves(lsh) + span(j + 1, r.1 + 1),
        shape_ops(r.0) == shape_ops(lsh) + ops.subrange(j, r.1),
        shape_grouped(r.0),
        r.1 == j ==> r.0 == lsh,
        r.1 > j ==> (r.0 is Node && binop_prec(r.0->Node_0) >= expr_prec),
        r.1 == ops.len() || binop_prec(ops[r.1]) < expr_prec,
    decreases operands.len() - j,
{
    let m = ends[j];
    let lhs = fill(lsh, operands);
    if j == ops.len() || binop_prec(ops[j]) < expr_prec {
        if j == ops.len() {
            assert(ends.last() == ends[j]);
        } else {
            assert(cur(st, ends[j]) == Some(SpecToken::Char(ops[j])));
        }
        lemma_binrhs_stop(st, m, expr_prec, lhs);
        assert(span(j + 1, j + 1) =~= Seq::<nat>::empty());
        assert(shape_leaves(lsh) + span(j + 1, j + 1) =~= shape_leaves(lsh));
        assert(shape_ops(lsh) + ops.subrange(j, j) =~= shape_ops(lsh));
        return (lsh, j);
    }
    let o = ops[j];
    let tp = binop_prec(o);
    assert(cur(st, m) == Some(SpecToken::Char(o)));
    assert(primary_reads(st, operand_start(n, ends, j + 1), operands[j + 1], ends[j + 1]));
    assert(ends[j + 1] >= operand_start(n, ends, j + 1)) by {
        reveal(primary_reads);
    }
    assert(operand_start(n, ends, j + 1) == m + 1);
    let x = Shape::Leaf((j + 1) as nat);
    assert(fill(x, operands) == operands[j + 1]);
    let m1 = ends[j + 1];
    let np = prec(cur(st, m1));
    if j + 1 < ops.len() {
        assert(cur(st, ends[j + 1]) == Some(SpecToken::Char(ops[j + 1])));
    } else {
        assert(ends.last() == ends[j + 1]);
    }
    let (rsh, j1) = if tp < np {
        lemma_operand_binrhs(st, n, operands, ends, ops, j + 1, tp + 1, x)
    } else {
        assert(span(j + 2, j + 2) =~= Seq::<nat>::empty());
        assert(shape_leaves(x) + span(j + 2, j + 2) =~= shape_leaves(x));
        assert(shape_ops(x) + ops.subrange(j + 1, j + 1) =~= shape_ops(x));
        (x, j + 1)
    };
    assert(rsh is Node ==> binop_prec(rsh->Node_0) > tp);
    assert(lsh is Node ==> binop_prec(lsh->Node_0) >= tp);
    let lsh2 = Shape::Node(o, Box::new(lsh), Box::new(rsh));
    assert(shape_grouped(lsh2)) by {
        assert(shape_grouped(rsh));
        assert(shape_grouped(lsh));
    }
    assert(fill(lsh2, operands) == SpecExpr::Binary(
        o,
        Box::new(lhs),
        Box::new(fill(rsh, operands)),
    ));
    let (fsh, jf) = lemma_operand_binrhs(st, n, operands, ends, ops, j1, expr_prec, lsh2);
    lemma_binrhs_step(
        st,
        m,
        expr_prec,
        lhs,
        o,
        operands[j + 1],
        m1,
        fill(rsh, operands),
        ends[j1],
        fill(fsh, operands),
        ends[jf],
    );
    assert(shape_leaves(lsh2) =~= shape_leaves(lsh) + span(j + 1, j1 + 1));
    assert(shape_leaves(lsh) + span(j + 1, j1 + 1) + span(j1 + 1, jf + 1) =~= shape_leaves(lsh)
        + span(j + 1, jf + 1));
    assert(shape_ops(lsh2) =~= shape_ops(lsh) + ops.subrange(j, j1));
    assert(shape_ops(lsh) + ops.subrange(j, j1) + ops.subrange(j1, jf) =~= shape_ops(lsh)
        + ops.subrange(j, jf));
    (fsh, jf)
}

/// Operator precedence over any operands: an expression written as primary
/// expressions (numbers, names, calls, parenthesized expressions) separated
/// by binary operators, and ended by a token that is no operator, is read
/// whole into the tree that holds exactly those operands and operators, in
/// order, in which every operator's left operand binds at least as strongly
/// as it and its right operand more strongly.
pub proof fn law_operator_precedence_over_operands(
    st: Stream,
    n: nat,
    operands: Seq<SpecExpr>,
    ends: Seq<nat>,
    ops: Seq<char>,
) -> (sh: Shape)
    requires
        is_operand_chain(st, n, operands, ends, ops),
    ensures
        p_expression(st, n) == Outcome::Parsed(fill(sh, operands), ends.last()),
        shape_leaves(sh) == span(0, operands.len() as int),
        shape_ops(sh) == ops,
        shape_grouped(sh),
{
    assert forall|i: int| 0 <= i < operands.len() implies #[trigger] primary_reads(st, operand_start(n, ends, i), operands[i], ends[i]) by {
        reveal(primary_reads);
        assert(p_primary(st, operand_start(n, ends, i)) == Outcome::Parsed(operands[i], ends[i]));
    }
    assert(operand_chain_reads(st, n, operands, ends, ops));
    let x = Shape::Leaf(0);
    assert(fill(x, operands) == operands[0]);
    let (sh, k) = lemma_operand_binrhs(st, n, operands, ends, ops, 0, 0, x);
    if k < ops.len() {
        assert(binop_prec(ops[k]) >= 0);
    }
    assert(k == ops.len());
    assert(ends.last() == ends[k]);
    assert(p_primary(st, operand_start(n, ends, 0)) == Outcome::Parsed(operands[0], ends[0]));
    assert(ends[0] >= operand_start(n, ends, 0));
    assert(p_binrhs(st, ends[0], 0, operands[0]) == Outcome::Parsed(fill(sh, operands), ends[k]))
        by {
        reveal(binrhs_reads);
    }
    assert(seq![0nat] + span(1, k + 1) =~= span(0, operands.len() as int));
    assert(Seq::<char>::empty() + ops.subrange(0, k) =~= ops);
    sh
}

/// The parameter names among the tokens between a prototype's parentheses,
/// in order.
pub open spec fn param_names(toks: Seq<SpecToken>) -> Seq<Seq<char>>
    decreases toks.len(),
{
    if toks.len() == 0 {
        Seq::empty()
    } else {
        (match toks[0] {
            SpecToken::Identifier(a) => seq![a],
            _ => Seq::empty(),
        }) + param_names(toks.drop_first())
    }
}

/// The tokens after a prototype's name: `(`, then `toks` (names and commas),
/// then `)`, and one more token.
pub open spec fn is_parameter_list(st: Stream, n: nat, toks: Seq<SpecToken>) -> bool {
    &&& item(st, n as int) == Item::Tok(SpecToken::Char('('))
    &&& forall|i: int|
        0 <= i < toks.len() ==> item(st, n + 1 + i) == Item::Tok(#[trigger] toks[i]) && (
        toks[i] is Identifier || toks[i] == SpecToken::Char(','))
    &&& item(st, (n + 1 + toks.len()) as int) == Item::Tok(SpecToken::Char(')'))
    &&& item(st, (n + 2 + toks.len()) as int) is Tok
}

proof fn lemma_params_read(
    st: Stream,
    n: nat,
    f: Seq<char>,
    toks: Seq<SpecToken>,
    i: int,
    acc: Seq<Seq<char>>,
)
    requires
        is_parameter_list(st, n, toks),
        0 <= i <= toks.len(),
    ensures
        p_params(st, (n + 1 + i) as nat, f, acc) == Outcome::Parsed(
            SpecProto { name: f, params: acc + param_names(toks.subrange(i, toks.len() as int)) },
            n + toks.len() + 3,
        ),
    decreases toks.len() - i,
{
    let len = toks.len() as int;
    let rest = toks.subrange(i, len);
    if i == len {
        assert(rest =~= Seq::<SpecToken>::empty());
        assert(acc + param_names(rest) =~= acc);
    } else {
        assert(item(st, n + 1 + i) == Item::Tok(toks[i]));
        assert(rest.drop_first() =~= toks.subrange(i + 1, len));
        assert(rest[0] == toks[i]);
        match toks[i] {
            SpecToken::Identifier(a) => {
                lemma_params_read(st, n, f, toks, i + 1, acc.push(a));
                assert(acc.push(a) + param_names(toks.subrange(i + 1, len)) =~= acc + (seq![a]
                    + param_names(toks.subrange(i + 1, len))));
            },
            _ => {
                lemma_params_read(st, n, f, toks, i + 1, acc);
                assert(Seq::<Seq<char>>::empty() + param_names(toks.subrange(i + 1, len))
                    =~= param_names(toks.subrange(i + 1, len)));
            },
        }
    }
}

/// A prototype reads its name and exactly the names between its
/// parentheses, in order, with or without commas between them and with no
/// names at all; the token after `)` is then current.
pub proof fn law_prototype_reads_its_parameters(
    st: Stream,
    n: nat,
    f: Seq<char>,
    toks: Seq<SpecToken>,
)
    requires
        n >= 1,
        item(st, n - 1) == Item::Tok(SpecToken::Identifier(f)),
        is_parameter_list(st, n, toks),
    ensures
        p_prototype(st, n) == Outcome::Parsed(
            SpecProto { name: f, params: param_names(toks) },
            n + toks.len() + 3,
        ),
{
    lemma_params_read(st, n, f, toks, 0, Seq::empty());
    assert(toks.subrange(0, toks.len() as int) =~= toks);
    assert(Seq::<Seq<char>>::empty() + param_names(toks) =~= param_names(toks));
    assert(cur(st, n + 1) == Some(SpecToken::Char('(')));
}

/// `p_expression` reads `e` from `s` on, ending with `m >= s` reads.
#[verifier::opaque]
spec fn expression_reads(st: Stream, s: nat, e: SpecExpr, m: nat) -> bool {
    m >= s && p_expression(st, s) == Outcome::Parsed(e, m)
}

/// `p_args` from `s` on, with the arguments `acc` read, gives `e` ending with
/// `m` reads.
#[verifier::opaque]
spec fn args_reads(st: Stream, s: nat, f: Seq<char>, acc: Seq<SpecExpr>, e: SpecExpr, m: nat) -> bool {
    p_args(st, s, f, acc) == Outcome::Parsed(e, m)
}

/// An expression that reads starts at a token that is there, and is neither
/// `)` nor the end.
proof fn lemma_expression_starts_at_a_token(st: Stream, s: nat, e: SpecExpr, m: nat)
    requires
        expression_reads(st, s, e, m),
    ensures
        s >= 1,
        item(st, s - 1) is Tok,
        cur(st, s) != Some(SpecToken::Char(')')),
        cur(st, s) != Some(SpecToken::Eof),
{
    reveal(expression_reads);
}

/// One argument of a call: it is read, then `,` goes on to the next and `)`
/// ends the call.
proof fn lemma_args_step(
    st: Stream,
    s: nat,
    f: Seq<char>,
    acc: Seq<SpecExpr>,
    a: SpecExpr,
    m: nat,
    e: SpecExpr,
    mf: nat,
)
    requires
        expression_reads(st, s, a, m),
        cur(st, m) == Some(SpecToken::Char(',')) || cur(st, m) == Some(SpecToken::Char(')')),
        item(st, m as int) is Tok,
        cur(st, m) == Some(SpecToken::Char(')')) ==> e == SpecExpr::Call(f, acc.push(a)) && mf
            == m + 1,
        cur(st, m) == Some(SpecToken::Char(',')) ==> args_reads(st, m + 1, f, acc.push(a), e, mf),
    ensures
        args_reads(st, s, f, acc, e, mf),
{
    reveal(expression_reads);
    reveal(args_reads);
}

/// Where argument `i` of a call whose name is current after `n` reads
/// starts: just after the `(`, or just after the `,` that ends argument
/// `i - 1`.
pub open spec fn argument_start(n: nat, ends: Seq<nat>, i: int) -> nat {
    if i == 0 {
        n + 2
    } else {
        (ends[i - 1] + 1) as nat
    }
}

proof fn lemma_arguments_read(
    st: Stream,
    n: nat,
    f: Seq<char>,
    args: Seq<SpecExpr>,
    ends: Seq<nat>,
    i: int,
)
    requires
        args.len() >= 1,
        ends.len() == args.len(),
        forall|j: int|
            0 <= j < args.len() ==> #[trigger] expression_reads(
                st,
                argument_start(n, ends, j),
                args[j],
                ends[j],
            ),
        forall|j: int|
            0 <= j < args.len() - 1 ==> cur(st, #[trigger] ends[j]) == Some(SpecToken::Char(',')),
        cur(st, ends.last()) == Some(SpecToken::Char(')')),
        item(st, ends.last() as int) is Tok,
        0 <= i < args.len(),
    ensures
        args_reads(
            st,
            argument_start(n, ends, i),
            f,
            args.take(i),
            SpecExpr::Call(f, args),
            ends.last() + 1,
        ),
    decreases args.len() - i,
{
    assert(expression_reads(st, argument_start(n, ends, i), args[i], ends[i]));
    assert(args.take(i).push(args[i]) =~= args.take(i + 1));
    if i + 1 < args.len() {
        assert(cur(st, ends[i]) == Some(SpecToken::Char(',')));
        assert(expression_reads(st, argument_start(n, ends, i + 1), args[i + 1], ends[i + 1]));
        lemma_expression_starts_at_a_token(
            st,
            argument_start(n, ends, i + 1),
            args[i + 1],
            ends[i + 1],
        );
        lemma_arguments_read(st, n, f, args, ends, i + 1);
    } else {
        assert(args.take(i + 1) =~= args);
    }
    lemma_args_step(
        st,
        argument_start(n, ends, i),
        f,
        args.take(i),
        args[i],
        ends[i],
        SpecExpr::Call(f, args),
        ends.last() + 1,
    );
}

/// Calls: a name followed by `(` reads as a call of that name with the
/// expressions between the parentheses, separated by commas, as its
/// arguments, in order; the token after `)` is then current.
pub proof fn law_calls_read_their_arguments(
    st: Stream,
    n: nat,
    f: Seq<char>,
    args: Seq<SpecExpr>,
    ends: Seq<nat>,
)
    requires
        cur(st, n) == Some(SpecToken::Identifier(f)),
        cur(st, n + 1) == Some(SpecToken::Char('(')),
        args.len() == 0 ==> cur(st, n + 2) == Some(SpecToken::Char(')')) && item(
            st,
            n + 2 as int,
        ) is Tok,
        args.len() > 0 ==> {
            &&& ends.len() == args.len()
            &&& forall|j: int|
                0 <= j < args.len() ==> ends[j] >= argument_start(n, ends, j) && #[trigger] p_expression(
                    st,
                    argument_start(n, ends, j),
                ) == Outcome::Parsed(args[j], ends[j])
            &&& forall|j: int|
                0 <= j < args.len() - 1 ==> cur(st, #[trigger] ends[j]) == Some(
                    SpecToken::Char(','),
                )
            &&& cur(st, ends.last()) == Some(SpecToken::Char(')'))
            &&& item(st, ends.last() as int) is Tok
        },
    ensures
        p_primary(st, n) == Outcome::Parsed(
            SpecExpr::Call(f, args),
            if args.len() == 0 {
                n + 3
            } else {
                ends.last() + 1
            },
        ),
{
    assert(item(st, n as int) is Tok);
    if args.len() == 0 {
        assert(args =~= Seq::<SpecExpr>::empty());
    } else {
        assert forall|j: int| 0 <= j < args.len() implies #[trigger] expression_reads(
            st,
            argument_start(n, ends, j),
            args[j],
            ends[j],
        ) by {
            reveal(expression_reads);
            assert(p_expression(st, argument_start(n, ends, j)) == Outcome::Parsed(
                args[j],
                ends[j],
            ));
        }
        lemma_arguments_read(st, n, f, args, ends, 0);
        lemma_expression_starts_at_a_token(st, n + 2, args[0], ends[0]);
        assert(args.take(0) =~= Seq::<SpecExpr>::empty());
        reveal(args_reads);
        assert(p_call_args(st, n + 2, f) == p_args(st, n + 2, f, Seq::empty()));
    }
}

/// A name not followed by `(` reads as that name, and a number as itself.
pub proof fn law_names_and_numbers_read_as_themselves(st: Stream, n: nat)
    requires
        item(st, n as int) is Tok,
        cur(st, n) matches Some(SpecToken::Identifier(_)) ==> cur(st, n + 1) != Some(
            SpecToken::Char('('),
        ),
    ensures
        cur(st, n) matches Some(SpecToken::Identifier(x)) ==> p_primary(st, n) == Outcome::Parsed(
            SpecExpr::Variable(x),
            n + 1,
        ),
        cur(st, n) matches Some(SpecToken::Number(x)) ==> p_primary(st, n) == Outcome::Parsed(
            SpecExpr::Number(x),
            n + 1,
        ),
{
}

/// A parenthesized expression reads as the expression inside, and the
/// token after `)` is then current.
pub proof fn law_parentheses_read_as_their_expression(st: Stream, n: nat, e: SpecExpr, m: nat)
    requires
        cur(st, n) == Some(SpecToken::Char('(')),
        m >= n + 1,
        p_expression(st, n + 1) == Outcome::Parsed(e, m),
        cur(st, m) == Some(SpecToken::Char(')')),
        item(st, m as int) is Tok,
    ensures
        p_primary(st, n) == Outcome::Parsed(e, m + 1),
{
    assert(expression_reads(st, n + 1, e, m)) by {
        reveal(expression_reads);
    }
    lemma_expression_starts_at_a_token(st, n + 1, e, m);
    assert(n < st.toks.len());
    assert(fuel(st, n + 1) < fuel(st, n));
}

/// A top-level expression is the anonymous function `__anon_expr()` whose
/// body is the expression read from the same place; when the expression
/// fails, it fails alike.
pub proof fn law_top_level_wraps_expression(st: Stream, n: nat)
    ensures
        p_top_level(st, n) == match p_expression(st, n) {
            Outcome::Parsed(e, m) => Outcome::Parsed(
                SpecFunction {
                    proto: SpecProto { name: "__anon_expr"@, params: Seq::empty() },
                    body: e,
                },
                m,
            ),
            Outcome::Failed(msg, m) => Outcome::Failed(msg, m),
            Outcome::Halted(b) => Outcome::Halted(b),
        },
{
}

// ---------------------------------------------------------------------------
// The parser
// ---------------------------------------------------------------------------

/// Why a parse stopped.
#[derive(PartialEq, Debug)]
pub enum ParseFailure {
    /// A syntax error, with its message.
    Syntax(String),
    /// The characters of a number that is no decimal literal; lexing cannot go on.
    MalformedNumber(String),
}

/// `r` is what outcome `o` says, `n` the reads made after it.
pub open spec fn reports<T: View>(r: Result<T, ParseFailure>, o: Outcome<T::V>, n: nat) -> bool {
    match o {
        Outcome::Parsed(v, m) => r matches Ok(x) && x@ == v && n == m,
        Outcome::Failed(e, m) => r matches Err(ParseFailure::Syntax(msg)) && msg@ == e && n == m,
        Outcome::Halted(b) => r matches Err(ParseFailure::MalformedNumber(x)) && x@ == b,
    }
}

/// `r` is what outcome `o` says, `n` the reads made after it; `o` does not halt.
pub open spec fn yields<T: View>(r: Result<T, String>, o: Outcome<T::V>, n: nat) -> bool {
    match o {
        Outcome::Parsed(v, m) => r matches Ok(x) && x@ == v && n == m,
        Outcome::Failed(e, m) => r matches Err(msg) && msg@ == e && n == m,
        Outcome::Halted(_) => false,
    }
}

pub open spec fn string_views(v: Seq<String>) -> Seq<Seq<char>> {
    v.map_values(|p: String| p@)
}

/// The outcome once the closing `)` of a call is current.
pub open spec fn close_call(st: Stream, m: nat, id: Seq<char>, args: Seq<SpecExpr>) -> Outcome<
    SpecExpr,
> {
    match item(st, m as int) {
        Item::Bad(b) => Outcome::Halted(b),
        Item::Tok(_) => Outcome::Parsed(SpecExpr::Call(id, args), m + 1),
    }
}

fn get_tok_precedence(tok: &Token) -> (p: isize)
    ensures
        p == prec(Some(tok@)),
{
    match tok {
        Token::Char(c) => {
            if *c == '<' {
                10
            } else if *c == '+' || *c == '-' {
                20
            } else if *c == '*' {
                40
            } else {
                -1
            }
        },
        _ => -1,
    }
}

pub open spec fn token_opt_view(t: Option<Token>) -> Option<SpecToken> {
    match t {
        Some(t) => Some(t@),
        None => None,
    }
}

/// A recursive-descent parser with a one-token buffer.
pub struct Parser {
    lexer: Lexer,
    cur_tok: Option<Token>,
    stream: Ghost<Stream>,
    reads: Ghost<nat>,
}

/// `p1` is a well-formed later state of the parser `p0`.
pub open spec fn progressed(p0: Parser, p1: Parser) -> bool {
    &&& p1.wf()
    &&& p1.stream() == p0.stream()
    &&& p1.reads() >= p0.reads()
}

impl Parser {
    /// The tokens the parser reads, from where its lexer stood.
    pub closed spec fn stream(&self) -> Stream {
        self.stream@
    }

    /// How many tokens the parser has read.
    pub closed spec fn reads(&self) -> nat {
        self.reads@
    }

    pub closed spec fn current(&self) -> Option<SpecToken> {
        token_opt_view(self.cur_tok)
    }

    pub closed spec fn wf(&self) -> bool {
        &&& self.lexer.wf()
        &&& tokenize_from(self.lexer.text(), self.lexer.position()) == drop_reads(
            self.stream@,
            self.reads@,
        )
        &&& self.current() == cur(self.stream@, self.reads@)
        &&& self.reads@ > 0 ==> item(self.stream@, self.reads@ - 1) is Tok
    }

    pub fn new(lexer: Lexer) -> (p: Parser)
        requires
            lexer.wf(),
        ensures
            p.wf(),
            p.stream() == tokenize_from(lexer.text(), lexer.position()),
            p.reads() == 0,
    {
        let ghost st = tokenize_from(lexer.text(), lexer.position());
        assert(st.toks.skip(0) =~= st.toks);
        assert(drop_reads(st, 0) =~= st);
        Parser { lexer, cur_tok: None, stream: Ghost(st), reads: Ghost(0) }
    }

    /// Reads the next token into the buffer and gives back the token it held.
    pub(crate) fn advance(&mut self) -> (r: Result<Option<Token>, ParseFailure>)
        requires
            old(self).wf(),
        ensures
            match item(old(self).stream(), old(self).reads() as int) {
                Item::Tok(t) => {
                    &&& r matches Ok(prev) && token_opt_view(prev) == old(self).current()
                    &&& final(self).wf()
                    &&& final(self).stream() == old(self).stream()
                    &&& final(self).reads() == old(self).reads() + 1
                },
                Item::Bad(x) => r matches Err(ParseFailure::MalformedNumber(b)) && b@ == x,
            },
    {
        proof {
            lemma_read_step(self.lexer.text(), self.lexer.position(), self.stream@, self.reads@);
        }
        match self.lexer.next_token() {
            Ok(tok) => {
                let prev = self.cur_tok.take();
                self.cur_tok = Some(tok);
                self.reads = Ghost(self.reads@ + 1);
                Ok(prev)
            },
            Err(x) => Err(ParseFailure::MalformedNumber(x)),
        }
    }

    /// cur_tok/get_next_token - Provide a simple token buffer.  cur_tok is the current
    /// token the parser is looking at.  get_next_token reads another token from the
    /// lexer and updates cur_tok with its results.
    pub fn get_next_token(&mut self)
        requires
            old(self).wf(),
            item(old(self).stream(), old(self).reads() as int) is Tok,
        ensures
            final(self).wf(),
            final(self).stream() == old(self).stream(),
            final(self).reads() == old(self).reads() + 1,
    {
        let _ = self.advance();
    }

    /// `get_next_token`, reporting a malformed number instead of requiring
    /// that the next token is none.
    pub fn try_get_next_token(&mut self) -> (r: Result<(), ParseFailure>)
        requires
            old(self).wf(),
        ensures
            match item(old(self).stream(), old(self).reads() as int) {
                Item::Tok(_) => {
                    &&& r is Ok
                    &&& final(self).wf()
                    &&& final(self).stream() == old(self).stream()
                    &&& final(self).reads() == old(self).reads() + 1
                },
                Item::Bad(x) => r matches Err(ParseFailure::MalformedNumber(b)) && b@ == x,
            },
    {
        match self.advance() {
            Ok(_) => Ok(()),
            Err(e) => Err(e),
        }
    }

    pub fn cur_tok(&self) -> (t: &Token)
        requires
            self.wf(),
            self.reads() > 0,
        ensures
            cur(self.stream(), self.reads()) == Some(t@),
    {
        self.cur_tok.as_ref().unwrap()
    }

    fn cur_is(&self, c: char) -> (b: bool)
        requires
            self.wf(),
            self.reads() > 0,
        ensures
            b == is_char(cur(self.stream(), self.reads()), c),
    {
        match self.cur_tok() {
            Token::Char(d) => *d == c,
            _ => false,
        }
    }

    /// Whether the current token ends the input: `Eof` or `;`.
    pub fn is_fully_parsed(&self) -> (b: bool)
        requires
            self.wf(),
            self.reads() > 0,
        ensures
            b == (cur(self.stream(), self.reads()) == Some(SpecToken::Eof) || is_char(
                cur(self.stream(), self.reads()),
                ';',
            )),
    {
        match self.cur_tok() {
            Token::Eof => true,
            Token::Char(d) => *d == ';',
            _ => false,
        }
    }

    /// `parse_num_expr`, reporting a malformed number that lexing meets on the
    /// way instead of requiring that there is none.
    pub fn try_parse_num_expr(&mut self) -> (r: Result<ExprAST, ParseFailure>)
        requires
            old(self).wf(),
            cur(old(self).stream(), old(self).reads()) matches Some(SpecToken::Number(_)),
        ensures
            reports(r, p_number(old(self).stream(), old(self).reads()), final(self).reads()),
            !(p_number(old(self).stream(), old(self).reads()) is Halted) ==> progressed(
                *old(self),
                *final(self),
            ),
    {
        match self.advance() {
            Ok(Some(Token::Number(x))) => Ok(ExprAST::Number(x)),
            Ok(_) => {
                proof {
                    assert(false);
                }
                Err(ParseFailure::Syntax(String::new()))
            },
            Err(e) => Err(e),
        }
    }

    fn parse_paren_body_total(&mut self) -> (r: Result<ExprAST, ParseFailure>)
        requires
            old(self).wf(),
            old(self).reads() > 0,
        ensures
            reports(r, p_paren_rest(old(self).stream(), old(self).reads()), final(self).reads()),
            !(p_paren_rest(old(self).stream(), old(self).reads()) is Halted) ==> progressed(
                *old(self),
                *final(self),
            ),
        decreases fuel(old(self).stream(), old(self).reads()), 3nat,
    {
        let v = match self.try_parse_expression() {
            Ok(v) => v,
            Err(e) => {
                return Err(e);
            },
        };
        if self.cur_is(')') {
            match self.advance() {
                Ok(_) => Ok(v),
                Err(e) => Err(e),
            }
        } else {
            Err(ParseFailure::Syntax("Expected ')'".to_string()))
        }
    }

    fn parse_identifier_expr_total(&mut self) -> (r: Result<ExprAST, ParseFailure>)
        requires
            old(self).wf(),
            cur(old(self).stream(), old(self).reads()) matches Some(SpecToken::Identifier(_)),
        ensures
            reports(r, p_identifier(old(self).stream(), old(self).reads()), final(self).reads()),
            !(p_identifier(old(self).stream(), old(self).reads()) is Halted) ==> progressed(
                *old(self),
                *final(self),
            ),
        decreases fuel(old(self).stream(), old(self).reads()), 0nat,
    {
        let ghost st = self.stream@;
        let ghost n0 = self.reads@;
        let id_name = match self.advance() {
            Ok(Some(Token::Identifier(id))) => id,
            Ok(_) => {
                proof {
                    assert(false);
                }
                String::new()
            },
            Err(e) => {
                return Err(e);
            },
        };
        if !self.cur_is('(') {
            return Ok(ExprAST::Variable(id_name));
        }
        match self.advance() {
            Ok(_) => {},
            Err(e) => {
                return Err(e);
            },
        }
        let mut args: Vec<ExprAST> = Vec::new();
        if !self.cur_is(')') {
            loop
                invariant_except_break
                    self.wf(),
                    self.stream() == st,
                    self.reads() >= n0 + 2,
                    n0 < st.toks.len(),
                    st == old(self).stream(),
                    n0 == old(self).reads(),
                    cur(st, n0) == Some(SpecToken::Identifier(id_name@)),
                    item(st, n0 as int) is Tok,
                    is_char(cur(st, n0 + 1), '('),
                    item(st, n0 + 1 as int) is Tok,
                    p_args(st, self.reads(), id_name@, expr_views(args@)) == p_call_args(
                        st,
                        n0 + 2,
                        id_name@,
                    ),
                ensures
                    self.wf(),
                    self.stream() == st,
                    self.reads() >= n0 + 2,
                    is_char(cur(st, self.reads()), ')'),
                    close_call(st, self.reads(), id_name@, expr_views(args@)) == p_call_args(
                        st,
                        n0 + 2,
                        id_name@,
                    ),
                decreases fuel(st, self.reads()),
            {
                let ghost k = self.reads@;
                let arg = match self.try_parse_expression() {
                    Ok(a) => a,
                    Err(e) => {
                        return Err(e);
                    },
                };
                let ghost old_args = args@;
                args.push(arg);
                proof {
                    lemma_expr_views_push(old_args, arg);
                }
                if self.cur_is(')') {
                    break ;
                }
                if !self.cur_is(',') {
                    return Err(ParseFailure::Syntax("Expected ')' or ',' in argument list".to_string()));
                }
                match self.advance() {
                    Ok(_) => {},
                    Err(e) => {
                        return Err(e);
                    },
                }
            }
        }
        match self.advance() {
            Ok(_) => {},
            Err(e) => {
                return Err(e);
            },
        }
        Ok(ExprAST::Call(id_name, args))
    }

    fn parse_primary_total(&mut self) -> (r: Result<ExprAST, ParseFailure>)
        requires
            old(self).wf(),
            old(self).reads() > 0,
        ensures
            reports(r, p_primary(old(self).stream(), old(self).reads()), final(self).reads()),
            !(p_primary(old(self).stream(), old(self).reads()) is Halted) ==> progressed(
                *old(self),
                *final(self),
            ),
        decreases fuel(old(self).stream(), old(self).reads()), 1nat,
    {
        match self.cur_tok() {
            Token::Number(_) => self.try_parse_num_expr(),
            Token::Char(c) => {
                if *c == '(' {
                    match self.advance() {
                        Ok(_) => {},
                        Err(e) => {
                            return Err(e);
                        },
                    }
                    self.parse_paren_body_total()
                } else {
                    Err(ParseFailure::Syntax("unknown token when expecting an expression".to_string()))
                }
            },
            Token::Identifier(_) => self.parse_identifier_expr_total(),
            _ => Err(ParseFailure::Syntax("unknown token when expecting an expression".to_string())),
        }
    }

    fn parse_bin_op_rhs_total(&mut self, expr_prec: isize, lhs: ExprAST) -> (r: Result<
        ExprAST,
        ParseFailure,
    >)
        requires
            old(self).wf(),
            old(self).reads() > 0,
            expr_prec >= 0,
        ensures
            reports(
                r,
                p_binrhs(old(self).stream(), old(self).reads(), expr_prec as int, lhs@),
                final(self).reads(),
            ),
            !(p_binrhs(old(self).stream(), old(self).reads(), expr_prec as int, lhs@) is Halted)
                ==> progressed(*old(self), *final(self)),
        decreases fuel(old(self).stream(), old(self).reads()), 1nat,
    {
        let ghost st = self.stream@;
        let ghost n0 = self.reads@;
        let ghost target = p_binrhs(st, n0, expr_prec as int, lhs@);
        let mut acc = lhs;
        loop
            invariant
                self.wf(),
                self.stream() == st,
                self.reads() >= n0,
                self.reads() > 0,
                expr_prec >= 0,
                n0 > 0,
                p_binrhs(st, self.reads(), expr_prec as int, acc@) == target,
                target == p_binrhs(st, n0, expr_prec as int, lhs@),
                st == old(self).stream(),
                n0 == old(self).reads(),
            decreases fuel(st, self.reads()),
        {
            let tok_prec = get_tok_precedence(self.cur_tok());
            if tok_prec < expr_prec {
                return Ok(acc);
            }
            let binop = match self.cur_tok() {
                Token::Char(c) => *c,
                _ => {
                    proof {
                        assert(false);
                    }
                    ' '
                },
            };
            match self.advance() {
                Ok(_) => {},
                Err(e) => {
                    return Err(e);
                },
            }
            let mut rhs = match self.parse_primary_total() {
                Ok(e) => e,
                Err(e) => {
                    return Err(e);
                },
            };
            let next_prec = get_tok_precedence(self.cur_tok());
            if tok_prec < next_prec {
                rhs = match self.parse_bin_op_rhs_total(tok_prec + 1, rhs) {
                    Ok(e) => e,
                    Err(e) => {
                        return Err(e);
                    },
                };
            }
            acc = ExprAST::Binary(binop, Box::new(acc), Box::new(rhs));
        }
    }

    /// `parse_expression`, reporting a malformed number that lexing meets on the
    /// way instead of requiring that there is none.
    pub fn try_parse_expression(&mut self) -> (r: Result<ExprAST, ParseFailure>)
        requires
            old(self).wf(),
            old(self).reads() > 0,
        ensures
            reports(r, p_expression(old(self).stream(), old(self).reads()), final(self).reads()),
            !(p_expression(old(self).stream(), old(self).reads()) is Halted) ==> progressed(
                *old(self),
                *final(self),
            ),
        decreases fuel(old(self).stream(), old(self).reads()), 2nat,
    {
        let lhs = match self.parse_primary_total() {
            Ok(e) => e,
            Err(e) => {
                return Err(e);
            },
        };
        self.parse_bin_op_rhs_total(0, lhs)
    }

    /// `parse_paren_expr`, reporting a malformed number that lexing meets on the
    /// way instead of requiring that there is none.
    pub fn try_parse_paren_expr(&mut self) -> (r: Result<ExprAST, ParseFailure>)
        requires
            old(self).wf(),
        ensures
            reports(r, p_paren(old(self).stream(), old(self).reads()), final(self).reads()),
            !(p_paren(old(self).stream(), old(self).reads()) is Halted) ==> progressed(
                *old(self),
                *final(self),
            ),
    {
        let ghost st = self.stream@;
        let ghost n0 = self.reads@;
        match self.advance() {
            Ok(_) => {},
            Err(e) => {
                return Err(e);
            },
        }
        proof {
            if fuel(st, n0 + 1) >= fuel(st, n0) {
                // past the end of the stream: the expression meets `Eof`
                assert(cur(st, n0 + 1) == Some(SpecToken::Eof));
                assert(p_primary(st, n0 + 1) == Outcome::<SpecExpr>::Failed(
                    msg_unknown_token(),
                    n0 + 1,
                ));
                assert(p_expression(st, n0 + 1) == Outcome::<SpecExpr>::Failed(
                    msg_unknown_token(),
                    n0 + 1,
                ));
            }
        }
        self.parse_paren_body_total()
    }

    /// `parse_prototype`, reporting a malformed number that lexing meets on the
    /// way instead of requiring that there is none.
    pub fn try_parse_prototype(&mut self) -> (r: Result<PrototypeAST, ParseFailure>)
        requires
            old(self).wf(),
        ensures
            reports(r, p_prototype(old(self).stream(), old(self).reads()), final(self).reads()),
            !(p_prototype(old(self).stream(), old(self).reads()) is Halted) ==> progressed(
                *old(self),
                *final(self),
            ),
    {
        let ghost st = self.stream@;
        let ghost n0 = self.reads@;
        let is_identifier = match &self.cur_tok {
            Some(Token::Identifier(_)) => true,
            _ => false,
        };
        if !is_identifier {
            return Err(ParseFailure::Syntax("Expected function name in prototype".to_string()));
        }
        let id_name = match self.advance() {
            Ok(Some(Token::Identifier(id))) => id,
            Ok(_) => {
                proof {
                    assert(false);
                }
                String::new()
            },
            Err(e) => {
                return Err(e);
            },
        };
        if !self.cur_is('(') {
            return Err(ParseFailure::Syntax("Expected a '(' in prototype".to_string()));
        }
        let mut args: Vec<String> = Vec::new();
        assert(string_views(args@) =~= Seq::<Seq<char>>::empty());
        loop
            invariant_except_break
                self.wf(),
                self.stream() == st,
                st == old(self).stream(),
                n0 == old(self).reads(),
                self.reads() >= n0 + 1,
                cur(st, n0) == Some(SpecToken::Identifier(id_name@)),
                item(st, n0 as int) is Tok,
                is_char(cur(st, n0 + 1), '('),
                p_params(st, self.reads(), id_name@, string_views(args@)) == p_params(
                    st,
                    n0 + 1,
                    id_name@,
                    Seq::empty(),
                ),
            ensures
                self.wf(),
                self.stream() == st,
                self.reads() >= n0 + 2,
                cur(st, n0) == Some(SpecToken::Identifier(id_name@)),
                item(st, n0 as int) is Tok,
                is_char(cur(st, n0 + 1), '('),
                !(cur(st, self.reads()) matches Some(SpecToken::Identifier(_))),
                !is_char(cur(st, self.reads()), ','),
                p_params(st, (self.reads() - 1) as nat, id_name@, string_views(args@))
                    == p_params(st, n0 + 1, id_name@, Seq::empty()),
            decreases fuel(st, self.reads()),
        {
            let ghost k = self.reads@;
            match self.advance() {
                Ok(_) => {},
                Err(e) => {
                    return Err(e);
                },
            }
            let arg = match self.cur_tok() {
                Token::Identifier(a) => Some(a.clone()),
                Token::Char(c) => {
                    if *c == ',' {
                        None
                    } else {
                        break ;
                    }
                },
                _ => {
                    break ;
                },
            };
            if let Some(a) = arg {
                let ghost old_args = args@;
                args.push(a);
                assert(string_views(args@) =~= string_views(old_args).push(a@));
            }
        }
        if !self.cur_is(')') {
            return Err(ParseFailure::Syntax("Expected ')' in prototype".to_string()));
        }
        match self.advance() {
            Ok(_) => {},
            Err(e) => {
                return Err(e);
            },
        }
        Ok(PrototypeAST(id_name, args))
    }

    /// `parse_function`, reporting a malformed number that lexing meets on the
    /// way instead of requiring that there is none.
    pub fn try_parse_function(&mut self) -> (r: Result<FunctionAST, ParseFailure>)
        requires
            old(self).wf(),
        ensures
            reports(r, p_function(old(self).stream(), old(self).reads()), final(self).reads()),
            !(p_function(old(self).stream(), old(self).reads()) is Halted) ==> progressed(
                *old(self),
                *final(self),
            ),
    {
        match self.advance() {
            Ok(_) => {},
            Err(e) => {
                return Err(e);
            },
        }
        let proto = match self.try_parse_prototype() {
            Ok(p) => p,
            Err(e) => {
                return Err(e);
            },
        };
        let expr = match self.try_parse_expression() {
            Ok(e) => e,
            Err(e) => {
                return Err(e);
            },
        };
        Ok(FunctionAST(proto, expr))
    }

    /// `parse_extern`, reporting a malformed number that lexing meets on the
    /// way instead of requiring that there is none.
    pub fn try_parse_extern(&mut self) -> (r: Result<PrototypeAST, ParseFailure>)
        requires
            old(self).wf(),
        ensures
            reports(r, p_extern(old(self).stream(), old(self).reads()), final(self).reads()),
            !(p_extern(old(self).stream(), old(self).reads()) is Halted) ==> progressed(
                *old(self),
                *final(self),
            ),
    {
        match self.advance() {
            Ok(_) => {},
            Err(e) => {
                return Err(e);
            },
        }
        self.try_parse_prototype()
    }

    /// `parse_top_level_expr`, reporting a malformed number that lexing meets on the
    /// way instead of requiring that there is none.
    pub fn try_parse_top_level_expr(&mut self) -> (r: Result<FunctionAST, ParseFailure>)
        requires
            old(self).wf(),
            old(self).reads() > 0,
        ensures
            reports(r, p_top_level(old(self).stream(), old(self).reads()), final(self).reads()),
            !(p_top_level(old(self).stream(), old(self).reads()) is Halted) ==> progressed(
                *old(self),
                *final(self),
            ),
    {
        let e = match self.try_parse_expression() {
            Ok(e) => e,
            Err(e) => {
                return Err(e);
            },
        };
        let proto = PrototypeAST("__anon_expr".to_string(), Vec::new());
        assert(proto@.params =~= Seq::<Seq<char>>::empty());
        Ok(FunctionAST(proto, e))
    }

    pub fn parse_num_expr(&mut self) -> (r: Result<ExprAST, String>)
        requires
            old(self).wf(),
            cur(old(self).stream(), old(self).reads()) matches Some(SpecToken::Number(_)),
            !(p_number(old(self).stream(), old(self).reads()) is Halted),
        ensures
            yields(r, p_number(old(self).stream(), old(self).reads()), final(self).reads()),
            progressed(*old(self), *final(self)),
    {
        match self.try_parse_num_expr() {
            Ok(e) => Ok(e),
            Err(ParseFailure::Syntax(m)) => Err(m),
            Err(ParseFailure::MalformedNumber(m)) => Err(m),
        }
    }

    /// parenexpr ::= '(' expression ')'
    pub fn parse_paren_expr(&mut self) -> (r: Result<ExprAST, String>)
        requires
            old(self).wf(),
            !(p_paren(old(self).stream(), old(self).reads()) is Halted),
        ensures
            yields(r, p_paren(old(self).stream(), old(self).reads()), final(self).reads()),
            progressed(*old(self), *final(self)),
    {
        match self.try_parse_paren_expr() {
            Ok(e) => Ok(e),
            Err(ParseFailure::Syntax(m)) => Err(m),
            Err(ParseFailure::MalformedNumber(m)) => Err(m),
        }
    }

    /// prototype ::= id '(' id* ')'
    pub fn parse_prototype(&mut self) -> (r: Result<PrototypeAST, String>)
        requires
            old(self).wf(),
            !(p_prototype(old(self).stream(), old(self).reads()) is Halted),
        ensures
            yields(r, p_prototype(old(self).stream(), old(self).reads()), final(self).reads()),
            progressed(*old(self), *final(self)),
    {
        match self.try_parse_prototype() {
            Ok(p) => Ok(p),
            Err(ParseFailure::Syntax(m)) => Err(m),
            Err(ParseFailure::MalformedNumber(m)) => Err(m),
        }
    }

    /// expression ::= primary binoprhs
    pub fn parse_expression(&mut self) -> (r: Result<ExprAST, String>)
        requires
            old(self).wf(),
            old(self).reads() > 0,
            !(p_expression(old(self).stream(), old(self).reads()) is Halted),
        ensures
            yields(r, p_expression(old(self).stream(), old(self).reads()), final(self).reads()),
            progressed(*old(self), *final(self)),
    {
        match self.try_parse_expression() {
            Ok(e) => Ok(e),
            Err(ParseFailure::Syntax(m)) => Err(m),
            Err(ParseFailure::MalformedNumber(m)) => Err(m),
        }
    }

    /// definition ::= 'def' prototype expression
    pub fn parse_function(&mut self) -> (r: Result<FunctionAST, String>)
        requires
            old(self).wf(),
            !(p_function(old(self).stream(), old(self).reads()) is Halted),
        ensures
            yields(r, p_function(old(self).stream(), old(self).reads()), final(self).reads()),
            progressed(*old(self), *final(self)),
    {
        match self.try_parse_function() {
            Ok(f) => Ok(f),
            Err(ParseFailure::Syntax(m)) => Err(m),
            Err(ParseFailure::MalformedNumber(m)) => Err(m),
        }
    }

    /// external ::= 'extern' prototype
    pub fn parse_extern(&mut self) -> (r: Result<PrototypeAST, String>)
        requires
            old(self).wf(),
            !(p_extern(old(self).stream(), old(self).reads()) is Halted),
        ensures
            yields(r, p_extern(old(self).stream(), old(self).reads()), final(self).reads()),
            progressed(*old(self), *final(self)),
    {
        match self.try_parse_extern() {
            Ok(p) => Ok(p),
            Err(ParseFailure::Syntax(m)) => Err(m),
            Err(ParseFailure::MalformedNumber(m)) => Err(m),
        }
    }

    /// toplevelexpr ::= expression
    pub fn parse_top_level_expr(&mut self) -> (r: Result<FunctionAST, String>)
        requires
            old(self).wf(),
            old(self).reads() > 0,
            !(p_top_level(old(self).stream(), old(self).reads()) is Halted),
        ensures
            yields(r, p_top_level(old(self).stream(), old(self).reads()), final(self).reads()),
            progressed(*old(self), *final(self)),
    {
        match self.try_parse_top_level_expr() {
            Ok(f) => Ok(f),
            Err(ParseFailure::Syntax(m)) => Err(m),
            Err(ParseFailure::MalformedNumber(m)) => Err(m),
        }
    }

    /// Gives up the parser for its current token.
    pub fn into_current(self) -> (t: Token)
        requires
            self.wf(),
            self.reads() > 0,
        ensures
            cur(self.stream(), self.reads()) == Some(t@),
    {
        self.cur_tok.unwrap()
    }
}

/// Two parsers in the same state: the first reads a top-level expression
/// exactly when the second reads an expression, into the anonymous function
/// `__anon_expr()` with that body and with the same reads made; otherwise both
/// stop alike.
pub proof fn law_top_level_expr_is_anonymous_expression(p1: Parser, p2: Parser)
    requires
        p1.wf(),
        p2.wf(),
        p1.stream() == p2.stream(),
        p1.reads() == p2.reads(),
    ensures
        p_top_level(p1.stream(), p1.reads()) == match p_expression(p2.stream(), p2.reads()) {
            Outcome::Parsed(e, m) => Outcome::Parsed(
                SpecFunction {
                    proto: SpecProto { name: "__anon_expr"@, params: Seq::empty() },
                    body: e,
                },
                m,
            ),
            Outcome::Failed(msg, m) => Outcome::Failed(msg, m),
            Outcome::Halted(b) => Outcome::Halted(b),
        },
{
    law_top_level_wraps_expression(p1.stream(), p1.reads());
}

} // verus!
