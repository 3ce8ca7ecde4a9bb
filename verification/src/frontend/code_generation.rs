use vstd::prelude::*;

use crate::frontend::parser::{
    ExprAST, FunctionAST, PrototypeAST, SpecExpr, SpecFunction, SpecProto, expr_views,
};

verus! {

// ---------------------------------------------------------------------------
// The code a function body becomes
// ---------------------------------------------------------------------------

/// One instruction of the straight-line code of a function body. The code
/// works on a stack of floating-point values.
#[derive(PartialEq, Debug)]
pub enum Instr {
    /// Push the constant written by this decimal literal.
    Const(String),
    /// Push the function's parameter with this index.
    Param(usize),
    /// Pop `r`, then `l`; push `l + r`.
    Add,
    /// Pop `r`, then `l`; push `l - r`.
    Sub,
    /// Pop `r`, then `l`; push `l * r`.
    Mul,
    /// Pop `r`, then `l`; push 1 when `l < r` or either is NaN, else 0.
    Less,
    /// Pop the given number of arguments (the last one on top), call the
    /// named function with them and push its result.
    Call(String, usize),
}

pub enum SpecInstr {
    Const(Seq<char>),
    Param(nat),
    Add,
    Sub,
    Mul,
    Less,
    Call(Seq<char>, nat),
}

impl View for Instr {
    type V = SpecInstr;

    open spec fn view(&self) -> SpecInstr {
        match self {
            Instr::Const(x) => SpecInstr::Const(x@),
            Instr::Param(i) => SpecInstr::Param(*i as nat),
            Instr::Add => SpecInstr::Add,
            Instr::Sub => SpecInstr::Sub,
            Instr::Mul => SpecInstr::Mul,
            Instr::Less => SpecInstr::Less,
            Instr::Call(f, k) => SpecInstr::Call(f@, *k as nat),
        }
    }
}

pub open spec fn code_view(code: Seq<Instr>) -> Seq<SpecInstr> {
    code.map_values(|i: Instr| i@)
}

/// Why code generation refuses a function or an expression.
#[derive(PartialEq, Debug)]
pub enum CodegenError {
    UnknownVariable(String),
    UnknownOperator(char),
    UnknownFunction(String),
    /// The callee, the number of parameters it has, the number of arguments given.
    ArgCountMismatch(String, usize, usize),
    Redefinition(String),
    VerificationFailed(String),
}

pub enum SpecCodegenError {
    UnknownVariable(Seq<char>),
    UnknownOperator(char),
    UnknownFunction(Seq<char>),
    ArgCountMismatch(Seq<char>, nat, nat),
    Redefinition(Seq<char>),
    VerificationFailed(Seq<char>),
}

impl View for CodegenError {
    type V = SpecCodegenError;

    open spec fn view(&self) -> SpecCodegenError {
        match self {
            CodegenError::UnknownVariable(v) => SpecCodegenError::UnknownVariable(v@),
            CodegenError::UnknownOperator(c) => SpecCodegenError::UnknownOperator(*c),
            CodegenError::UnknownFunction(f) => SpecCodegenError::UnknownFunction(f@),
            CodegenError::ArgCountMismatch(f, n, k) => SpecCodegenError::ArgCountMismatch(
                f@,
                *n as nat,
                *k as nat,
            ),
            CodegenError::Redefinition(f) => SpecCodegenError::Redefinition(f@),
            CodegenError::VerificationFailed(f) => SpecCodegenError::VerificationFailed(f@),
        }
    }
}

/// What the module knows of a function: how many parameters it has and
/// whether it has a body.
pub struct FunctionInfo {
    pub arity: nat,
    pub defined: bool,
}

pub type Functions = Map<Seq<char>, FunctionInfo>;

/// The index of the last parameter named `v` (a later parameter of the same
/// name hides an earlier one).
pub open spec fn last_index(named: Seq<Seq<char>>, v: Seq<char>) -> Option<nat>
    decreases named.len(),
{
    if named.len() == 0 {
        None
    } else if named.last() == v {
        Some((named.len() - 1) as nat)
    } else {
        last_index(named.drop_last(), v)
    }
}

pub proof fn lemma_last_index(named: Seq<Seq<char>>, v: Seq<char>)
    ensures
        last_index(named, v) matches Some(i) ==> i < named.len() && named[i as int] == v && forall|
            j: int,
        | i < j < named.len() ==> named[j] != v,
        last_index(named, v) is None ==> forall|j: int| 0 <= j < named.len() ==> named[j] != v,
    decreases named.len(),
{
    if named.len() > 0 {
        let d = named.drop_last();
        lemma_last_index(d, v);
        assert(forall|j: int| 0 <= j < d.len() ==> d[j] == named[j]);
    }
}

pub open spec fn op_instr(op: char) -> Option<SpecInstr> {
    if op == '+' {
        Some(SpecInstr::Add)
    } else if op == '-' {
        Some(SpecInstr::Sub)
    } else if op == '*' {
        Some(SpecInstr::Mul)
    } else if op == '<' {
        Some(SpecInstr::Less)
    } else {
        None
    }
}

/// The code of an expression, given the module's functions and the current
/// parameters: operands are emitted left to right, a call checks its callee
/// and the number of arguments before its arguments; the first error met
/// in that order is the result.
pub open spec fn lower(fns: Functions, named: Seq<Seq<char>>, e: SpecExpr) -> Result<
    Seq<SpecInstr>,
    SpecCodegenError,
>
    decreases e,
{
    match e {
        SpecExpr::Number(x) => Ok(seq![SpecInstr::Const(x)]),
        SpecExpr::Variable(v) => match last_index(named, v) {
            Some(i) => Ok(seq![SpecInstr::Param(i)]),
            None => Err(SpecCodegenError::UnknownVariable(v)),
        },
        SpecExpr::Binary(op, l, r) => match lower(fns, named, *l) {
            Ok(cl) => match lower(fns, named, *r) {
                Ok(cr) => match op_instr(op) {
                    Some(i) => Ok(cl + cr + seq![i]),
                    None => Err(SpecCodegenError::UnknownOperator(op)),
                },
                Err(err) => Err(err),
            },
            Err(err) => Err(err),
        },
        SpecExpr::Call(f, args) => {
            if !fns.contains_key(f) {
                Err(SpecCodegenError::UnknownFunction(f))
            } else if fns[f].arity != args.len() {
                Err(SpecCodegenError::ArgCountMismatch(f, fns[f].arity, args.len()))
            } else {
                match lower_args(fns, named, args) {
                    Ok(c) => Ok(c + seq![SpecInstr::Call(f, args.len())]),
                    Err(err) => Err(err),
                }
            }
        },
    }
}

/// The code of a list of expressions, left to right.
pub open spec fn lower_args(fns: Functions, named: Seq<Seq<char>>, args: Seq<SpecExpr>) -> Result<
    Seq<SpecInstr>,
    SpecCodegenError,
>
    decreases args,
{
    if args.len() == 0 {
        Ok(Seq::empty())
    } else {
        match lower_args(fns, named, args.drop_last()) {
            Ok(c) => match lower(fns, named, args.last()) {
                Ok(d) => Ok(c + d),
                Err(err) => Err(err),
            },
            Err(err) => Err(err),
        }
    }
}

/// The functions after a prototype is emitted: a new name is declared with
/// no body; a known one is left as it is.
pub open spec fn declare(fns: Functions, p: SpecProto) -> Functions {
    if fns.contains_key(p.name) {
        fns
    } else {
        fns.insert(p.name, FunctionInfo { arity: p.params.len(), defined: false })
    }
}

/// A definition of a declared function whose parameters are named `params`:
/// the functions after it, and its code or why it is refused. A function that
/// has a body cannot be redefined; a body that cannot be emitted removes the
/// function.
pub open spec fn define(fns: Functions, f: SpecFunction, params: Seq<Seq<char>>) -> (
    Functions,
    Result<Seq<SpecInstr>, SpecCodegenError>,
) {
    let name = f.proto.name;
    if fns[name].defined {
        (fns, Err(SpecCodegenError::Redefinition(name)))
    } else {
        let fns1 = fns.insert(name, FunctionInfo { arity: fns[name].arity, defined: true });
        match lower(fns1, params, f.body) {
            Ok(c) => (fns1, Ok(c)),
            Err(err) => (fns.remove(name), Err(err)),
        }
    }
}

pub proof fn lemma_expr_views_index(s: Seq<ExprAST>)
    ensures
        expr_views(s).len() == s.len(),
        forall|i: int| 0 <= i < s.len() ==> #[trigger] expr_views(s)[i] == s[i]@,
    decreases s.len(),
{
    if s.len() > 0 {
        lemma_expr_views_index(s.drop_last());
    }
}

/// The code of two lists of arguments, one after the other, is the code of
/// the first list followed by that of the second; the first error wins.
pub proof fn lemma_lower_args_append(
    fns: Functions,
    named: Seq<Seq<char>>,
    a: Seq<SpecExpr>,
    b: Seq<SpecExpr>,
)
    ensures
        lower_args(fns, named, a + b) == match lower_args(fns, named, a) {
            Ok(ca) => match lower_args(fns, named, b) {
                Ok(cb) => Ok(ca + cb),
                Err(err) => Err(err),
            },
            Err(err) => Err(err),
        },
    decreases b.len(),
{
    if b.len() == 0 {
        assert(a + b =~= a);
        if lower_args(fns, named, a) is Ok {
            assert(lower_args(fns, named, a)->Ok_0 + Seq::<SpecInstr>::empty() =~= lower_args(
                fns,
                named,
                a,
            )->Ok_0);
        }
    } else {
        lemma_lower_args_append(fns, named, a, b.drop_last());
        assert((a + b).drop_last() =~= a + b.drop_last());
        assert((a + b).last() == b.last());
        match lower_args(fns, named, a) {
            Ok(ca) => match lower_args(fns, named, b.drop_last()) {
                Ok(cb) => match lower(fns, named, b.last()) {
                    Ok(d) => {
                        assert(ca + cb + d =~= ca + (cb + d));
                    },
                    Err(_) => {},
                },
                Err(_) => {},
            },
            Err(_) => {},
        }
    }
}

proof fn lemma_code_push(s: Seq<Instr>, x: Instr)
    ensures
        code_view(s.push(x)) == code_view(s).push(x@),
{
    assert(code_view(s.push(x)) =~= code_view(s).push(x@));
}

// ---------------------------------------------------------------------------
// The code leaves one value per expression
// ---------------------------------------------------------------------------

/// The stack height after one instruction, or `None` when it would pop more
/// values than the stack holds.
pub open spec fn instr_effect(i: SpecInstr, depth: int) -> Option<int> {
    match i {
        SpecInstr::Const(_) => Some(depth + 1),
        SpecInstr::Param(_) => Some(depth + 1),
        SpecInstr::Call(_, k) => {
            if depth >= k {
                Some(depth - k + 1)
            } else {
                None
            }
        },
        _ => {
            if depth >= 2 {
                Some(depth - 1)
            } else {
                None
            }
        },
    }
}

/// The stack height after running `code` from height `depth`, or `None`
/// when it pops an empty stack.
pub open spec fn stack_after(code: Seq<SpecInstr>, depth: int) -> Option<int>
    decreases code.len(),
{
    if code.len() == 0 {
        Some(depth)
    } else {
        match instr_effect(code[0], depth) {
            Some(d) => stack_after(code.drop_first(), d),
            None => None,
        }
    }
}

/// Every parameter the code reads exists, and every call names a function of
/// the module with as many arguments as it has parameters.
pub open spec fn well_scoped(code: Seq<SpecInstr>, fns: Functions, named: Seq<Seq<char>>) -> bool {
    forall|i: int|
        0 <= i < code.len() ==> match #[trigger] code[i] {
            SpecInstr::Param(p) => p < named.len(),
            SpecInstr::Call(f, k) => fns.contains_key(f) && fns[f].arity == k,
            _ => true,
        }
}

pub proof fn lemma_stack_after_append(a: Seq<SpecInstr>, b: Seq<SpecInstr>, d: int)
    ensures
        stack_after(a + b, d) == match stack_after(a, d) {
            Some(d2) => stack_after(b, d2),
            None => None,
        },
    decreases a.len(),
{
    if a.len() == 0 {
        assert(a + b =~= b);
    } else {
        assert((a + b).drop_first() =~= a.drop_first() + b);
        assert((a + b)[0] == a[0]);
        if let Some(d1) = instr_effect(a[0], d) {
            lemma_stack_after_append(a.drop_first(), b, d1);
        }
    }
}

proof fn lemma_well_scoped_append(
    a: Seq<SpecInstr>,
    b: Seq<SpecInstr>,
    fns: Functions,
    named: Seq<Seq<char>>,
)
    requires
        well_scoped(a, fns, named),
        well_scoped(b, fns, named),
    ensures
        well_scoped(a + b, fns, named),
{
    assert forall|i: int| 0 <= i < (a + b).len() implies match #[trigger] (a + b)[i] {
        SpecInstr::Param(p) => p < named.len(),
        SpecInstr::Call(f, k) => fns.contains_key(f) && fns[f].arity == k,
        _ => true,
    } by {
        if i < a.len() {
            assert((a + b)[i] == a[i]);
        } else {
            assert((a + b)[i] == b[i - a.len()]);
        }
    }
}

/// The code of an expression pushes exactly one value, never pops an empty
/// stack, reads only parameters in scope and calls only functions of the
/// module with the right number of arguments.
pub proof fn law_expression_code_is_balanced(
    fns: Functions,
    named: Seq<Seq<char>>,
    e: SpecExpr,
    depth: int,
)
    requires
        depth >= 0,
        lower(fns, named, e) is Ok,
    ensures
        stack_after(lower(fns, named, e)->Ok_0, depth) == Some(depth + 1),
        well_scoped(lower(fns, named, e)->Ok_0, fns, named),
    decreases e,
{
    reveal_with_fuel(stack_after, 2);
    match e {
        SpecExpr::Number(x) => {
            assert(seq![SpecInstr::Const(x)].drop_first() =~= Seq::<SpecInstr>::empty());
        },
        SpecExpr::Variable(v) => {
            lemma_last_index(named, v);
            let i = last_index(named, v)->0;
            assert(seq![SpecInstr::Param(i)].drop_first() =~= Seq::<SpecInstr>::empty());
        },
        SpecExpr::Binary(op, l, r) => {
            let cl = lower(fns, named, *l)->Ok_0;
            let cr = lower(fns, named, *r)->Ok_0;
            let i = op_instr(op)->0;
            law_expression_code_is_balanced(fns, named, *l, depth);
            law_expression_code_is_balanced(fns, named, *r, depth + 1);
            lemma_stack_after_append(cl, cr, depth);
            lemma_stack_after_append(cl + cr, seq![i], depth);
            assert(stack_after(seq![i], depth + 2) == Some(depth + 1)) by {
                assert(seq![i].drop_first() =~= Seq::<SpecInstr>::empty());
            }
            lemma_well_scoped_append(cl, cr, fns, named);
            lemma_well_scoped_append(cl + cr, seq![i], fns, named);
        },
        SpecExpr::Call(f, args) => {
            let c = lower_args(fns, named, args)->Ok_0;
            let k = args.len();
            lemma_args_code_is_balanced(fns, named, args, depth);
            lemma_stack_after_append(c, seq![SpecInstr::Call(f, k)], depth);
            assert(stack_after(seq![SpecInstr::Call(f, k)], depth + k) == Some(depth + 1)) by {
                assert(seq![SpecInstr::Call(f, k)].drop_first() =~= Seq::<SpecInstr>::empty());
            }
            lemma_well_scoped_append(c, seq![SpecInstr::Call(f, k)], fns, named);
        },
    }
}

/// The code of a list of arguments pushes one value for each.
pub proof fn lemma_args_code_is_balanced(
    fns: Functions,
    named: Seq<Seq<char>>,
    args: Seq<SpecExpr>,
    depth: int,
)
    requires
        depth >= 0,
        lower_args(fns, named, args) is Ok,
    ensures
        stack_after(lower_args(fns, named, args)->Ok_0, depth) == Some(depth + args.len()),
        well_scoped(lower_args(fns, named, args)->Ok_0, fns, named),
    decreases args,
{
    if args.len() == 0 {
    } else {
        let c = lower_args(fns, named, args.drop_last())->Ok_0;
        let d = lower(fns, named, args.last())->Ok_0;
        lemma_args_code_is_balanced(fns, named, args.drop_last(), depth);
        law_expression_code_is_balanced(fns, named, args.last(), depth + args.len() - 1);
        lemma_stack_after_append(c, d, depth);
        lemma_well_scoped_append(c, d, fns, named);
    }
}

/// A name reads the last parameter of that name.
pub proof fn law_names_read_their_last_parameter(
    fns: Functions,
    named: Seq<Seq<char>>,
    v: Seq<char>,
    i: int,
)
    requires
        0 <= i < named.len(),
        named[i] == v,
        forall|j: int| i < j < named.len() ==> named[j] != v,
    ensures
        lower(fns, named, SpecExpr::Variable(v)) == Ok::<Seq<SpecInstr>, SpecCodegenError>(
            seq![SpecInstr::Param(i as nat)],
        ),
{
    lemma_last_index(named, v);
    if let Some(k) = last_index(named, v) {
        assert(k == i);
    }
}

/// `+`, `-`, `*` and `<` become their instructions, after the code of the
/// left operand and then of the right one.
pub proof fn law_operators_become_their_instructions(
    fns: Functions,
    named: Seq<Seq<char>>,
    op: char,
    l: SpecExpr,
    r: SpecExpr,
)
    requires
        lower(fns, named, l) is Ok,
        lower(fns, named, r) is Ok,
        op == '+' || op == '-' || op == '*' || op == '<',
    ensures
        lower(fns, named, SpecExpr::Binary(op, Box::new(l), Box::new(r))) == Ok::<
            Seq<SpecInstr>,
            SpecCodegenError,
        >(
            lower(fns, named, l)->Ok_0 + lower(fns, named, r)->Ok_0 + seq![
                if op == '+' {
                    SpecInstr::Add
                } else if op == '-' {
                    SpecInstr::Sub
                } else if op == '*' {
                    SpecInstr::Mul
                } else {
                    SpecInstr::Less
                },
            ],
        ),
{
}

// ---------------------------------------------------------------------------
// Which expressions have code
// ---------------------------------------------------------------------------

/// Whether every name of `e` is a parameter in scope, every operator one of
/// `+ - * <`, and every call names a function of the module with as many
/// arguments as it has parameters.
pub open spec fn is_well_scoped(fns: Functions, named: Seq<Seq<char>>, e: SpecExpr) -> bool
    decreases e,
{
    match e {
        SpecExpr::Number(_) => true,
        SpecExpr::Variable(v) => named.contains(v),
        SpecExpr::Binary(op, l, r) => {
            &&& (op == '+' || op == '-' || op == '*' || op == '<')
            &&& is_well_scoped(fns, named, *l)
            &&& is_well_scoped(fns, named, *r)
        },
        SpecExpr::Call(f, args) => {
            &&& fns.contains_key(f)
            &&& fns[f].arity == args.len()
            &&& are_well_scoped(fns, named, args)
        },
    }
}

/// Whether every expression of a list is well scoped.
pub open spec fn are_well_scoped(fns: Functions, named: Seq<Seq<char>>, args: Seq<SpecExpr>) -> bool
    decreases args,
{
    if args.len() == 0 {
        true
    } else {
        are_well_scoped(fns, named, args.drop_last()) && is_well_scoped(fns, named, args.last())
    }
}

/// Code generation refuses exactly the expressions that are not well scoped:
/// an expression gets code if and only if every name in it is a parameter in
/// scope, every operator is one of `+ - * <`, and every call names a function
/// of the module with as many arguments as it has parameters.
pub proof fn law_code_generation_is_total(fns: Functions, named: Seq<Seq<char>>, e: SpecExpr)
    ensures
        lower(fns, named, e) is Ok <==> is_well_scoped(fns, named, e),
    decreases e,
{
    match e {
        SpecExpr::Number(_) => {},
        SpecExpr::Variable(v) => {
            lemma_last_index(named, v);
            if let Some(i) = last_index(named, v) {
                assert(named[i as int] == v);
            }
        },
        SpecExpr::Binary(op, l, r) => {
            law_code_generation_is_total(fns, named, *l);
            law_code_generation_is_total(fns, named, *r);
        },
        SpecExpr::Call(f, args) => {
            lemma_args_code_generation_is_total(fns, named, args);
        },
    }
}

/// A list of expressions gets code exactly when each of them is well scoped.
pub proof fn lemma_args_code_generation_is_total(
    fns: Functions,
    named: Seq<Seq<char>>,
    args: Seq<SpecExpr>,
)
    ensures
        lower_args(fns, named, args) is Ok <==> are_well_scoped(fns, named, args),
    decreases args,
{
    if args.len() > 0 {
        lemma_args_code_generation_is_total(fns, named, args.drop_last());
        law_code_generation_is_total(fns, named, args.last());
    }
}

// ---------------------------------------------------------------------------
// The code computes the expression
// ---------------------------------------------------------------------------

/// How many values an instruction pops: none for a constant or a parameter,
/// two for an operator, one per argument for a call.
pub open spec fn pops(i: SpecInstr) -> nat {
    match i {
        SpecInstr::Const(_) => 0,
        SpecInstr::Param(_) => 0,
        SpecInstr::Call(_, k) => k,
        _ => 2,
    }
}

/// One instruction run on `stack` (top last), with `env` the values of the
/// parameters and `apply` the meaning of the operations: the value an
/// instruction other than a parameter pushes is `apply` of it and of the
/// values it pops, in the order they were pushed. `None` when it reads a
/// missing parameter or pops an empty stack.
pub open spec fn step<V>(
    i: SpecInstr,
    env: Seq<V>,
    apply: spec_fn(SpecInstr, Seq<V>) -> V,
    stack: Seq<V>,
) -> Option<Seq<V>> {
    match i {
        SpecInstr::Param(p) => {
            if p < env.len() {
                Some(stack.push(env[p as int]))
            } else {
                None
            }
        },
        _ => {
            let k = pops(i) as int;
            if k <= stack.len() {
                Some(
                    stack.take(stack.len() - k).push(apply(i, stack.skip(stack.len() - k))),
                )
            } else {
                None
            }
        },
    }
}

/// Code run on `stack`, instruction after instruction.
pub open spec fn run<V>(
    code: Seq<SpecInstr>,
    env: Seq<V>,
    apply: spec_fn(SpecInstr, Seq<V>) -> V,
    stack: Seq<V>,
) -> Option<Seq<V>>
    decreases code.len(),
{
    if code.len() == 0 {
        Some(stack)
    } else {
        match step(code[0], env, apply, stack) {
            Some(s) => run(code.drop_first(), env, apply, s),
            None => None,
        }
    }
}

/// The value of an expression, with `named` the parameters in scope, `env`
/// their values and `apply` the meaning of the operations: a number is its
/// constant, a name the value of the last parameter of that name, an
/// operator or a call applied to the values of its operands, left to right.
pub open spec fn value_of<V>(
    e: SpecExpr,
    named: Seq<Seq<char>>,
    env: Seq<V>,
    apply: spec_fn(SpecInstr, Seq<V>) -> V,
) -> V
    decreases e,
{
    match e {
        SpecExpr::Number(x) => apply(SpecInstr::Const(x), Seq::empty()),
        SpecExpr::Variable(v) => env[last_index(named, v)->0 as int],
        SpecExpr::Binary(op, l, r) => apply(
            op_instr(op)->0,
            seq![value_of(*l, named, env, apply), value_of(*r, named, env, apply)],
        ),
        SpecExpr::Call(f, args) => apply(
            SpecInstr::Call(f, args.len()),
            values_of(args, named, env, apply),
        ),
    }
}

/// The values of a list of expressions, in order.
pub open spec fn values_of<V>(
    args: Seq<SpecExpr>,
    named: Seq<Seq<char>>,
    env: Seq<V>,
    apply: spec_fn(SpecInstr, Seq<V>) -> V,
) -> Seq<V>
    decreases args,
{
    if args.len() == 0 {
        Seq::empty()
    } else {
        values_of(args.drop_last(), named, env, apply).push(
            value_of(args.last(), named, env, apply),
        )
    }
}

pub proof fn lemma_run_append<V>(
    a: Seq<SpecInstr>,
    b: Seq<SpecInstr>,
    env: Seq<V>,
    apply: spec_fn(SpecInstr, Seq<V>) -> V,
    stack: Seq<V>,
)
    ensures
        run(a + b, env, apply, stack) == match run(a, env, apply, stack) {
            Some(s) => run(b, env, apply, s),
            None => None,
        },
    decreases a.len(),
{
    if a.len() == 0 {
        assert(a + b =~= b);
    } else {
        assert((a + b).drop_first() =~= a.drop_first() + b);
        assert((a + b)[0] == a[0]);
        if let Some(s) = step(a[0], env, apply, stack) {
            lemma_run_append(a.drop_first(), b, env, apply, s);
        }
    }
}

proof fn lemma_run_one<V>(
    i: SpecInstr,
    env: Seq<V>,
    apply: spec_fn(SpecInstr, Seq<V>) -> V,
    stack: Seq<V>,
)
    ensures
        run(seq![i], env, apply, stack) == step(i, env, apply, stack),
{
    reveal_with_fuel(run, 2);
    assert(seq![i].drop_first() =~= Seq::<SpecInstr>::empty());
}

/// The code of an expression, run with the values of the parameters in scope,
/// pushes the value of the expression and leaves the rest of the stack as it
/// was, whatever the operations mean.
pub proof fn law_code_computes_expression<V>(
    fns: Functions,
    named: Seq<Seq<char>>,
    e: SpecExpr,
    env: Seq<V>,
    apply: spec_fn(SpecInstr, Seq<V>) -> V,
    stack: Seq<V>,
)
    requires
        lower(fns, named, e) is Ok,
        env.len() == named.len(),
    ensures
        run(lower(fns, named, e)->Ok_0, env, apply, stack) == Some(
            stack.push(value_of(e, named, env, apply)),
        ),
    decreases e,
{
    match e {
        SpecExpr::Number(x) => {
            lemma_run_one(SpecInstr::Const(x), env, apply, stack);
            assert(stack.take(stack.len() as int) =~= stack);
            assert(stack.skip(stack.len() as int) =~= Seq::<V>::empty());
        },
        SpecExpr::Variable(v) => {
            lemma_last_index(named, v);
            lemma_run_one(SpecInstr::Param(last_index(named, v)->0), env, apply, stack);
        },
        SpecExpr::Binary(op, l, r) => {
            let cl = lower(fns, named, *l)->Ok_0;
            let cr = lower(fns, named, *r)->Ok_0;
            let i = op_instr(op)->0;
            let vl = value_of(*l, named, env, apply);
            let vr = value_of(*r, named, env, apply);
            law_code_computes_expression(fns, named, *l, env, apply, stack);
            law_code_computes_expression(fns, named, *r, env, apply, stack.push(vl));
            lemma_run_append(cl, cr, env, apply, stack);
            lemma_run_append(cl + cr, seq![i], env, apply, stack);
            lemma_run_one(i, env, apply, stack.push(vl).push(vr));
            let s2 = stack.push(vl).push(vr);
            assert(s2.take(s2.len() - 2) =~= stack);
            assert(s2.skip(s2.len() - 2) =~= seq![vl, vr]);
        },
        SpecExpr::Call(f, args) => {
            let c = lower_args(fns, named, args)->Ok_0;
            let k = args.len();
            let vs = values_of(args, named, env, apply);
            lemma_args_code_computes_values(fns, named, args, env, apply, stack);
            lemma_run_append(c, seq![SpecInstr::Call(f, k)], env, apply, stack);
            lemma_run_one(SpecInstr::Call(f, k), env, apply, stack + vs);
            let s2 = stack + vs;
            assert(s2.take(s2.len() - k) =~= stack);
            assert(s2.skip(s2.len() - k) =~= vs);
        },
    }
}

/// The code of a list of arguments pushes their values, in order.
pub proof fn lemma_args_code_computes_values<V>(
    fns: Functions,
    named: Seq<Seq<char>>,
    args: Seq<SpecExpr>,
    env: Seq<V>,
    apply: spec_fn(SpecInstr, Seq<V>) -> V,
    stack: Seq<V>,
)
    requires
        lower_args(fns, named, args) is Ok,
        env.len() == named.len(),
    ensures
        run(lower_args(fns, named, args)->Ok_0, env, apply, stack) == Some(
            stack + values_of(args, named, env, apply),
        ),
        values_of(args, named, env, apply).len() == args.len(),
    decreases args,
{
    if args.len() == 0 {
        assert(stack + Seq::<V>::empty() =~= stack);
    } else {
        let c = lower_args(fns, named, args.drop_last())->Ok_0;
        let d = lower(fns, named, args.last())->Ok_0;
        let vs = values_of(args.drop_last(), named, env, apply);
        lemma_args_code_computes_values(fns, named, args.drop_last(), env, apply, stack);
        law_code_computes_expression(fns, named, args.last(), env, apply, stack + vs);
        lemma_run_append(c, d, env, apply, stack);
        assert((stack + vs).push(value_of(args.last(), named, env, apply)) =~= stack + vs.push(
            value_of(args.last(), named, env, apply),
        ));
    }
}

/// The code of a definition, run on an empty stack with values for the
/// function's parameters, leaves exactly the value of its body.
pub proof fn law_function_code_computes_body<V>(
    fns: Functions,
    f: SpecFunction,
    params: Seq<Seq<char>>,
    env: Seq<V>,
    apply: spec_fn(SpecInstr, Seq<V>) -> V,
)
    requires
        define(fns, f, params).1 is Ok,
        env.len() == params.len(),
    ensures
        run(define(fns, f, params).1->Ok_0, env, apply, Seq::empty()) == Some(
            seq![value_of(f.body, params, env, apply)],
        ),
{
    let fns1 = fns.insert(f.proto.name, FunctionInfo { arity: fns[f.proto.name].arity, defined: true });
    law_code_computes_expression(fns1, params, f.body, env, apply, Seq::empty());
    assert(Seq::<V>::empty().push(value_of(f.body, params, env, apply)) =~= seq![
        value_of(f.body, params, env, apply),
    ]);
}

/// Emitting a prototype whose name the module holds changes nothing; so
/// emitting the same prototype twice is emitting it once.
pub proof fn law_declare_is_idempotent(fns: Functions, p: SpecProto, q: SpecProto)
    requires
        p.name == q.name,
    ensures
        declare(declare(fns, p), q) == declare(fns, p),
        declare(fns, p).contains_key(p.name),
{
}

/// A function that received a body keeps it when its prototype is emitted
/// again, and a second definition of it is refused with the module left as
/// it was.
pub proof fn law_no_redefinition(
    fns: Functions,
    f: SpecFunction,
    params: Seq<Seq<char>>,
    p: SpecProto,
    g: SpecFunction,
    params2: Seq<Seq<char>>,
)
    requires
        fns.contains_key(f.proto.name),
        define(fns, f, params).1 is Ok,
        p.name == f.proto.name,
        g.proto.name == f.proto.name,
    ensures
        declare(define(fns, f, params).0, p) == define(fns, f, params).0,
        define(fns, f, params).0[f.proto.name].defined,
        define(define(fns, f, params).0, g, params2) == (
            define(fns, f, params).0,
            Err::<Seq<SpecInstr>, SpecCodegenError>(SpecCodegenError::Redefinition(f.proto.name)),
        ),
{
}

/// A definition whose body cannot be emitted leaves no function of that name.
pub proof fn law_failed_body_removes_function(fns: Functions, f: SpecFunction, params: Seq<Seq<char>>)
    requires
        fns.contains_key(f.proto.name),
        !fns[f.proto.name].defined,
        define(fns, f, params).1 is Err,
    ensures
        !define(fns, f, params).0.contains_key(f.proto.name),
        define(fns, f, params).0 == fns.remove(f.proto.name),
{
}

// ---------------------------------------------------------------------------
// The compiler's record of the module
// ---------------------------------------------------------------------------

struct FunctionEntry {
    name: String,
    arity: usize,
    defined: bool,
}

spec fn entry_info(e: FunctionEntry) -> FunctionInfo {
    FunctionInfo { arity: e.arity as nat, defined: e.defined }
}

/// The decisions of code generation: which functions the module holds, with
/// how many parameters and whether they have a body, and the parameter names
/// of the function being emitted.
pub struct Compiler {
    functions: Vec<FunctionEntry>,
    table: Ghost<Functions>,
    /// the parameter names of the function being emitted, in order
    named_values: Vec<String>,
}

impl Compiler {
    /// The functions of the module.
    pub closed spec fn functions(&self) -> Functions {
        self.table@
    }

    /// The parameter names in scope, in order.
    pub closed spec fn named_values(&self) -> Seq<Seq<char>> {
        self.named_values@.map_values(|s: String| s@)
    }

    pub closed spec fn wf(&self) -> bool {
        &&& forall|i: int|
            0 <= i < self.functions.len() ==> #[trigger] self.table@.contains_key(
                self.functions@[i].name@,
            ) && self.table@[self.functions@[i].name@] == entry_info(self.functions@[i])
        &&& forall|k: Seq<char>|
            #[trigger] self.table@.contains_key(k) ==> exists|i: int|
                0 <= i < self.functions.len() && #[trigger] self.functions@[i].name@ == k
        &&& forall|i: int, j: int|
            0 <= i < j < self.functions.len() ==> #[trigger] self.functions@[i].name@
                != #[trigger] self.functions@[j].name@
    }

    pub fn new() -> (c: Compiler)
        ensures
            c.wf(),
            c.functions() == Map::<Seq<char>, FunctionInfo>::empty(),
            c.named_values() == Seq::<Seq<char>>::empty(),
    {
        let c = Compiler { functions: Vec::new(), table: Ghost(Map::empty()), named_values: Vec::new() };
        assert(c.named_values() =~= Seq::<Seq<char>>::empty());
        c
    }

    /// The index of the entry named `name`.
    fn find(&self, name: &String) -> (r: Option<usize>)
        requires
            self.wf(),
        ensures
            match r {
                Some(i) => i < self.functions.len() && self.functions@[i as int].name@ == name@
                    && self.functions().contains_key(name@),
                None => !self.functions().contains_key(name@),
            },
    {
        let mut i: usize = 0;
        while i < self.functions.len()
            invariant
                self.wf(),
                i <= self.functions.len(),
                forall|j: int| 0 <= j < i ==> self.functions@[j].name@ != name@,
            decreases self.functions.len() - i,
        {
            if self.functions[i].name == *name {
                assert(self.table@.contains_key(self.functions@[i as int].name@));
                return Some(i);
            }
            i = i + 1;
        }
        None
    }

    /// Whether the module holds a function called `name`, and with how many
    /// parameters and whether it has a body.
    pub fn function(&self, name: &String) -> (r: Option<(usize, bool)>)
        requires
            self.wf(),
        ensures
            match r {
                Some((n, d)) => self.functions().contains_key(name@) && self.functions()[name@]
                    == (FunctionInfo { arity: n as nat, defined: d }),
                None => !self.functions().contains_key(name@),
            },
    {
        match self.find(name) {
            Some(i) => Some((self.functions[i].arity, self.functions[i].defined)),
            None => None,
        }
    }

    /// Removes the entry at `i`.
    fn remove_at(&mut self, i: usize)
        requires
            old(self).wf(),
            i < old(self).functions.len(),
        ensures
            final(self).wf(),
            final(self).functions() == old(self).functions().remove(
                old(self).functions@[i as int].name@,
            ),
            final(self).named_values == old(self).named_values,
    {
        let ghost name = self.functions@[i as int].name@;
        let ghost old_entries = self.functions@;
        let ghost old_table = self.table@;
        let _ = self.functions.remove(i);
        self.table = Ghost(self.table@.remove(name));
        assert forall|k: Seq<char>| #[trigger] self.table@.contains_key(k) implies exists|j: int|
            0 <= j < self.functions.len() && #[trigger] self.functions@[j].name@ == k by {
            let j0 = choose|j: int| 0 <= j < old_entries.len() && old_entries[j].name@ == k;
            if j0 < i {
                assert(self.functions@[j0].name@ == k);
            } else {
                assert(j0 != i);
                assert(self.functions@[j0 - 1].name@ == k);
            }
        }
        assert forall|a: int, b: int|
            0 <= a < b < self.functions.len() implies #[trigger] self.functions@[a].name@
            != #[trigger] self.functions@[b].name@ by {
            let a0 = if a < i {
                a
            } else {
                a + 1
            };
            let b0 = if b < i {
                b
            } else {
                b + 1
            };
            assert(old_entries[a0].name@ != old_entries[b0].name@);
        }
        assert forall|j: int| 0 <= j < self.functions.len() implies #[trigger] self.table@.contains_key(
            self.functions@[j].name@,
        ) && self.table@[self.functions@[j].name@] == entry_info(self.functions@[j]) by {
            let j0 = if j < i {
                j
            } else {
                j + 1
            };
            assert(old_entries[j0].name@ != old_entries[i as int].name@);
            assert(old_table.contains_key(old_entries[j0].name@));
        }
    }

    /// Emits a prototype: a function of that name is declared, with the
    /// prototype's number of parameters and no body, unless the module already
    /// holds one. Tells whether it was declared.
    pub fn emit_prototype(&mut self, proto: &PrototypeAST) -> (declared: bool)
        requires
            old(self).wf(),
        ensures
            final(self).wf(),
            declared == !old(self).functions().contains_key(proto@.name),
            final(self).functions() == declare(old(self).functions(), proto@),
            final(self).named_values() == old(self).named_values(),
    {
        match self.find(&proto.0) {
            Some(_) => false,
            None => {
                let ghost old_entries = self.functions@;
                let ghost old_table = self.table@;
                let entry = FunctionEntry {
                    name: proto.0.clone(),
                    arity: proto.1.len(),
                    defined: false,
                };
                self.functions.push(entry);
                self.table = Ghost(
                    self.table@.insert(
                        proto@.name,
                        FunctionInfo { arity: proto@.params.len(), defined: false },
                    ),
                );
                let ghost n = old_entries.len() as int;
                assert forall|k: Seq<char>| #[trigger] self.table@.contains_key(k) implies exists|
                    j: int,
                | 0 <= j < self.functions.len() && #[trigger] self.functions@[j].name@ == k by {
                    if k == proto@.name {
                        assert(self.functions@[n].name@ == k);
                    } else {
                        let j0 = choose|j: int|
                            0 <= j < old_entries.len() && old_entries[j].name@ == k;
                        assert(self.functions@[j0].name@ == k);
                    }
                }
                assert forall|a: int, b: int|
                    0 <= a < b < self.functions.len() implies #[trigger] self.functions@[a].name@
                    != #[trigger] self.functions@[b].name@ by {
                    assert(self.functions@[a] == old_entries[a]);
                    if b == n {
                        assert(old_table.contains_key(old_entries[a].name@));
                        assert(self.functions@[b].name@ == proto@.name);
                    } else {
                        assert(self.functions@[b] == old_entries[b]);
                        assert(old_entries[a].name@ != old_entries[b].name@);
                    }
                }
                assert forall|j: int| 0 <= j < self.functions.len() implies #[trigger] self.table@.contains_key(
                    self.functions@[j].name@,
                ) && self.table@[self.functions@[j].name@] == entry_info(self.functions@[j]) by {
                    if j < n {
                        assert(self.functions@[j] == old_entries[j]);
                        assert(old_table.contains_key(old_entries[j].name@));
                    }
                }
                true
            },
        }
    }

    /// The index of the last parameter called `v`.
    fn last_param(&self, v: &String) -> (r: Option<usize>)
        ensures
            match r {
                Some(i) => last_index(self.named_values(), v@) == Some(i as nat),
                None => last_index(self.named_values(), v@) is None,
            },
    {
        let ghost named = self.named_values();
        proof {
            lemma_last_index(named, v@);
        }
        let mut i = self.named_values.len();
        assert(named.take(i as int) =~= named);
        while i > 0
            invariant
                i <= self.named_values.len(),
                named == self.named_values(),
                named.len() == self.named_values.len(),
                last_index(named.take(i as int), v@) == last_index(named, v@),
            decreases i,
        {
            proof {
                lemma_last_index(named, v@);
            }
            assert(named.take(i as int).last() == self.named_values@[i - 1]@);
            if self.named_values[i - 1] == *v {
                return Some(i - 1);
            }
            assert(named.take(i as int).drop_last() =~= named.take(i - 1));
            i = i - 1;
        }
        None
    }

    /// Appends the code of `e` to `code`.
    fn lower_into(&self, e: &ExprAST, code: &mut Vec<Instr>) -> (r: Result<(), CodegenError>)
        requires
            self.wf(),
        ensures
            match lower(self.functions(), self.named_values(), e@) {
                Ok(c) => r is Ok && code_view(final(code)@) == code_view(old(code)@) + c,
                Err(err) => r matches Err(x) && x@ == err,
            },
        decreases e,
    {
        let ghost c0 = code_view(code@);
        match e {
            ExprAST::Number(x) => {
                let ins = Instr::Const(x.clone());
                proof {
                    lemma_code_push(code@, ins);
                    assert(c0.push(ins@) =~= c0 + seq![ins@]);
                }
                code.push(ins);
                Ok(())
            },
            ExprAST::Variable(v) => match self.last_param(v) {
                Some(i) => {
                    proof {
                        assert(self.named_values().len() == self.named_values@.len());
                        lemma_last_index(self.named_values(), v@);
                        lemma_code_push(code@, Instr::Param(i));
                        assert(c0.push(Instr::Param(i)@) =~= c0 + seq![Instr::Param(i)@]);
                    }
                    code.push(Instr::Param(i));
                    Ok(())
                },
                None => Err(CodegenError::UnknownVariable(v.clone())),
            },
            ExprAST::Binary(op, l, r) => {
                match self.lower_into(l, code) {
                    Ok(()) => {},
                    Err(err) => {
                        return Err(err);
                    },
                }
                let ghost c1 = code_view(code@);
                match self.lower_into(r, code) {
                    Ok(()) => {},
                    Err(err) => {
                        return Err(err);
                    },
                }
                let i = if *op == '+' {
                    Instr::Add
                } else if *op == '-' {
                    Instr::Sub
                } else if *op == '*' {
                    Instr::Mul
                } else if *op == '<' {
                    Instr::Less
                } else {
                    return Err(CodegenError::UnknownOperator(*op));
                };
                proof {
                    lemma_code_push(code@, i);
                    let cl = lower(self.functions(), self.named_values(), (**l)@)->Ok_0;
                    let cr = lower(self.functions(), self.named_values(), (**r)@)->Ok_0;
                    assert(c0 + cl + cr + seq![i@] =~= (c0 + (cl + cr + seq![i@])));
                    assert(code_view(code@).push(i@) =~= c0 + cl + cr + seq![i@]);
                }
                code.push(i);
                Ok(())
            },
            ExprAST::Call(f, args) => {
                let n = match self.function(f) {
                    Some((n, _)) => n,
                    None => {
                        return Err(CodegenError::UnknownFunction(f.clone()));
                    },
                };
                proof {
                    lemma_expr_views_index(args@);
                }
                if n != args.len() {
                    return Err(CodegenError::ArgCountMismatch(f.clone(), n, args.len()));
                }
                let ghost views = expr_views(args@);
                let ghost fns = self.functions();
                let ghost named = self.named_values();
                let mut i: usize = 0;
                #[verifier::loop_isolation(false)]
                while i < args.len()
                    invariant
                        self.wf(),
                        fns == self.functions(),
                        named == self.named_values(),
                        i <= args.len(),
                        views == expr_views(args@),
                        views.len() == args.len(),
                        forall|j: int| 0 <= j < args.len() ==> #[trigger] views[j] == args@[j]@,
                        lower_args(fns, named, views.take(i as int)) matches Ok(ci) && code_view(
                            code@,
                        ) == c0 + ci,
                    decreases args.len() - i,
                {
                    proof {
                        assert(decreases_to!(e => args));
                        assert(decreases_to!(args => args@));
                        assert(decreases_to!(args@ => args@[i as int]));
                    }
                    let ghost ci = lower_args(fns, named, views.take(i as int))->Ok_0;
                    let ghost before = code_view(code@);
                    let res = self.lower_into(&args[i], code);
                    proof {
                        assert(views.take(i + 1).drop_last() =~= views.take(i as int));
                        assert(views.take(i + 1).last() == args@[i as int]@);
                        lemma_lower_args_append(
                            fns,
                            named,
                            views.take(i + 1),
                            views.skip(i + 1),
                        );
                        assert(views.take(i + 1) + views.skip(i + 1) =~= views);
                    }
                    match res {
                        Ok(()) => {},
                        Err(err) => {
                            return Err(err);
                        },
                    }
                    assert(code_view(code@) == c0 + lower_args(fns, named, views.take(i + 1))->Ok_0);
                    i = i + 1;
                }
                assert(views.take(args.len() as int) =~= views);
                let ins = Instr::Call(f.clone(), args.len());
                proof {
                    lemma_code_push(code@, ins);
                    let c = lower_args(fns, named, views)->Ok_0;
                    assert(code_view(code@).push(ins@) =~= c0 + (c + seq![ins@]));
                }
                code.push(ins);
                Ok(())
            },
        }
    }

    /// The code of an expression, with the current parameters in scope.
    pub fn emit_expr(&self, expr: &ExprAST) -> (r: Result<Vec<Instr>, CodegenError>)
        requires
            self.wf(),
        ensures
            match lower(self.functions(), self.named_values(), expr@) {
                Ok(c) => r matches Ok(code) && code_view(code@) == c,
                Err(err) => r matches Err(x) && x@ == err,
            },
    {
        let mut code: Vec<Instr> = Vec::new();
        assert(code_view(code@) =~= Seq::<SpecInstr>::empty());
        match self.lower_into(expr, &mut code) {
            Ok(()) => {
                assert(Seq::<SpecInstr>::empty() + lower(
                    self.functions(),
                    self.named_values(),
                    expr@,
                )->Ok_0 =~= lower(self.functions(), self.named_values(), expr@)->Ok_0);
                Ok(code)
            },
            Err(err) => Err(err),
        }
    }

    /// Marks the entry at `i` as having a body.
    fn mark_defined(&mut self, i: usize)
        requires
            old(self).wf(),
            i < old(self).functions.len(),
        ensures
            final(self).wf(),
            final(self).functions() == old(self).functions().insert(
                old(self).functions@[i as int].name@,
                FunctionInfo { arity: old(self).functions@[i as int].arity as nat, defined: true },
            ),
            final(self).functions@[i as int].name@ == old(self).functions@[i as int].name@,
            final(self).functions.len() == old(self).functions.len(),
            final(self).named_values == old(self).named_values,
    {
        let ghost old_entries = self.functions@;
        let name = self.functions[i].name.clone();
        let arity = self.functions[i].arity;
        let ghost info = FunctionInfo { arity: arity as nat, defined: true };
        self.functions.set(i, FunctionEntry { name, arity, defined: true });
        self.table = Ghost(self.table@.insert(old_entries[i as int].name@, info));
        assert forall|k: Seq<char>| #[trigger] self.table@.contains_key(k) implies exists|j: int|
            0 <= j < self.functions.len() && #[trigger] self.functions@[j].name@ == k by {
            if k == old_entries[i as int].name@ {
                assert(self.functions@[i as int].name@ == k);
            } else {
                let j0 = choose|j: int| 0 <= j < old_entries.len() && old_entries[j].name@ == k;
                assert(self.functions@[j0].name@ == k);
            }
        }
        assert forall|a: int, b: int|
            0 <= a < b < self.functions.len() implies #[trigger] self.functions@[a].name@
            != #[trigger] self.functions@[b].name@ by {
            assert(old_entries[a].name@ != old_entries[b].name@);
        }
        assert forall|j: int| 0 <= j < self.functions.len() implies #[trigger] self.table@.contains_key(
            self.functions@[j].name@,
        ) && self.table@[self.functions@[j].name@] == entry_info(self.functions@[j]) by {
            if j != i {
                assert(old_entries[j].name@ != old_entries[i as int].name@);
            }
        }
    }

    /// Emits a function: its prototype is emitted first, then, with the
    /// parameters of the module's function (named `params`) in scope, its
    /// body. A function that has a body already cannot be redefined.
    /// Otherwise the function gets a body, the parameters come into scope, and
    /// the body's code is the result; when the body cannot be emitted, the
    /// function is removed from the module.
    pub fn emit_function(&mut self, func: &FunctionAST, params: Vec<String>) -> (r: Result<
        Vec<Instr>,
        CodegenError,
    >)
        requires
            old(self).wf(),
            params@.len() == declare(old(self).functions(), func@.proto)[func@.proto.name].arity,
        ensures
            final(self).wf(),
            final(self).functions() == define(
                declare(old(self).functions(), func@.proto),
                func@,
                params@.map_values(|p: String| p@),
            ).0,
            match define(
                declare(old(self).functions(), func@.proto),
                func@,
                params@.map_values(|p: String| p@),
            ).1 {
                Ok(c) => r matches Ok(code) && code_view(code@) == c,
                Err(err) => r matches Err(x) && x@ == err,
            },
            final(self).named_values() == if declare(
                old(self).functions(),
                func@.proto,
            )[func@.proto.name].defined {
                old(self).named_values()
            } else {
                params@.map_values(|p: String| p@)
            },
    {
        self.emit_prototype(&func.0);
        let i = match self.find(&func.0.0) {
            Some(i) => i,
            None => {
                proof {
                    assert(false);
                }
                0
            },
        };
        assert(self.table@.contains_key(self.functions@[i as int].name@));
        if self.functions[i].defined {
            return Err(CodegenError::Redefinition(func.0.0.clone()));
        }
        let ghost before = self.functions();
        self.mark_defined(i);
        let ghost f0 = self.functions@;
        let ghost t0 = self.table@;
        assert(self.wf());
        self.named_values = params;
        assert(self.functions@ == f0);
        assert(self.table@ == t0);
        assert(self.wf());
        let mut code: Vec<Instr> = Vec::new();
        assert(code_view(code@) =~= Seq::<SpecInstr>::empty());
        match self.lower_into(&func.1, &mut code) {
            Ok(()) => {
                assert(Seq::<SpecInstr>::empty() + lower(
                    self.functions(),
                    self.named_values(),
                    func.1@,
                )->Ok_0 =~= lower(self.functions(), self.named_values(), func.1@)->Ok_0);
                Ok(code)
            },
            Err(err) => {
                self.remove_at(i);
                assert(self.functions() =~= before.remove(func@.proto.name));
                Err(err)
            },
        }
    }

    /// Settles a function whose body was emitted: when the module's check of
    /// it failed, it is removed from the module.
    pub fn finish_function(&mut self, name: &String, verified: bool) -> (r: Result<(), CodegenError>)
        requires
            old(self).wf(),
        ensures
            final(self).wf(),
            final(self).named_values() == old(self).named_values(),
            verified ==> r is Ok && final(self).functions() == old(self).functions(),
            !verified ==> r == Err::<(), CodegenError>(CodegenError::VerificationFailed(*name))
                && final(self).functions() == old(self).functions().remove(name@),
    {
        if verified {
            return Ok(());
        }
        self.delete_function(name);
        Err(CodegenError::VerificationFailed(name.clone()))
    }

    /// Removes the function called `name` from the module, telling whether
    /// there was one.
    pub fn delete_function(&mut self, name: &String) -> (deleted: bool)
        requires
            old(self).wf(),
        ensures
            final(self).wf(),
            deleted == old(self).functions().contains_key(name@),
            final(self).functions() == old(self).functions().remove(name@),
            final(self).named_values() == old(self).named_values(),
    {
        match self.find(name) {
            Some(i) => {
                self.remove_at(i);
                true
            },
            None => {
                assert(self.functions() =~= self.functions().remove(name@));
                false
            },
        }
    }
}

} // verus!
