use kaleidoscope::frontend::code_generation::{CodegenError, Compiler, Instr};
use kaleidoscope::frontend::lexer::Lexer;
use kaleidoscope::frontend::parser::{ExprAST, FunctionAST, Parser, PrototypeAST};

fn strings(names: &[&str]) -> Vec<String> {
    names.iter().map(|s| s.to_string()).collect()
}

fn proto(name: &str, params: &[&str]) -> PrototypeAST {
    PrototypeAST::new(name.to_string(), strings(params))
}

fn body(text: &str) -> ExprAST {
    let mut p = Parser::new(Lexer::new(text));
    p.get_next_token();
    p.parse_expression().unwrap()
}

fn function(name: &str, params: &[&str], text: &str) -> FunctionAST {
    FunctionAST(proto(name, params), body(text))
}

/// Runs the stack effect of code: the height after each instruction.
fn height(code: &[Instr]) -> Option<usize> {
    let mut h: usize = 0;
    for i in code {
        h = match i {
            Instr::Const(_) | Instr::Param(_) => h + 1,
            Instr::Call(_, k) => h.checked_sub(*k)? + 1,
            _ => h.checked_sub(2)? + 1,
        };
    }
    Some(h)
}

#[test]
fn prototypes_are_declared_once() {
    let mut c = Compiler::new();
    assert!(c.emit_prototype(&proto("sin", &["x"])));
    assert_eq!(c.function(&"sin".to_string()), Some((1, false)));
    assert!(!c.emit_prototype(&proto("sin", &["a", "b"])));
    assert_eq!(c.function(&"sin".to_string()), Some((1, false)));
}

#[test]
fn a_body_becomes_stack_code() {
    let mut c = Compiler::new();
    let f = function("f", &["x", "y"], "x + y * 2");
    let code = c.emit_function(&f, strings(&["x", "y"])).unwrap();
    assert_eq!(
        code,
        vec![Instr::Param(0), Instr::Param(1), Instr::Const("2".to_string()), Instr::Mul, Instr::Add]
    );
    assert_eq!(height(&code), Some(1));
    assert_eq!(c.function(&"f".to_string()), Some((2, true)));
}

#[test]
fn comparison_and_subtraction() {
    let mut c = Compiler::new();
    let f = function("g", &["a"], "a - 1 < 3");
    c.emit_prototype(&f.0);
    let code = c.emit_function(&f, strings(&["a"])).unwrap();
    assert_eq!(
        code,
        vec![
            Instr::Param(0),
            Instr::Const("1".to_string()),
            Instr::Sub,
            Instr::Const("3".to_string()),
            Instr::Less
        ]
    );
}

#[test]
fn a_later_parameter_of_the_same_name_hides_an_earlier() {
    let mut c = Compiler::new();
    let f = function("f", &["x", "x"], "x");
    c.emit_prototype(&f.0);
    assert_eq!(c.emit_function(&f, strings(&["x", "x"])), Ok(vec![Instr::Param(1)]));
}

#[test]
fn calls_check_their_callee() {
    let mut c = Compiler::new();
    c.emit_prototype(&proto("sin", &["x"]));
    let f = function("f", &["y"], "sin(y) + sin(2)");
    c.emit_prototype(&f.0);
    let code = c.emit_function(&f, strings(&["y"])).unwrap();
    assert_eq!(
        code,
        vec![
            Instr::Param(0),
            Instr::Call("sin".to_string(), 1),
            Instr::Const("2".to_string()),
            Instr::Call("sin".to_string(), 1),
            Instr::Add
        ]
    );
    assert_eq!(height(&code), Some(1));
    assert_eq!(
        c.emit_expr(&body("sin(1, 2)")),
        Err(CodegenError::ArgCountMismatch("sin".to_string(), 1, 2))
    );
    assert_eq!(c.emit_expr(&body("cos(1)")), Err(CodegenError::UnknownFunction("cos".to_string())));
}

#[test]
fn a_function_may_call_itself() {
    let mut c = Compiler::new();
    let f = function("fib", &["n"], "fib(n - 1)");
    c.emit_prototype(&f.0);
    assert!(c.emit_function(&f, strings(&["n"])).is_ok());
}

#[test]
fn the_first_error_in_order_is_reported() {
    let mut c = Compiler::new();
    c.emit_prototype(&proto("f", &["x"]));
    let e = body("y + unknown(z)");
    assert_eq!(c.emit_expr(&e), Err(CodegenError::UnknownVariable("y".to_string())));
    let e = ExprAST::Binary('/', Box::new(body("1")), Box::new(body("2")));
    assert_eq!(c.emit_expr(&e), Err(CodegenError::UnknownOperator('/')));
}

#[test]
fn a_bad_body_removes_the_function() {
    let mut c = Compiler::new();
    let f = function("f", &["x"], "z");
    c.emit_prototype(&f.0);
    assert_eq!(c.emit_function(&f, strings(&["x"])), Err(CodegenError::UnknownVariable("z".to_string())));
    assert_eq!(c.function(&"f".to_string()), None);
}

#[test]
fn functions_cannot_be_redefined() {
    let mut c = Compiler::new();
    let f = function("f", &["x"], "x");
    c.emit_prototype(&f.0);
    assert!(c.emit_function(&f, strings(&["x"])).is_ok());
    c.emit_prototype(&f.0);
    assert_eq!(c.emit_function(&f, strings(&["x"])), Err(CodegenError::Redefinition("f".to_string())));
    assert_eq!(c.function(&"f".to_string()), Some((1, true)));
}

#[test]
fn a_function_that_fails_its_check_is_removed() {
    let mut c = Compiler::new();
    let f = function("f", &[], "1");
    c.emit_prototype(&f.0);
    assert!(c.emit_function(&f, vec![]).is_ok());
    assert_eq!(c.finish_function(&"f".to_string(), true), Ok(()));
    assert_eq!(c.function(&"f".to_string()), Some((0, true)));
    assert_eq!(
        c.finish_function(&"f".to_string(), false),
        Err(CodegenError::VerificationFailed("f".to_string()))
    );
    assert_eq!(c.function(&"f".to_string()), None);
}

#[test]
fn deleting_a_function() {
    let mut c = Compiler::new();
    c.emit_prototype(&proto("__anon_expr", &[]));
    assert!(c.delete_function(&"__anon_expr".to_string()));
    assert!(!c.delete_function(&"__anon_expr".to_string()));
}

#[test]
fn a_definition_declares_its_function() {
    let mut c = Compiler::new();
    assert_eq!(c.function(&"g".to_string()), None);
    let f = function("g", &["a"], "a");
    assert_eq!(c.emit_function(&f, strings(&["a"])), Ok(vec![Instr::Param(0)]));
    assert_eq!(c.function(&"g".to_string()), Some((1, true)));
}

#[test]
fn a_definition_keeps_the_arity_of_an_earlier_declaration() {
    let mut c = Compiler::new();
    assert!(c.emit_prototype(&proto("h", &["a", "b"])));
    let f = function("h", &["x"], "x");
    assert_eq!(c.emit_function(&f, strings(&["x", "b"])), Ok(vec![Instr::Param(0)]));
    assert_eq!(c.function(&"h".to_string()), Some((2, true)));
}

#[test]
fn a_failed_fresh_definition_leaves_no_function() {
    let mut c = Compiler::new();
    let f = function("k", &["x"], "y");
    assert_eq!(c.emit_function(&f, strings(&["x"])), Err(CodegenError::UnknownVariable("y".to_string())));
    assert_eq!(c.function(&"k".to_string()), None);
}

fn run_code(code: &[Instr], env: &[f64]) -> Vec<f64> {
    let mut stack: Vec<f64> = Vec::new();
    for i in code {
        match i {
            Instr::Const(text) => stack.push(text.parse().unwrap()),
            Instr::Param(p) => stack.push(env[*p]),
            Instr::Call(_, k) => {
                let args = stack.split_off(stack.len() - k);
                stack.push(args.iter().sum());
            }
            op => {
                let r = stack.pop().unwrap();
                let l = stack.pop().unwrap();
                stack.push(match op {
                    Instr::Add => l + r,
                    Instr::Sub => l - r,
                    Instr::Mul => l * r,
                    _ => (l < r) as u8 as f64,
                });
            }
        }
    }
    stack
}

fn value(e: &ExprAST, names: &[&str], env: &[f64]) -> f64 {
    match e {
        ExprAST::Number(x) => x.parse().unwrap(),
        ExprAST::Variable(v) => env[names.iter().rposition(|n| n == v).unwrap()],
        ExprAST::Binary(op, l, r) => {
            let (l, r) = (value(l, names, env), value(r, names, env));
            match op {
                '+' => l + r,
                '-' => l - r,
                '*' => l * r,
                _ => (l < r) as u8 as f64,
            }
        }
        ExprAST::Call(_, args) => args.iter().map(|a| value(a, names, env)).sum(),
    }
}

#[test]
fn the_code_of_a_body_computes_its_value() {
    let mut c = Compiler::new();
    c.emit_prototype(&proto("sum2", &["a", "b"]));
    let f = function("f", &["x", "y"], "x * (y + 2) - sum2(x, 3) * 0.5 < y");
    let code = c.emit_function(&f, strings(&["x", "y"])).unwrap();
    for env in [[1.0, 2.0], [4.0, -1.5], [0.0, 10.0]] {
        assert_eq!(run_code(&code, &env), vec![value(&f.1, &["x", "y"], &env)]);
    }
    let g = function("g", &["x", "y"], "x - y - 1 + sum2(y * y, x)");
    let code = c.emit_function(&g, strings(&["x", "y"])).unwrap();
    assert_eq!(run_code(&code, &[3.0, 2.0]), vec![3.0 - 2.0 - 1.0 + (4.0 + 3.0)]);
}
