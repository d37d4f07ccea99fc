//! The WASM expression tier against the interpreter, expression by
//! expression: every value the interpreter gives, the compiled module gives.

use ascent_jit::env::Env;
use ascent_jit::expr::{BinOp, Expr, UnOp};
use ascent_jit::wasm::{encode_code, Control, Instr};
use ascent_jit::{ExprError, ExprEval, Interpreter, Symbol, Value, WasmEval};

fn var(n: u32) -> Expr {
    Expr::Var(Symbol(n))
}

fn lit(v: Value) -> Expr {
    Expr::Lit(v)
}

fn bin(op: BinOp, a: Expr, b: Expr) -> Expr {
    Expr::Binary(op, Box::new(a), Box::new(b))
}

fn env() -> Env {
    let mut env = Env::new();
    env.insert(Symbol(0), Value::Int(7));
    env.insert(Symbol(1), Value::Int(-3));
    env.insert(Symbol(2), Value::Bool(true));
    env.insert(Symbol(3), Value::Sym(Symbol(9)));
    env
}

fn both(e: &Expr) -> (Result<Value, ExprError>, Result<Value, ExprError>) {
    let env = env();
    let mut wasm = WasmEval::new().expect("wasm runtime");
    (Interpreter.evaluate(e, &env), wasm.eval_expr(e, &env))
}

fn agree(e: Expr, expected: Value) {
    let (i, w) = both(&e);
    assert_eq!(i, Ok(expected));
    assert_eq!(w, Ok(expected));
}

#[test]
fn arithmetic_agrees_exactly() {
    agree(bin(BinOp::Add, var(0), var(1)), Value::Int(4));
    agree(bin(BinOp::Sub, var(0), var(1)), Value::Int(10));
    agree(bin(BinOp::Mul, var(0), var(1)), Value::Int(-21));
    agree(bin(BinOp::Div, var(0), var(1)), Value::Int(-2));
    agree(bin(BinOp::Rem, var(0), var(1)), Value::Int(1));
    agree(Expr::Unary(UnOp::Neg, Box::new(var(0))), Value::Int(-7));
}

#[test]
fn arithmetic_wraps_in_both_tiers() {
    agree(bin(BinOp::Add, lit(Value::Int(i64::MAX)), lit(Value::Int(1))), Value::Int(i64::MIN));
    agree(bin(BinOp::Mul, lit(Value::Int(i64::MIN)), lit(Value::Int(-1))), Value::Int(i64::MIN));
    agree(Expr::Unary(UnOp::Neg, Box::new(lit(Value::Int(i64::MIN)))), Value::Int(i64::MIN));
}

#[test]
fn comparisons_and_connectives_agree() {
    agree(bin(BinOp::Lt, var(0), var(1)), Value::Bool(false));
    agree(bin(BinOp::Ge, var(0), var(1)), Value::Bool(true));
    agree(bin(BinOp::Le, var(1), var(1)), Value::Bool(true));
    agree(bin(BinOp::Gt, var(1), var(0)), Value::Bool(false));
    agree(bin(BinOp::Eq, var(3), lit(Value::Sym(Symbol(9)))), Value::Bool(true));
    agree(bin(BinOp::Ne, var(3), lit(Value::Sym(Symbol(8)))), Value::Bool(true));
    agree(Expr::Unary(UnOp::Not, Box::new(var(2))), Value::Bool(false));
    agree(
        bin(BinOp::And, bin(BinOp::Gt, var(0), lit(Value::Int(0))), bin(BinOp::Gt, var(1), lit(Value::Int(0)))),
        Value::Bool(false),
    );
    agree(
        bin(BinOp::Or, bin(BinOp::Gt, var(1), lit(Value::Int(0))), bin(BinOp::Gt, var(0), lit(Value::Int(0)))),
        Value::Bool(true),
    );
}

/// The right operand of `&&` and `||` runs only when the left does not
/// decide: a division by zero there is never reached.
#[test]
fn connectives_short_circuit_in_both_tiers() {
    let fault = || bin(BinOp::Eq, bin(BinOp::Div, lit(Value::Int(1)), lit(Value::Int(0))), lit(Value::Int(0)));
    agree(bin(BinOp::And, lit(Value::Bool(false)), fault()), Value::Bool(false));
    agree(bin(BinOp::Or, lit(Value::Bool(true)), fault()), Value::Bool(true));
    agree(bin(BinOp::And, lit(Value::Bool(true)), lit(Value::Bool(true))), Value::Bool(true));
    agree(bin(BinOp::Or, lit(Value::Bool(false)), lit(Value::Bool(false))), Value::Bool(false));
}

#[test]
fn symbols_come_back_as_symbols() {
    agree(var(3), Value::Sym(Symbol(9)));
}

#[test]
fn division_by_zero_faults_in_both_tiers() {
    let (i, w) = both(&bin(BinOp::Div, var(0), lit(Value::Int(0))));
    assert!(matches!(i, Err(ExprError::Arithmetic(_))));
    assert!(matches!(w, Err(ExprError::Runtime(ref m)) if !m.is_empty()));
}

#[test]
fn unbound_variables_are_reported() {
    let (i, w) = both(&bin(BinOp::Add, var(0), var(42)));
    assert_eq!(i, Err(ExprError::UnboundVar(Symbol(42))));
    assert_eq!(w, Err(ExprError::UnboundVar(Symbol(42))));
}

#[test]
fn ill_typed_operands_are_a_type_mismatch() {
    let (i, w) = both(&bin(BinOp::Add, var(0), var(2)));
    assert!(matches!(i, Err(ExprError::TypeMismatch(_))));
    assert!(matches!(w, Err(ExprError::TypeMismatch(_))));
}

#[test]
fn an_evaluator_over_a_supplied_executor_agrees() {
    let env = env();
    let executor = ascent_jit::WasmtimeExecutor::new().expect("wasm runtime");
    let mut wasm = WasmEval::with_executor(executor);
    let e = bin(BinOp::Add, var(0), var(1));
    assert_eq!(wasm.eval_expr(&e, &env), Ok(Value::Int(4)));
    assert_eq!(wasm.eval_expr(&e, &env), Ok(Value::Int(4)));
}

#[test]
fn immediates_are_leb128() {
    let code = vec![
        Instr::Control(Control::LocalGet(300)),
        Instr::Control(Control::I64Const(-1)),
        Instr::Control(Control::I64Const(64)),
        Instr::Control(Control::I64Const(-129)),
    ];
    assert_eq!(
        encode_code(&code),
        vec![0x20, 0xAC, 0x02, 0x42, 0x7F, 0x42, 0xC0, 0x00, 0x42, 0xFF, 0x7E]
    );
}
