//! Expressions used in `if` conditions, `let` bindings, and head construction:
//! the IR, a type inferencer, and a tree-walking interpreter whose semantics
//! are stated by [`eval_spec`].

use vstd::prelude::*;

use crate::env::{Env, TypeEnv};
use crate::value::{type_of_spec, Symbol, Type, Value};

verus! {

/// A unary operator.
#[derive(Debug, Clone, Copy, PartialEq, Eq, Hash, Structural)]
pub enum UnOp {
    /// Arithmetic negation (`-x`).
    Neg,
    /// Logical negation (`!x`).
    Not,
}

/// A binary operator.
#[derive(Debug, Clone, Copy, PartialEq, Eq, Hash, Structural)]
pub enum BinOp {
    /// `a + b` (wrapping).
    Add,
    /// `a - b` (wrapping).
    Sub,
    /// `a * b` (wrapping).
    Mul,
    /// `a / b` (truncating; faults on zero divisor or overflow).
    Div,
    /// `a % b` (faults on zero divisor or overflow).
    Rem,
    /// `a == b`.
    Eq,
    /// `a != b`.
    Ne,
    /// `a < b`.
    Lt,
    /// `a <= b`.
    Le,
    /// `a > b`.
    Gt,
    /// `a >= b`.
    Ge,
    /// `a && b` (short-circuit).
    And,
    /// `a || b` (short-circuit).
    Or,
}

/// Whether an operator compares its operands.
pub open spec fn is_comparison_spec(op: BinOp) -> bool {
    op is Eq || op is Ne || op is Lt || op is Le || op is Gt || op is Ge
}

/// Whether an operator is a boolean connective.
pub open spec fn is_logical_spec(op: BinOp) -> bool {
    op is And || op is Or
}

impl BinOp {
    /// Whether this operator compares operands and yields a boolean.
    pub fn is_comparison(self) -> (r: bool)
        ensures
            r == is_comparison_spec(self),
    {
        match self {
            BinOp::Eq | BinOp::Ne | BinOp::Lt | BinOp::Le | BinOp::Gt | BinOp::Ge => true,
            _ => false,
        }
    }

    /// Whether this operator is a boolean connective.
    pub fn is_logical(self) -> (r: bool)
        ensures
            r == is_logical_spec(self),
    {
        match self {
            BinOp::And | BinOp::Or => true,
            _ => false,
        }
    }
}

/// An expression over bound variables.
#[derive(Debug, PartialEq, Eq, Hash)]
pub enum Expr {
    /// A reference to a bound variable.
    Var(Symbol),
    /// A literal value.
    Lit(Value),
    /// A unary operation.
    Unary(UnOp, Box<Expr>),
    /// A binary operation.
    Binary(BinOp, Box<Expr>, Box<Expr>),
}

/// An error encountered while type-checking or evaluating an expression.
#[derive(Debug, PartialEq, Eq)]
pub enum ExprError {
    /// A variable was referenced that is not in scope.
    UnboundVar(Symbol),
    /// An operator was applied to operands of the wrong type.
    TypeMismatch(String),
    /// An arithmetic fault: division by zero or signed overflow.
    Arithmetic(&'static str),
    /// A runtime failure in the WASM tier (trap, fuel exhaustion, or codegen).
    Runtime(String),
}

/// The outcome of evaluating an expression, as a mathematical value.
pub enum Outcome {
    /// The expression evaluated to a value.
    Val(Value),
    /// An unbound variable was read.
    Unbound(Symbol),
    /// An operator met an operand of the wrong type.
    Mismatch,
    /// Division or remainder by zero, or their signed overflow.
    Arith,
}

/// Whether an executable result agrees with a mathematical outcome.
pub open spec fn agrees(r: Result<Value, ExprError>, o: Outcome) -> bool {
    match o {
        Outcome::Val(v) => r == Ok::<Value, ExprError>(v),
        Outcome::Unbound(s) => r matches Err(ExprError::UnboundVar(t)) && t == s,
        Outcome::Mismatch => r matches Err(ExprError::TypeMismatch(_)),
        Outcome::Arith => r matches Err(ExprError::Arithmetic(_)),
    }
}

/// The value of a binary operator applied to two operand values.
pub open spec fn binary_spec(op: BinOp, a: Value, b: Value) -> Outcome {
    match op {
        BinOp::Eq => Outcome::Val(Value::Bool(a == b)),
        BinOp::Ne => Outcome::Val(Value::Bool(a != b)),
        BinOp::And => match (a, b) {
            (Value::Bool(x), Value::Bool(y)) => Outcome::Val(Value::Bool(x && y)),
            _ => Outcome::Mismatch,
        },
        BinOp::Or => match (a, b) {
            (Value::Bool(x), Value::Bool(y)) => Outcome::Val(Value::Bool(x || y)),
            _ => Outcome::Mismatch,
        },
        _ => match (a, b) {
            (Value::Int(x), Value::Int(y)) => match op {
                BinOp::Add => Outcome::Val(Value::Int(x.wrapping_add(y))),
                BinOp::Sub => Outcome::Val(Value::Int(x.wrapping_sub(y))),
                BinOp::Mul => Outcome::Val(Value::Int(x.wrapping_mul(y))),
                BinOp::Div => match x.checked_div(y) {
                    Some(q) => Outcome::Val(Value::Int(q)),
                    None => Outcome::Arith,
                },
                BinOp::Rem => match x.checked_rem(y) {
                    Some(q) => Outcome::Val(Value::Int(q)),
                    None => Outcome::Arith,
                },
                BinOp::Lt => Outcome::Val(Value::Bool(x < y)),
                BinOp::Le => Outcome::Val(Value::Bool(x <= y)),
                BinOp::Gt => Outcome::Val(Value::Bool(x > y)),
                _ => Outcome::Val(Value::Bool(x >= y)),
            },
            _ => Outcome::Mismatch,
        },
    }
}

/// Requires a boolean operand.
pub open spec fn as_bool_outcome(o: Outcome) -> Outcome {
    match o {
        Outcome::Val(Value::Bool(b)) => Outcome::Val(Value::Bool(b)),
        Outcome::Val(_) => Outcome::Mismatch,
        other => other,
    }
}

/// The semantics of expressions: total, side-effect free, with `&&` and `||`
/// short-circuiting so that the right operand is not evaluated (and cannot
/// fault) when the left decides the result.
pub open spec fn eval_spec(e: Expr, env: Map<Symbol, Value>) -> Outcome
    decreases e,
{
    match e {
        Expr::Var(s) => if env.contains_key(s) {
            Outcome::Val(env[s])
        } else {
            Outcome::Unbound(s)
        },
        Expr::Lit(v) => Outcome::Val(v),
        Expr::Unary(UnOp::Neg, a) => match eval_spec(*a, env) {
            Outcome::Val(Value::Int(i)) => Outcome::Val(Value::Int(0i64.wrapping_sub(i))),
            Outcome::Val(_) => Outcome::Mismatch,
            other => other,
        },
        Expr::Unary(UnOp::Not, a) => match eval_spec(*a, env) {
            Outcome::Val(Value::Bool(b)) => Outcome::Val(Value::Bool(!b)),
            Outcome::Val(_) => Outcome::Mismatch,
            other => other,
        },
        Expr::Binary(BinOp::And, a, b) => match eval_spec(*a, env) {
            Outcome::Val(Value::Bool(true)) => as_bool_outcome(eval_spec(*b, env)),
            Outcome::Val(Value::Bool(false)) => Outcome::Val(Value::Bool(false)),
            Outcome::Val(_) => Outcome::Mismatch,
            other => other,
        },
        Expr::Binary(BinOp::Or, a, b) => match eval_spec(*a, env) {
            Outcome::Val(Value::Bool(true)) => Outcome::Val(Value::Bool(true)),
            Outcome::Val(Value::Bool(false)) => as_bool_outcome(eval_spec(*b, env)),
            Outcome::Val(_) => Outcome::Mismatch,
            other => other,
        },
        Expr::Binary(op, a, b) => match eval_spec(*a, env) {
            Outcome::Val(va) => match eval_spec(*b, env) {
                Outcome::Val(vb) => binary_spec(op, va, vb),
                other => other,
            },
            other => other,
        },
    }
}

/// The outcome of type inference.
pub enum TyOutcome {
    /// The expression has this type.
    Ty(Type),
    /// An unbound variable was referenced.
    Unbound(Symbol),
    /// An operator is applied to incompatible operand types.
    Mismatch,
}

/// Whether an executable inference result agrees with a mathematical outcome.
pub open spec fn ty_agrees(r: Result<Type, ExprError>, o: TyOutcome) -> bool {
    match o {
        TyOutcome::Ty(t) => r == Ok::<Type, ExprError>(t),
        TyOutcome::Unbound(s) => r matches Err(ExprError::UnboundVar(t)) && t == s,
        TyOutcome::Mismatch => r matches Err(ExprError::TypeMismatch(_)),
    }
}

/// Requires an operand of type `want`, then yields `want`.
pub open spec fn expect_ty(o: TyOutcome, want: Type) -> TyOutcome {
    match o {
        TyOutcome::Ty(t) => if t == want { TyOutcome::Ty(want) } else { TyOutcome::Mismatch },
        other => other,
    }
}

/// The typing rules: `-` needs an int, `!` a bool; `&&`/`||` need bools;
/// `==`/`!=` need matching types; ordering and arithmetic need ints.
pub open spec fn infer_spec(e: Expr, env: Map<Symbol, Type>) -> TyOutcome
    decreases e,
{
    match e {
        Expr::Var(s) => if env.contains_key(s) {
            TyOutcome::Ty(env[s])
        } else {
            TyOutcome::Unbound(s)
        },
        Expr::Lit(v) => TyOutcome::Ty(type_of_spec(v)),
        Expr::Unary(UnOp::Neg, a) => expect_ty(infer_spec(*a, env), Type::Int),
        Expr::Unary(UnOp::Not, a) => expect_ty(infer_spec(*a, env), Type::Bool),
        Expr::Binary(op, a, b) => match infer_spec(*a, env) {
            TyOutcome::Ty(ta) => match infer_spec(*b, env) {
                TyOutcome::Ty(tb) => if is_logical_spec(op) {
                    if ta == Type::Bool && tb == Type::Bool { TyOutcome::Ty(Type::Bool) } else { TyOutcome::Mismatch }
                } else if is_comparison_spec(op) {
                    if op is Eq || op is Ne {
                        if ta == tb { TyOutcome::Ty(Type::Bool) } else { TyOutcome::Mismatch }
                    } else if ta == Type::Int && tb == Type::Int {
                        TyOutcome::Ty(Type::Bool)
                    } else {
                        TyOutcome::Mismatch
                    }
                } else if ta == Type::Int && tb == Type::Int {
                    TyOutcome::Ty(Type::Int)
                } else {
                    TyOutcome::Mismatch
                },
                other => other,
            },
            other => other,
        },
    }
}

/// The variables an expression references, in first-occurrence order (left to
/// right), each once.
pub open spec fn vars_spec(e: Expr, acc: Seq<Symbol>) -> Seq<Symbol>
    decreases e,
{
    match e {
        Expr::Var(s) => if acc.contains(s) { acc } else { acc.push(s) },
        Expr::Lit(_) => acc,
        Expr::Unary(_, a) => vars_spec(*a, acc),
        Expr::Binary(_, a, b) => vars_spec(*b, vars_spec(*a, acc)),
    }
}

/// Whether the expression mentions variable `s`.
pub open spec fn mentions(e: Expr, s: Symbol) -> bool
    decreases e,
{
    match e {
        Expr::Var(t) => t == s,
        Expr::Lit(_) => false,
        Expr::Unary(_, a) => mentions(*a, s),
        Expr::Binary(_, a, b) => mentions(*a, s) || mentions(*b, s),
    }
}

/// `vars_spec` extends its accumulator by exactly the mentioned variables,
/// without duplicates.
pub proof fn lemma_vars_spec(e: Expr, acc: Seq<Symbol>)
    requires
        acc.no_duplicates(),
    ensures
        vars_spec(e, acc).no_duplicates(),
        acc.is_prefix_of(vars_spec(e, acc)),
        forall|s: Symbol| vars_spec(e, acc).contains(s) <==> (acc.contains(s) || mentions(e, s)),
    decreases e,
{
    match e {
        Expr::Var(s) => {
            if !acc.contains(s) {
                assert forall|a: int, b: int| 0 <= a < b < acc.push(s).len()
                    implies acc.push(s)[a] != acc.push(s)[b] by {
                    if b == acc.len() {
                        assert(acc.contains(acc[a]));
                    }
                }
                assert forall|t: Symbol| acc.push(s).contains(t) implies (acc.contains(t) || t == s) by {
                    let k = choose|k: int| 0 <= k < acc.push(s).len() && acc.push(s)[k] == t;
                    if k < acc.len() {
                        assert(acc[k] == t);
                    }
                }
                assert(acc.push(s)[acc.len() as int] == s);
                assert forall|t: Symbol| acc.contains(t) implies acc.push(s).contains(t) by {
                    let k = choose|k: int| 0 <= k < acc.len() && acc[k] == t;
                    assert(acc.push(s)[k] == t);
                }
            }
        },
        Expr::Lit(_) => {},
        Expr::Unary(_, a) => {
            lemma_vars_spec(*a, acc);
        },
        Expr::Binary(_, a, b) => {
            lemma_vars_spec(*a, acc);
            lemma_vars_spec(*b, vars_spec(*a, acc));
        },
    }
}

/// A deep copy of an expression.
pub fn clone_expr(e: &Expr) -> (r: Expr)
    ensures
        r == *e,
    decreases e,
{
    match e {
        Expr::Var(s) => Expr::Var(*s),
        Expr::Lit(v) => Expr::Lit(*v),
        Expr::Unary(op, a) => Expr::Unary(*op, Box::new(clone_expr(a))),
        Expr::Binary(op, a, b) => Expr::Binary(*op, Box::new(clone_expr(a)), Box::new(clone_expr(b))),
    }
}

impl Clone for Expr {
    fn clone(&self) -> (r: Self)
        ensures
            r == *self,
    {
        clone_expr(self)
    }
}

fn mismatch(msg: &str) -> (r: ExprError)
    ensures
        r matches ExprError::TypeMismatch(m) && m@ == msg@,
{
    ExprError::TypeMismatch(msg.to_owned())
}

fn as_int(v: Value) -> (r: Result<i64, ExprError>)
    ensures
        match v {
            Value::Int(i) => r == Ok::<i64, ExprError>(i),
            _ => r matches Err(ExprError::TypeMismatch(_)),
        },
{
    match v {
        Value::Int(i) => Ok(i),
        _ => Err(mismatch("expected int")),
    }
}

fn as_bool(v: Value) -> (r: Result<bool, ExprError>)
    ensures
        match v {
            Value::Bool(b) => r == Ok::<bool, ExprError>(b),
            _ => r matches Err(ExprError::TypeMismatch(_)),
        },
{
    match v {
        Value::Bool(b) => Ok(b),
        _ => Err(mismatch("expected bool")),
    }
}

fn eval_binary(op: BinOp, a: Value, b: Value) -> (r: Result<Value, ExprError>)
    ensures
        agrees(r, binary_spec(op, a, b)),
{
    match op {
        BinOp::Eq => Ok(Value::Bool(a == b)),
        BinOp::Ne => Ok(Value::Bool(a != b)),
        BinOp::And => {
            let x = as_bool(a)?;
            let y = as_bool(b)?;
            Ok(Value::Bool(x && y))
        },
        BinOp::Or => {
            let x = as_bool(a)?;
            let y = as_bool(b)?;
            Ok(Value::Bool(x || y))
        },
        _ => {
            let x = match a {
                Value::Int(i) => i,
                _ => return Err(mismatch("expected int")),
            };
            let y = match b {
                Value::Int(i) => i,
                _ => return Err(mismatch("expected int")),
            };
            match op {
                BinOp::Add => Ok(Value::Int(x.wrapping_add(y))),
                BinOp::Sub => Ok(Value::Int(x.wrapping_sub(y))),
                BinOp::Mul => Ok(Value::Int(x.wrapping_mul(y))),
                BinOp::Div => match x.checked_div(y) {
                    Some(q) => Ok(Value::Int(q)),
                    None => Err(ExprError::Arithmetic("division by zero or overflow")),
                },
                BinOp::Rem => match x.checked_rem(y) {
                    Some(q) => Ok(Value::Int(q)),
                    None => Err(ExprError::Arithmetic("remainder by zero or overflow")),
                },
                BinOp::Lt => Ok(Value::Bool(x < y)),
                BinOp::Le => Ok(Value::Bool(x <= y)),
                BinOp::Gt => Ok(Value::Bool(x > y)),
                _ => Ok(Value::Bool(x >= y)),
            }
        },
    }
}

fn require(cond: bool, msg: &str) -> (r: Result<(), ExprError>)
    ensures
        cond ==> r is Ok,
        !cond ==> r matches Err(ExprError::TypeMismatch(_)),
{
    if cond {
        Ok(())
    } else {
        Err(mismatch(msg))
    }
}

impl Expr {
    /// Collects the variables referenced by this expression into `out`, in
    /// first-occurrence order, skipping those already present.
    pub fn collect_vars(&self, out: &mut Vec<Symbol>)
        ensures
            final(out)@ == vars_spec(*self, old(out)@),
        decreases self,
    {
        match self {
            Expr::Var(s) => {
                let mut found = false;
                let mut i: usize = 0;
                while i < out.len()
                    invariant
                        i <= out.len(),
                        found == exists|j: int| 0 <= j < i && out@[j] == *s,
                    decreases out.len() - i,
                {
                    if out[i] == *s {
                        found = true;
                    }
                    i += 1;
                }
                if !found {
                    out.push(*s);
                }
            },
            Expr::Lit(_) => {},
            Expr::Unary(_, e) => e.collect_vars(out),
            Expr::Binary(_, a, b) => {
                a.collect_vars(out);
                b.collect_vars(out);
            },
        }
    }

    /// Infers the result [`Type`] of this expression under `env`.
    pub fn infer(&self, env: &TypeEnv) -> (r: Result<Type, ExprError>)
        ensures
            ty_agrees(r, infer_spec(*self, env@)),
        decreases self,
    {
        match self {
            Expr::Var(s) => match env.get(*s) {
                Some(t) => Ok(t),
                None => Err(ExprError::UnboundVar(*s)),
            },
            Expr::Lit(v) => Ok(v.type_of()),
            Expr::Unary(UnOp::Neg, e) => {
                let t = e.infer(env)?;
                require(t == Type::Int, "operand type")?;
                Ok(Type::Int)
            },
            Expr::Unary(UnOp::Not, e) => {
                let t = e.infer(env)?;
                require(t == Type::Bool, "operand type")?;
                Ok(Type::Bool)
            },
            Expr::Binary(op, a, b) => {
                let ta = a.infer(env)?;
                let tb = b.infer(env)?;
                if op.is_logical() {
                    require(ta == Type::Bool && tb == Type::Bool, "logical op needs bools")?;
                    Ok(Type::Bool)
                } else if op.is_comparison() {
                    match op {
                        BinOp::Eq | BinOp::Ne => {
                            require(ta == tb, "== / != needs matching types")?;
                        },
                        _ => {
                            require(ta == Type::Int && tb == Type::Int, "ordering needs ints")?;
                        },
                    }
                    Ok(Type::Bool)
                } else {
                    require(ta == Type::Int && tb == Type::Int, "arithmetic needs ints")?;
                    Ok(Type::Int)
                }
            },
        }
    }

    /// Evaluates this expression under `env`; the result is exactly
    /// [`eval_spec`]. This interpreter is the oracle for the WASM tier.
    pub fn eval(&self, env: &Env) -> (r: Result<Value, ExprError>)
        ensures
            agrees(r, eval_spec(*self, env@)),
        decreases self,
    {
        match self {
            Expr::Var(s) => match env.get(*s) {
                Some(v) => Ok(v),
                None => Err(ExprError::UnboundVar(*s)),
            },
            Expr::Lit(v) => Ok(*v),
            Expr::Unary(UnOp::Neg, e) => {
                let v = e.eval(env)?;
                let i = as_int(v)?;
                Ok(Value::Int(0i64.wrapping_sub(i)))
            },
            Expr::Unary(UnOp::Not, e) => {
                let v = e.eval(env)?;
                let b = as_bool(v)?;
                Ok(Value::Bool(!b))
            },
            Expr::Binary(BinOp::And, a, b) => {
                let va = a.eval(env)?;
                if as_bool(va)? {
                    let vb = b.eval(env)?;
                    Ok(Value::Bool(as_bool(vb)?))
                } else {
                    Ok(Value::Bool(false))
                }
            },
            Expr::Binary(BinOp::Or, a, b) => {
                let va = a.eval(env)?;
                if as_bool(va)? {
                    Ok(Value::Bool(true))
                } else {
                    let vb = b.eval(env)?;
                    Ok(Value::Bool(as_bool(vb)?))
                }
            },
            Expr::Binary(op, a, b) => {
                let va = a.eval(env)?;
                let vb = b.eval(env)?;
                eval_binary(*op, va, vb)
            },
        }
    }
}

/// The decimal digit of `d` (below ten).
pub open spec fn digit_char(d: nat) -> char {
    ('0' as nat + d) as char
}

/// The decimal numeral of `n`, most significant digit first, with no
/// leading zeros.
pub open spec fn decimal(n: nat) -> Seq<char>
    decreases n,
{
    if n < 10 {
        seq![digit_char(n)]
    } else {
        decimal(n / 10).push(digit_char(n % 10))
    }
}

/// The decimal text of a number (`u64::to_string`, that is its `Display`:
/// the decimal numeral).
#[verifier::external_body]
pub(crate) fn describe_number(n: u64) -> (r: String)
    ensures
        r@ == decimal(n as nat),
{
    n.to_string()
}

impl ExprError {
    /// The text of the error.
    pub open spec fn describe_spec(&self) -> Seq<char> {
        match self {
            ExprError::UnboundVar(s) => "unbound variable "@ + decimal(s.0 as nat),
            ExprError::TypeMismatch(m) => "type mismatch: "@ + m@,
            ExprError::Arithmetic(m) => "arithmetic fault: "@ + m@,
            ExprError::Runtime(m) => "runtime error: "@ + m@,
        }
    }

    /// The error's description.
    pub fn describe(&self) -> (r: String)
        ensures
            r@ == self.describe_spec(),
    {
        let (prefix, detail) = match self {
            ExprError::UnboundVar(s) => ("unbound variable ", describe_number(s.0 as u64)),
            ExprError::TypeMismatch(m) => ("type mismatch: ", m.clone()),
            ExprError::Arithmetic(m) => ("arithmetic fault: ", (*m).to_owned()),
            ExprError::Runtime(m) => ("runtime error: ", m.clone()),
        };
        let mut r = prefix.to_owned();
        r.append(detail.as_str());
        r
    }
}

/// `e` evaluates strictly well typed under `env`: every subexpression has a
/// value, each operator accepts the values of both its operands (even where
/// `&&` or `||` would not look at the right one), and `==` and `!=` compare
/// two values of one type.
pub open spec fn strictly_typed(e: Expr, env: Map<Symbol, Value>) -> bool
    decreases e,
{
    match e {
        Expr::Var(s) => env.contains_key(s),
        Expr::Lit(_) => true,
        Expr::Unary(_, a) => strictly_typed(*a, env) && eval_spec(e, env) is Val,
        Expr::Binary(op, a, b) => strictly_typed(*a, env) && strictly_typed(*b, env)
            && match (eval_spec(*a, env), eval_spec(*b, env)) {
                (Outcome::Val(va), Outcome::Val(vb)) => binary_spec(op, va, vb) is Val
                    && ((op is Eq || op is Ne) ==> type_of_spec(va) == type_of_spec(vb)),
                _ => false,
            },
    }
}

/// Type inference is complete for the interpreter: an expression that
/// evaluates strictly well typed under `env` infers, under the types of
/// `env`, the type of the value it evaluates to. So the compiled tier, which
/// infers first, accepts every such expression the interpreter evaluates
/// (`==` on two booleans included).
pub proof fn lemma_infer_complete(e: Expr, env: Map<Symbol, Value>, tenv: Map<Symbol, Type>)
    requires
        strictly_typed(e, env),
        forall|s: Symbol| #[trigger] env.contains_key(s) ==> tenv.contains_key(s) && tenv[s] == type_of_spec(env[s]),
    ensures
        eval_spec(e, env) is Val,
        infer_spec(e, tenv) == TyOutcome::Ty(type_of_spec(eval_spec(e, env)->Val_0)),
    decreases e,
{
    match e {
        Expr::Var(s) => {},
        Expr::Lit(_) => {},
        Expr::Unary(_, a) => {
            lemma_infer_complete(*a, env, tenv);
        },
        Expr::Binary(op, a, b) => {
            lemma_infer_complete(*a, env, tenv);
            lemma_infer_complete(*b, env, tenv);
        },
    }
}

} // verus!
