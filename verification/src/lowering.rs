//! A model of the WebAssembly stack machine for the instructions the
//! expression tier emits, and the proof that the code emitted for an
//! expression computes the value the interpreter gives it.

use vstd::prelude::*;

use crate::expr::{binary_spec, eval_spec, lemma_vars_spec, vars_spec, infer_spec, is_comparison_spec, is_logical_spec, mentions, BinOp, Expr, Outcome, TyOutcome, UnOp};
use crate::value::{bits_decodable, from_bits_spec, lemma_bits_roundtrip, to_bits_spec, type_of_spec, Symbol, Type, Value};
use crate::wasm::{code_bytes, emit_spec, module_bytes, param_types, position, wasm_result, wasm_value, Arith, Compare, Control, Instr, FUEL_PER_CALL};

verus! {

/// The result of an arithmetic instruction on the operands `a` (deeper) and
/// `b` (on top), `None` when it traps: `add`, `sub` and `mul` wrap; `div_s`
/// traps on a zero divisor and on overflow and truncates toward zero;
/// `rem_s` traps on a zero divisor only, and gives 0 for `MIN % -1`.
pub open spec fn arith_result(op: Arith, a: i64, b: i64) -> Option<i64> {
    match op {
        Arith::Add => Some(a.wrapping_add(b)),
        Arith::Sub => Some(a.wrapping_sub(b)),
        Arith::Mul => Some(a.wrapping_mul(b)),
        Arith::DivS => a.checked_div(b),
        Arith::RemS => if b == 0 {
            None
        } else {
            match a.checked_rem(b) {
                Some(r) => Some(r),
                None => Some(0),
            }
        },
    }
}

/// Whether a signed comparison holds of `a` (deeper) and `b` (on top).
pub open spec fn compare_holds(c: Compare, a: i64, b: i64) -> bool {
    match c {
        Compare::Eq => a == b,
        Compare::Ne => a != b,
        Compare::LtS => a < b,
        Compare::LeS => a <= b,
        Compare::GtS => a > b,
        Compare::GeS => a >= b,
    }
}

/// Scanning forward from `k` inside a block nested `depth` deep in the
/// current one: the position of the `end` that closes the current block,
/// or, when `at_else`, of its `else` if that comes first (the code's
/// length when there is neither).
#[verifier::opaque]
pub open spec fn branch_end(code: Seq<Instr>, k: int, depth: nat, at_else: bool) -> int
    decreases code.len() - k,
{
    if k < 0 || k >= code.len() {
        code.len() as int
    } else {
        match code[k] {
            Instr::Control(Control::IfI64) => branch_end(code, k + 1, depth + 1, at_else),
            Instr::Control(Control::Else) => if depth == 0 && at_else {
                k
            } else {
                branch_end(code, k + 1, depth, at_else)
            },
            Instr::Control(Control::End) => if depth == 0 {
                k
            } else {
                branch_end(code, k + 1, (depth - 1) as nat, at_else)
            },
            _ => branch_end(code, k + 1, depth, at_else),
        }
    }
}

/// A scan from `k` ends at or after `k`, within the code.
pub proof fn lemma_branch_end_bounds(code: Seq<Instr>, k: int, depth: nat, at_else: bool)
    requires
        0 <= k <= code.len(),
    ensures
        k <= branch_end(code, k, depth, at_else) <= code.len(),
    decreases code.len() - k,
{
    reveal(branch_end);
    if k < code.len() {
        match code[k] {
            Instr::Control(Control::IfI64) => lemma_branch_end_bounds(code, k + 1, depth + 1, at_else),
            Instr::Control(Control::Else) => lemma_branch_end_bounds(code, k + 1, depth, at_else),
            Instr::Control(Control::End) => if depth > 0 {
                lemma_branch_end_bounds(code, k + 1, (depth - 1) as nat, at_else);
            },
            _ => lemma_branch_end_bounds(code, k + 1, depth, at_else),
        }
    }
}

/// The stack after an instruction that does not branch: `local.get`,
/// `i64.const`, `i64.eqz`, `i64.extend_i32_u`, `end`, arithmetic and
/// comparison; `None` on a trap, an operand missing or a local out of range.
/// An `i32` result (of a comparison or `eqz`) is held as 0 or 1, which
/// `i64.extend_i32_u` keeps.
pub open spec fn plain_step(i: Instr, stack: Seq<i64>, locals: Seq<i64>) -> Option<Seq<i64>> {
    let n = stack.len();
    match i {
        Instr::Control(Control::LocalGet(x)) => if (x as int) < locals.len() {
            Some(stack.push(locals[x as int]))
        } else {
            None
        },
        Instr::Control(Control::I64Const(c)) => Some(stack.push(c)),
        Instr::Control(Control::I64Eqz) => if n >= 1 {
            Some(stack.drop_last().push(if stack.last() == 0 { 1i64 } else { 0i64 }))
        } else {
            None
        },
        Instr::Control(Control::I64ExtendI32U) => if n >= 1 { Some(stack) } else { None },
        Instr::Arith(op) => if n >= 2 {
            match arith_result(op, stack[n - 2], stack[n - 1]) {
                Some(r) => Some(stack.subrange(0, n - 2).push(r)),
                None => None,
            }
        } else {
            None
        },
        Instr::Compare(c) => if n >= 2 {
            Some(stack.subrange(0, n - 2).push(if compare_holds(c, stack[n - 2], stack[n - 1]) { 1i64 } else { 0i64 }))
        } else {
            None
        },
        _ => Some(stack),
    }
}

/// Runs `code` from `pc` on `stack` with `locals` as the WebAssembly machine
/// runs a function body whose `if` branches each leave one value: the final
/// stack, or `None` on a trap or an ill-formed instruction. An `if` pops its
/// condition and runs its first branch when it is non-zero, else continues
/// after its `else`; reaching an `else` ends the first branch.
#[verifier::opaque]
pub open spec fn exec(code: Seq<Instr>, pc: int, stack: Seq<i64>, locals: Seq<i64>) -> Option<Seq<i64>>
    decreases code.len() + 1 - pc,
{
    if pc < 0 || pc >= code.len() {
        Some(stack)
    } else {
        match code[pc] {
            Instr::Control(Control::IfI64) => if stack.len() >= 1 {
                if stack.last() != 0 {
                    exec(code, pc + 1, stack.drop_last(), locals)
                } else {
                    proof {
                        lemma_branch_end_bounds(code, pc + 1, 0, true);
                    }
                    exec(code, branch_end(code, pc + 1, 0, true) + 1, stack.drop_last(), locals)
                }
            } else {
                None
            },
            Instr::Control(Control::Else) => {
                proof {
                    lemma_branch_end_bounds(code, pc + 1, 0, false);
                }
                exec(code, branch_end(code, pc + 1, 0, false) + 1, stack, locals)
            },
            other => match plain_step(other, stack, locals) {
                Some(next) => exec(code, pc + 1, next, locals),
                None => None,
            },
        }
    }
}

/// One step of the machine over an instruction that does not branch.
proof fn lemma_run_plain(code: Seq<Instr>, p: int, stack: Seq<i64>, locals: Seq<i64>)
    requires
        0 <= p < code.len(),
        !(code[p] matches Instr::Control(Control::IfI64)),
        !(code[p] matches Instr::Control(Control::Else)),
        plain_step(code[p], stack, locals) is Some,
    ensures
        exec(code, p, stack, locals) == exec(code, p + 1, plain_step(code[p], stack, locals).unwrap(), locals),
{
    reveal(exec);
}

/// An `if` whose condition is non-zero runs its first branch.
proof fn lemma_run_then(code: Seq<Instr>, p: int, stack: Seq<i64>, locals: Seq<i64>)
    requires
        0 <= p < code.len(),
        code[p] == Instr::Control(Control::IfI64),
        stack.len() >= 1,
        stack.last() != 0,
    ensures
        exec(code, p, stack, locals) == exec(code, p + 1, stack.drop_last(), locals),
{
    reveal(exec);
}

/// An `if` whose condition is zero continues after its `else`.
proof fn lemma_run_skip(code: Seq<Instr>, p: int, stack: Seq<i64>, locals: Seq<i64>)
    requires
        0 <= p < code.len(),
        code[p] == Instr::Control(Control::IfI64),
        stack.len() >= 1,
        stack.last() == 0,
    ensures
        exec(code, p, stack, locals) == exec(code, branch_end(code, p + 1, 0, true) + 1, stack.drop_last(), locals),
{
    reveal(exec);
}

/// Reaching an `else` continues after the block's `end`.
proof fn lemma_run_else(code: Seq<Instr>, p: int, stack: Seq<i64>, locals: Seq<i64>)
    requires
        0 <= p < code.len(),
        code[p] == Instr::Control(Control::Else),
    ensures
        exec(code, p, stack, locals) == exec(code, branch_end(code, p + 1, 0, false) + 1, stack, locals),
{
    reveal(exec);
}

/// The machine stops with its stack at the end of the code.
proof fn lemma_run_done(code: Seq<Instr>, stack: Seq<i64>, locals: Seq<i64>)
    ensures
        exec(code, code.len() as int, stack, locals) == Some(stack),
{
    reveal(exec);
}

/// Whether `code` holds `part` at `k`.
pub open spec fn holds_at(code: Seq<Instr>, k: int, part: Seq<Instr>) -> bool {
    &&& 0 <= k
    &&& k + part.len() <= code.len()
    &&& code.subrange(k, k + part.len()) == part
}

/// The code of a sub-expression, or of a fixed run, held inside that of a
/// larger part.
proof fn lemma_holds_within(code: Seq<Instr>, k: int, part: Seq<Instr>, off: int, sub: Seq<Instr>)
    requires
        holds_at(code, k, part),
        0 <= off,
        off + sub.len() <= part.len(),
        part.subrange(off, off + sub.len()) == sub,
    ensures
        holds_at(code, k + off, sub),
{
    assert(code.subrange(k + off, k + off + sub.len()) =~= sub) by {
        assert forall|j: int| 0 <= j < sub.len() implies code.subrange(k + off, k + off + sub.len())[j] == sub[j] by {
            assert(code.subrange(k, k + part.len())[off + j] == part[off + j]);
            assert(part.subrange(off, off + sub.len())[j] == part[off + j]);
        }
    }
}

/// One step of a scan over an instruction that opens or closes no block.
proof fn lemma_scan_plain(code: Seq<Instr>, p: int, depth: nat, at_else: bool)
    requires
        0 <= p < code.len(),
        !(code[p] matches Instr::Control(Control::IfI64)),
        !(code[p] matches Instr::Control(Control::Else)),
        !(code[p] matches Instr::Control(Control::End)),
    ensures
        branch_end(code, p, depth, at_else) == branch_end(code, p + 1, depth, at_else),
{
    reveal(branch_end);
}

/// One step of a scan over an `if`: one block deeper.
proof fn lemma_scan_if(code: Seq<Instr>, p: int, depth: nat, at_else: bool)
    requires
        0 <= p < code.len(),
        code[p] == Instr::Control(Control::IfI64),
    ensures
        branch_end(code, p, depth, at_else) == branch_end(code, p + 1, depth + 1, at_else),
{
    reveal(branch_end);
}

/// One step of a scan over an `else` or `end` of an inner block.
proof fn lemma_scan_inner(code: Seq<Instr>, p: int, depth: nat, at_else: bool)
    requires
        0 <= p < code.len(),
        code[p] == Instr::Control(Control::Else) || code[p] == Instr::Control(Control::End),
        depth > 0,
    ensures
        code[p] == Instr::Control(Control::Else) ==> branch_end(code, p, depth, at_else) == branch_end(code, p + 1, depth, at_else),
        code[p] == Instr::Control(Control::End) ==> branch_end(code, p, depth, at_else) == branch_end(code, p + 1, (depth - 1) as nat, at_else),
{
    reveal(branch_end);
}

/// Where a scan stops: at the `else` of the current block (when looking
/// for one), or at its `end`.
proof fn lemma_scan_stop(code: Seq<Instr>, p: int, at_else: bool)
    requires
        0 <= p < code.len(),
        code[p] == Instr::Control(Control::End) || (at_else && code[p] == Instr::Control(Control::Else)),
    ensures
        branch_end(code, p, 0, at_else) == p,
{
    reveal(branch_end);
}

/// The instruction `code` holds at `k + j` when it holds `part` at `k`.
proof fn lemma_at(code: Seq<Instr>, k: int, part: Seq<Instr>, j: int)
    requires
        holds_at(code, k, part),
        0 <= j < part.len(),
    ensures
        code[k + j] == part[j],
{
    assert(code.subrange(k, k + part.len())[j] == code[k + j]);
}

/// The scan across a negation.
proof fn lemma_scan_neg(e: Expr, params: Seq<Symbol>, code: Seq<Instr>, k: int, depth: nat, at_else: bool)
    requires
        e matches Expr::Unary(UnOp::Neg, _),
        holds_at(code, k, emit_spec(e, params)),
    ensures
        branch_end(code, k, depth, at_else) == branch_end(code, k + emit_spec(e, params).len(), depth, at_else),
    decreases e, 0int,
{
    let em = emit_spec(e, params);
    if let Expr::Unary(UnOp::Neg, a) = e {
            let ea = emit_spec(*a, params);
            let la = ea.len() as int;
            lemma_at(code, k, em, 0);
            lemma_scan_plain(code, k, depth, at_else);
            assert(em.subrange(1, 1 + la) =~= ea);
            lemma_holds_within(code, k, em, 1, ea);
            lemma_scan(*a, params, code, k + 1, depth, at_else);
            lemma_at(code, k, em, 1 + la);
            lemma_scan_plain(code, k + 1 + la, depth, at_else);
    }
}

/// The scan across a logical not.
proof fn lemma_scan_not(e: Expr, params: Seq<Symbol>, code: Seq<Instr>, k: int, depth: nat, at_else: bool)
    requires
        e matches Expr::Unary(UnOp::Not, _),
        holds_at(code, k, emit_spec(e, params)),
    ensures
        branch_end(code, k, depth, at_else) == branch_end(code, k + emit_spec(e, params).len(), depth, at_else),
    decreases e, 0int,
{
    let em = emit_spec(e, params);
    if let Expr::Unary(UnOp::Not, a) = e {
            let ea = emit_spec(*a, params);
            let la = ea.len() as int;
            assert(em.subrange(0, la) =~= ea);
            lemma_holds_within(code, k, em, 0, ea);
            lemma_scan(*a, params, code, k, depth, at_else);
            lemma_at(code, k, em, la);
            lemma_at(code, k, em, la + 1);
            lemma_scan_plain(code, k + la, depth, at_else);
            lemma_scan_plain(code, k + la + 1, depth, at_else);
    }
}

/// The scan across a conjunction.
proof fn lemma_scan_and(e: Expr, params: Seq<Symbol>, code: Seq<Instr>, k: int, depth: nat, at_else: bool)
    requires
        e matches Expr::Binary(BinOp::And, _, _),
        holds_at(code, k, emit_spec(e, params)),
    ensures
        branch_end(code, k, depth, at_else) == branch_end(code, k + emit_spec(e, params).len(), depth, at_else),
    decreases e, 0int,
{
    let em = emit_spec(e, params);
    if let Expr::Binary(BinOp::And, a, b) = e {
            let ea = emit_spec(*a, params);
            let la = ea.len() as int;
            let eb = emit_spec(*b, params);
            let lb = eb.len() as int;
            let p = k + la;
            assert(em.subrange(0, la) =~= ea);
            lemma_holds_within(code, k, em, 0, ea);
            lemma_scan(*a, params, code, k, depth, at_else);
            lemma_at(code, k, em, la);
            lemma_at(code, k, em, la + 1);
            lemma_at(code, k, em, la + 2);
            lemma_scan_plain(code, p, depth, at_else);
            lemma_scan_plain(code, p + 1, depth, at_else);
            lemma_scan_if(code, p + 2, depth, at_else);
            assert(em.subrange(la + 3, la + 3 + lb) =~= eb);
            lemma_holds_within(code, k, em, la + 3, eb);
            lemma_scan(*b, params, code, p + 3, depth + 1, at_else);
            let q = p + 3 + lb;
            lemma_at(code, k, em, la + 3 + lb);
            lemma_at(code, k, em, la + 4 + lb);
            lemma_at(code, k, em, la + 5 + lb);
            lemma_scan_inner(code, q, depth + 1, at_else);
            lemma_scan_plain(code, q + 1, depth + 1, at_else);
            lemma_scan_inner(code, q + 2, depth + 1, at_else);
    }
}

/// The scan across a disjunction.
proof fn lemma_scan_or(e: Expr, params: Seq<Symbol>, code: Seq<Instr>, k: int, depth: nat, at_else: bool)
    requires
        e matches Expr::Binary(BinOp::Or, _, _),
        holds_at(code, k, emit_spec(e, params)),
    ensures
        branch_end(code, k, depth, at_else) == branch_end(code, k + emit_spec(e, params).len(), depth, at_else),
    decreases e, 0int,
{
    let em = emit_spec(e, params);
    if let Expr::Binary(BinOp::Or, a, b) = e {
            let ea = emit_spec(*a, params);
            let la = ea.len() as int;
            let eb = emit_spec(*b, params);
            let lb = eb.len() as int;
            let p = k + la;
            assert(em.subrange(0, la) =~= ea);
            lemma_holds_within(code, k, em, 0, ea);
            lemma_scan(*a, params, code, k, depth, at_else);
            lemma_at(code, k, em, la);
            lemma_at(code, k, em, la + 1);
            lemma_at(code, k, em, la + 2);
            lemma_at(code, k, em, la + 3);
            lemma_at(code, k, em, la + 4);
            lemma_scan_plain(code, p, depth, at_else);
            lemma_scan_plain(code, p + 1, depth, at_else);
            lemma_scan_if(code, p + 2, depth, at_else);
            lemma_scan_plain(code, p + 3, depth + 1, at_else);
            lemma_scan_inner(code, p + 4, depth + 1, at_else);
            assert(em.subrange(la + 5, la + 5 + lb) =~= eb);
            lemma_holds_within(code, k, em, la + 5, eb);
            lemma_scan(*b, params, code, p + 5, depth + 1, at_else);
            let q = p + 5 + lb;
            lemma_at(code, k, em, la + 5 + lb);
            lemma_scan_inner(code, q, depth + 1, at_else);
    }
}

/// The scan across an arithmetic or comparison operator.
proof fn lemma_scan_binary(e: Expr, params: Seq<Symbol>, code: Seq<Instr>, k: int, depth: nat, at_else: bool)
    requires
        e matches Expr::Binary(op, _, _) && !(op is And) && !(op is Or),
        holds_at(code, k, emit_spec(e, params)),
    ensures
        branch_end(code, k, depth, at_else) == branch_end(code, k + emit_spec(e, params).len(), depth, at_else),
    decreases e, 0int,
{
    let em = emit_spec(e, params);
    if let Expr::Binary(op, a, b) = e {
        if !(op is And) && !(op is Or) {
                let ea = emit_spec(*a, params);
                let la = ea.len() as int;
                let eb = emit_spec(*b, params);
                let lb = eb.len() as int;
                assert(em.subrange(0, la) =~= ea);
                lemma_holds_within(code, k, em, 0, ea);
                lemma_scan(*a, params, code, k, depth, at_else);
                assert(em.subrange(la, la + lb) =~= eb);
                lemma_holds_within(code, k, em, la, eb);
                lemma_scan(*b, params, code, k + la, depth, at_else);
                let q = k + la + lb;
                if em.len() > la + lb {
                    lemma_at(code, k, em, la + lb);
                    lemma_scan_plain(code, q, depth, at_else);
                }
                if em.len() > la + lb + 1 {
                    lemma_at(code, k, em, la + lb + 1);
                    lemma_scan_plain(code, q + 1, depth, at_else);
                }
        }
    }
}

/// Scanning across the code of an expression changes neither the nesting
/// nor where the scan ends: the code is a balanced run of blocks.
pub proof fn lemma_scan(e: Expr, params: Seq<Symbol>, code: Seq<Instr>, k: int, depth: nat, at_else: bool)
    requires
        holds_at(code, k, emit_spec(e, params)),
    ensures
        branch_end(code, k, depth, at_else) == branch_end(code, k + emit_spec(e, params).len(), depth, at_else),
    decreases e, 1int,
{
    let em = emit_spec(e, params);
    match e {
        Expr::Var(_) => {
            lemma_at(code, k, em, 0);
            lemma_scan_plain(code, k, depth, at_else);
        },
        Expr::Lit(_) => {
            lemma_at(code, k, em, 0);
            lemma_scan_plain(code, k, depth, at_else);
        },
        Expr::Unary(UnOp::Neg, _) => lemma_scan_neg(e, params, code, k, depth, at_else),
        Expr::Unary(UnOp::Not, _) => lemma_scan_not(e, params, code, k, depth, at_else),
        Expr::Binary(BinOp::And, _, _) => lemma_scan_and(e, params, code, k, depth, at_else),
        Expr::Binary(BinOp::Or, _, _) => lemma_scan_or(e, params, code, k, depth, at_else),
        Expr::Binary(_, _, _) => lemma_scan_binary(e, params, code, k, depth, at_else),
    }
}

/// What the code of `e` needs of its variables: each variable `e` mentions
/// is bound in `env`, typed in `tenv` as its value is, a parameter, and held
/// in its parameter's local as its bit encoding.
pub open spec fn frame_ok(e: Expr, env: Map<Symbol, Value>, tenv: Map<Symbol, Type>, params: Seq<Symbol>, locals: Seq<i64>) -> bool {
    &&& params.len() <= u32::MAX
    &&& forall|s: Symbol| #[trigger] mentions(e, s) ==> {
        &&& env.contains_key(s)
        &&& tenv.contains_key(s)
        &&& tenv[s] == type_of_spec(env[s])
        &&& 0 <= position(params, s) < params.len()
        &&& position(params, s) < locals.len()
        &&& locals[position(params, s)] == to_bits_spec(env[s])
    }
}

/// The frame of an expression serves each operand.
proof fn lemma_frame_operands(e: Expr, env: Map<Symbol, Value>, tenv: Map<Symbol, Type>, params: Seq<Symbol>, locals: Seq<i64>)
    requires
        frame_ok(e, env, tenv, params, locals),
    ensures
        e matches Expr::Unary(_, a) ==> frame_ok(*a, env, tenv, params, locals),
        e matches Expr::Binary(_, a, b) ==> frame_ok(*a, env, tenv, params, locals) && frame_ok(*b, env, tenv, params, locals),
{
    match e {
        Expr::Unary(_, a) => {
            assert forall|s: Symbol| #[trigger] mentions(*a, s) implies mentions(e, s) by {}
        },
        Expr::Binary(_, a, b) => {
            assert forall|s: Symbol| #[trigger] mentions(*a, s) implies mentions(e, s) by {}
            assert forall|s: Symbol| #[trigger] mentions(*b, s) implies mentions(e, s) by {}
        },
        _ => {},
    }
}

/// Type soundness: a value the interpreter gives a well-typed expression has
/// the inferred type.
pub proof fn lemma_infer_sound(e: Expr, env: Map<Symbol, Value>, tenv: Map<Symbol, Type>, params: Seq<Symbol>, locals: Seq<i64>)
    requires
        frame_ok(e, env, tenv, params, locals),
    ensures
        eval_spec(e, env) is Val && infer_spec(e, tenv) is Ty ==> type_of_spec(eval_spec(e, env)->Val_0) == infer_spec(e, tenv)->Ty_0,
    decreases e,
{
    lemma_frame_operands(e, env, tenv, params, locals);
    match e {
        Expr::Var(s) => {
            assert(mentions(e, s));
        },
        Expr::Lit(_) => {},
        Expr::Unary(_, a) => {
            lemma_infer_sound(*a, env, tenv, params, locals);
        },
        Expr::Binary(op, a, b) => {
            lemma_infer_sound(*a, env, tenv, params, locals);
            lemma_infer_sound(*b, env, tenv, params, locals);
            if eval_spec(e, env) is Val && infer_spec(e, tenv) is Ty {
                let v = eval_spec(e, env)->Val_0;
                let t = infer_spec(e, tenv)->Ty_0;
                if is_logical_spec(op) || is_comparison_spec(op) {
                    assert(t == Type::Bool);
                    assert(v is Bool);
                } else {
                    assert(t == Type::Int);
                    assert(v is Int);
                }
            }
        },
    }
}

/// Two values of one type are equal exactly when their bit encodings are.
proof fn lemma_bits_injective(x: Value, y: Value)
    requires
        type_of_spec(x) == type_of_spec(y),
    ensures
        (to_bits_spec(x) == to_bits_spec(y)) == (x == y),
{
    match (x, y) {
        (Value::Sym(a), Value::Sym(b)) => {
            if a.0 != b.0 {
                assert(a != b);
            }
        },
        _ => {},
    }
}

/// Running the code of a variable.
proof fn lemma_exec_var(e: Expr, env: Map<Symbol, Value>, tenv: Map<Symbol, Type>, params: Seq<Symbol>, locals: Seq<i64>, code: Seq<Instr>, k: int, stack: Seq<i64>, v: Value)
    requires
        e is Var,
        holds_at(code, k, emit_spec(e, params)),
        frame_ok(e, env, tenv, params, locals),
        eval_spec(e, env) == Outcome::Val(v),
        infer_spec(e, tenv) is Ty,
    ensures
        exec(code, k, stack, locals) == exec(code, k + emit_spec(e, params).len(), stack.push(to_bits_spec(v)), locals),
    decreases e, 0int,
{
    lemma_at(code, k, emit_spec(e, params), 0);
    if let Expr::Var(x) = e {
        assert(mentions(e, x));
        let i = position(params, x);
        assert((i as u32) as int == i);
        lemma_run_plain(code, k, stack, locals);
    }
}

/// Running the code of a literal.
proof fn lemma_exec_lit(e: Expr, env: Map<Symbol, Value>, tenv: Map<Symbol, Type>, params: Seq<Symbol>, locals: Seq<i64>, code: Seq<Instr>, k: int, stack: Seq<i64>, v: Value)
    requires
        e is Lit,
        holds_at(code, k, emit_spec(e, params)),
        frame_ok(e, env, tenv, params, locals),
        eval_spec(e, env) == Outcome::Val(v),
        infer_spec(e, tenv) is Ty,
    ensures
        exec(code, k, stack, locals) == exec(code, k + emit_spec(e, params).len(), stack.push(to_bits_spec(v)), locals),
    decreases e, 0int,
{
    lemma_at(code, k, emit_spec(e, params), 0);
    lemma_run_plain(code, k, stack, locals);
}

/// Running the code of a negation.
proof fn lemma_exec_neg(e: Expr, env: Map<Symbol, Value>, tenv: Map<Symbol, Type>, params: Seq<Symbol>, locals: Seq<i64>, code: Seq<Instr>, k: int, stack: Seq<i64>, v: Value)
    requires
        e matches Expr::Unary(UnOp::Neg, _),
        holds_at(code, k, emit_spec(e, params)),
        frame_ok(e, env, tenv, params, locals),
        eval_spec(e, env) == Outcome::Val(v),
        infer_spec(e, tenv) is Ty,
    ensures
        exec(code, k, stack, locals) == exec(code, k + emit_spec(e, params).len(), stack.push(to_bits_spec(v)), locals),
    decreases e, 0int,
{
    let em = emit_spec(e, params);
    lemma_frame_operands(e, env, tenv, params, locals);
    if let Expr::Unary(UnOp::Neg, a) = e {
        let ea = emit_spec(*a, params);
        let la = ea.len() as int;
        if let Outcome::Val(Value::Int(i)) = eval_spec(*a, env) {
            lemma_at(code, k, em, 0);
            lemma_run_plain(code, k, stack, locals);
            assert(em.subrange(1, 1 + la) =~= ea);
            lemma_holds_within(code, k, em, 1, ea);
            lemma_exec(*a, env, tenv, params, locals, code, k + 1, stack.push(0), Value::Int(i));
            lemma_at(code, k, em, 1 + la);
            let st = stack.push(0).push(i);
            assert(st.subrange(0, st.len() - 2) =~= stack);
            lemma_run_plain(code, k + 1 + la, st, locals);
        }
    }
}

/// Running the code of a logical not.
proof fn lemma_exec_not(e: Expr, env: Map<Symbol, Value>, tenv: Map<Symbol, Type>, params: Seq<Symbol>, locals: Seq<i64>, code: Seq<Instr>, k: int, stack: Seq<i64>, v: Value)
    requires
        e matches Expr::Unary(UnOp::Not, _),
        holds_at(code, k, emit_spec(e, params)),
        frame_ok(e, env, tenv, params, locals),
        eval_spec(e, env) == Outcome::Val(v),
        infer_spec(e, tenv) is Ty,
    ensures
        exec(code, k, stack, locals) == exec(code, k + emit_spec(e, params).len(), stack.push(to_bits_spec(v)), locals),
    decreases e, 0int,
{
    let em = emit_spec(e, params);
    lemma_frame_operands(e, env, tenv, params, locals);
    if let Expr::Unary(UnOp::Not, a) = e {
        let ea = emit_spec(*a, params);
        let la = ea.len() as int;
        if let Outcome::Val(Value::Bool(x)) = eval_spec(*a, env) {
            assert(em.subrange(0, la) =~= ea);
            lemma_holds_within(code, k, em, 0, ea);
            lemma_exec(*a, env, tenv, params, locals, code, k, stack, Value::Bool(x));
            lemma_at(code, k, em, la);
            lemma_at(code, k, em, la + 1);
            let st = stack.push(to_bits_spec(Value::Bool(x)));
            assert(st.drop_last() =~= stack);
            lemma_run_plain(code, k + la, st, locals);
            lemma_run_plain(code, k + la + 1, stack.push(to_bits_spec(v)), locals);
        }
    }
}

/// Running the code of a conjunction.
proof fn lemma_exec_and(e: Expr, env: Map<Symbol, Value>, tenv: Map<Symbol, Type>, params: Seq<Symbol>, locals: Seq<i64>, code: Seq<Instr>, k: int, stack: Seq<i64>, v: Value)
    requires
        e matches Expr::Binary(BinOp::And, _, _),
        holds_at(code, k, emit_spec(e, params)),
        frame_ok(e, env, tenv, params, locals),
        eval_spec(e, env) == Outcome::Val(v),
        infer_spec(e, tenv) is Ty,
    ensures
        exec(code, k, stack, locals) == exec(code, k + emit_spec(e, params).len(), stack.push(to_bits_spec(v)), locals),
    decreases e, 0int,
{
    let em = emit_spec(e, params);
    lemma_frame_operands(e, env, tenv, params, locals);
    if let Expr::Binary(BinOp::And, a, b) = e {
        let ea = emit_spec(*a, params);
        let la = ea.len() as int;
        let eb = emit_spec(*b, params);
        let lb = eb.len() as int;
        let p = k + la;
        let q = p + 3 + lb;
        if let Outcome::Val(Value::Bool(x)) = eval_spec(*a, env) {
            assert(em.subrange(0, la) =~= ea);
            lemma_holds_within(code, k, em, 0, ea);
            lemma_exec(*a, env, tenv, params, locals, code, k, stack, Value::Bool(x));
            lemma_at(code, k, em, la);
            lemma_at(code, k, em, la + 1);
            lemma_at(code, k, em, la + 2);
            let c = if x { 1i64 } else { 0i64 };
            lemma_run_plain(code, p, stack.push(c), locals);
            let st = stack.push(c).push(0);
            assert(st.subrange(0, st.len() - 2) =~= stack);
            lemma_run_plain(code, p + 1, st, locals);
            assert(stack.push(c).drop_last() =~= stack);
            lemma_at(code, k, em, la + 3 + lb);
            lemma_at(code, k, em, la + 4 + lb);
            lemma_at(code, k, em, la + 5 + lb);
            assert(em.subrange(la + 3, la + 3 + lb) =~= eb);
            lemma_holds_within(code, k, em, la + 3, eb);
            if x {
                lemma_run_then(code, p + 2, stack.push(c), locals);
                if let Outcome::Val(Value::Bool(y)) = eval_spec(*b, env) {
                    lemma_exec(*b, env, tenv, params, locals, code, p + 3, stack, Value::Bool(y));
                    lemma_run_else(code, q, stack.push(to_bits_spec(v)), locals);
                    lemma_scan_plain(code, q + 1, 0, false);
                    lemma_scan_stop(code, q + 2, false);
                }
            } else {
                lemma_run_skip(code, p + 2, stack.push(c), locals);
                lemma_scan(*b, params, code, p + 3, 0, true);
                lemma_scan_stop(code, q, true);
                lemma_run_plain(code, q + 1, stack, locals);
                lemma_run_plain(code, q + 2, stack.push(0), locals);
            }
        }
    }
}

/// Running the code of a disjunction.
proof fn lemma_exec_or(e: Expr, env: Map<Symbol, Value>, tenv: Map<Symbol, Type>, params: Seq<Symbol>, locals: Seq<i64>, code: Seq<Instr>, k: int, stack: Seq<i64>, v: Value)
    requires
        e matches Expr::Binary(BinOp::Or, _, _),
        holds_at(code, k, emit_spec(e, params)),
        frame_ok(e, env, tenv, params, locals),
        eval_spec(e, env) == Outcome::Val(v),
        infer_spec(e, tenv) is Ty,
    ensures
        exec(code, k, stack, locals) == exec(code, k + emit_spec(e, params).len(), stack.push(to_bits_spec(v)), locals),
    decreases e, 0int,
{
    let em = emit_spec(e, params);
    lemma_frame_operands(e, env, tenv, params, locals);
    if let Expr::Binary(BinOp::Or, a, b) = e {
        let ea = emit_spec(*a, params);
        let la = ea.len() as int;
        let eb = emit_spec(*b, params);
        let lb = eb.len() as int;
        let p = k + la;
        let q = p + 5 + lb;
        if let Outcome::Val(Value::Bool(x)) = eval_spec(*a, env) {
            assert(em.subrange(0, la) =~= ea);
            lemma_holds_within(code, k, em, 0, ea);
            lemma_exec(*a, env, tenv, params, locals, code, k, stack, Value::Bool(x));
            lemma_at(code, k, em, la);
            lemma_at(code, k, em, la + 1);
            lemma_at(code, k, em, la + 2);
            lemma_at(code, k, em, la + 3);
            lemma_at(code, k, em, la + 4);
            let c = if x { 1i64 } else { 0i64 };
            lemma_run_plain(code, p, stack.push(c), locals);
            let st = stack.push(c).push(0);
            assert(st.subrange(0, st.len() - 2) =~= stack);
            lemma_run_plain(code, p + 1, st, locals);
            assert(stack.push(c).drop_last() =~= stack);
            lemma_at(code, k, em, la + 5 + lb);
            assert(em.subrange(la + 5, la + 5 + lb) =~= eb);
            lemma_holds_within(code, k, em, la + 5, eb);
            if x {
                lemma_run_then(code, p + 2, stack.push(c), locals);
                lemma_run_plain(code, p + 3, stack, locals);
                lemma_run_else(code, p + 4, stack.push(1), locals);
                lemma_scan(*b, params, code, p + 5, 0, false);
                lemma_scan_stop(code, q, false);
            } else {
                lemma_run_skip(code, p + 2, stack.push(c), locals);
                lemma_scan_plain(code, p + 3, 0, true);
                lemma_scan_stop(code, p + 4, true);
                if let Outcome::Val(Value::Bool(y)) = eval_spec(*b, env) {
                    lemma_exec(*b, env, tenv, params, locals, code, p + 5, stack, Value::Bool(y));
                    lemma_run_plain(code, q, stack.push(to_bits_spec(v)), locals);
                }
            }
        }
    }
}

/// Running the code of an arithmetic or comparison operator.
proof fn lemma_exec_binary(e: Expr, env: Map<Symbol, Value>, tenv: Map<Symbol, Type>, params: Seq<Symbol>, locals: Seq<i64>, code: Seq<Instr>, k: int, stack: Seq<i64>, v: Value)
    requires
        e matches Expr::Binary(op, _, _) && !(op is And) && !(op is Or),
        holds_at(code, k, emit_spec(e, params)),
        frame_ok(e, env, tenv, params, locals),
        eval_spec(e, env) == Outcome::Val(v),
        infer_spec(e, tenv) is Ty,
    ensures
        exec(code, k, stack, locals) == exec(code, k + emit_spec(e, params).len(), stack.push(to_bits_spec(v)), locals),
    decreases e, 0int,
{
    let em = emit_spec(e, params);
    lemma_frame_operands(e, env, tenv, params, locals);
    if let Expr::Binary(op, a, b) = e {
        let ea = emit_spec(*a, params);
        let la = ea.len() as int;
        let eb = emit_spec(*b, params);
        let lb = eb.len() as int;
        let q = k + la + lb;
        if let (Outcome::Val(va), Outcome::Val(vb)) = (eval_spec(*a, env), eval_spec(*b, env)) {
            assert(em.subrange(0, la) =~= ea);
            lemma_holds_within(code, k, em, 0, ea);
            lemma_exec(*a, env, tenv, params, locals, code, k, stack, va);
            assert(em.subrange(la, la + lb) =~= eb);
            lemma_holds_within(code, k, em, la, eb);
            lemma_exec(*b, env, tenv, params, locals, code, k + la, stack.push(to_bits_spec(va)), vb);
            let st = stack.push(to_bits_spec(va)).push(to_bits_spec(vb));
            assert(st.subrange(0, st.len() - 2) =~= stack);
            lemma_at(code, k, em, la + lb);
            lemma_infer_sound(*a, env, tenv, params, locals);
            lemma_infer_sound(*b, env, tenv, params, locals);
            if op is Eq || op is Ne {
                lemma_bits_injective(va, vb);
            }
            lemma_run_plain(code, q, st, locals);
            if is_comparison_spec(op) {
                lemma_at(code, k, em, la + lb + 1);
                lemma_run_plain(code, q + 1, stack.push(to_bits_spec(v)), locals);
            }
        }
    }
}

/// Running the code of an expression pushes the bit encoding of the value
/// the interpreter gives it, and goes on after that code.
pub proof fn lemma_exec(e: Expr, env: Map<Symbol, Value>, tenv: Map<Symbol, Type>, params: Seq<Symbol>, locals: Seq<i64>, code: Seq<Instr>, k: int, stack: Seq<i64>, v: Value)
    requires
        holds_at(code, k, emit_spec(e, params)),
        frame_ok(e, env, tenv, params, locals),
        eval_spec(e, env) == Outcome::Val(v),
        infer_spec(e, tenv) is Ty,
    ensures
        exec(code, k, stack, locals) == exec(code, k + emit_spec(e, params).len(), stack.push(to_bits_spec(v)), locals),
    decreases e, 1int,
{
    match e {
        Expr::Var(_) => lemma_exec_var(e, env, tenv, params, locals, code, k, stack, v),
        Expr::Lit(_) => lemma_exec_lit(e, env, tenv, params, locals, code, k, stack, v),
        Expr::Unary(UnOp::Neg, _) => lemma_exec_neg(e, env, tenv, params, locals, code, k, stack, v),
        Expr::Unary(UnOp::Not, _) => lemma_exec_not(e, env, tenv, params, locals, code, k, stack, v),
        Expr::Binary(BinOp::And, _, _) => lemma_exec_and(e, env, tenv, params, locals, code, k, stack, v),
        Expr::Binary(BinOp::Or, _, _) => lemma_exec_or(e, env, tenv, params, locals, code, k, stack, v),
        Expr::Binary(_, _, _) => lemma_exec_binary(e, env, tenv, params, locals, code, k, stack, v),
    }
}

/// The first occurrence of a listed symbol is where it stands.
proof fn lemma_position(ps: Seq<Symbol>, s: Symbol)
    requires
        ps.contains(s),
    ensures
        0 <= position(ps, s) < ps.len(),
        ps[position(ps, s)] == s,
    decreases ps.len(),
{
    if ps[0] != s {
        let i = choose|i: int| 0 <= i < ps.len() && ps[i] == s;
        assert(ps.drop_first()[i - 1] == s);
        lemma_position(ps.drop_first(), s);
    }
}

/// The parameter types map each listed parameter to the type of its value.
proof fn lemma_param_types(params: Seq<Symbol>, env: Map<Symbol, Value>, s: Symbol)
    requires
        params.contains(s),
    ensures
        param_types(params, env).contains_key(s),
        param_types(params, env)[s] == type_of_spec(env[s]),
    decreases params.len(),
{
    let init = params.drop_last();
    assert(params.map_values(|p: Symbol| (p, type_of_spec(env[p]))).drop_last()
        =~= init.map_values(|p: Symbol| (p, type_of_spec(env[p]))));
    if params.last() != s {
        let i = choose|i: int| 0 <= i < params.len() && params[i] == s;
        assert(init[i] == s);
        lemma_param_types(init, env, s);
    }
}

/// The lowering of the WASM tier agrees with the interpreter: when every
/// variable of a well-typed expression is bound and the interpreter gives it
/// a value, the function body emitted for it, run on the bit encodings of
/// its variables as parameters, returns exactly that value's encoding, and
/// decoding that at the inferred type gives the value back. So the tier
/// gives the interpreter's value whenever the runtime returns, for the
/// encoded module, what the machine returns for its code.
pub proof fn lemma_lowering_agrees(e: Expr, env: Map<Symbol, Value>, v: Value, t: Type)
    requires
        forall|s: Symbol| mentions(e, s) ==> env.contains_key(s),
        vars_spec(e, Seq::empty()).len() <= u32::MAX,
        infer_spec(e, param_types(vars_spec(e, Seq::empty()), env)) == TyOutcome::Ty(t),
        eval_spec(e, env) == Outcome::Val(v),
    ensures
        ({
            let params = vars_spec(e, Seq::empty());
            let code = emit_spec(e, params).push(Instr::Control(Control::End));
            let args = params.map_values(|p: Symbol| to_bits_spec(env[p]));
            &&& exec(code, 0, Seq::empty(), args) == Some(seq![to_bits_spec(v)])
            &&& bits_decodable(to_bits_spec(v), t)
            &&& from_bits_spec(to_bits_spec(v), t) == v
            &&& wasm_result(module_bytes(params.len() as u32, code_bytes(code)), args, FUEL_PER_CALL) == Some(to_bits_spec(v))
                ==> wasm_value(e, env) == Some(v)
        }),
{
    let params = vars_spec(e, Seq::empty());
    let tenv = param_types(params, env);
    let em = emit_spec(e, params);
    let code = em.push(Instr::Control(Control::End));
    let args = params.map_values(|p: Symbol| to_bits_spec(env[p]));
    lemma_vars_spec(e, Seq::empty());
    assert forall|s: Symbol| #[trigger] mentions(e, s) implies {
        &&& env.contains_key(s)
        &&& tenv.contains_key(s)
        &&& tenv[s] == type_of_spec(env[s])
        &&& 0 <= position(params, s) < params.len()
        &&& position(params, s) < args.len()
        &&& args[position(params, s)] == to_bits_spec(env[s])
    } by {
        assert(params.contains(s));
        lemma_position(params, s);
        lemma_param_types(params, env, s);
    }
    assert(frame_ok(e, env, tenv, params, args));
    assert(code.subrange(0, em.len() as int) =~= em);
    lemma_exec(e, env, tenv, params, args, code, 0, Seq::empty(), v);
    lemma_run_plain(code, em.len() as int, seq![to_bits_spec(v)], args);
    lemma_run_done(code, seq![to_bits_spec(v)], args);
    assert(Seq::<i64>::empty().push(to_bits_spec(v)) =~= seq![to_bits_spec(v)]);
    lemma_infer_sound(e, env, tenv, params, args);
    lemma_bits_roundtrip(v);
    assert forall|i: int| 0 <= i < params.len() implies env.contains_key(#[trigger] params[i]) by {
        assert(params.contains(params[i]));
        assert(!Seq::<Symbol>::empty().contains(params[i]));
        assert(mentions(e, params[i]));
    }
}

} // verus!
