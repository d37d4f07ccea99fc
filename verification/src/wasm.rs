//! The WebAssembly expression tier. Each expression is lowered to the body of
//! a single-function module `f(i64..) -> i64` whose parameters are the
//! expression's variables (in first-occurrence order); the bytes are produced
//! by `wasm-encoder` and run, fuel-metered and importing nothing, by
//! `wasmtime`. Values travel as `i64`: integers directly, booleans as `0`/`1`,
//! symbols as their interned id; the result is re-tagged with the
//! expression's inferred type.

use vstd::prelude::*;

use wasmtime::{Engine as WasmtimeEngine, Error as WasmtimeError};
use wasm_encoder::{CodeSection, ExportKind, ExportSection, Function, FunctionSection, InstructionSink, Module, TypeSection, ValType};

use crate::env::{bindings_map, Env, TypeEnv};
use crate::eval::ExprEval;
use crate::expr::{infer_spec, vars_spec, BinOp, Expr, ExprError, TyOutcome, UnOp};
use crate::value::{bits_decodable, from_bits_spec, to_bits_spec, type_of_spec, Symbol, Type, Value};

verus! {

/// Integer arithmetic instructions.
#[derive(Clone, Copy)]
pub enum Arith {
    Add,
    Sub,
    Mul,
    DivS,
    RemS,
}

/// Integer comparison instructions (each yields an `i32`).
#[derive(Clone, Copy)]
pub enum Compare {
    Eq,
    Ne,
    LtS,
    LeS,
    GtS,
    GeS,
}

/// Locals, constants and control instructions.
#[derive(Clone, Copy)]
pub enum Control {
    LocalGet(u32),
    I64Const(i64),
    I64Eqz,
    I64ExtendI32U,
    IfI64,
    Else,
    End,
}

/// An instruction of the expression tier.
#[derive(Clone, Copy)]
pub enum Instr {
    Arith(Arith),
    Compare(Compare),
    Control(Control),
}

/// The unsigned LEB128 encoding of `v`: seven bits a byte, low bits first,
/// the high bit set on every byte but the last.
pub open spec fn uleb128(v: nat) -> Seq<u8>
    decreases v,
{
    if v < 128 {
        seq![v as u8]
    } else {
        seq![((v % 128) + 128) as u8] + uleb128(v / 128)
    }
}

/// The signed LEB128 encoding of `v`: seven bits a byte, low bits first, the
/// high bit set on every byte but the last, which ends once the rest of the
/// value is all sign (0 with bit 6 clear, or -1 with bit 6 set).
pub open spec fn sleb128(v: int) -> Seq<u8>
    decreases (if v < 0 { -v } else { v }),
{
    let byte = v % 128;
    let rest = v / 128;
    if (rest == 0 && byte < 64) || (rest == -1 && byte >= 64) {
        seq![byte as u8]
    } else {
        seq![(byte + 128) as u8] + sleb128(rest)
    }
}

/// The module `wasm-encoder` assembles: one function type with `n` `i64`
/// parameters and an `i64` result, one function of that type exported as
/// `f`, with the given body (no locals).
pub uninterp spec fn module_bytes(n: u32, body: Seq<u8>) -> Seq<u8>;

/// The result of running `f` of module `bytes` on `args` under `fuel`, when
/// it returns (`None` when it traps or does not validate), on a runtime built
/// as [`new_runtime`] builds it: with relaxed SIMD made deterministic
/// (`Config::relaxed_simd_deterministic`) and NaNs canonicalised
/// (`Config::cranelift_nan_canonicalization`), the settings under which
/// `wasmtime` documents a module to run alike on every host.
pub uninterp spec fn wasm_result(bytes: Seq<u8>, args: Seq<i64>, fuel: u64) -> Option<i64>;

/// The bytes of an arithmetic instruction.
pub open spec fn arith_bytes(a: Arith) -> Seq<u8> {
    match a {
        Arith::Add => seq![0x7Cu8],
        Arith::Sub => seq![0x7Du8],
        Arith::Mul => seq![0x7Eu8],
        Arith::DivS => seq![0x7Fu8],
        Arith::RemS => seq![0x81u8],
    }
}

/// The bytes of a comparison instruction.
pub open spec fn compare_bytes(c: Compare) -> Seq<u8> {
    match c {
        Compare::Eq => seq![0x51u8],
        Compare::Ne => seq![0x52u8],
        Compare::LtS => seq![0x53u8],
        Compare::LeS => seq![0x57u8],
        Compare::GtS => seq![0x55u8],
        Compare::GeS => seq![0x59u8],
    }
}

/// The bytes of a control instruction (`if` with an `i64` result).
pub open spec fn control_bytes(c: Control) -> Seq<u8> {
    match c {
        Control::LocalGet(i) => seq![0x20u8] + uleb128(i as nat),
        Control::I64Const(v) => seq![0x42u8] + sleb128(v as int),
        Control::I64Eqz => seq![0x50u8],
        Control::I64ExtendI32U => seq![0xADu8],
        Control::IfI64 => seq![0x04u8, 0x7Eu8],
        Control::Else => seq![0x05u8],
        Control::End => seq![0x0Bu8],
    }
}

/// The bytes of an instruction.
pub open spec fn instr_bytes(i: Instr) -> Seq<u8> {
    match i {
        Instr::Arith(a) => arith_bytes(a),
        Instr::Compare(c) => compare_bytes(c),
        Instr::Control(c) => control_bytes(c),
    }
}

/// The bytes of a sequence of instructions.
pub open spec fn code_bytes(code: Seq<Instr>) -> Seq<u8>
    decreases code.len(),
{
    if code.len() == 0 { Seq::empty() } else { code_bytes(code.drop_last()) + instr_bytes(code.last()) }
}

/// Appends an arithmetic instruction (`InstructionSink::i64_add` and kin).
#[verifier::external_body]
fn put_arith(out: &mut Vec<u8>, a: Arith)
    ensures
        final(out)@ == old(out)@ + arith_bytes(a),
{
    let mut sink = InstructionSink::new(out);
    match a {
        Arith::Add => sink.i64_add(),
        Arith::Sub => sink.i64_sub(),
        Arith::Mul => sink.i64_mul(),
        Arith::DivS => sink.i64_div_s(),
        Arith::RemS => sink.i64_rem_s(),
    };
}

/// Appends a comparison instruction (`InstructionSink::i64_eq` and kin).
#[verifier::external_body]
fn put_compare(out: &mut Vec<u8>, c: Compare)
    ensures
        final(out)@ == old(out)@ + compare_bytes(c),
{
    let mut sink = InstructionSink::new(out);
    match c {
        Compare::Eq => sink.i64_eq(),
        Compare::Ne => sink.i64_ne(),
        Compare::LtS => sink.i64_lt_s(),
        Compare::LeS => sink.i64_le_s(),
        Compare::GtS => sink.i64_gt_s(),
        Compare::GeS => sink.i64_ge_s(),
    };
}

/// Appends a local, constant or control instruction (`InstructionSink::local_get`,
/// `i64_const`, `i64_eqz`, `i64_extend_i32_u`, `if_`, `else_`, `end`).
#[verifier::external_body]
fn put_control(out: &mut Vec<u8>, c: Control)
    ensures
        final(out)@ == old(out)@ + control_bytes(c),
        c matches Control::LocalGet(i) ==> final(out)@ == old(out)@ + seq![0x20u8] + uleb128(i as nat),
        c matches Control::I64Const(v) ==> final(out)@ == old(out)@ + seq![0x42u8] + sleb128(v as int),
{
    let mut sink = InstructionSink::new(out);
    match c {
        Control::LocalGet(i) => sink.local_get(i),
        Control::I64Const(v) => sink.i64_const(v),
        Control::I64Eqz => sink.i64_eqz(),
        Control::I64ExtendI32U => sink.i64_extend_i32_u(),
        Control::IfI64 => sink.if_(wasm_encoder::BlockType::Result(ValType::I64)),
        Control::Else => sink.else_(),
        Control::End => sink.end(),
    };
}

/// Assembles the module around a function body (`Module::finish` and the
/// section encoders of `wasm-encoder`).
#[verifier::external_body]
fn encode_module(n: u32, body: &Vec<u8>) -> (r: Vec<u8>)
    ensures
        r@ == module_bytes(n, body@),
{
    let mut types = TypeSection::new();
    types.ty().function(vec![ValType::I64; n as usize], vec![ValType::I64]);
    let mut functions = FunctionSection::new();
    functions.function(0);
    let mut exports = ExportSection::new();
    exports.export("f", ExportKind::Func, 0);
    let mut f = Function::new(Vec::new());
    f.raw(body.iter().copied());
    let mut code = CodeSection::new();
    code.function(&f);
    let mut module = Module::new();
    module.section(&types).section(&functions).section(&exports).section(&code);
    module.finish()
}

/// Encodes a sequence of instructions.
pub fn encode_code(code: &Vec<Instr>) -> (r: Vec<u8>)
    ensures
        r@ == code_bytes(code@),
{
    let mut out: Vec<u8> = Vec::new();
    let mut k: usize = 0;
    while k < code.len()
        invariant
            k <= code@.len(),
            out@ == code_bytes(code@.take(k as int)),
        decreases code@.len() - k,
    {
        assert(code@.take(k + 1).drop_last() =~= code@.take(k as int));
        match code[k] {
            Instr::Arith(a) => put_arith(&mut out, a),
            Instr::Compare(c) => put_compare(&mut out, c),
            Instr::Control(c) => put_control(&mut out, c),
        }
        k += 1;
    }
    assert(code@.take(k as int) =~= code@);
    out
}

/// The position of the first occurrence of `s` (the length if absent).
pub open spec fn position(ps: Seq<Symbol>, s: Symbol) -> int
    decreases ps.len(),
{
    if ps.len() == 0 || ps[0] == s { 0 } else { 1 + position(ps.drop_first(), s) }
}

/// The instructions that leave the `i64` value of `e` on the stack, reading
/// variable `params[i]` from local `i`. `&&` and `||` branch so that their
/// right operand runs only when the left does not decide the result.
pub open spec fn emit_spec(e: Expr, params: Seq<Symbol>) -> Seq<Instr>
    decreases e,
{
    match e {
        Expr::Var(s) => seq![Instr::Control(Control::LocalGet(position(params, s) as u32))],
        Expr::Lit(v) => seq![Instr::Control(Control::I64Const(to_bits_spec(v)))],
        Expr::Unary(UnOp::Neg, a) => seq![Instr::Control(Control::I64Const(0))] + emit_spec(*a, params)
            + seq![Instr::Arith(Arith::Sub)],
        Expr::Unary(UnOp::Not, a) => emit_spec(*a, params)
            + seq![Instr::Control(Control::I64Eqz), Instr::Control(Control::I64ExtendI32U)],
        Expr::Binary(BinOp::And, a, b) => emit_spec(*a, params)
            + seq![Instr::Control(Control::I64Const(0)), Instr::Compare(Compare::Ne), Instr::Control(Control::IfI64)]
            + emit_spec(*b, params)
            + seq![Instr::Control(Control::Else), Instr::Control(Control::I64Const(0)), Instr::Control(Control::End)],
        Expr::Binary(BinOp::Or, a, b) => emit_spec(*a, params)
            + seq![Instr::Control(Control::I64Const(0)), Instr::Compare(Compare::Ne), Instr::Control(Control::IfI64),
                   Instr::Control(Control::I64Const(1)), Instr::Control(Control::Else)]
            + emit_spec(*b, params)
            + seq![Instr::Control(Control::End)],
        Expr::Binary(op, a, b) => emit_spec(*a, params) + emit_spec(*b, params) + binop_instrs(op),
    }
}

/// The instructions of an arithmetic or comparison operator (comparisons
/// widened to `i64`).
pub open spec fn binop_instrs(op: BinOp) -> Seq<Instr> {
    match op {
        BinOp::Add => seq![Instr::Arith(Arith::Add)],
        BinOp::Sub => seq![Instr::Arith(Arith::Sub)],
        BinOp::Mul => seq![Instr::Arith(Arith::Mul)],
        BinOp::Div => seq![Instr::Arith(Arith::DivS)],
        BinOp::Rem => seq![Instr::Arith(Arith::RemS)],
        BinOp::Eq => seq![Instr::Compare(Compare::Eq), Instr::Control(Control::I64ExtendI32U)],
        BinOp::Ne => seq![Instr::Compare(Compare::Ne), Instr::Control(Control::I64ExtendI32U)],
        BinOp::Lt => seq![Instr::Compare(Compare::LtS), Instr::Control(Control::I64ExtendI32U)],
        BinOp::Le => seq![Instr::Compare(Compare::LeS), Instr::Control(Control::I64ExtendI32U)],
        BinOp::Gt => seq![Instr::Compare(Compare::GtS), Instr::Control(Control::I64ExtendI32U)],
        BinOp::Ge => seq![Instr::Compare(Compare::GeS), Instr::Control(Control::I64ExtendI32U)],
        _ => Seq::empty(),
    }
}

/// The position of `s` among the parameters.
fn param_position(params: &Vec<Symbol>, s: Symbol) -> (r: u32)
    requires
        params@.contains(s),
        params@.len() <= u32::MAX,
    ensures
        r as int == position(params@, s),
        (r as int) < params@.len(),
{
    let mut i: usize = 0;
    assert(params@.skip(0) =~= params@);
    while i < params.len()
        invariant
            i <= params@.len(),
            params@.len() <= u32::MAX,
            forall|j: int| 0 <= j < i ==> params@[j] != s,
            position(params@, s) == i + position(params@.skip(i as int), s),
        decreases params@.len() - i,
    {
        if params[i] == s {
            return i as u32;
        }
        assert(params@.skip(i as int).drop_first() =~= params@.skip(i + 1));
        i += 1;
    }
    proof {
        let j = choose|j: int| 0 <= j < params@.len() && params@[j] == s;
        assert(params@[j] != s);
    }
    0
}

/// Appends the instructions of a binary operator.
fn emit_binop(op: BinOp, out: &mut Vec<Instr>)
    ensures
        final(out)@ == old(out)@ + binop_instrs(op),
{
    let ghost o = out@;
    match op {
        BinOp::Add => out.push(Instr::Arith(Arith::Add)),
        BinOp::Sub => out.push(Instr::Arith(Arith::Sub)),
        BinOp::Mul => out.push(Instr::Arith(Arith::Mul)),
        BinOp::Div => out.push(Instr::Arith(Arith::DivS)),
        BinOp::Rem => out.push(Instr::Arith(Arith::RemS)),
        BinOp::Eq => { out.push(Instr::Compare(Compare::Eq)); out.push(Instr::Control(Control::I64ExtendI32U)); },
        BinOp::Ne => { out.push(Instr::Compare(Compare::Ne)); out.push(Instr::Control(Control::I64ExtendI32U)); },
        BinOp::Lt => { out.push(Instr::Compare(Compare::LtS)); out.push(Instr::Control(Control::I64ExtendI32U)); },
        BinOp::Le => { out.push(Instr::Compare(Compare::LeS)); out.push(Instr::Control(Control::I64ExtendI32U)); },
        BinOp::Gt => { out.push(Instr::Compare(Compare::GtS)); out.push(Instr::Control(Control::I64ExtendI32U)); },
        BinOp::Ge => { out.push(Instr::Compare(Compare::GeS)); out.push(Instr::Control(Control::I64ExtendI32U)); },
        _ => {},
    }
    assert(out@ =~= o + binop_instrs(op));
}

/// Appends the instructions that leave the value of `e` on the stack.
pub fn emit(e: &Expr, params: &Vec<Symbol>, out: &mut Vec<Instr>)
    requires
        forall|s: Symbol| crate::expr::mentions(*e, s) ==> params@.contains(s),
        params@.len() <= u32::MAX,
    ensures
        final(out)@ == old(out)@ + emit_spec(*e, params@),
    decreases e,
{
    let ghost o = out@;
    proof {
        match e {
            Expr::Var(s) => { assert(crate::expr::mentions(*e, *s)); },
            Expr::Unary(_, a) => {
                assert forall|s: Symbol| crate::expr::mentions(**a, s) implies params@.contains(s) by {
                    assert(crate::expr::mentions(*e, s));
                }
            },
            Expr::Binary(_, a, b) => {
                assert forall|s: Symbol| crate::expr::mentions(**a, s) implies params@.contains(s) by {
                    assert(crate::expr::mentions(*e, s));
                }
                assert forall|s: Symbol| crate::expr::mentions(**b, s) implies params@.contains(s) by {
                    assert(crate::expr::mentions(*e, s));
                }
            },
            _ => {},
        }
    }
    match e {
        Expr::Var(s) => {
            let i = param_position(params, *s);
            out.push(Instr::Control(Control::LocalGet(i)));
        },
        Expr::Lit(v) => {
            out.push(Instr::Control(Control::I64Const(v.to_bits())));
        },
        Expr::Unary(UnOp::Neg, a) => {
            out.push(Instr::Control(Control::I64Const(0)));
            emit(a, params, out);
            out.push(Instr::Arith(Arith::Sub));
        },
        Expr::Unary(UnOp::Not, a) => {
            emit(a, params, out);
            out.push(Instr::Control(Control::I64Eqz));
            out.push(Instr::Control(Control::I64ExtendI32U));
        },
        Expr::Binary(BinOp::And, a, b) => {
            emit(a, params, out);
            out.push(Instr::Control(Control::I64Const(0)));
            out.push(Instr::Compare(Compare::Ne));
            out.push(Instr::Control(Control::IfI64));
            emit(b, params, out);
            out.push(Instr::Control(Control::Else));
            out.push(Instr::Control(Control::I64Const(0)));
            out.push(Instr::Control(Control::End));
        },
        Expr::Binary(BinOp::Or, a, b) => {
            emit(a, params, out);
            out.push(Instr::Control(Control::I64Const(0)));
            out.push(Instr::Compare(Compare::Ne));
            out.push(Instr::Control(Control::IfI64));
            out.push(Instr::Control(Control::I64Const(1)));
            out.push(Instr::Control(Control::Else));
            emit(b, params, out);
            out.push(Instr::Control(Control::End));
        },
        Expr::Binary(op, a, b) => {
            emit(a, params, out);
            emit(b, params, out);
            emit_binop(*op, out);
        },
    }
    assert(out@ =~= o + emit_spec(*e, params@));
}

/// Fuel granted to one expression evaluation: ample for the straight-line
/// modules this tier emits, but finite.
pub const FUEL_PER_CALL: u64 = 100_000;

/// The `wasmtime` compilation engine (`wasmtime::Engine`), carried opaque.
#[verifier::external_type_specification]
#[verifier::external_body]
pub struct ExWasmtimeEngine(WasmtimeEngine);

/// A `wasmtime` error (`wasmtime::Error`), carried opaque.
#[verifier::external_type_specification]
#[verifier::external_body]
pub struct ExWasmtimeError(WasmtimeError);

/// Builds a fuel-metered `wasmtime` engine (`wasmtime::Config::consume_fuel`,
/// with `Config::relaxed_simd_deterministic` and
/// `Config::cranelift_nan_canonicalization` switched on so that a module runs
/// alike on every host; `wasmtime::Engine::new`). Whether it succeeds
/// depends on the machine.
#[verifier::external_body]
fn new_runtime() -> (r: Result<WasmtimeEngine, WasmtimeError>) {
    let mut config = wasmtime::Config::new();
    config.consume_fuel(true);
    config.relaxed_simd_deterministic(true);
    config.cranelift_nan_canonicalization(true);
    WasmtimeEngine::new(&config)
}

/// Compiles module `bytes`, instantiates it (no imports) in a fresh store
/// with `fuel`, and calls its export `f` on `args` (`wasmtime::Module::new`,
/// `Store::new`, `Instance::new`, `Store::set_fuel`, `Func::call`). Its
/// result, when it returns one, is that of the module on those arguments
/// and that fuel; an error says nothing.
#[verifier::external_body]
fn run_module(engine: &WasmtimeEngine, bytes: &Vec<u8>, args: &Vec<i64>, fuel: u64) -> (r: Result<i64, WasmtimeError>)
    ensures
        r matches Ok(b) ==> wasm_result(bytes@, args@, fuel) == Some(b),
{
    let module = wasmtime::Module::new(engine, bytes.as_slice())?;
    let mut store = wasmtime::Store::new(engine, ());
    let instance = wasmtime::Instance::new(&mut store, &module, &[])?;
    let f = instance.get_func(&mut store, "f").ok_or(WasmtimeError::msg("missing export `f`"))?;
    store.set_fuel(fuel)?;
    let params: Vec<wasmtime::Val> = args.iter().map(|a| wasmtime::Val::I64(*a)).collect();
    let mut results = [wasmtime::Val::I64(0)];
    f.call(&mut store, &params, &mut results)?;
    results[0].i64().ok_or(WasmtimeError::msg("unexpected result"))
}

/// The message of a `wasmtime` error (its `Display`).
#[verifier::external_body]
fn runtime_message(e: WasmtimeError) -> (r: String) {
    e.to_string()
}

/// The types of the parameters, as bound in `env`.
pub open spec fn param_types(params: Seq<Symbol>, env: Map<Symbol, Value>) -> Map<Symbol, Type> {
    bindings_map(params.map_values(|p: Symbol| (p, type_of_spec(env[p]))))
}

/// The value the WASM tier gives `e` under `env`: with its variables as
/// parameters, when all are bound and `e` is well typed, the result of the
/// encoded module on their bit encodings, decoded at the inferred type.
pub open spec fn wasm_value(e: Expr, env: Map<Symbol, Value>) -> Option<Value> {
    let params = vars_spec(e, Seq::empty());
    if !(forall|k: int| 0 <= k < params.len() ==> env.contains_key(#[trigger] params[k])) || params.len() > u32::MAX {
        None
    } else {
        match infer_spec(e, param_types(params, env)) {
            TyOutcome::Ty(ty) => {
                let code = emit_spec(e, params).push(Instr::Control(Control::End));
                let bytes = module_bytes(params.len() as u32, code_bytes(code));
                let args = params.map_values(|p: Symbol| to_bits_spec(env[p]));
                match wasm_result(bytes, args, FUEL_PER_CALL) {
                    Some(b) => if bits_decodable(b, ty) { Some(from_bits_spec(b, ty)) } else { None },
                    None => None,
                }
            },
            _ => None,
        }
    }
}

/// Runs the modules the expression tier builds; a host that cannot run
/// `wasmtime` supplies its own. An implementation promises that a call's
/// result is what the module computes on its arguments under
/// [`FUEL_PER_CALL`] ([`wasm_result`]), and that it fails only with
/// [`ExprError::Runtime`].
pub trait WasmExecutor {
    /// A module, ready to be called repeatedly.
    type Module;

    /// The bytes a module was built from.
    spec fn bytes_of(m: Self::Module) -> Seq<u8>;

    /// Builds the module `bytes`.
    fn instantiate(&mut self, bytes: &Vec<u8>) -> (r: Result<Self::Module, ExprError>)
        ensures
            r matches Ok(m) ==> Self::bytes_of(m) == bytes@,
            r matches Err(e) ==> e is Runtime;

    /// Calls the module's export `f` on `args` and returns its result.
    fn call(&mut self, module: &Self::Module, args: &Vec<i64>) -> (r: Result<i64, ExprError>)
        ensures
            r matches Ok(b) ==> wasm_result(Self::bytes_of(*module), args@, FUEL_PER_CALL) == Some(b),
            r matches Err(e) ==> e is Runtime;
}

/// The `wasmtime` executor: a fuel-metered engine, with a fresh store for
/// every call so that nothing accumulates between evaluations.
pub struct WasmtimeExecutor {
    engine: WasmtimeEngine,
}

impl WasmtimeExecutor {
    /// Starts the `wasmtime` engine.
    pub fn new() -> (r: Result<WasmtimeExecutor, ExprError>)
        ensures
            r matches Err(e) ==> e is Runtime,
    {
        match new_runtime() {
            Ok(engine) => Ok(WasmtimeExecutor { engine }),
            Err(e) => Err(ExprError::Runtime(runtime_message(e))),
        }
    }
}

/// A copy of a byte string.
fn copy_bytes(b: &Vec<u8>) -> (r: Vec<u8>)
    ensures
        r@ == b@,
{
    let mut r: Vec<u8> = Vec::new();
    let mut i: usize = 0;
    while i < b.len()
        invariant
            i <= b.len(),
            r@ == b@.take(i as int),
        decreases b.len() - i,
    {
        r.push(b[i]);
        assert(r@ =~= b@.take(i + 1));
        i += 1;
    }
    assert(b@.take(i as int) =~= b@);
    r
}

impl WasmExecutor for WasmtimeExecutor {
    /// The module's bytes: `wasmtime` compiles them when the module is called.
    type Module = Vec<u8>;

    open spec fn bytes_of(m: Vec<u8>) -> Seq<u8> {
        m@
    }

    fn instantiate(&mut self, bytes: &Vec<u8>) -> (r: Result<Vec<u8>, ExprError>) {
        Ok(copy_bytes(bytes))
    }

    fn call(&mut self, module: &Vec<u8>, args: &Vec<i64>) -> (r: Result<i64, ExprError>) {
        match run_module(&self.engine, module, args, FUEL_PER_CALL) {
            Ok(b) => Ok(b),
            Err(e) => Err(ExprError::Runtime(runtime_message(e))),
        }
    }
}

/// Evaluates expressions by lowering them to WebAssembly and running them
/// on an executor, by default `wasmtime`.
pub struct WasmEval<X: WasmExecutor = WasmtimeExecutor> {
    executor: X,
}

impl<X: WasmExecutor> WasmEval<X> {
    /// An evaluator over the given executor.
    pub fn with_executor(executor: X) -> (r: WasmEval<X>)
        ensures
            r.executor_view() == executor,
    {
        WasmEval { executor }
    }

    /// The executor.
    pub closed spec fn executor_view(&self) -> X {
        self.executor
    }
}

impl WasmEval<WasmtimeExecutor> {
    /// Creates a fuel-metered, import-free WASM expression engine.
    pub fn new() -> (r: Result<WasmEval<WasmtimeExecutor>, ExprError>)
        ensures
            r matches Err(e) ==> e is Runtime,
    {
        match WasmtimeExecutor::new() {
            Ok(x) => Ok(WasmEval::with_executor(x)),
            Err(e) => Err(e),
        }
    }
}

impl<X: WasmExecutor> ExprEval for WasmEval<X> {
    open spec fn value_of(expr: Expr, env: Map<Symbol, Value>) -> Option<Value> {
        wasm_value(expr, env)
    }

    open spec fn inv(&self) -> bool {
        true
    }

    open spec fn exact() -> bool {
        false
    }

    /// Before any module is built: the first variable (in order of first
    /// occurrence) that `env` does not bind is reported unbound, and a
    /// well-bound expression that does not type-check is reported as such.
    fn eval_expr(&mut self, expr: &Expr, env: &Env) -> (r: Result<Value, ExprError>)
        ensures
            forall|k: int| 0 <= k < vars_spec(*expr, Seq::empty()).len()
                && !env@.contains_key(#[trigger] vars_spec(*expr, Seq::empty())[k])
                && (forall|j: int| 0 <= j < k ==> env@.contains_key(vars_spec(*expr, Seq::empty())[j]))
                ==> r == Err::<Value, ExprError>(ExprError::UnboundVar(vars_spec(*expr, Seq::empty())[k])),
            (forall|j: int| 0 <= j < vars_spec(*expr, Seq::empty()).len() ==> env@.contains_key(#[trigger] vars_spec(*expr, Seq::empty())[j]))
                ==> match infer_spec(*expr, param_types(vars_spec(*expr, Seq::empty()), env@)) {
                    TyOutcome::Ty(_) => true,
                    TyOutcome::Unbound(s) => r == Err::<Value, ExprError>(ExprError::UnboundVar(s)),
                    TyOutcome::Mismatch => r matches Err(ExprError::TypeMismatch(_)),
                },
    {
        let mut params: Vec<Symbol> = Vec::new();
        assert(params@ =~= Seq::<Symbol>::empty());
        expr.collect_vars(&mut params);
        let ghost vs = vars_spec(*expr, Seq::empty());
        assert(params@ == vs);
        proof { crate::expr::lemma_vars_spec(*expr, Seq::empty()); }
        let mut types: TypeEnv = TypeEnv::new();
        let mut args: Vec<i64> = Vec::new();
        let mut k: usize = 0;
        assert(params@.take(0).map_values(|p: Symbol| (p, type_of_spec(env@[p]))) =~= Seq::<(Symbol, Type)>::empty());
        while k < params.len()
            invariant
                k <= params@.len(),
                params@ == vs,
                vs == vars_spec(*expr, Seq::empty()),
                forall|j: int| 0 <= j < k ==> env@.contains_key(#[trigger] params@[j]),
                types@ == param_types(params@.take(k as int), env@),
                args@ == params@.take(k as int).map_values(|p: Symbol| to_bits_spec(env@[p])),
            decreases params@.len() - k,
        {
            let p = params[k];
            let v = match env.get(p) {
                Some(v) => v,
                None => {
                    proof {
                        assert forall|k2: int| 0 <= k2 < vs.len() && !env@.contains_key(#[trigger] vs[k2])
                            && (forall|j: int| 0 <= j < k2 ==> env@.contains_key(vs[j])) implies k2 == k by {
                            if k2 < k {
                                assert(env@.contains_key(params@[k2]));
                            }
                            if k2 > k {
                                assert(env@.contains_key(vs[k as int]));
                            }
                        }
                    }
                    return Err(ExprError::UnboundVar(p));
                },
            };
            types.insert(p, v.type_of());
            args.push(v.to_bits());
            proof {
                let t0 = params@.take(k as int);
                let t1 = params@.take(k + 1);
                assert(t1 =~= t0.push(p));
                let m0 = t0.map_values(|p: Symbol| (p, type_of_spec(env@[p])));
                assert(t1.map_values(|p: Symbol| (p, type_of_spec(env@[p]))) =~= m0.push((p, type_of_spec(v))));
                assert(m0.push((p, type_of_spec(v))).drop_last() =~= m0);
                assert(args@ =~= t1.map_values(|p: Symbol| to_bits_spec(env@[p])));
            }
            k += 1;
        }
        assert(params@.take(k as int) =~= params@);
        let ty = expr.infer(&types)?;
        if params.len() > 0xffff_ffffusize {
            return Err(ExprError::Runtime("too many variables".to_owned()));
        }
        let mut code: Vec<Instr> = Vec::new();
        emit(expr, &params, &mut code);
        code.push(Instr::Control(Control::End));
        let body = encode_code(&code);
        let bytes = encode_module(params.len() as u32, &body);
        let module = self.executor.instantiate(&bytes)?;
        let bits = self.executor.call(&module, &args)?;
        if ty == Type::Sym && !(0 <= bits && bits <= 0xffff_ffffi64) {
            return Err(ExprError::Runtime("symbol id out of range".to_owned()));
        }
        assert(code@ =~= emit_spec(*expr, params@).push(Instr::Control(Control::End)));
        Ok(Value::from_bits(bits, ty))
    }
}

} // verus!
