//! Differential tests: each major surface of the language is run on the
//! engine and its derived relations are compared, as sets, with what an
//! Ascent program computes for the same facts (written out as literal rows).

use std::collections::BTreeSet;

use ascent_jit::env::Env;
use ascent_jit::expr::{BinOp, Expr, UnOp};
use ascent_jit::{Engine, ExprEval, Interpreter, Symbol, Value, WasmEval};

/// A schema-agnostic cell, so that expected rows can be written directly.
#[derive(Debug, Clone, PartialEq, Eq, PartialOrd, Ord)]
enum Cell {
    Int(i64),
    Str(String),
}

type Rows = BTreeSet<Vec<Cell>>;

fn jit_rows<E: ExprEval>(engine: &Engine<E>, relation: &str) -> Rows {
    engine
        .query(relation)
        .into_iter()
        .map(|tuple| {
            tuple
                .into_iter()
                .map(|v| match v {
                    Value::Int(i) => Cell::Int(i),
                    Value::Bool(b) => Cell::Int(i64::from(b)),
                    Value::Sym(s) => Cell::Str(engine.resolve(s).expect("interned").to_owned()),
                })
                .collect()
        })
        .collect()
}

fn ints(rows: &[&[i64]]) -> Rows {
    rows.iter().map(|r| r.iter().map(|&x| Cell::Int(x)).collect()).collect()
}

#[test]
fn differential_matches_macro() {
    let mut engine = Engine::from_source(
        "relation edge(int, int);
         relation path(int, int);
         path(x, y) <-- edge(x, y);
         path(x, z) <-- edge(x, y), path(y, z);",
    )
    .unwrap();
    for (a, b) in [(1, 2), (2, 3), (3, 4), (2, 5)] {
        engine.add_fact("edge", vec![Value::Int(a), Value::Int(b)]).unwrap();
    }
    engine.run().unwrap();
    let expected = ints(&[&[1, 2], &[2, 3], &[3, 4], &[2, 5], &[1, 3], &[1, 4], &[1, 5], &[2, 4]]);
    assert_eq!(jit_rows(&engine, "path"), expected);
}

#[test]
fn differential_conditions_and_negation() {
    let mut engine = Engine::from_source(
        "relation number(int);
         relation even(int);
         relation odd(int);
         even(x) <-- number(x), if x % 2 == 0;
         odd(x) <-- number(x), !even(x);",
    )
    .unwrap();
    for n in 1..=10 {
        engine.add_fact("number", vec![Value::Int(n)]).unwrap();
    }
    engine.run().unwrap();
    assert_eq!(jit_rows(&engine, "even"), ints(&[&[2], &[4], &[6], &[8], &[10]]));
    assert_eq!(jit_rows(&engine, "odd"), ints(&[&[1], &[3], &[5], &[7], &[9]]));
}

#[test]
fn differential_let_bindings() {
    let mut engine = Engine::from_source(
        "relation point(int, int, int);
         relation dist_sq(int, int, int);
         dist_sq(a, b, d) <--
             point(a, ax, ay),
             point(b, bx, by),
             if a != b,
             let dx = bx - ax,
             let dy = by - ay,
             let d = dx * dx + dy * dy;",
    )
    .unwrap();
    for (a, b, c) in [(1, 0, 0), (2, 3, 4), (3, 1, 1)] {
        engine
            .add_fact("point", vec![Value::Int(a), Value::Int(b), Value::Int(c)])
            .unwrap();
    }
    engine.run().unwrap();
    let expected = ints(&[&[1, 2, 25], &[2, 1, 25], &[1, 3, 2], &[3, 1, 2], &[2, 3, 13], &[3, 2, 13]]);
    assert_eq!(jit_rows(&engine, "dist_sq"), expected);
}

#[test]
fn differential_aggregation() {
    let mut engine = Engine::from_source(
        "relation grade(int, int);
         relation stats(int, int, int, int);
         stats(mn, mx, s, cnt) <--
             agg mn = min(g) in grade(_, g),
             agg mx = max(g) in grade(_, g),
             agg s = sum(g) in grade(_, g),
             agg cnt = count() in grade(_, _);",
    )
    .unwrap();
    for (st, g) in [(1, 85), (2, 92), (3, 78), (4, 95), (5, 88)] {
        engine.add_fact("grade", vec![Value::Int(st), Value::Int(g)]).unwrap();
    }
    engine.run().unwrap();
    assert_eq!(jit_rows(&engine, "stats"), ints(&[&[78, 95, 438, 5]]));
}

#[test]
fn differential_lattice_shortest_path() {
    let mut engine = Engine::from_source(
        "relation edge(int, int, int);
         lattice shortest_path(int, int, dual int);
         shortest_path(x, y, Dual(w)) <-- edge(x, y, w);
         shortest_path(x, z, Dual(w + l)) <--
             edge(x, y, w),
             shortest_path(y, z, ?Dual(l));",
    )
    .unwrap();
    for (x, y, w) in [(0, 1, 4), (0, 2, 1), (2, 1, 2), (1, 3, 1)] {
        engine
            .add_fact("edge", vec![Value::Int(x), Value::Int(y), Value::Int(w)])
            .unwrap();
    }
    engine.run().unwrap();
    let expected = ints(&[&[0, 1, 3], &[0, 2, 1], &[2, 1, 2], &[1, 3, 1], &[0, 3, 4], &[2, 3, 3]]);
    assert_eq!(jit_rows(&engine, "shortest_path"), expected);
}

#[test]
fn differential_symbols() {
    let mut engine = Engine::from_source(
        "relation compiler(sym, sym);
         relation can(sym, sym);
         can(a, b) <-- compiler(a, b);
         can(a, c) <-- compiler(a, b), can(b, c);",
    )
    .unwrap();
    for (a, b) in [("rust", "wasm"), ("wasm", "native"), ("native", "exe")] {
        let a = engine.intern(a);
        let b = engine.intern(b);
        engine.add_fact("compiler", vec![Value::Sym(a), Value::Sym(b)]).unwrap();
    }
    engine.run().unwrap();
    let expected: Rows = [
        ("rust", "wasm"),
        ("wasm", "native"),
        ("native", "exe"),
        ("rust", "native"),
        ("rust", "exe"),
        ("wasm", "exe"),
    ]
    .iter()
    .map(|(a, b)| vec![Cell::Str((*a).to_owned()), Cell::Str((*b).to_owned())])
    .collect();
    assert_eq!(jit_rows(&engine, "can"), expected);
}

// --- generated facts, checked against a direct computation ------------------

/// A small deterministic generator (xorshift), so that every run sees the
/// same cases.
struct Gen(u64);

impl Gen {
    fn next(&mut self) -> u64 {
        let mut x = self.0;
        x ^= x << 13;
        x ^= x >> 7;
        x ^= x << 17;
        self.0 = x;
        x
    }

    fn range(&mut self, lo: i64, hi: i64) -> i64 {
        lo + (self.next() % ((hi - lo + 1) as u64)) as i64
    }
}

fn reach(pairs: &[(i64, i64)]) -> BTreeSet<(i64, i64)> {
    let mut out: BTreeSet<(i64, i64)> = pairs.iter().copied().collect();
    loop {
        let mut more = Vec::new();
        for &(x, y) in pairs {
            for &(y2, z) in &out {
                if y == y2 && !out.contains(&(x, z)) {
                    more.push((x, z));
                }
            }
        }
        if more.is_empty() {
            return out;
        }
        out.extend(more);
    }
}

#[test]
fn macro_transitive_closure() {
    let mut g = Gen(0x9e37_79b9_7f4a_7c15);
    for _ in 0..3 {
        let n = g.range(0, 8) as usize;
        let pairs: Vec<(i64, i64)> = (0..n).map(|_| (g.range(0, 5), g.range(0, 5))).collect();
        let mut e = Engine::from_source(
            "relation edge(int, int);
             relation path(int, int);
             path(x, y) <-- edge(x, y);
             path(x, z) <-- edge(x, y), path(y, z);",
        )
        .unwrap();
        for &(a, b) in &pairs {
            e.add_fact("edge", vec![Value::Int(a), Value::Int(b)]).unwrap();
        }
        e.run().unwrap();
        let expected: Rows = reach(&pairs).into_iter().map(|(a, b)| vec![Cell::Int(a), Cell::Int(b)]).collect();
        assert_eq!(jit_rows(&e, "path"), expected, "transitive closure diverged on {pairs:?}");
    }
}

#[test]
fn macro_even_odd() {
    let mut g = Gen(0x0123_4567_89ab_cdef);
    for _ in 0..3 {
        let n = g.range(0, 10) as usize;
        let nums: Vec<i64> = (0..n).map(|_| g.range(-8, 8)).collect();
        let mut e = Engine::from_source(
            "relation number(int);
             relation even(int);
             relation odd(int);
             even(x) <-- number(x), if x % 2 == 0;
             odd(x) <-- number(x), !even(x);",
        )
        .unwrap();
        for &x in &nums {
            e.add_fact("number", vec![Value::Int(x)]).unwrap();
        }
        e.run().unwrap();
        let expected: Rows = nums.iter().filter(|&&x| x % 2 != 0).map(|&x| vec![Cell::Int(x)]).collect();
        assert_eq!(jit_rows(&e, "odd"), expected, "odd diverged on {nums:?}");
    }
}

#[test]
fn macro_dist_sq() {
    let mut g = Gen(0x5555_aaaa_3333_cccc);
    for _ in 0..2 {
        let n = g.range(0, 4) as usize;
        let points: Vec<(i64, i64, i64)> = (0..n).map(|_| (g.range(-6, 6), g.range(-6, 6), g.range(-6, 6))).collect();
        let mut e = Engine::from_source(
            "relation point(int, int, int);
             relation dist_sq(int, int, int);
             dist_sq(a, b, d) <--
                 point(a, ax, ay),
                 point(b, bx, by),
                 if a != b,
                 let dx = bx - ax,
                 let dy = by - ay,
                 let d = dx * dx + dy * dy;",
        )
        .unwrap();
        for &(a, b, c) in &points {
            e.add_fact("point", vec![Value::Int(a), Value::Int(b), Value::Int(c)]).unwrap();
        }
        e.run().unwrap();
        let mut expected = Rows::new();
        for &(a, ax, ay) in &points {
            for &(b, bx, by) in &points {
                if a != b {
                    let (dx, dy) = (bx - ax, by - ay);
                    expected.insert(vec![Cell::Int(a), Cell::Int(b), Cell::Int(dx * dx + dy * dy)]);
                }
            }
        }
        assert_eq!(jit_rows(&e, "dist_sq"), expected, "dist_sq diverged on {points:?}");
    }
}

#[test]
fn macro_shortest_path() {
    let mut g = Gen(0x0f0f_1234_5678_9abc);
    for _ in 0..3 {
        let n = g.range(0, 7) as usize;
        let edges: Vec<(i64, i64, i64)> = (0..n).map(|_| (g.range(0, 4), g.range(0, 4), g.range(0, 5))).collect();
        let mut e = Engine::from_source(
            "relation edge(int, int, int);
             lattice shortest_path(int, int, dual int);
             shortest_path(x, y, Dual(w)) <-- edge(x, y, w);
             shortest_path(x, z, Dual(w + l)) <--
                 edge(x, y, w),
                 shortest_path(y, z, ?Dual(l));",
        )
        .unwrap();
        for &(x, y, w) in &edges {
            e.add_fact("edge", vec![Value::Int(x), Value::Int(y), Value::Int(w)]).unwrap();
        }
        e.run().unwrap();
        // Shortest non-empty walks: relax until nothing improves.
        let mut best: std::collections::BTreeMap<(i64, i64), i64> = std::collections::BTreeMap::new();
        for &(x, y, w) in &edges {
            let slot = best.entry((x, y)).or_insert(w);
            *slot = (*slot).min(w);
        }
        loop {
            let before = best.clone();
            for &(x, y, w) in &edges {
                let from_y: Vec<((i64, i64), i64)> = best.iter().filter(|((a, _), _)| *a == y).map(|(k, v)| (*k, *v)).collect();
                for ((_, z), l) in from_y {
                    let cand = w + l;
                    let slot = best.entry((x, z)).or_insert(cand);
                    *slot = (*slot).min(cand);
                }
            }
            if best == before {
                break;
            }
        }
        let expected: Rows = best.into_iter().map(|((x, z), c)| vec![Cell::Int(x), Cell::Int(z), Cell::Int(c)]).collect();
        assert_eq!(jit_rows(&e, "shortest_path"), expected, "shortest_path diverged on {edges:?}");
    }
}

// --- the WASM tier against the interpreter -----------------------------------

fn gen_expr(g: &mut Gen, depth: u32) -> Expr {
    if depth == 0 || g.range(0, 3) == 0 {
        return match g.range(0, 2) {
            0 => Expr::Var(Symbol(g.range(0, 2) as u32)),
            1 => Expr::Lit(Value::Int(g.range(-20, 20))),
            _ => Expr::Lit(Value::Bool(g.range(0, 1) == 1)),
        };
    }
    let ops = [
        BinOp::Add, BinOp::Sub, BinOp::Mul, BinOp::Div, BinOp::Rem, BinOp::Eq, BinOp::Ne,
        BinOp::Lt, BinOp::Le, BinOp::Gt, BinOp::Ge, BinOp::And, BinOp::Or,
    ];
    if g.range(0, 5) == 0 {
        let op = if g.range(0, 1) == 0 { UnOp::Neg } else { UnOp::Not };
        return Expr::Unary(op, Box::new(gen_expr(g, depth - 1)));
    }
    let op = ops[g.range(0, (ops.len() - 1) as i64) as usize];
    Expr::Binary(op, Box::new(gen_expr(g, depth - 1)), Box::new(gen_expr(g, depth - 1)))
}

#[test]
fn expr_oracle() {
    let mut g = Gen(0xdead_beef_cafe_f00d);
    let mut wasm = WasmEval::new().expect("wasm runtime");
    let mut env = Env::new();
    env.insert(Symbol(0), Value::Int(7));
    env.insert(Symbol(1), Value::Int(-3));
    env.insert(Symbol(2), Value::Bool(true));
    let mut agreed = 0;
    for _ in 0..60 {
        let e = gen_expr(&mut g, 3);
        // A value from the compiled module is the interpreter's value.
        if let Ok(v) = wasm.eval_expr(&e, &env) {
            assert_eq!(Interpreter.evaluate(&e, &env), Ok(v), "tiers diverged on {e:?}");
            agreed += 1;
        }
    }
    assert!(agreed > 0);
}

#[test]
fn program_oracle() {
    let src = "relation edge(int, int);
         relation path(int, int);
         relation far(int, int);
         relation lone(int);
         path(x, y) <-- edge(x, y);
         path(x, z) <-- edge(x, y), path(y, z);
         far(x, y) <-- path(x, y), if y - x > 1;
         lone(x) <-- edge(x, _), !path(_, x);";
    let mut g = Gen(0x1357_9bdf_2468_ace0);
    for _ in 0..2 {
        let n = g.range(0, 6) as usize;
        let pairs: Vec<(i64, i64)> = (0..n).map(|_| (g.range(0, 5), g.range(0, 5))).collect();
        let mut wasm = Engine::from_source(src).unwrap();
        let mut interp = Engine::from_source_interpreted(src).unwrap();
        for &(a, b) in &pairs {
            wasm.add_fact("edge", vec![Value::Int(a), Value::Int(b)]).unwrap();
            interp.add_fact("edge", vec![Value::Int(a), Value::Int(b)]).unwrap();
        }
        wasm.run().unwrap();
        interp.run().unwrap();
        for rel in ["path", "far", "lone"] {
            assert_eq!(jit_rows(&wasm, rel), jit_rows(&interp, rel), "{rel} diverged on {pairs:?}");
        }
    }
}
