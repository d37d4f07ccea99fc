//! Each Ascent surface the engine supports, on fixed inputs, against the
//! relations standard Datalog semantics derives from them.

use ascent_jit::{Engine, ExprEval, Value};

fn iv(n: i64) -> Value {
    Value::Int(n)
}

fn rows<E: ExprEval>(e: &Engine<E>, relation: &str) -> Vec<Vec<Value>> {
    let mut r = e.query(relation);
    r.sort();
    r
}

fn ints(rows: &[&[i64]]) -> Vec<Vec<Value>> {
    let mut r: Vec<Vec<Value>> = rows.iter().map(|t| t.iter().map(|n| iv(*n)).collect()).collect();
    r.sort();
    r
}

#[test]
fn transitive_closure_surface() {
    let mut e = Engine::from_source(
        "relation edge(int, int);
         relation path(int, int);
         path(x, y) <-- edge(x, y);
         path(x, z) <-- edge(x, y), path(y, z);",
    )
    .unwrap();
    for (a, b) in [(1, 2), (2, 3), (3, 4), (2, 5)] {
        e.add_fact("edge", vec![iv(a), iv(b)]).unwrap();
    }
    e.run().unwrap();
    assert_eq!(
        rows(&e, "path"),
        ints(&[&[1, 2], &[1, 3], &[1, 4], &[1, 5], &[2, 3], &[2, 4], &[2, 5], &[3, 4]])
    );
}

#[test]
fn conditions_and_negation_surface() {
    let mut e = Engine::from_source(
        "relation number(int);
         relation even(int);
         relation odd(int);
         even(x) <-- number(x), if x % 2 == 0;
         odd(x) <-- number(x), !even(x);",
    )
    .unwrap();
    for n in 1..=10 {
        e.add_fact("number", vec![iv(n)]).unwrap();
    }
    e.run().unwrap();
    assert_eq!(rows(&e, "even"), ints(&[&[2], &[4], &[6], &[8], &[10]]));
    assert_eq!(rows(&e, "odd"), ints(&[&[1], &[3], &[5], &[7], &[9]]));
}

#[test]
fn let_bindings_surface() {
    let mut e = Engine::from_source(
        "relation point(int, int, int);
         relation dist_sq(int, int, int);
         dist_sq(a, b, d) <--
             point(a, ax, ay),
             point(b, bx, by),
             if a != b,
             let dx = bx - ax,
             let dy = by - ay,
             let d = dx * dx + dy * dy;",
    )
    .unwrap();
    for (a, b, c) in [(1, 0, 0), (2, 3, 4), (3, 1, 1)] {
        e.add_fact("point", vec![iv(a), iv(b), iv(c)]).unwrap();
    }
    e.run().unwrap();
    assert_eq!(
        rows(&e, "dist_sq"),
        ints(&[&[1, 2, 25], &[2, 1, 25], &[1, 3, 2], &[3, 1, 2], &[2, 3, 13], &[3, 2, 13]])
    );
}

#[test]
fn aggregation_surface() {
    let mut e = Engine::from_source(
        "relation grade(int, int);
         relation stats(int, int, int, int);
         stats(mn, mx, s, cnt) <--
             agg mn = min(g) in grade(_, g),
             agg mx = max(g) in grade(_, g),
             agg s = sum(g) in grade(_, g),
             agg cnt = count() in grade(_, _);",
    )
    .unwrap();
    for (st, g) in [(1, 85), (2, 92), (3, 78), (4, 95), (5, 88)] {
        e.add_fact("grade", vec![iv(st), iv(g)]).unwrap();
    }
    e.run().unwrap();
    assert_eq!(rows(&e, "stats"), ints(&[&[78, 95, 438, 5]]));
}

#[test]
fn lattice_shortest_path_surface() {
    let mut e = Engine::from_source(
        "relation edge(int, int, int);
         lattice shortest_path(int, int, dual int);
         shortest_path(x, y, Dual(w)) <-- edge(x, y, w);
         shortest_path(x, z, Dual(w + l)) <--
             edge(x, y, w),
             shortest_path(y, z, ?Dual(l));",
    )
    .unwrap();
    for (x, y, w) in [(0, 1, 4), (0, 2, 1), (2, 1, 2), (1, 3, 1)] {
        e.add_fact("edge", vec![iv(x), iv(y), iv(w)]).unwrap();
    }
    e.run().unwrap();
    assert_eq!(
        rows(&e, "shortest_path"),
        ints(&[&[0, 1, 3], &[0, 2, 1], &[0, 3, 4], &[1, 3, 1], &[2, 1, 2], &[2, 3, 3]])
    );
}

#[test]
fn symbols_surface() {
    let mut e = Engine::from_source(
        "relation compiler(sym, sym);
         relation can(sym, sym);
         can(a, b) <-- compiler(a, b);
         can(a, c) <-- compiler(a, b), can(b, c);",
    )
    .unwrap();
    for (a, b) in [("rust", "wasm"), ("wasm", "native"), ("native", "exe")] {
        let a = e.intern(a);
        let b = e.intern(b);
        e.add_fact("compiler", vec![Value::Sym(a), Value::Sym(b)]).unwrap();
    }
    e.run().unwrap();
    let mut can: Vec<(String, String)> = e
        .query("can")
        .into_iter()
        .map(|t| match (t[0], t[1]) {
            (Value::Sym(a), Value::Sym(b)) => (e.resolve(a).unwrap().to_owned(), e.resolve(b).unwrap().to_owned()),
            other => panic!("expected symbols, got {other:?}"),
        })
        .collect();
    can.sort();
    let mut expected: Vec<(String, String)> = [
        ("rust", "wasm"),
        ("rust", "native"),
        ("rust", "exe"),
        ("wasm", "native"),
        ("wasm", "exe"),
        ("native", "exe"),
    ]
    .iter()
    .map(|(a, b)| (a.to_string(), b.to_string()))
    .collect();
    expected.sort();
    assert_eq!(can, expected);
}
