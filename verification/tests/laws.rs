//! The library's laws on concrete values.

use ascent_jit::fact_query::{Cardinality, FactQueryError, FactStore};
use ascent_jit::host::{FactEngine, WireValue};
use ascent_jit::order::sort_rows;
use ascent_jit::{Engine, Interner, Interpreter, Symbol, Type, Value};

fn iv(n: i64) -> Value {
    Value::Int(n)
}

const CLOSURE: &str = "relation edge(int, int);
     relation path(int, int);
     path(x, y) <-- edge(x, y);
     path(x, z) <-- edge(x, y), path(y, z);";

fn closure(edges: &[(i64, i64)]) -> Engine<Interpreter> {
    let mut e = Engine::from_source_interpreted(CLOSURE).unwrap();
    for (a, b) in edges {
        e.add_fact("edge", vec![iv(*a), iv(*b)]).unwrap();
    }
    e.run().unwrap();
    e
}

fn sorted(mut rows: Vec<Vec<Value>>) -> Vec<Vec<Value>> {
    rows.sort();
    rows
}

/// After a run every rule holds: the closure is complete, and a second run
/// derives nothing more.
#[test]
fn run_reaches_the_least_fixed_point() {
    let mut e = closure(&[(1, 2), (2, 3), (3, 4)]);
    let expected = vec![
        vec![iv(1), iv(2)],
        vec![iv(1), iv(3)],
        vec![iv(1), iv(4)],
        vec![iv(2), iv(3)],
        vec![iv(2), iv(4)],
        vec![iv(3), iv(4)],
    ];
    assert_eq!(sorted(e.query("path")), expected);
    e.run().unwrap();
    assert_eq!(sorted(e.query("path")), expected);
}

/// A cycle closes over itself.
#[test]
fn run_closes_a_cycle() {
    let e = closure(&[(1, 2), (2, 1)]);
    assert_eq!(
        sorted(e.query("path")),
        vec![vec![iv(1), iv(1)], vec![iv(1), iv(2)], vec![iv(2), iv(1)], vec![iv(2), iv(2)]]
    );
}

/// Asserting a fact twice stores it once.
#[test]
fn facts_are_a_set() {
    let mut e = Engine::from_source_interpreted("relation n(int);").unwrap();
    e.add_fact("n", vec![iv(1)]).unwrap();
    e.add_fact("n", vec![iv(1)]).unwrap();
    assert_eq!(e.query("n"), vec![vec![iv(1)]]);
}

/// An unknown relation queries as empty.
#[test]
fn unknown_relation_queries_empty() {
    let e = closure(&[(1, 2)]);
    assert!(e.query("nope").is_empty());
}

/// Ad-hoc evaluation leaves the database as it was.
#[test]
fn queries_are_read_only() {
    let mut e = closure(&[(1, 2), (2, 3)]);
    let before = (sorted(e.query("edge")), sorted(e.query("path")));
    let (outputs, body) = e.parse_query_parts("(x, z) <-- path(x, y), edge(y, z)").unwrap();
    let out = e.evaluate_query(&outputs, &body, 10).unwrap();
    assert_eq!(out.solutions.len(), 1);
    assert_eq!(out.solutions[0].tuple, vec![iv(1), iv(3)]);
    assert_eq!((sorted(e.query("edge")), sorted(e.query("path"))), before);
}

/// The cap bounds the solutions; truncation is reported exactly when there
/// were more solutions than the cap.
#[test]
fn the_cap_bounds_solutions() {
    let mut e = closure(&[(1, 2), (1, 3), (2, 3)]);
    let (outputs, body) = e.parse_query_parts("(x, y) <-- edge(x, y)").unwrap();
    let exact = e.evaluate_query(&outputs, &body, 3).unwrap();
    assert_eq!(exact.solutions.len(), 3);
    assert!(!exact.truncated);
    let below = e.evaluate_query(&outputs, &body, 2).unwrap();
    assert_eq!(below.solutions.len(), 2);
    assert!(below.truncated);
    let none = e.evaluate_query(&outputs, &body, 0).unwrap();
    assert!(none.solutions.is_empty());
    assert!(none.truncated);
}

/// Grouped rows are distinct, in order of first occurrence, and each holds
/// one justification per solution that produced it.
#[test]
fn grouping_is_distinct_and_justified() {
    let mut e = closure(&[(2, 5), (1, 5), (2, 6)]);
    let q = e.parse_query("(x) <-- edge(x, _)").unwrap();
    e.check(&q).unwrap();
    let (rows, prov) = e.eval(&q, Cardinality::new(10)).unwrap();
    assert_eq!(rows.rows(), &[vec![iv(2)], vec![iv(1)]]);
    assert_eq!(rows.len(), 2);
    assert!(!rows.is_empty());
    assert!(!rows.is_truncated());
    let p = prov.rows();
    assert_eq!(p.len(), 2);
    assert_eq!(p[0].row, vec![iv(2)]);
    assert_eq!(p[0].justifications.len(), 2);
    assert_eq!(p[0].justifications[0].support[0].tuple, vec![iv(2), iv(5)]);
    assert_eq!(p[0].justifications[1].support[0].tuple, vec![iv(2), iv(6)]);
    assert_eq!(p[1].row, vec![iv(1)]);
    assert_eq!(p[1].justifications.len(), 1);
    assert_eq!(p[1].justifications[0].support[0].relation, "edge");
}

/// Interning is stable and resolves back.
#[test]
fn interning_round_trips() {
    let mut i = Interner::new();
    let a = i.intern("alpha");
    let b = i.intern("beta");
    assert_ne!(a, b);
    assert_eq!(i.intern("alpha"), a);
    assert_eq!(i.resolve(a), Some("alpha"));
    assert_eq!(i.resolve(b), Some("beta"));
    assert_eq!(i.resolve(Symbol(99)), None);
}

/// A value's bit encoding decodes back to it at its type.
#[test]
fn bits_round_trip() {
    for v in [iv(0), iv(-5), iv(i64::MAX), Value::Bool(true), Value::Bool(false), Value::Sym(Symbol(u32::MAX))] {
        assert_eq!(Value::from_bits(v.to_bits(), v.type_of()), v);
    }
    assert_eq!(Value::Bool(true).to_bits(), 1);
    assert_eq!(Value::Sym(Symbol(7)).to_bits(), 7);
    assert_eq!(iv(-5).type_of(), Type::Int);
}

/// Sorting orders distinct tuples ascending and keeps them all.
#[test]
fn sort_rows_orders_ascending() {
    let rows = vec![vec![iv(2), iv(1)], vec![iv(1), iv(9)], vec![iv(1), iv(2)], vec![Value::Bool(false)]];
    let s = sort_rows(rows);
    assert_eq!(
        s,
        vec![vec![iv(1), iv(2)], vec![iv(1), iv(9)], vec![iv(2), iv(1)], vec![Value::Bool(false)]]
    );
}

/// Speculation reports the delta and leaves every relation as it was.
#[test]
fn speculation_is_discarded() {
    let mut e = closure(&[(1, 2)]);
    let before = (sorted(e.query("edge")), sorted(e.query("path")));
    let c = e.speculate(&[("edge", vec![iv(2), iv(3)])]).unwrap();
    assert_eq!(c.added("edge"), &[vec![iv(2), iv(3)]]);
    assert_eq!(sorted(c.added("path").to_vec()), vec![vec![iv(1), iv(3)], vec![iv(2), iv(3)]]);
    assert!(c.added("nope").is_empty());
    assert!(!c.is_empty());
    let names: Vec<String> = c.iter().into_iter().map(|(n, _)| n).collect();
    assert_eq!(names, vec!["edge".to_string(), "path".to_string()]);
    assert_eq!((sorted(e.query("edge")), sorted(e.query("path"))), before);
}

/// `check` passes exactly the schema-valid, safe queries.
#[test]
fn check_passes_safe_queries() {
    let mut e = closure(&[(1, 2)]);
    let ok = e.parse_query("(x, z) <-- edge(x, y), path(y, z), if x != z, let w = x + z").unwrap();
    assert_eq!(e.check(&ok), Ok(()));
    let arity = e.parse_query("(x) <-- edge(x)").unwrap();
    assert!(matches!(e.check(&arity), Err(FactQueryError::Schema(_))));
}

/// The schema lists every declared relation in order, without documentation.
#[test]
fn schema_lists_declarations_in_order() {
    let e = closure(&[]);
    let s = e.schema();
    let names: Vec<&str> = s.relations().iter().map(|r| r.name.as_str()).collect();
    assert_eq!(names, vec!["edge", "path"]);
    assert!(s.relation("nope").is_none());
    assert_eq!(s.relation("path").unwrap().columns, vec![Type::Int, Type::Int]);
}

/// The embedding host's constructor builds a working engine.
#[test]
fn engine_from_source_runs() {
    let mut e = ascent_jit::engine_from_source(CLOSURE).unwrap();
    e.add_fact("edge", vec![iv(1), iv(2)]).unwrap();
    e.add_fact("edge", vec![iv(2), iv(3)]).unwrap();
    e.run().unwrap();
    assert_eq!(e.query("path").len(), 3);
    assert_eq!(Cardinality::new(4).get(), 4);
}

/// A run keeps every asserted fact, and a lattice keeps every key.
#[test]
fn run_keeps_what_was_there() {
    let mut e = Engine::from_source_interpreted(
        "relation edge(int, int);
         lattice best(int, int);
         best(x, w) <-- edge(x, w);",
    )
    .unwrap();
    e.add_fact("edge", vec![iv(1), iv(5)]).unwrap();
    e.add_fact("edge", vec![iv(1), iv(9)]).unwrap();
    e.add_fact("best", vec![iv(2), iv(0)]).unwrap();
    e.run().unwrap();
    assert_eq!(sorted(e.query("edge")), vec![vec![iv(1), iv(5)], vec![iv(1), iv(9)]]);
    assert_eq!(sorted(e.query("best")), vec![vec![iv(1), iv(9)], vec![iv(2), iv(0)]]);
}

/// Integers and symbols cross the host boundary exactly.
#[test]
fn wire_values_round_trip() {
    let mut f = FactEngine::from_source("relation v(int, sym);").unwrap();
    let ints = [0i64, 7, -7, 10, -100, 123456789, i64::MAX, i64::MIN];
    for (k, n) in ints.iter().enumerate() {
        f.add_fact("v", vec![WireValue::Int(n.to_string()), WireValue::Sym(format!("s{k}"))]).unwrap();
    }
    let out = f.query("(x, s) <-- v(x, s)", 100).unwrap();
    let expected: Vec<Vec<WireValue>> = ints
        .iter()
        .enumerate()
        .map(|(k, n)| vec![WireValue::Int(n.to_string()), WireValue::Sym(format!("s{k}"))])
        .collect();
    assert_eq!(out.rows, expected);
}

#[test]
fn a_second_run_changes_nothing() {
    let mut engine = ascent_jit::Engine::from_source_interpreted(
        "relation base(int);
         relation q(int);
         relation r(int);
         relation s(int);
         relation t(int);
         t(x) <-- base(x), !r(x);
         s(x) <-- base(x), !q(x);
         r(x), s(x) <-- base(x);",
    )
    .unwrap();
    engine.add_fact("base", vec![ascent_jit::Value::Int(1)]).unwrap();
    engine.add_fact("base", vec![ascent_jit::Value::Int(2)]).unwrap();
    engine.run().unwrap();
    let before: Vec<_> = ["base", "q", "r", "s", "t"].iter().map(|n| engine.query(n)).collect();
    engine.run().unwrap();
    let after: Vec<_> = ["base", "q", "r", "s", "t"].iter().map(|n| engine.query(n)).collect();
    assert_eq!(before, after);
}
