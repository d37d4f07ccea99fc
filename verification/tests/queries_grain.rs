//! The queries-grain contract through `FactStore for Engine`: parse, check
//! (schema-valid and range-restricted), then bounded read-only evaluation
//! with provenance.

use ascent_jit::fact_query::{Cardinality, FactQueryError, FactStore};
use ascent_jit::{Engine, Type, Value, WasmEval};

fn iv(n: i64) -> Value {
    Value::Int(n)
}

const EDGES: &str = "relation edge(int, int);";

fn graph(edges: &[(i64, i64)]) -> Engine<WasmEval> {
    let mut engine = Engine::from_source(EDGES).unwrap();
    for (a, b) in edges {
        engine.add_fact("edge", vec![iv(*a), iv(*b)]).unwrap();
    }
    engine.run().unwrap();
    engine
}

#[test]
fn schema_describes_relations() {
    let engine = graph(&[]);
    let schema = engine.schema();
    let edge = schema.relation("edge").expect("edge is in the schema");
    assert_eq!(edge.columns, vec![Type::Int, Type::Int]);
    assert_eq!(edge.arity(), 2);
    assert!(edge.doc.is_none());
}

#[test]
fn parse_check_eval_with_provenance() {
    let mut engine = graph(&[(1, 2), (1, 3), (2, 3)]);
    let query = engine.parse_query("(x) <-- edge(x, _)").unwrap();
    engine.check(&query).unwrap();
    let (results, provenance) = engine.eval(&query, Cardinality::new(100)).unwrap();

    let mut rows = results.rows().to_vec();
    rows.sort();
    assert_eq!(rows, vec![vec![iv(1)], vec![iv(2)]], "distinct sources");
    assert!(!results.is_truncated());

    assert_eq!(provenance.rows().len(), results.len());
    let node_one = provenance
        .rows()
        .iter()
        .find(|p| p.row == vec![iv(1)])
        .expect("provenance for row (1)");
    assert_eq!(node_one.justifications.len(), 2);
    assert!(node_one.justifications.iter().all(|j| {
        j.support
            .iter()
            .any(|s| s.relation == "edge" && s.tuple[0] == iv(1))
    }));
}

#[test]
fn check_rejects_unrestricted_output() {
    let mut engine = graph(&[(1, 2)]);
    let query = engine.parse_query("(z) <-- edge(x, y)").unwrap();
    let err = engine.check(&query).unwrap_err();
    assert!(
        matches!(err, FactQueryError::Unsafe(_)),
        "expected an unsafe-query error, got {err:?}"
    );
}

#[test]
fn check_rejects_unrestricted_filter_var() {
    let mut engine = graph(&[(1, 2)]);
    let query = engine.parse_query("(x) <-- edge(x, y), if z == 1").unwrap();
    assert!(matches!(engine.check(&query).unwrap_err(), FactQueryError::Unsafe(_)));
}

#[test]
fn check_rejects_negation() {
    let mut engine = graph(&[(1, 2)]);
    let query = engine.parse_query("(x, y) <-- edge(x, y), !edge(y, x)").unwrap();
    assert!(matches!(engine.check(&query).unwrap_err(), FactQueryError::Unsafe(_)));
}

#[test]
fn eval_is_cardinality_bounded() {
    let mut engine = graph(&[(1, 2), (1, 3), (2, 3)]);
    let query = engine.parse_query("(x, y) <-- edge(x, y)").unwrap();
    let (results, _prov) = engine.eval(&query, Cardinality::new(2)).unwrap();
    assert_eq!(results.len(), 2);
    assert!(results.is_truncated());
}

#[test]
fn queries_grain_check_rejects_unknown_relation() {
    let mut engine = graph(&[(1, 2)]);
    let query = engine.parse_query("(x) <-- node(x)").unwrap();
    assert!(matches!(engine.check(&query).unwrap_err(), FactQueryError::Schema(_)));
}
