//! Form checks that the documentation promises: an undeclared relation in a
//! query body is always reported, a `let` binds only over bound variables,
//! and a checked query's literals and variables match the column types.

use ascent_jit::error::EvalError;
use ascent_jit::fact_query::{FactQueryError, FactStore};
use ascent_jit::{Engine, Error, Value, WasmEval};

fn iv(n: i64) -> Value {
    Value::Int(n)
}

fn engine(src: &str, edges: &[(i64, i64)]) -> Engine<WasmEval> {
    let mut engine = Engine::from_source(src).unwrap();
    for (a, b) in edges {
        engine.add_fact("edge", vec![iv(*a), iv(*b)]).unwrap();
    }
    engine.run().unwrap();
    engine
}

#[test]
fn undeclared_relation_after_an_empty_atom_is_reported() {
    let mut e = engine("relation edge(int, int);", &[]);
    let (outputs, body) = e.parse_query_parts("(x) <-- edge(x, y), node(x)").unwrap();
    match e.evaluate_query(&outputs, &body, 100) {
        Err(Error::Eval(EvalError::UnknownRelation(name))) => assert_eq!(name, "node"),
        other => panic!("expected an unknown relation, got {other:?}"),
    }
}

#[test]
fn let_over_an_unbound_variable_does_not_bind() {
    let mut e = engine("relation edge(int, int);", &[(1, 2)]);
    let query = e.parse_query("(y) <-- edge(x, _), let y = z + 1").unwrap();
    assert!(matches!(e.check(&query).unwrap_err(), FactQueryError::Unsafe(_)));
}

#[test]
fn let_over_a_bound_variable_binds() {
    let mut e = engine("relation edge(int, int);", &[(1, 2)]);
    let query = e.parse_query("(y) <-- edge(x, _), let y = x + 1").unwrap();
    assert!(e.check(&query).is_ok());
}

#[test]
fn literal_of_the_wrong_type_is_a_schema_fault() {
    let mut e = engine("relation edge(int, int);", &[(1, 2)]);
    let query = e.parse_query("(x) <-- edge(x, true)").unwrap();
    assert!(matches!(e.check(&query).unwrap_err(), FactQueryError::Schema(_)));
}

#[test]
fn variable_read_at_two_types_is_a_schema_fault() {
    let mut e = engine("relation edge(int, int); relation flag(bool);", &[(1, 2)]);
    let query = e.parse_query("(x) <-- edge(x, _), flag(x)").unwrap();
    assert!(matches!(e.check(&query).unwrap_err(), FactQueryError::Schema(_)));
}

#[test]
fn well_typed_literal_passes_the_check() {
    let mut e = engine("relation edge(int, int);", &[(1, 2)]);
    let query = e.parse_query("(x) <-- edge(x, 2)").unwrap();
    assert!(e.check(&query).is_ok());
}
