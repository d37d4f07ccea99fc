//! Provenance: `explain` recovers the one-step justification (rule and
//! support) for a derived tuple against the materialized database.

use ascent_jit::{Engine, Value, WasmEval};

fn iv(n: i64) -> Value {
    Value::Int(n)
}

const TRANSITIVE_CLOSURE: &str = "relation edge(int, int);
     relation path(int, int);
     path(x, y) <-- edge(x, y);
     path(x, z) <-- edge(x, y), path(y, z);";

fn closure_engine() -> Engine<WasmEval> {
    let mut engine = Engine::from_source(TRANSITIVE_CLOSURE).unwrap();
    engine.add_fact("edge", vec![iv(1), iv(2)]).unwrap();
    engine.add_fact("edge", vec![iv(2), iv(3)]).unwrap();
    engine.run().unwrap();
    engine
}

#[test]
fn explains_a_base_rule_derivation() {
    let mut engine = closure_engine();
    let derivations = engine.explain("path", &[iv(1), iv(2)]).unwrap();

    assert!(
        derivations
            .iter()
            .any(|d| d.rule == 0 && d.support == vec![("edge".to_string(), vec![iv(1), iv(2)])]),
        "path(1,2) should be justified by rule 0 via edge(1,2); got {derivations:?}"
    );
}

#[test]
fn explains_a_recursive_derivation() {
    let mut engine = closure_engine();
    let derivations = engine.explain("path", &[iv(1), iv(3)]).unwrap();

    let recursive = derivations
        .iter()
        .find(|d| d.rule == 1)
        .expect("path(1,3) should have a derivation via the recursive rule (1)");
    assert!(
        recursive.support.contains(&("edge".to_string(), vec![iv(1), iv(2)])),
        "support should include edge(1,2); got {:?}",
        recursive.support
    );
    assert!(
        recursive.support.contains(&("path".to_string(), vec![iv(2), iv(3)])),
        "support should include path(2,3); got {:?}",
        recursive.support
    );
}

#[test]
fn unprovable_tuple_has_no_derivations() {
    let mut engine = closure_engine();
    assert!(engine.explain("path", &[iv(9), iv(9)]).unwrap().is_empty());
}

#[test]
fn explain_rejects_unknown_relation() {
    let mut engine = closure_engine();
    assert!(engine.explain("nope", &[iv(1)]).is_err());
}
