//! Speculative ("fork / run / discard") evaluation.

use ascent_jit::{Engine, Value};

fn iv(n: i64) -> Value {
    Value::Int(n)
}

const TRANSITIVE_CLOSURE: &str = "relation edge(int, int);
     relation path(int, int);
     path(x, y) <-- edge(x, y);
     path(x, z) <-- edge(x, y), path(y, z);";

#[test]
fn speculation_reports_delta_without_mutating() {
    let mut engine = Engine::from_source(TRANSITIVE_CLOSURE).unwrap();
    engine.add_fact("edge", vec![iv(1), iv(2)]).unwrap();
    engine.add_fact("edge", vec![iv(2), iv(3)]).unwrap();
    engine.run().unwrap();

    let paths_before = engine.query("path").len();

    let consequences = engine.speculate(&[("edge", vec![iv(3), iv(4)])]).unwrap();
    let new_paths = consequences.added("path");

    assert!(new_paths.contains(&vec![iv(3), iv(4)]));
    assert!(new_paths.contains(&vec![iv(2), iv(4)]));
    assert!(new_paths.contains(&vec![iv(1), iv(4)]));
    assert_eq!(consequences.added("edge"), &[vec![iv(3), iv(4)]]);

    assert_eq!(engine.query("path").len(), paths_before);
    assert!(!engine.query("path").contains(&vec![iv(1), iv(4)]));
}

const VIOLATION_SHAPE: &str = "relation candidate(int);
     relation forbidden(int);
     relation violation(int);
     violation(x) <-- candidate(x), forbidden(x);";

#[test]
fn speculation_detects_a_would_be_violation() {
    let mut engine = Engine::from_source(VIOLATION_SHAPE).unwrap();
    engine.add_fact("forbidden", vec![iv(7)]).unwrap();
    engine.run().unwrap();
    assert!(engine.query("violation").is_empty());

    let bad = engine.speculate(&[("candidate", vec![iv(7)])]).unwrap();
    assert_eq!(bad.added("violation"), &[vec![iv(7)]]);

    let ok = engine.speculate(&[("candidate", vec![iv(5)])]).unwrap();
    assert!(ok.added("violation").is_empty());
}

#[test]
fn speculation_with_no_effect_is_empty() {
    let mut engine = Engine::from_source(TRANSITIVE_CLOSURE).unwrap();
    engine.add_fact("edge", vec![iv(1), iv(2)]).unwrap();
    engine.run().unwrap();

    let consequences = engine.speculate(&[("edge", vec![iv(1), iv(2)])]).unwrap();
    assert!(consequences.is_empty(), "no new derivations expected");
}

#[test]
fn speculation_rejects_unknown_relation() {
    let mut engine = Engine::from_source(TRANSITIVE_CLOSURE).unwrap();
    assert!(engine.speculate(&[("nope", vec![iv(1)])]).is_err());
}
