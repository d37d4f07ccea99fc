//! A rule with heads in different strata runs in the stratum of its lowest
//! head, so a negation over that head sees all of its tuples.

use ascent_jit::{Engine, Value};

#[test]
fn negation_sees_a_multi_head_rule() {
    let mut engine = Engine::from_source_interpreted(
        "relation base(int);
         relation q(int);
         relation r(int);
         relation s(int);
         relation t(int);
         t(x) <-- base(x), !r(x);
         s(x) <-- base(x), !q(x);
         r(x), s(x) <-- base(x);",
    )
    .unwrap();
    engine.add_fact("base", vec![Value::Int(1)]).unwrap();
    engine.run().unwrap();
    assert_eq!(engine.query("r"), vec![vec![Value::Int(1)]]);
    assert_eq!(engine.query("s"), vec![vec![Value::Int(1)]]);
    assert!(engine.query("t").is_empty());
}

#[test]
fn multi_head_rule_on_the_wasm_tier() {
    let mut engine = Engine::from_source(
        "relation base(int);
         relation q(int);
         relation r(int);
         relation s(int);
         relation t(int);
         t(x) <-- base(x), !r(x);
         s(x) <-- base(x), !q(x);
         r(x), s(x) <-- base(x);",
    )
    .unwrap();
    engine.add_fact("base", vec![Value::Int(2)]).unwrap();
    engine.run().unwrap();
    assert_eq!(engine.query("r"), vec![vec![Value::Int(2)]]);
    assert!(engine.query("t").is_empty());
}
