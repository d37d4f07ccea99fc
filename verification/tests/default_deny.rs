//! Namespaced relation names parse, and a default-deny `allowed/1`
//! composition evaluates correctly: a privilege exists only if explicitly
//! granted and not denied.

use ascent_jit::{Engine, Value};

fn iv(n: i64) -> Value {
    Value::Int(n)
}

const DEFAULT_DENY: &str = "relation request(int);
     relation policy::grant(int);
     relation policy::deny(int);
     relation user::deny(int);
     relation allowed(int);
     allowed(x) <--
         request(x),
         policy::grant(x),
         !policy::deny(x),
         !user::deny(x);";

#[test]
fn default_deny_allows_only_explicit_grants() {
    let mut engine = Engine::from_source(DEFAULT_DENY).unwrap();
    for x in 1..=4 {
        engine.add_fact("request", vec![iv(x)]).unwrap();
    }
    for x in 1..=3 {
        engine.add_fact("policy::grant", vec![iv(x)]).unwrap();
    }
    engine.add_fact("policy::deny", vec![iv(2)]).unwrap();
    engine.add_fact("user::deny", vec![iv(3)]).unwrap();

    engine.run().unwrap();

    assert_eq!(engine.query("allowed"), vec![vec![iv(1)]]);
}

#[test]
fn a_lone_colon_is_still_a_lex_error() {
    assert!(Engine::from_source("relation a:b(int);").is_err());
}
