//! The host interface: wire values in and out, and failures by stage.

use ascent_jit::host::{FactEngine, FactInput, Stage, WireValue};

fn wint(s: &str) -> WireValue {
    WireValue::Int(s.to_owned())
}

fn wsym(s: &str) -> WireValue {
    WireValue::Sym(s.to_owned())
}

fn engine() -> FactEngine<ascent_jit::WasmEval> {
    let mut f = FactEngine::from_source(
        "relation owns(sym, int);
         relation rich(sym);
         rich(p) <-- owns(p, n), if n > 100;",
    )
    .unwrap();
    f.add_fact("owns", vec![wsym("ada"), wint("250")]).unwrap();
    f.add_fact("owns", vec![wsym("bob"), wint("-3")]).unwrap();
    f.add_fact("owns", vec![wsym("ada"), wint("+7")]).unwrap();
    f.run().unwrap();
    f
}

#[test]
fn host_schema_names_column_types() {
    let f = engine();
    let s = f.schema();
    assert_eq!(s.relations.len(), 2);
    assert_eq!(s.relations[0].name, "owns");
    assert_eq!(s.relations[0].columns, vec!["sym", "int"]);
    assert_eq!(s.relations[1].columns, vec!["sym"]);
    assert!(s.relations[1].doc.is_none());
}

#[test]
fn host_query_lifts_values_to_the_wire() {
    let mut f = engine();
    let out = f.query("(p, n) <-- owns(p, n)", 10).unwrap();
    assert!(!out.truncated);
    assert_eq!(
        out.rows,
        vec![vec![wsym("ada"), wint("250")], vec![wsym("bob"), wint("-3")], vec![wsym("ada"), wint("7")]]
    );
    assert_eq!(out.provenance.len(), 3);
    assert_eq!(out.provenance[1].row, vec![wsym("bob"), wint("-3")]);
    assert_eq!(out.provenance[1].justifications.len(), 1);
    assert_eq!(out.provenance[1].justifications[0].support[0].relation, "owns");
    assert_eq!(out.provenance[1].justifications[0].support[0].tuple, vec![wsym("bob"), wint("-3")]);
}

#[test]
fn host_query_groups_rows() {
    let mut f = engine();
    let out = f.query("(p) <-- owns(p, _)", 10).unwrap();
    assert_eq!(out.rows, vec![vec![wsym("ada")], vec![wsym("bob")]]);
    assert_eq!(out.provenance[0].justifications.len(), 2);
    let rich = f.query("(p) <-- rich(p)", 10).unwrap();
    assert_eq!(rich.rows, vec![vec![wsym("ada")]]);
    let capped = f.query("(p, n) <-- owns(p, n)", 1).unwrap();
    assert_eq!(capped.rows.len(), 1);
    assert!(capped.truncated);
}

#[test]
fn host_failures_carry_their_stage() {
    let mut f = engine();
    assert_eq!(f.check("(p) <--").unwrap_err().stage, Stage::Parse);
    assert_eq!(f.check("(p) <-- nope(p)").unwrap_err().stage, Stage::Schema);
    assert_eq!(f.check("(q) <-- owns(p, n)").unwrap_err().stage, Stage::Unsafe);
    assert_eq!(f.check("(p) <-- owns(p, n)"), Ok(()));
    let e = f.query("(d) <-- owns(p, n), let d = 1 / (n - n)", 10).unwrap_err();
    assert_eq!(e.stage, Stage::Eval);
    let bad = f.add_fact("owns", vec![wsym("cy"), wint("12x")]).unwrap_err();
    assert_eq!(bad.stage, Stage::Engine);
    assert_eq!(bad.message, "invalid integer `12x`");
    let big = f.add_fact("owns", vec![wsym("cy"), wint("9223372036854775808")]).unwrap_err();
    assert_eq!(big.message, "invalid integer `9223372036854775808`");
    let arity = f.add_fact("owns", vec![wsym("cy")]).unwrap_err();
    assert_eq!(arity.stage, Stage::Engine);
    assert_eq!(arity.message, "relation `owns` has arity 2, got 1");
    assert_eq!(FactEngine::from_source("relation x(").err().unwrap().stage, Stage::Engine);
}

#[test]
fn host_add_facts_stops_at_the_first_failure() {
    let mut f = engine();
    let batch = vec![
        FactInput { relation: "owns".to_owned(), values: vec![wsym("cy"), wint("1")] },
        FactInput { relation: "owns".to_owned(), values: vec![WireValue::Bool(true), wint("2")] },
        FactInput { relation: "owns".to_owned(), values: vec![wsym("dee"), wint("3")] },
    ];
    let err = f.add_facts(batch).unwrap_err();
    assert_eq!(err.stage, Stage::Engine);
    let out = f.query("(p) <-- owns(p, _)", 10).unwrap();
    assert_eq!(out.rows, vec![vec![wsym("ada")], vec![wsym("bob")], vec![wsym("cy")]]);
}

#[test]
fn host_extreme_integers_round_trip() {
    let mut f = FactEngine::from_source("relation n(int);").unwrap();
    f.add_fact("n", vec![wint("-9223372036854775808")]).unwrap();
    f.add_fact("n", vec![wint("9223372036854775807")]).unwrap();
    f.add_fact("n", vec![wint("-0")]).unwrap();
    let out = f.query("(x) <-- n(x)", 10).unwrap();
    assert_eq!(
        out.rows,
        vec![vec![wint("-9223372036854775808")], vec![wint("9223372036854775807")], vec![wint("0")]]
    );
}
