//! Each error the library reports, on an input that gives it, and its text.

use ascent_jit::error::EvalError;
use ascent_jit::fact_query::{FactQueryError, FactStore};
use ascent_jit::parser::ParseError;
use ascent_jit::{Engine, Error, ExprError, Interpreter, Symbol, Type, Value};

fn iv(n: i64) -> Value {
    Value::Int(n)
}

fn engine(src: &str) -> Engine<Interpreter> {
    Engine::from_source_interpreted(src).unwrap()
}

#[test]
fn unknown_relation_is_reported() {
    let mut e = engine("relation n(int);");
    let err = e.add_fact("m", vec![iv(1)]).unwrap_err();
    assert!(matches!(err, Error::Eval(EvalError::UnknownRelation(ref r)) if r == "m"));
    assert_eq!(err.describe(), "unknown relation `m`");
}

#[test]
fn arity_is_reported_with_both_counts() {
    let mut e = engine("relation n(int, int);");
    let err = e.add_fact("n", vec![iv(1)]).unwrap_err();
    assert_eq!(err.describe(), "relation `n` has arity 2, got 1");
}

#[test]
fn column_type_is_reported_with_both_types() {
    let mut e = engine("relation n(int, sym);");
    let err = e.add_fact("n", vec![iv(1), iv(2)]).unwrap_err();
    match err {
        Error::Eval(ref inner @ EvalError::ColumnType { column, expected, got, .. }) => {
            assert_eq!(column, 1);
            assert_eq!(expected, Type::Sym);
            assert_eq!(got, Type::Int);
            assert_eq!(inner.describe(), "relation `n` column 1 expects Sym, got Int");
        }
        other => panic!("expected a column type error, got {other:?}"),
    }
}

#[test]
fn negation_cycle_is_a_stratification_error() {
    let err = Engine::from_source_interpreted(
        "relation b(int); relation p(int); relation r(int);
         p(x) <-- b(x), !r(x);
         r(x) <-- b(x), !p(x);",
    )
    .unwrap_err();
    assert!(matches!(err, Error::Eval(EvalError::Stratification(_))));
    assert!(err.describe().starts_with("cannot stratify: "));
}

#[test]
fn arithmetic_fault_during_a_run() {
    let mut e = engine("relation n(int); relation q(int); q(y) <-- n(x), let y = 10 / x;");
    e.add_fact("n", vec![iv(0)]).unwrap();
    let err = e.run().unwrap_err();
    assert!(matches!(err, Error::Eval(EvalError::Expr(ExprError::Arithmetic(_)))));
    assert!(err.describe().starts_with("expression error: arithmetic fault: "));
}

#[test]
fn wasm_trap_during_a_run() {
    let mut e = Engine::from_source("relation n(int); relation q(int); q(y) <-- n(x), let y = 10 / x;").unwrap();
    e.add_fact("n", vec![iv(0)]).unwrap();
    let err = e.run().unwrap_err();
    assert!(matches!(err, Error::Eval(EvalError::Expr(ExprError::Runtime(_)))));
    assert!(err.describe().starts_with("expression error: runtime error: "));
}

#[test]
fn parse_errors_carry_a_message() {
    let err = Engine::from_source_interpreted("relation n(int").unwrap_err();
    match err {
        Error::Parse(ParseError { ref message }) => {
            assert!(!message.is_empty());
            assert_eq!(err.describe(), format!("parse error: {message}"));
        }
        other => panic!("expected a parse error, got {other:?}"),
    }
}

#[test]
fn expression_errors_describe_themselves() {
    assert_eq!(ExprError::UnboundVar(Symbol(1234)).describe(), "unbound variable 1234");
    assert_eq!(ExprError::UnboundVar(Symbol(0)).describe(), "unbound variable 0");
    assert_eq!(ExprError::TypeMismatch("x".to_owned()).describe(), "type mismatch: x");
    assert_eq!(ExprError::Arithmetic("division by zero").describe(), "arithmetic fault: division by zero");
    assert_eq!(ExprError::Runtime("trap".to_owned()).describe(), "runtime error: trap");
    assert_eq!(EvalError::IterationLimit.describe(), "stratum did not converge within the budget");
}

#[test]
fn query_errors_by_kind() {
    let mut e = engine("relation edge(int, int);");
    e.add_fact("edge", vec![iv(1), iv(0)]).unwrap();
    e.run().unwrap();

    let parse = e.parse_query("(x) <--").unwrap_err();
    assert!(matches!(parse, FactQueryError::Parse(_)));
    assert!(parse.describe().starts_with("parse error: "));

    let schema = e.parse_query("(x) <-- node(x)").unwrap();
    let err = e.check(&schema).unwrap_err();
    assert_eq!(err, FactQueryError::Schema("unknown relation `node`".to_owned()));
    assert_eq!(err.describe(), "schema error: unknown relation `node`");

    let unsafe_q = e.parse_query("(z) <-- edge(x, y)").unwrap();
    assert!(e.check(&unsafe_q).unwrap_err().describe().starts_with("unsafe query: "));

    let faulting = e.parse_query("(q) <-- edge(x, y), let q = x / y").unwrap();
    e.check(&faulting).unwrap();
    let err = e.eval(&faulting, ascent_jit::fact_query::Cardinality::new(10)).unwrap_err();
    assert!(matches!(err, FactQueryError::Eval(_)));
    assert!(err.describe().starts_with("evaluation error: "));
}

#[test]
fn explain_of_an_unknown_relation_names_it() {
    let mut e = engine("relation n(int);");
    let err = e.explain("m", &[iv(1)]).unwrap_err();
    assert!(matches!(err, Error::Eval(EvalError::UnknownRelation(ref r)) if r == "m"));
}
