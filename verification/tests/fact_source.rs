//! The ingestion boundary: a fact source describes its predicates and
//! streams tuples interned into the caller's interner.

use std::convert::Infallible;

use ascent_jit::fact_query::{
    ContentId, FactSource, LoweredTuple, PredicateDescriptor, PredicateId, SchemaDrift,
    SchemaFingerprint, TupleStream,
};
use ascent_jit::{Interner, Type, Value};

fn symbol() -> PredicateId {
    PredicateId::new(1)
}

/// An in-memory source whose rows hold an un-interned name plus a scalar.
struct VecSource {
    schema: Vec<PredicateDescriptor>,
    id: ContentId,
    rows: Vec<(String, i64)>,
}

impl FactSource for VecSource {
    type Error = Infallible;

    fn schema(&self) -> &[PredicateDescriptor] {
        &self.schema
    }

    fn content_id(&self) -> ContentId {
        self.id
    }

    fn tuples(&self, interner: &mut Interner) -> Result<TupleStream, Self::Error> {
        let lowered: Vec<LoweredTuple> = self
            .rows
            .iter()
            .map(|(name, line)| LoweredTuple {
                predicate: symbol(),
                values: vec![Value::Sym(interner.intern(name)), Value::Int(*line)],
            })
            .collect();
        Ok(TupleStream::new(lowered))
    }
}

fn sample() -> VecSource {
    VecSource {
        schema: vec![PredicateDescriptor {
            id: symbol(),
            name: "tree_sitter.symbol".to_owned(),
            fingerprint: SchemaFingerprint::new([7; 32]),
            columns: vec![Type::Sym, Type::Int],
            doc: "A definition site of a named symbol.".to_owned(),
        }],
        id: ContentId::new([3; 32]),
        rows: vec![("alpha".to_owned(), 10), ("beta".to_owned(), 20)],
    }
}

#[test]
fn describes_its_schema_and_identity() {
    let src = sample();
    assert_eq!(src.schema().len(), 1);
    assert_eq!(src.schema()[0].id, symbol());
    assert_eq!(src.schema()[0].arity(), 2);
    assert_eq!(src.content_id().as_bytes(), &[3; 32]);
}

#[test]
fn streams_tuples_interned_into_the_caller_interner() {
    let src = sample();
    let mut interner = Interner::new();
    let mut stream = src.tuples(&mut interner).expect("infallible");
    let mut collected: Vec<LoweredTuple> = Vec::new();
    while let Some(t) = stream.next_tuple() {
        collected.push(t);
    }

    assert_eq!(collected.len(), 2);
    assert_eq!(collected[0].predicate, symbol());

    let Value::Sym(first) = collected[0].values[0] else {
        panic!("first column should be a symbol");
    };
    assert_eq!(first, interner.intern("alpha"));
    assert_eq!(interner.resolve(first), Some("alpha"));
    assert_eq!(collected[0].values[1], Value::Int(10));
}

#[test]
fn validate_accepts_a_matching_descriptor() {
    let src = sample();
    src.schema[0]
        .validate(&[Type::Sym, Type::Int], SchemaFingerprint::new([7; 32]))
        .expect("columns and fingerprint match");
}

#[test]
fn validate_detects_arity_drift() {
    let src = sample();
    let err = src.schema[0]
        .validate(&[Type::Sym], SchemaFingerprint::new([7; 32]))
        .expect_err("arity differs");
    assert_eq!(err, SchemaDrift::Arity { expected: 1, got: 2 });
}

#[test]
fn validate_detects_column_type_drift() {
    let src = sample();
    let err = src.schema[0]
        .validate(&[Type::Int, Type::Int], SchemaFingerprint::new([7; 32]))
        .expect_err("column 0 differs");
    assert_eq!(
        err,
        SchemaDrift::ColumnType { column: 0, expected: Type::Int, got: Type::Sym }
    );
}

#[test]
fn validate_detects_fingerprint_drift_when_columns_match() {
    let src = sample();
    let err = src.schema[0]
        .validate(&[Type::Sym, Type::Int], SchemaFingerprint::new([9; 32]))
        .expect_err("fingerprint differs");
    assert!(matches!(err, SchemaDrift::Fingerprint { .. }));
}
