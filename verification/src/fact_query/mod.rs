//! The queries grain: parse, form-check, and evaluate conjunctive queries
//! read-only over a fact base under a cardinality bound, with provenance.

pub mod engine;
pub mod error;
pub mod query;
pub mod result;
pub mod schema;
pub mod source;
pub mod typing;

use vstd::prelude::*;

pub use crate::fact_query::error::FactQueryError;
pub use crate::fact_query::query::ConjunctiveQuery;
pub use crate::fact_query::result::{Justification, Provenance, ResultSet, RowProvenance, SupportTuple};
pub use crate::fact_query::schema::{RelationSchema, Schema};
pub use crate::fact_query::source::{ContentId, FactSource, LoweredTuple, PredicateDescriptor, PredicateId, SchemaDrift, SchemaFingerprint, TupleStream};

verus! {

/// A cap on the number of solutions an evaluation collects before it stops
/// and reports the result as truncated.
#[derive(Debug, Clone, Copy, PartialEq, Eq, Structural)]
pub struct Cardinality(usize);

impl Cardinality {
    /// A cap of at most `max` solutions.
    pub fn new(max: usize) -> (r: Cardinality)
        ensures
            r.cap() == max,
    {
        Cardinality(max)
    }

    /// The cap, as a value.
    pub closed spec fn cap(&self) -> usize {
        self.0
    }

    /// Two caps are equal exactly when their counts are.
    pub proof fn lemma_eq_cap(a: Self, b: Self)
        ensures
            (a == b) <==> (a.cap() == b.cap()),
    {
    }

    /// The cap as a count.
    pub fn get(self) -> (r: usize)
        ensures
            r == self.cap(),
    {
        self.0
    }
}

/// What a fact base exposes to host the queries grain: its schema, a parser
/// for conjunctive queries, their form checks, and read-only,
/// cardinality-bounded evaluation with provenance.
pub trait FactStore {
    /// How the backend describes its relations.
    type Schema;
    /// The backend's parsed conjunctive query.
    type Query;
    /// The rows an evaluation returns.
    type ResultSet;
    /// Why each row is there.
    type Provenance;
    /// What can go wrong.
    type Error;

    /// The backend's invariant.
    spec fn ready(&self) -> bool;

    /// The relations, arities and column types a query can be grounded in.
    fn schema(&self) -> Self::Schema
        requires
            self.ready();

    /// Parses surface text into a conjunctive query.
    fn parse_query(&mut self, text: &str) -> (r: Result<Self::Query, Self::Error>)
        requires
            old(self).ready(),
        ensures
            final(self).ready();

    /// Form checks: the query is schema-valid and range-restricted.
    fn check(&self, query: &Self::Query) -> Result<(), Self::Error>
        requires
            self.ready();

    /// Evaluates the query read-only, collecting at most `max` solutions,
    /// and returns the distinct rows with their provenance.
    fn eval(&mut self, query: &Self::Query, max: Cardinality) -> (r: Result<(Self::ResultSet, Self::Provenance), Self::Error>)
        requires
            old(self).ready(),
        ensures
            final(self).ready();
}

} // verus!
