//! The rows a query returns and why each row is there.

use vstd::prelude::*;

use crate::value::Value;

verus! {

/// One positive body tuple behind a solution.
#[derive(Debug, Clone, PartialEq, Eq)]
pub struct SupportTuple {
    /// The relation the tuple belongs to.
    pub relation: String,
    /// The tuple.
    pub tuple: Vec<Value>,
}

/// One way a row was obtained: the body tuples of one solution.
#[derive(Debug, Clone, PartialEq, Eq)]
pub struct Justification {
    /// The supporting tuples, in body order.
    pub support: Vec<SupportTuple>,
}

/// A row and every way it was obtained.
#[derive(Debug, Clone, PartialEq, Eq)]
pub struct RowProvenance {
    /// The row.
    pub row: Vec<Value>,
    /// Its justifications, in solution order.
    pub justifications: Vec<Justification>,
}

/// The distinct rows of an evaluation, and whether the cap was reached.
#[derive(Debug, Clone, PartialEq, Eq)]
pub struct ResultSet {
    rows: Vec<Vec<Value>>,
    truncated: bool,
}

impl ResultSet {
    /// A result of the given rows.
    pub fn new(rows: Vec<Vec<Value>>, truncated: bool) -> (r: ResultSet)
        ensures
            r.rows_view() == crate::store::rows_view(rows@),
            r.truncated_view() == truncated,
    {
        ResultSet { rows, truncated }
    }

    /// The rows, as values.
    pub closed spec fn rows_view(&self) -> Seq<Seq<Value>> {
        crate::store::rows_view(self.rows@)
    }

    /// Whether the cap was reached.
    pub closed spec fn truncated_view(&self) -> bool {
        self.truncated
    }

    /// The rows.
    pub fn rows(&self) -> (r: &[Vec<Value>])
        ensures
            crate::store::rows_view(r@) == self.rows_view(),
    {
        self.rows.as_slice()
    }

    /// The number of rows.
    pub fn len(&self) -> (r: usize)
        ensures
            r == self.rows_view().len(),
    {
        self.rows.len()
    }

    /// Whether there are no rows.
    pub fn is_empty(&self) -> (r: bool)
        ensures
            r == (self.rows_view().len() == 0),
    {
        self.rows.len() == 0
    }

    /// Whether evaluation stopped at the cardinality cap (the rows are then
    /// those of a prefix of the solutions).
    pub fn is_truncated(&self) -> (r: bool)
        ensures
            r == self.truncated_view(),
    {
        self.truncated
    }
}

/// The provenance of every row, in row order.
#[derive(Debug, Clone, PartialEq, Eq)]
pub struct Provenance {
    rows: Vec<RowProvenance>,
}

impl Provenance {
    /// A provenance of the given rows.
    pub fn new(rows: Vec<RowProvenance>) -> (r: Provenance)
        ensures
            r.rows_spec() == rows@,
    {
        Provenance { rows }
    }

    /// The rows' provenance.
    pub closed spec fn rows_spec(&self) -> Seq<RowProvenance> {
        self.rows@
    }

    /// The rows' provenance.
    pub fn rows(&self) -> (r: &[RowProvenance])
        ensures
            r@ == self.rows_spec(),
    {
        self.rows.as_slice()
    }
}

} // verus!
