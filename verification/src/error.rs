//! Errors raised during validation and evaluation, and the engine-wide error.

use vstd::prelude::*;

use crate::expr::ExprError;
use crate::value::Type;
use crate::expr::{decimal, describe_number};

verus! {

/// An error raised during program validation or evaluation.
#[derive(Debug, PartialEq, Eq)]
pub enum EvalError {
    /// A rule or fact referenced a relation that was never declared.
    UnknownRelation(String),
    /// A tuple or atom had the wrong number of columns for its relation.
    Arity {
        /// The relation name.
        relation: String,
        /// The declared arity.
        expected: usize,
        /// The arity supplied.
        got: usize,
    },
    /// A fact's value at some column has a type other than the declared one.
    ColumnType {
        /// The relation name.
        relation: String,
        /// The zero-based column index.
        column: usize,
        /// The declared column type.
        expected: Type,
        /// The type of the value supplied.
        got: Type,
    },
    /// The rules cannot be stratified (a cycle passes through negation or
    /// aggregation).
    Stratification(String),
    /// A stratum did not reach a fixed point within the iteration budget.
    IterationLimit,
    /// An expression failed to evaluate.
    Expr(ExprError),
}

impl From<ExprError> for EvalError {
    fn from(e: ExprError) -> (r: EvalError)
        ensures
            r == EvalError::Expr(e),
    {
        EvalError::Expr(e)
    }
}

impl vstd::std_specs::convert::FromSpecImpl<ExprError> for EvalError {
    open spec fn obeys_from_spec() -> bool {
        true
    }

    open spec fn from_spec(e: ExprError) -> EvalError {
        EvalError::Expr(e)
    }
}

/// The name of a type.
pub open spec fn type_label_spec(t: Type) -> Seq<char> {
    match t {
        Type::Int => "Int"@,
        Type::Bool => "Bool"@,
        Type::Sym => "Sym"@,
    }
}

/// The name of a type.
pub fn type_label(t: Type) -> (r: &'static str)
    ensures
        r@ == type_label_spec(t),
{
    match t {
        Type::Int => "Int",
        Type::Bool => "Bool",
        Type::Sym => "Sym",
    }
}

impl EvalError {
    /// The text of the error.
    pub open spec fn describe_spec(&self) -> Seq<char> {
        match self {
            EvalError::UnknownRelation(rel) => "unknown relation `"@ + rel@ + "`"@,
            EvalError::Arity { relation, expected, got } => "relation `"@ + relation@ + "` has arity "@
                + decimal(*expected as nat) + ", got "@ + decimal(*got as nat),
            EvalError::ColumnType { relation, column, expected, got } => "relation `"@ + relation@ + "` column "@
                + decimal(*column as nat) + " expects "@ + type_label_spec(*expected) + ", got "@ + type_label_spec(*got),
            EvalError::Stratification(why) => "cannot stratify: "@ + why@,
            EvalError::IterationLimit => "stratum did not converge within the budget"@,
            EvalError::Expr(e) => "expression error: "@ + e.describe_spec(),
        }
    }

    /// The error's description.
    pub fn describe(&self) -> (r: String)
        ensures
            r@ == self.describe_spec(),
    {
        match self {
            EvalError::UnknownRelation(rel) => {
                let mut m = "unknown relation `".to_owned();
                m.append(rel.as_str());
                m.append("`");
                m
            },
            EvalError::Arity { relation, expected, got } => {
                let mut m = "relation `".to_owned();
                m.append(relation.as_str());
                m.append("` has arity ");
                m.append(describe_number(*expected as u64).as_str());
                m.append(", got ");
                m.append(describe_number(*got as u64).as_str());
                m
            },
            EvalError::ColumnType { relation, column, expected, got } => {
                let mut m = "relation `".to_owned();
                m.append(relation.as_str());
                m.append("` column ");
                m.append(describe_number(*column as u64).as_str());
                m.append(" expects ");
                m.append(type_label(*expected));
                m.append(", got ");
                m.append(type_label(*got));
                m
            },
            EvalError::Stratification(why) => {
                let mut m = "cannot stratify: ".to_owned();
                m.append(why.as_str());
                m
            },
            EvalError::IterationLimit => "stratum did not converge within the budget".to_owned(),
            EvalError::Expr(e) => {
                let mut m = "expression error: ".to_owned();
                m.append(e.describe().as_str());
                m
            },
        }
    }
}

} // verus!
