//! Errors of the queries grain.

use vstd::prelude::*;

verus! {

/// What can go wrong parsing, checking or evaluating a conjunctive query.
#[derive(Debug, Clone, PartialEq, Eq)]
pub enum FactQueryError {
    /// The query text is not well-formed.
    Parse(String),
    /// The query references an unknown relation or has the wrong arity.
    Schema(String),
    /// The query is not safe: negation, or a variable no positive literal binds.
    Unsafe(String),
    /// Evaluation faulted.
    Eval(String),
}

impl FactQueryError {
    /// The error's description: a prefix naming the kind, then the message.
    pub fn describe(&self) -> (r: String)
        ensures
            r@ == match self {
                FactQueryError::Parse(m) => "parse error: "@ + m@,
                FactQueryError::Schema(m) => "schema error: "@ + m@,
                FactQueryError::Unsafe(m) => "unsafe query: "@ + m@,
                FactQueryError::Eval(m) => "evaluation error: "@ + m@,
            },
    {
        let (prefix, m) = match self {
            FactQueryError::Parse(m) => ("parse error: ", m),
            FactQueryError::Schema(m) => ("schema error: ", m),
            FactQueryError::Unsafe(m) => ("unsafe query: ", m),
            FactQueryError::Eval(m) => ("evaluation error: ", m),
        };
        let mut r = prefix.to_owned();
        r.append(m.as_str());
        r
    }
}

} // verus!
