//! How a fact base describes its relations for grounding a query.

use vstd::prelude::*;

use crate::value::Type;

verus! {

/// One relation: its name, column types and (where available) documentation.
#[derive(Debug, Clone, PartialEq, Eq)]
pub struct RelationSchema {
    /// The relation's name.
    pub name: String,
    /// The column types, in order.
    pub columns: Vec<Type>,
    /// A description, where the backend has one.
    pub doc: Option<String>,
}

impl RelationSchema {
    /// The number of columns.
    pub fn arity(&self) -> (r: usize)
        ensures
            r == self.columns@.len(),
    {
        self.columns.len()
    }
}

/// The relations of a fact base.
#[derive(Debug, Clone, PartialEq, Eq)]
pub struct Schema {
    relations: Vec<RelationSchema>,
}

impl Schema {
    /// A schema of the given relations.
    pub fn new(relations: Vec<RelationSchema>) -> (r: Schema)
        ensures
            r.relations_spec() == relations@,
    {
        Schema { relations }
    }

    /// The relations, as listed.
    pub closed spec fn relations_spec(&self) -> Seq<RelationSchema> {
        self.relations@
    }

    /// The relations, in order.
    pub fn relations(&self) -> (r: &[RelationSchema])
        ensures
            r@ == self.relations_spec(),
    {
        self.relations.as_slice()
    }

    /// The first relation named `name`.
    pub fn relation(&self, name: &str) -> (r: Option<&RelationSchema>)
        ensures
            match r {
                Some(x) => exists|i: int| 0 <= i < self.relations_spec().len() && self.relations_spec()[i] == *x
                    && x.name@ == name@
                    && forall|j: int| 0 <= j < i ==> (#[trigger] self.relations_spec()[j]).name@ != name@,
                None => forall|j: int| 0 <= j < self.relations_spec().len() ==> (#[trigger] self.relations_spec()[j]).name@ != name@,
            },
    {
        let owned = name.to_owned();
        let mut i: usize = 0;
        while i < self.relations.len()
            invariant
                i <= self.relations@.len(),
                owned@ == name@,
                forall|j: int| 0 <= j < i ==> (#[trigger] self.relations@[j]).name@ != name@,
            decreases self.relations@.len() - i,
        {
            if self.relations[i].name == owned {
                return Some(&self.relations[i]);
            }
            i += 1;
        }
        None
    }
}

} // verus!
