//! The ingestion boundary: fact sources describe their predicates and stream
//! lowered tuples into an interner of the caller's.

use vstd::prelude::*;

use crate::value::{Interner, Type, Value};

verus! {

/// A stable numeric identity for a predicate of a fact source.
#[derive(Debug, Clone, Copy, PartialEq, Eq, Hash, PartialOrd, Ord, Structural)]
pub struct PredicateId(u32);

impl PredicateId {
    /// The predicate with id `id`.
    pub fn new(id: u32) -> (r: PredicateId)
        ensures
            r.id() == id,
    {
        PredicateId(id)
    }

    /// The id, as a value.
    pub closed spec fn id(&self) -> u32 {
        self.0
    }

    /// The id.
    pub fn get(self) -> (r: u32)
        ensures
            r == self.id(),
    {
        self.0
    }
}

/// A digest of a predicate's schema.
#[derive(Debug, Clone, Copy, PartialEq, Eq, Hash)]
pub struct SchemaFingerprint([u8; 32]);

impl SchemaFingerprint {
    /// The fingerprint with these bytes.
    pub fn new(bytes: [u8; 32]) -> (r: SchemaFingerprint)
        ensures
            r.bytes() == bytes@,
    {
        SchemaFingerprint(bytes)
    }

    /// The bytes, as values.
    pub closed spec fn bytes(&self) -> Seq<u8> {
        self.0@
    }

    /// Two of them are equal exactly when their bytes are.
    pub proof fn lemma_eq_bytes(a: Self, b: Self)
        ensures
            (a == b) <==> (a.bytes() == b.bytes()),
    {
        if a.bytes() == b.bytes() {
            assert forall|i: int| 0 <= i < 32 implies a.0[i] == b.0[i] by {
                assert(a.0@[i] == b.0@[i]);
            }
            assert(a.0 =~= b.0);
        }
    }

    /// The bytes.
    pub fn as_bytes(&self) -> (r: &[u8; 32])
        ensures
            r@ == self.bytes(),
    {
        &self.0
    }
}

/// A digest of a fact source's contents.
#[derive(Debug, Clone, Copy, PartialEq, Eq, Hash)]
pub struct ContentId([u8; 32]);

impl ContentId {
    /// The content id with these bytes.
    pub fn new(bytes: [u8; 32]) -> (r: ContentId)
        ensures
            r.bytes() == bytes@,
    {
        ContentId(bytes)
    }

    /// The bytes, as values.
    pub closed spec fn bytes(&self) -> Seq<u8> {
        self.0@
    }

    /// Two of them are equal exactly when their bytes are.
    pub proof fn lemma_eq_bytes(a: Self, b: Self)
        ensures
            (a == b) <==> (a.bytes() == b.bytes()),
    {
        if a.bytes() == b.bytes() {
            assert forall|i: int| 0 <= i < 32 implies a.0[i] == b.0[i] by {
                assert(a.0@[i] == b.0@[i]);
            }
            assert(a.0 =~= b.0);
        }
    }

    /// The bytes.
    pub fn as_bytes(&self) -> (r: &[u8; 32])
        ensures
            r@ == self.bytes(),
    {
        &self.0
    }
}

/// How a fact source describes one of its predicates.
#[derive(Debug, Clone, PartialEq, Eq)]
pub struct PredicateDescriptor {
    /// The predicate's id.
    pub id: PredicateId,
    /// The predicate's name.
    pub name: String,
    /// The digest of its schema.
    pub fingerprint: SchemaFingerprint,
    /// The column types, in order.
    pub columns: Vec<Type>,
    /// A description.
    pub doc: String,
}

/// How a descriptor drifted from what its consumer expects.
#[derive(Debug, Clone, PartialEq, Eq)]
pub enum SchemaDrift {
    /// The number of columns differs.
    Arity {
        /// The expected number.
        expected: usize,
        /// The described number.
        got: usize,
    },
    /// A column's type differs (the first such column).
    ColumnType {
        /// The zero-based column.
        column: usize,
        /// The expected type.
        expected: Type,
        /// The described type.
        got: Type,
    },
    /// The columns agree but the fingerprint differs.
    Fingerprint {
        /// The expected fingerprint.
        expected: SchemaFingerprint,
        /// The described fingerprint.
        got: SchemaFingerprint,
    },
}

/// The first column where two lists of types differ, if any (over the
/// shorter length).
pub open spec fn first_type_mismatch(got: Seq<Type>, expected: Seq<Type>) -> Option<int> {
    if exists|c: int| 0 <= c < got.len() && c < expected.len() && got[c] != expected[c] {
        Some(choose|c: int| 0 <= c < got.len() && c < expected.len() && got[c] != expected[c]
            && forall|k: int| 0 <= k < c ==> got[k] == expected[k])
    } else {
        None
    }
}

/// The drift of a descriptor against the expected columns and fingerprint:
/// arity first, then the first differing column, then the fingerprint.
pub open spec fn drift_spec(d: PredicateDescriptor, expected: Seq<Type>, expected_fingerprint: SchemaFingerprint) -> Option<SchemaDrift> {
    let columns = d.columns@;
    if columns.len() != expected.len() {
        Some(SchemaDrift::Arity { expected: expected.len() as usize, got: columns.len() as usize })
    } else if first_type_mismatch(columns, expected) is Some {
        let c = first_type_mismatch(columns, expected).unwrap();
        Some(SchemaDrift::ColumnType { column: c as usize, expected: expected[c], got: columns[c] })
    } else if d.fingerprint.bytes() != expected_fingerprint.bytes() {
        Some(SchemaDrift::Fingerprint { expected: expected_fingerprint, got: d.fingerprint })
    } else {
        None
    }
}

proof fn lemma_first_mismatch(got: Seq<Type>, expected: Seq<Type>, c: int)
    requires
        0 <= c < got.len(),
        c < expected.len(),
        got[c] != expected[c],
    ensures
        exists|k: int| 0 <= k < got.len() && k < expected.len() && got[k] != expected[k]
            && forall|j: int| 0 <= j < k ==> got[j] == expected[j],
    decreases c,
{
    if exists|j: int| 0 <= j < c && got[j] != expected[j] {
        let j = choose|j: int| 0 <= j < c && got[j] != expected[j];
        lemma_first_mismatch(got, expected, j);
    } else {
        assert(forall|j: int| 0 <= j < c ==> got[j] == expected[j]);
    }
}

/// Whether two digests are equal.
fn same_digest(a: &[u8; 32], b: &[u8; 32]) -> (r: bool)
    ensures
        r == (a@ == b@),
{
    let mut i: usize = 0;
    while i < 32
        invariant
            i <= 32,
            a@.len() == 32,
            b@.len() == 32,
            forall|k: int| 0 <= k < i ==> a@[k] == b@[k],
        decreases 32 - i,
    {
        if a[i] != b[i] {
            return false;
        }
        i += 1;
    }
    assert(a@ =~= b@);
    true
}

impl PredicateDescriptor {
    /// The number of columns.
    pub fn arity(&self) -> (r: usize)
        ensures
            r == self.columns@.len(),
    {
        self.columns.len()
    }

    /// Checks the descriptor against what its consumer expects: the arity,
    /// then each column's type, then the fingerprint (compared only when the
    /// columns agree).
    pub fn validate(&self, expected_columns: &[Type], expected_fingerprint: SchemaFingerprint) -> (r: Result<(), SchemaDrift>)
        ensures
            match drift_spec(*self, expected_columns@, expected_fingerprint) {
                Some(d) => r == Err::<(), SchemaDrift>(d),
                None => r is Ok,
            },
    {
        if self.columns.len() != expected_columns.len() {
            return Err(SchemaDrift::Arity { expected: expected_columns.len(), got: self.columns.len() });
        }
        let mut c: usize = 0;
        while c < self.columns.len()
            invariant
                c <= self.columns@.len(),
                self.columns@.len() == expected_columns@.len(),
                forall|k: int| 0 <= k < c ==> self.columns@[k] == expected_columns@[k],
            decreases self.columns@.len() - c,
        {
            if self.columns[c] != expected_columns[c] {
                proof {
                    lemma_first_mismatch(self.columns@, expected_columns@, c as int);
                    let f = first_type_mismatch(self.columns@, expected_columns@).unwrap();
                    if f < c { assert(self.columns@[f] == expected_columns@[f]); }
                    if f > c { assert(self.columns@[c as int] == expected_columns@[c as int]); }
                }
                return Err(SchemaDrift::ColumnType { column: c, expected: expected_columns[c], got: self.columns[c] });
            }
            c += 1;
        }
        assert(self.columns@ =~= expected_columns@);
        if !same_digest(self.fingerprint.as_bytes(), expected_fingerprint.as_bytes()) {
            return Err(SchemaDrift::Fingerprint { expected: expected_fingerprint, got: self.fingerprint });
        }
        Ok(())
    }
}

/// A tuple lowered by a fact source into engine values.
#[derive(Debug, Clone, PartialEq, Eq)]
pub struct LoweredTuple {
    /// The predicate it belongs to.
    pub predicate: PredicateId,
    /// Its values, in column order.
    pub values: Vec<Value>,
}

/// The lowered tuples of a fact source, handed out one at a time.
pub struct TupleStream {
    rest: Vec<LoweredTuple>,
}

impl TupleStream {
    /// A stream of the given tuples, in order.
    pub fn new(items: Vec<LoweredTuple>) -> (r: TupleStream)
        ensures
            r.remaining() == items@,
    {
        let ghost all = items@;
        let mut items = items;
        let mut rest: Vec<LoweredTuple> = Vec::new();
        while items.len() > 0
            invariant
                items@ + rest@.reverse() == all,
            decreases items@.len(),
        {
            let ghost before = items@;
            let ghost r0 = rest@;
            let t = items.pop().unwrap();
            rest.push(t);
            assert(before =~= items@.push(t));
            assert(rest@.reverse() =~= seq![t] + r0.reverse());
            assert(items@ + rest@.reverse() =~= all);
        }
        assert(items@ + rest@.reverse() =~= rest@.reverse());
        TupleStream { rest }
    }

    /// The tuples not yet handed out, in order.
    pub closed spec fn remaining(&self) -> Seq<LoweredTuple> {
        self.rest@.reverse()
    }

    /// Hands out the next tuple, if any.
    pub fn next_tuple(&mut self) -> (r: Option<LoweredTuple>)
        ensures
            old(self).remaining().len() == 0 ==> r is None && final(self).remaining() == old(self).remaining(),
            old(self).remaining().len() > 0 ==> r == Some(old(self).remaining()[0])
                && final(self).remaining() == old(self).remaining().drop_first(),
    {
        let ghost r0 = self.rest@;
        let r = self.rest.pop();
        proof {
            if r0.len() > 0 {
                assert(r0 =~= self.rest@.push(r.unwrap()));
                assert(r0.reverse() =~= seq![r.unwrap()] + self.rest@.reverse());
                assert(self.rest@.reverse() =~= r0.reverse().drop_first());
            }
        }
        r
    }
}

/// A fact source: its predicates, its content identity, and its tuples.
pub trait FactSource {
    /// What can go wrong reading the source.
    type Error;

    /// The predicates the source provides.
    fn schema(&self) -> &[PredicateDescriptor];

    /// The identity of the source's contents.
    fn content_id(&self) -> ContentId;

    /// The source's tuples, with symbols interned into `interner`.
    fn tuples(&self, interner: &mut Interner) -> Result<TupleStream, Self::Error>;
}

} // verus!
