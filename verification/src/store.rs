//! The relational database: one store of tuples per declared relation, with
//! set semantics or lattice (join-on-key) semantics.

use vstd::prelude::*;

use crate::error::EvalError;
use crate::ir::{join_spec, LatticeKind, Program, RelationDecl, RelationKind};
use crate::value::{type_of_spec, Type, Value};

verus! {

/// The mathematical contents of one relation.
pub struct RelView {
    /// The relation's name.
    pub name: Seq<char>,
    /// Set vs lattice semantics.
    pub kind: RelationKind,
    /// The declared column types.
    pub schema: Seq<Type>,
    /// The stored tuples, in storage order.
    pub rows: Seq<Seq<Value>>,
}

/// Whether two lattice rows share their key (all columns but the last).
pub open spec fn same_key(a: Seq<Value>, b: Seq<Value>) -> bool {
    a.drop_last() == b.drop_last()
}

/// The invariant of a relation's store: no duplicate tuples, every tuple has
/// the declared arity, and a lattice relation has a value column and at most
/// one tuple per key.
pub open spec fn rel_wf(r: RelView) -> bool {
    &&& r.rows.no_duplicates()
    &&& forall|i: int| 0 <= i < r.rows.len() ==> #[trigger] r.rows[i].len() == r.schema.len()
    &&& r.kind is Lattice ==> {
        &&& r.schema.len() >= 1
        &&& forall|i: int, j: int| 0 <= i < r.rows.len() && 0 <= j < r.rows.len() && i != j
            ==> !same_key(#[trigger] r.rows[i], #[trigger] r.rows[j])
    }
}

/// Whether some row of a lattice relation has the key of `t`.
pub open spec fn has_key(rows: Seq<Seq<Value>>, t: Seq<Value>) -> bool {
    exists|i: int| 0 <= i < rows.len() && same_key(rows[i], t)
}

/// The row of a lattice relation with the key of `t`.
pub open spec fn key_slot(rows: Seq<Seq<Value>>, t: Seq<Value>) -> int {
    choose|i: int| 0 <= i < rows.len() && same_key(rows[i], t)
}

/// Inserting a tuple: a set relation gains it if absent; a lattice relation
/// joins the new value into the row with the same key (changing it only if
/// the join differs from the stored value), or gains the tuple if the key is
/// new. The flag says whether the relation changed.
pub open spec fn insert_spec(r: RelView, t: Seq<Value>) -> (Seq<Seq<Value>>, bool) {
    match r.kind {
        RelationKind::Relation => if r.rows.contains(t) {
            (r.rows, false)
        } else {
            (r.rows.push(t), true)
        },
        RelationKind::Lattice(k) => if has_key(r.rows, t) {
            let i = key_slot(r.rows, t);
            let old_v = r.rows[i].last();
            let joined = join_spec(k, old_v, t.last());
            if joined == old_v {
                (r.rows, false)
            } else {
                (r.rows.update(i, t.drop_last().push(joined)), true)
            }
        } else {
            (r.rows.push(t), true)
        },
    }
}

/// A tuple is absorbed by a relation when inserting it changes nothing.
pub open spec fn absorbed(r: RelView, t: Seq<Value>) -> bool {
    !insert_spec(r, t).1
}

/// The relation with its rows replaced.
pub open spec fn with_rows(r: RelView, rows: Seq<Seq<Value>>) -> RelView {
    RelView { rows, ..r }
}

/// The index of the first relation named `name`.
#[verifier::opaque]
pub open spec fn rel_index(db: Seq<RelView>, name: Seq<char>) -> Option<int> {
    if exists|i: int| 0 <= i < db.len() && db[i].name == name {
        Some(choose|i: int| 0 <= i < db.len() && db[i].name == name
            && forall|j: int| 0 <= j < i ==> db[j].name != name)
    } else {
        None
    }
}

/// The rows of the relation named `name`, if declared.
pub open spec fn rows_of(db: Seq<RelView>, name: Seq<char>) -> Option<Seq<Seq<Value>>> {
    match rel_index(db, name) {
        Some(i) => Some(db[i].rows),
        None => None,
    }
}

/// The first-relation lookup is well defined.
pub proof fn lemma_rel_index(db: Seq<RelView>, name: Seq<char>)
    ensures
        match rel_index(db, name) {
            Some(i) => 0 <= i < db.len() && db[i].name == name
                && forall|j: int| 0 <= j < i ==> db[j].name != name,
            None => forall|j: int| 0 <= j < db.len() ==> db[j].name != name,
        },
{
    reveal(rel_index);
    if exists|i: int| 0 <= i < db.len() && db[i].name == name {
        let i = choose|i: int| 0 <= i < db.len() && db[i].name == name;
        lemma_first_rel(db, name, i);
    }
}

proof fn lemma_first_rel(db: Seq<RelView>, name: Seq<char>, i: int)
    requires
        0 <= i < db.len(),
        db[i].name == name,
    ensures
        exists|k: int| 0 <= k < db.len() && db[k].name == name
            && forall|j: int| 0 <= j < k ==> db[j].name != name,
    decreases i,
{
    if exists|j: int| 0 <= j < i && db[j].name == name {
        let j = choose|j: int| 0 <= j < i && db[j].name == name;
        lemma_first_rel(db, name, j);
    } else {
        assert(forall|j: int| 0 <= j < i ==> db[j].name != name);
    }
}

/// Two databases with the same relations (names, kinds, schemas) in the same order.
pub open spec fn same_shape(a: Seq<RelView>, b: Seq<RelView>) -> bool {
    &&& a.len() == b.len()
    &&& forall|i: int| 0 <= i < a.len() ==> #[trigger] a[i].name == b[i].name
        && a[i].kind == b[i].kind && a[i].schema == b[i].schema
}

/// Whether relation `b` keeps tuple `t` of relation `a`: a set relation
/// still holds it, a lattice relation still has a row with its key.
pub open spec fn kept(a: RelView, b: RelView, t: Seq<Value>) -> bool {
    if a.kind is Lattice { has_key(b.rows, t) } else { b.rows.contains(t) }
}

/// Whether `b` keeps every tuple of `a`, relation by relation.
pub open spec fn grows(a: Seq<RelView>, b: Seq<RelView>) -> bool {
    &&& a.len() == b.len()
    &&& forall|i: int, t: Seq<Value>| 0 <= i < a.len() && (#[trigger] a[i].rows.contains(t)) ==> kept(a[i], b[i], t)
}

/// A database keeps its own tuples.
pub proof fn lemma_grows_refl(a: Seq<RelView>)
    ensures
        grows(a, a),
{
    assert forall|i: int, t: Seq<Value>| 0 <= i < a.len() && (#[trigger] a[i].rows.contains(t)) implies kept(a[i], a[i], t) by {
        if a[i].kind is Lattice {
            let j = choose|j: int| 0 <= j < a[i].rows.len() && a[i].rows[j] == t;
            assert(same_key(a[i].rows[j], t));
        }
    }
}

/// Keeping tuples composes.
pub proof fn lemma_grows_trans(a: Seq<RelView>, b: Seq<RelView>, c: Seq<RelView>)
    requires
        same_shape(a, b),
        grows(a, b),
        grows(b, c),
    ensures
        grows(a, c),
{
    assert forall|i: int, t: Seq<Value>| 0 <= i < a.len() && (#[trigger] a[i].rows.contains(t)) implies kept(a[i], c[i], t) by {
        assert(kept(a[i], b[i], t));
        assert(a[i].name == b[i].name);
        assert(a[i].kind == b[i].kind);
        if a[i].kind is Lattice {
            let j = choose|j: int| 0 <= j < b[i].rows.len() && same_key(b[i].rows[j], t);
            let r = b[i].rows[j];
            assert(b[i].rows.contains(r));
            assert(kept(b[i], c[i], r));
            let w = choose|w: int| 0 <= w < c[i].rows.len() && same_key(c[i].rows[w], r);
            assert(same_key(c[i].rows[w], t));
        }
    }
}

/// Inserting a tuple keeps every tuple already stored.
pub proof fn lemma_insert_grows(db: Seq<RelView>, name: Seq<char>, t: Seq<Value>, typed: bool)
    ensures
        grows(db, insert_effect(db, name, t, typed)),
{
    let after = insert_effect(db, name, t, typed);
    if insert_outcome(db, name, t, typed) is Inserted {
        lemma_outcome_inserted(db, name, t, typed);
        let x = rel_index(db, name).unwrap();
        let r = db[x];
        assert forall|i: int, u: Seq<Value>| 0 <= i < db.len() && (#[trigger] db[i].rows.contains(u)) implies kept(db[i], after[i], u) by {
            if i != x {
                assert(after[i] == db[i]);
                if db[i].kind is Lattice {
                    let j = choose|j: int| 0 <= j < db[i].rows.len() && db[i].rows[j] == u;
                    assert(same_key(db[i].rows[j], u));
                }
            } else {
                let rows = insert_spec(r, t).0;
                assert(after[i].rows == rows);
                let j = choose|j: int| 0 <= j < r.rows.len() && r.rows[j] == u;
                match r.kind {
                    RelationKind::Relation => {
                        if !r.rows.contains(t) {
                            assert(rows[j] == u);
                        }
                    },
                    RelationKind::Lattice(k) => {
                        if has_key(r.rows, t) {
                            let s = key_slot(r.rows, t);
                            let joined = join_spec(k, r.rows[s].last(), t.last());
                            if joined != r.rows[s].last() {
                                let nr = t.drop_last().push(joined);
                                assert(nr.drop_last() =~= t.drop_last());
                                if j == s {
                                    assert(rows[s] == nr);
                                    assert(same_key(rows[s], u));
                                } else {
                                    assert(rows[j] == u);
                                    assert(same_key(rows[j], u));
                                }
                            } else {
                                assert(same_key(rows[j], u));
                            }
                        } else {
                            assert(rows[j] == u);
                            assert(same_key(rows[j], u));
                        }
                    },
                }
            }
        }
    } else {
        lemma_grows_refl(db);
    }
}

/// Shape-equal databases resolve names to the same index.
pub proof fn lemma_same_shape_index(a: Seq<RelView>, b: Seq<RelView>, name: Seq<char>)
    requires
        same_shape(a, b),
    ensures
        rel_index(a, name) == rel_index(b, name),
{
    lemma_rel_index(a, name);
    lemma_rel_index(b, name);
    match rel_index(a, name) {
        Some(i) => {
            assert(a[i].name == b[i].name);
            match rel_index(b, name) {
                Some(j) => {
                    if j < i { assert(a[j].name == b[j].name); }
                    if i < j { assert(a[i].name == b[i].name); }
                },
                None => { assert(b[i].name == name); },
            }
        },
        None => {
            match rel_index(b, name) {
                Some(j) => { assert(a[j].name == b[j].name); },
                None => {},
            }
        },
    }
}

/// Whether every tuple of a list has the given values, elementwise.
pub open spec fn rows_view(v: Seq<Vec<Value>>) -> Seq<Seq<Value>> {
    v.map_values(|t: Vec<Value>| t@)
}

/// A copy of a tuple.
pub fn copy_tuple(t: &Vec<Value>) -> (r: Vec<Value>)
    ensures
        r@ == t@,
{
    let mut r: Vec<Value> = Vec::new();
    let mut i: usize = 0;
    while i < t.len()
        invariant
            i <= t.len(),
            r@ =~= t@.subrange(0, i as int),
        decreases t.len() - i,
    {
        r.push(t[i]);
        i += 1;
    }
    assert(t@.subrange(0, i as int) =~= t@);
    r
}

/// A copy of a list of tuples.
pub fn copy_rows(rows: &Vec<Vec<Value>>) -> (r: Vec<Vec<Value>>)
    ensures
        rows_view(r@) == rows_view(rows@),
{
    let mut r: Vec<Vec<Value>> = Vec::new();
    let mut i: usize = 0;
    while i < rows.len()
        invariant
            i <= rows.len(),
            r@.len() == i,
            forall|j: int| 0 <= j < i ==> (#[trigger] r@[j])@ == rows@[j]@,
        decreases rows.len() - i,
    {
        r.push(copy_tuple(&rows[i]));
        i += 1;
    }
    assert(rows_view(r@) =~= rows_view(rows@));
    r
}

pub(crate) fn copy_types(t: &Vec<Type>) -> (r: Vec<Type>)
    ensures
        r@ == t@,
{
    let mut r: Vec<Type> = Vec::new();
    let mut i: usize = 0;
    while i < t.len()
        invariant
            i <= t.len(),
            r@ =~= t@.subrange(0, i as int),
        decreases t.len() - i,
    {
        r.push(t[i]);
        i += 1;
    }
    assert(t@.subrange(0, i as int) =~= t@);
    r
}

/// Whether two tuples are equal.
pub fn tuple_eq(a: &[Value], b: &[Value]) -> (r: bool)
    ensures
        r == (a@ == b@),
{
    if a.len() != b.len() {
        return false;
    }
    let mut i: usize = 0;
    while i < a.len()
        invariant
            a.len() == b.len(),
            i <= a.len(),
            forall|j: int| 0 <= j < i ==> a@[j] == b@[j],
        decreases a.len() - i,
    {
        if a[i] != b[i] {
            return false;
        }
        i += 1;
    }
    assert(a@ =~= b@);
    true
}

/// Whether the first `n` values of two tuples agree.
pub(crate) fn prefix_eq(a: &[Value], b: &[Value], n: usize) -> (r: bool)
    requires
        n <= a.len(),
        n <= b.len(),
    ensures
        r == (a@.subrange(0, n as int) == b@.subrange(0, n as int)),
{
    let mut i: usize = 0;
    while i < n
        invariant
            n <= a.len(),
            n <= b.len(),
            i <= n,
            forall|j: int| 0 <= j < i ==> a@[j] == b@[j],
        decreases n - i,
    {
        if a[i] != b[i] {
            assert(a@.subrange(0, n as int)[i as int] != b@.subrange(0, n as int)[i as int]);
            return false;
        }
        i += 1;
    }
    assert(a@.subrange(0, n as int) =~= b@.subrange(0, n as int));
    true
}

/// The stored contents of a single relation.
#[derive(Debug)]
pub struct RelationStore {
    name: String,
    kind: RelationKind,
    schema: Vec<Type>,
    tuples: Vec<Vec<Value>>,
}

impl View for RelationStore {
    type V = RelView;

    closed spec fn view(&self) -> RelView {
        RelView {
            name: self.name@,
            kind: self.kind,
            schema: self.schema@,
            rows: rows_view(self.tuples@),
        }
    }
}

/// The empty store for a declaration.
pub open spec fn empty_rel(d: RelationDecl) -> RelView {
    RelView { name: d.name@, kind: d.kind, schema: d.schema@, rows: Seq::empty() }
}

impl RelationStore {
    fn new(decl: &RelationDecl) -> (r: RelationStore)
        ensures
            r@ == empty_rel(*decl),
    {
        let r = RelationStore {
            name: decl.name.clone(),
            kind: decl.kind,
            schema: copy_types(&decl.schema),
            tuples: Vec::new(),
        };
        assert(r@.rows =~= Seq::<Seq<Value>>::empty());
        r
    }

    fn arity(&self) -> (r: usize)
        ensures
            r == self@.schema.len(),
    {
        self.schema.len()
    }

    fn contains(&self, t: &Vec<Value>) -> (r: bool)
        ensures
            r == self@.rows.contains(t@),
    {
        let mut i: usize = 0;
        while i < self.tuples.len()
            invariant
                i <= self.tuples.len(),
                forall|j: int| 0 <= j < i ==> self@.rows[j] != t@,
            decreases self.tuples.len() - i,
        {
            assert(self@.rows[i as int] == self.tuples@[i as int]@);
            if tuple_eq(&self.tuples[i], t) {
                return true;
            }
            i += 1;
        }
        proof {
            if self@.rows.contains(t@) {
                let j = choose|j: int| 0 <= j < self@.rows.len() && self@.rows[j] == t@;
                assert(self@.rows[j] != t@);
            }
        }
        false
    }

    /// Inserts a tuple, applying lattice join for lattice relations. Returns
    /// whether the relation changed.
    fn insert(&mut self, tuple: Vec<Value>) -> (changed: bool)
        requires
            rel_wf(old(self)@),
            tuple@.len() == old(self)@.schema.len(),
        ensures
            rel_wf(final(self)@),
            final(self)@ == with_rows(old(self)@, insert_spec(old(self)@, tuple@).0),
            changed == insert_spec(old(self)@, tuple@).1,
    {
        let ghost r0 = self@;
        match self.kind {
            RelationKind::Relation => {
                if self.contains(&tuple) {
                    false
                } else {
                    let ghost t = tuple@;
                    self.tuples.push(tuple);
                    proof {
                        assert(self@.rows =~= r0.rows.push(t));
                        assert forall|a: int, b: int| 0 <= a < b < self@.rows.len()
                            implies self@.rows[a] != self@.rows[b] by {
                            if b == r0.rows.len() {
                                assert(r0.rows.contains(r0.rows[a]));
                            }
                        }
                    }
                    true
                }
            },
            RelationKind::Lattice(kind) => {
                let n = self.schema.len() - 1;
                let mut i: usize = 0;
                while i < self.tuples.len()
                    invariant
                        self@ == r0,
                        r0 == old(self)@,
                        rel_wf(r0),
                        r0.kind == RelationKind::Lattice(kind),
                        n + 1 == r0.schema.len(),
                        tuple@.len() == r0.schema.len(),
                        i <= self.tuples.len(),
                        forall|j: int| 0 <= j < i ==> !same_key(r0.rows[j], tuple@),
                    decreases self.tuples.len() - i,
                {
                    assert(r0.rows[i as int] == self.tuples@[i as int]@);
                    assert(r0.rows[i as int].len() == r0.schema.len());
                    if prefix_eq(&self.tuples[i], &tuple, n) {
                        proof {
                            assert(r0.rows[i as int].drop_last() =~= r0.rows[i as int].subrange(0, n as int));
                            assert(tuple@.drop_last() =~= tuple@.subrange(0, n as int));
                            assert(same_key(r0.rows[i as int], tuple@));
                            let k = key_slot(r0.rows, tuple@);
                            assert(k == i) by {
                                if k != i {
                                    assert(!same_key(r0.rows[k], r0.rows[i as int]));
                                }
                            }
                        }
                        let existing = self.tuples[i][n];
                        let joined = kind.join(existing, tuple[n]);
                        assert(existing == r0.rows[i as int].last());
                        assert(tuple[n as int] == tuple@.last());
                        if joined == existing {
                            proof {
                                assert(insert_spec(r0, tuple@).1 == false);
                                assert(with_rows(r0, r0.rows) == r0);
                            }
                            return false;
                        }
                        let mut new_tuple = tuple;
                        let ghost key = new_tuple@.drop_last();
                        new_tuple.set(n, joined);
                        assert(new_tuple@ =~= key.push(joined));
                        self.tuples.set(i, new_tuple);
                        proof {
                            assert(self@.rows =~= r0.rows.update(i as int, key.push(joined)));
                            let rows = self@.rows;
                            assert forall|a: int, b: int| 0 <= a < rows.len() && 0 <= b < rows.len() && a != b
                                implies !same_key(#[trigger] rows[a], #[trigger] rows[b]) by {
                                assert(key.push(joined).drop_last() =~= key);
                                if a == i {
                                    assert(!same_key(r0.rows[i as int], r0.rows[b]));
                                } else if b == i {
                                    assert(!same_key(r0.rows[a], r0.rows[i as int]));
                                } else {
                                    assert(!same_key(r0.rows[a], r0.rows[b]));
                                }
                            }
                            assert forall|a: int, b: int| 0 <= a < b < rows.len()
                                implies rows[a] != rows[b] by {
                                assert(!same_key(rows[a], rows[b]));
                            }
                        }
                        return true;
                    }
                    i += 1;
                }
                let ghost t = tuple@;
                self.tuples.push(tuple);
                proof {
                    assert(!has_key(r0.rows, t));
                    assert(self@.rows =~= r0.rows.push(t));
                    let rows = self@.rows;
                    assert forall|a: int, b: int| 0 <= a < rows.len() && 0 <= b < rows.len() && a != b
                        implies !same_key(#[trigger] rows[a], #[trigger] rows[b]) by {
                        if a == r0.rows.len() {
                            assert(!same_key(r0.rows[b], t));
                        } else if b == r0.rows.len() {
                            assert(!same_key(r0.rows[a], t));
                        } else {
                            assert(!same_key(r0.rows[a], r0.rows[b]));
                        }
                    }
                    assert forall|a: int, b: int| 0 <= a < b < rows.len()
                        implies rows[a] != rows[b] by {
                        assert(!same_key(rows[a], rows[b]));
                    }
                }
                true
            },
        }
    }
}

/// A relational database: one [`RelationStore`] per declared relation.
#[derive(Debug)]
pub struct Database {
    relations: Vec<RelationStore>,
}

impl View for Database {
    type V = Seq<RelView>;

    closed spec fn view(&self) -> Seq<RelView> {
        self.relations@.map_values(|r: RelationStore| r@)
    }
}

/// The invariant of a database: every relation store is well formed.
pub open spec fn db_wf(db: Seq<RelView>) -> bool {
    forall|i: int| 0 <= i < db.len() ==> #[trigger] rel_wf(db[i])
}

/// Whether every lattice declaration has a value column (the stores'
/// precondition for joining).
pub open spec fn decls_storable(rels: Seq<RelationDecl>) -> bool {
    forall|i: int| 0 <= i < rels.len() ==> (#[trigger] rels[i]).kind is Lattice ==> rels[i].schema@.len() >= 1
}

/// The database after replacing relation `i`'s rows.
pub open spec fn db_with_rows(db: Seq<RelView>, i: int, rows: Seq<Seq<Value>>) -> Seq<RelView> {
    db.update(i, with_rows(db[i], rows))
}

/// What inserting `t` into relation `name` does to the database (when declared).
pub open spec fn db_insert(db: Seq<RelView>, name: Seq<char>, t: Seq<Value>) -> Seq<RelView> {
    match rel_index(db, name) {
        Some(i) => db_with_rows(db, i, insert_spec(db[i], t).0),
        None => db,
    }
}

/// Whether a tuple is already absorbed by the named relation.
pub open spec fn db_absorbed(db: Seq<RelView>, name: Seq<char>, t: Seq<Value>) -> bool {
    match rel_index(db, name) {
        Some(i) => t.len() == db[i].schema.len() && absorbed(db[i], t),
        None => false,
    }
}

/// What inserting a tuple into a named relation does.
pub enum InsertOutcome {
    /// No relation has the name.
    Unknown,
    /// The tuple's length disagrees with the declared arity.
    Arity { expected: nat, got: nat },
    /// A column's type disagrees with the declared type (the first such column).
    ColumnType { column: nat, expected: Type, got: Type },
    /// The tuple was inserted; the flag says whether the relation changed.
    Inserted(bool),
}

/// The first column of `t` whose type disagrees with `schema`, if any.
pub open spec fn first_bad_column(t: Seq<Value>, schema: Seq<Type>) -> Option<int> {
    if exists|c: int| 0 <= c < t.len() && type_of_spec(t[c]) != schema[c] {
        Some(choose|c: int| 0 <= c < t.len() && type_of_spec(t[c]) != schema[c]
            && forall|k: int| 0 <= k < c ==> type_of_spec(t[k]) == schema[k])
    } else {
        None
    }
}

/// The outcome of inserting `t` into relation `name`, with or without the
/// per-column type check.
#[verifier::opaque]
pub open spec fn insert_outcome(db: Seq<RelView>, name: Seq<char>, t: Seq<Value>, typed: bool) -> InsertOutcome {
    match rel_index(db, name) {
        None => InsertOutcome::Unknown,
        Some(i) => if t.len() != db[i].schema.len() {
            InsertOutcome::Arity { expected: db[i].schema.len(), got: t.len() }
        } else if typed && first_bad_column(t, db[i].schema) is Some {
            let c = first_bad_column(t, db[i].schema).unwrap();
            InsertOutcome::ColumnType { column: c as nat, expected: db[i].schema[c], got: type_of_spec(t[c]) }
        } else {
            InsertOutcome::Inserted(insert_spec(db[i], t).1)
        },
    }
}

/// The outcome for a declared relation at index `i`.
pub proof fn lemma_outcome_at(db: Seq<RelView>, name: Seq<char>, t: Seq<Value>, typed: bool, i: int)
    requires
        rel_index(db, name) == Some(i),
    ensures
        insert_outcome(db, name, t, typed) == (if t.len() != db[i].schema.len() {
            InsertOutcome::Arity { expected: db[i].schema.len(), got: t.len() }
        } else if typed && first_bad_column(t, db[i].schema) is Some {
            let c = first_bad_column(t, db[i].schema).unwrap();
            InsertOutcome::ColumnType { column: c as nat, expected: db[i].schema[c], got: type_of_spec(t[c]) }
        } else {
            InsertOutcome::Inserted(insert_spec(db[i], t).1)
        }),
{
    reveal(insert_outcome);
}

/// The outcome for an undeclared relation.
pub proof fn lemma_outcome_unknown(db: Seq<RelView>, name: Seq<char>, t: Seq<Value>, typed: bool)
    requires
        rel_index(db, name) is None,
    ensures
        insert_outcome(db, name, t, typed) == InsertOutcome::Unknown,
{
    reveal(insert_outcome);
}

/// A successful insertion happened into a declared relation of the right arity.
pub proof fn lemma_outcome_inserted(db: Seq<RelView>, name: Seq<char>, t: Seq<Value>, typed: bool)
    requires
        insert_outcome(db, name, t, typed) is Inserted,
    ensures
        rel_index(db, name) is Some,
        0 <= rel_index(db, name).unwrap() < db.len(),
        db[rel_index(db, name).unwrap()].name == name,
        t.len() == db[rel_index(db, name).unwrap()].schema.len(),
        insert_outcome(db, name, t, typed) == InsertOutcome::Inserted(insert_spec(db[rel_index(db, name).unwrap()], t).1),
{
    reveal(insert_outcome);
    lemma_rel_index(db, name);
}

/// The database after the insertion (unchanged unless it succeeds).
pub open spec fn insert_effect(db: Seq<RelView>, name: Seq<char>, t: Seq<Value>, typed: bool) -> Seq<RelView> {
    match insert_outcome(db, name, t, typed) {
        InsertOutcome::Inserted(_) => db_insert(db, name, t),
        _ => db,
    }
}

/// Whether an executable insertion result reports the outcome.
pub open spec fn insert_agrees(r: Result<bool, EvalError>, o: InsertOutcome, name: Seq<char>) -> bool {
    match o {
        InsertOutcome::Unknown => r matches Err(EvalError::UnknownRelation(n)) && n@ == name,
        InsertOutcome::Arity { expected, got } => r matches Err(EvalError::Arity { relation: n, expected: e, got: g })
            && n@ == name && e == expected && g == got,
        InsertOutcome::ColumnType { column, expected, got } =>
            r matches Err(EvalError::ColumnType { relation: n, column: c, expected: e, got: g })
            && n@ == name && c == column && e == expected && g == got,
        InsertOutcome::Inserted(changed) => r == Ok::<bool, EvalError>(changed),
    }
}

/// The first-bad-column choice is well defined.
pub proof fn lemma_first_bad_column(t: Seq<Value>, schema: Seq<Type>)
    ensures
        match first_bad_column(t, schema) {
            Some(c) => 0 <= c < t.len() && type_of_spec(t[c]) != schema[c]
                && forall|k: int| 0 <= k < c ==> type_of_spec(t[k]) == schema[k],
            None => forall|c: int| 0 <= c < t.len() ==> type_of_spec(t[c]) == schema[c],
        },
{
    if exists|c: int| 0 <= c < t.len() && type_of_spec(t[c]) != schema[c] {
        let c = choose|c: int| 0 <= c < t.len() && type_of_spec(t[c]) != schema[c];
        lemma_first_bad(t, schema, c);
    }
}

proof fn lemma_first_bad(t: Seq<Value>, schema: Seq<Type>, c: int)
    requires
        0 <= c < t.len(),
        type_of_spec(t[c]) != schema[c],
    ensures
        exists|k: int| 0 <= k < t.len() && type_of_spec(t[k]) != schema[k]
            && forall|j: int| 0 <= j < k ==> type_of_spec(t[j]) == schema[j],
    decreases c,
{
    if exists|j: int| 0 <= j < c && type_of_spec(t[j]) != schema[j] {
        let j = choose|j: int| 0 <= j < c && type_of_spec(t[j]) != schema[j];
        lemma_first_bad(t, schema, j);
    } else {
        assert(forall|j: int| 0 <= j < c ==> type_of_spec(t[j]) == schema[j]);
    }
}

impl Database {
    /// The database invariant holds.
    pub open spec fn wf(&self) -> bool {
        db_wf(self@)
    }

    /// Builds an empty database with a store per declared relation.
    pub fn new(program: &Program) -> (db: Database)
        requires
            decls_storable(program.relations@),
        ensures
            db.wf(),
            db@ == program.relations@.map_values(|d: RelationDecl| empty_rel(d)),
    {
        let mut relations: Vec<RelationStore> = Vec::new();
        let mut i: usize = 0;
        while i < program.relations.len()
            invariant
                i <= program.relations.len(),
                relations@.len() == i,
                forall|j: int| 0 <= j < i ==> (#[trigger] relations@[j])@ == empty_rel(program.relations@[j]),
            decreases program.relations.len() - i,
        {
            relations.push(RelationStore::new(&program.relations[i]));
            i += 1;
        }
        let db = Database { relations };
        assert(db@ =~= program.relations@.map_values(|d: RelationDecl| empty_rel(d)));
        proof {
            assert forall|k: int| 0 <= k < db@.len() implies #[trigger] rel_wf(db@[k]) by {
                assert(db@[k] == empty_rel(program.relations@[k]));
                assert(program.relations@[k].kind is Lattice ==> program.relations@[k].schema@.len() >= 1);
            }
        }
        db
    }

    /// The position of the first store named `name`.
    fn find(&self, name: &String) -> (r: Option<usize>)
        ensures
            match r {
                Some(i) => rel_index(self@, name@) == Some(i as int) && i < self@.len()
                    && self@[i as int].name == name@ && self@[i as int] == self.relations@[i as int]@,
                None => rel_index(self@, name@) is None,
            },
    {
        proof { lemma_rel_index(self@, name@); }
        let mut i: usize = 0;
        while i < self.relations.len()
            invariant
                i <= self.relations.len(),
                forall|j: int| 0 <= j < i ==> self@[j].name != name@,
            decreases self.relations.len() - i,
        {
            assert(self@[i as int].name == self.relations@[i as int].name@);
            if self.relations[i].name == *name {
                proof {
                    lemma_rel_index(self@, name@);
                    let k = rel_index(self@, name@).unwrap();
                    if k < i { assert(self@[k].name != name@); }
                    if k > i { assert(self@[i as int].name == name@); }
                }
                return Some(i);
            }
            i += 1;
        }
        None
    }

    /// A copy of this database.
    pub fn duplicate(&self) -> (r: Database)
        ensures
            r@ == self@,
    {
        let mut relations: Vec<RelationStore> = Vec::new();
        let mut i: usize = 0;
        while i < self.relations.len()
            invariant
                i <= self.relations.len(),
                relations@.len() == i,
                forall|j: int| 0 <= j < i ==> (#[trigger] relations@[j])@ == self@[j],
            decreases self.relations.len() - i,
        {
            let s = &self.relations[i];
            relations.push(RelationStore {
                name: s.name.clone(),
                kind: s.kind,
                schema: copy_types(&s.schema),
                tuples: copy_rows(&s.tuples),
            });
            i += 1;
        }
        let r = Database { relations };
        assert(r@ =~= self@);
        r
    }

    /// Inserts into the store at `i` (internal; arity already checked).
    fn insert_at(&mut self, i: usize, tuple: Vec<Value>) -> (changed: bool)
        requires
            old(self).wf(),
            i < old(self)@.len(),
            tuple@.len() == old(self)@[i as int].schema.len(),
        ensures
            final(self).wf(),
            final(self)@ == db_with_rows(old(self)@, i as int, insert_spec(old(self)@[i as int], tuple@).0),
            changed == insert_spec(old(self)@[i as int], tuple@).1,
    {
        let ghost d0 = self@;
        let mut store = self.relations.remove(i);
        assert(store@ == d0[i as int]);
        let changed = store.insert(tuple);
        self.relations.insert(i, store);
        proof {
            assert(self@ =~= db_with_rows(d0, i as int, insert_spec(d0[i as int], tuple@).0));
            assert forall|k: int| 0 <= k < self@.len() implies #[trigger] rel_wf(self@[k]) by {
                if k != i { assert(rel_wf(d0[k])); }
            }
        }
        changed
    }

    /// Inserts a tuple into the relation named `relation`, validating arity
    /// and applying lattice join. Returns whether the relation changed.
    #[verifier::rlimit(50)]
    pub fn insert_named(&mut self, relation: &String, tuple: Vec<Value>) -> (r: Result<bool, EvalError>)
        requires
            old(self).wf(),
        ensures
            final(self).wf(),
            insert_agrees(r, insert_outcome(old(self)@, relation@, tuple@, false), relation@),
            final(self)@ == insert_effect(old(self)@, relation@, tuple@, false),
    {
        match self.find(relation) {
            None => {
                proof {
                    lemma_outcome_unknown(self@, relation@, tuple@, false);
                    assert(insert_effect(self@, relation@, tuple@, false) == self@);
                }
                Err(EvalError::UnknownRelation(relation.clone()))
            },
            Some(i) => {
                proof { lemma_outcome_at(self@, relation@, tuple@, false, i as int); }
                let arity = self.relations[i].arity();
                if tuple.len() != arity {
                    assert(insert_outcome(self@, relation@, tuple@, false)
                        == InsertOutcome::Arity { expected: arity as nat, got: tuple@.len() });
                    assert(insert_effect(self@, relation@, tuple@, false) == self@);
                    return Err(EvalError::Arity { relation: relation.clone(), expected: arity, got: tuple.len() });
                }
                let ghost d0 = self@;
                assert(insert_outcome(d0, relation@, tuple@, false)
                    == InsertOutcome::Inserted(insert_spec(d0[i as int], tuple@).1));
                let changed = self.insert_at(i, tuple);
                assert(self@ == insert_effect(d0, relation@, tuple@, false));
                Ok(changed)
            },
        }
    }

    /// Inserts a tuple into `relation`, validating arity and applying lattice
    /// join. Returns whether the relation changed.
    pub fn insert(&mut self, relation: &str, tuple: Vec<Value>) -> (r: Result<bool, EvalError>)
        requires
            old(self).wf(),
        ensures
            final(self).wf(),
            insert_agrees(r, insert_outcome(old(self)@, relation@, tuple@, false), relation@),
            final(self)@ == insert_effect(old(self)@, relation@, tuple@, false),
    {
        let owned = relation.to_owned();
        self.insert_named(&owned, tuple)
    }

    /// Asserts an externally-supplied fact into `relation`, validating arity
    /// and the type of every column against the declared schema before
    /// inserting. The first column whose type disagrees is reported.
    #[verifier::rlimit(50)]
    pub fn insert_fact(&mut self, relation: &str, tuple: Vec<Value>) -> (r: Result<bool, EvalError>)
        requires
            old(self).wf(),
        ensures
            final(self).wf(),
            insert_agrees(r, insert_outcome(old(self)@, relation@, tuple@, true), relation@),
            final(self)@ == insert_effect(old(self)@, relation@, tuple@, true),
    {
        let owned = relation.to_owned();
        match self.find(&owned) {
            None => {
                proof {
                    lemma_outcome_unknown(self@, relation@, tuple@, true);
                    assert(insert_effect(self@, relation@, tuple@, true) == self@);
                }
                Err(EvalError::UnknownRelation(owned))
            },
            Some(i) => {
                proof { lemma_outcome_at(self@, relation@, tuple@, true, i as int); }
                let arity = self.relations[i].arity();
                if tuple.len() != arity {
                    assert(insert_outcome(self@, relation@, tuple@, true)
                        == InsertOutcome::Arity { expected: arity as nat, got: tuple@.len() });
                    assert(insert_effect(self@, relation@, tuple@, true) == self@);
                    return Err(EvalError::Arity { relation: owned, expected: arity, got: tuple.len() });
                }
                proof { lemma_first_bad_column(tuple@, self@[i as int].schema); }
                let mut c: usize = 0;
                while c < tuple.len()
                    invariant
                        c <= tuple.len(),
                        tuple@.len() == self@[i as int].schema.len(),
                        i < self@.len(),
                        forall|k: int| 0 <= k < c ==> type_of_spec(tuple@[k]) == self@[i as int].schema[k],
                        self@[i as int] == self.relations@[i as int]@,
                        rel_index(self@, relation@) == Some(i as int),
                        self@ == old(self)@,
                        self.wf(),
                        owned@ == relation@,
                        insert_outcome(old(self)@, relation@, tuple@, true) == (if tuple@.len() != old(self)@[i as int].schema.len() {
                            InsertOutcome::Arity { expected: old(self)@[i as int].schema.len(), got: tuple@.len() }
                        } else if first_bad_column(tuple@, old(self)@[i as int].schema) is Some {
                            let c = first_bad_column(tuple@, old(self)@[i as int].schema).unwrap();
                            InsertOutcome::ColumnType { column: c as nat, expected: old(self)@[i as int].schema[c], got: type_of_spec(tuple@[c]) }
                        } else {
                            InsertOutcome::Inserted(insert_spec(old(self)@[i as int], tuple@).1)
                        }),
                        match first_bad_column(tuple@, self@[i as int].schema) {
                            Some(c) => 0 <= c < tuple@.len() && type_of_spec(tuple@[c]) != self@[i as int].schema[c]
                                && forall|k: int| 0 <= k < c ==> type_of_spec(tuple@[k]) == self@[i as int].schema[k],
                            None => forall|c: int| 0 <= c < tuple@.len() ==> type_of_spec(tuple@[c]) == self@[i as int].schema[c],
                        },
                    decreases tuple.len() - c,
                {
                    let got = tuple[c].type_of();
                    assert(self@[i as int].schema == self.relations@[i as int].schema@);
                    let expected = self.relations[i].schema[c];
                    if got != expected {
                        proof {
                            let f = first_bad_column(tuple@, self@[i as int].schema).unwrap();
                            if f < c { assert(type_of_spec(tuple@[f]) == self@[i as int].schema[f]); }
                            if f > c { assert(type_of_spec(tuple@[c as int]) == self@[i as int].schema[c as int]); }
                            assert(f == c);
                            assert(insert_outcome(self@, relation@, tuple@, true)
                                == InsertOutcome::ColumnType { column: c as nat, expected, got });
                            assert(insert_effect(self@, relation@, tuple@, true) == self@);
                        }
                        return Err(EvalError::ColumnType { relation: owned, column: c, expected, got });
                    }
                    c += 1;
                }
                let ghost d0 = self@;
                assert(first_bad_column(tuple@, d0[i as int].schema) is None);
                assert(insert_outcome(d0, relation@, tuple@, true)
                    == InsertOutcome::Inserted(insert_spec(d0[i as int], tuple@).1));
                let changed = self.insert_at(i, tuple);
                assert(self@ == insert_effect(d0, relation@, tuple@, true));
                Ok(changed)
            },
        }
    }

    /// The tuples of the relation at `i`.
    fn rows_at(&self, i: usize) -> (r: Vec<Vec<Value>>)
        requires
            i < self@.len(),
        ensures
            rows_view(r@) == self@[i as int].rows,
    {
        copy_rows(&self.relations[i].tuples)
    }

    /// Returns the tuples of `relation`, or none if it is not declared.
    pub fn tuples(&self, relation: &str) -> (r: Vec<Vec<Value>>)
        ensures
            match rows_of(self@, relation@) {
                Some(rows) => rows_view(r@) == rows,
                None => r@.len() == 0,
            },
    {
        let owned = relation.to_owned();
        match self.find(&owned) {
            Some(i) => self.rows_at(i),
            None => Vec::new(),
        }
    }

    /// Whether `relation` is declared.
    pub fn has_relation(&self, relation: &String) -> (r: bool)
        ensures
            r == (rel_index(self@, relation@) is Some),
    {
        self.find(relation).is_some()
    }

    /// The tuples of `relation`, or an error if it is not declared.
    pub fn snapshot(&self, relation: &String) -> (r: Result<Vec<Vec<Value>>, EvalError>)
        ensures
            match rows_of(self@, relation@) {
                Some(rows) => r matches Ok(v) && rows_view(v@) == rows,
                None => r matches Err(EvalError::UnknownRelation(n)) && n@ == relation@,
            },
    {
        match self.find(relation) {
            Some(i) => Ok(self.rows_at(i)),
            None => Err(EvalError::UnknownRelation(relation.clone())),
        }
    }
}

} // verus!
