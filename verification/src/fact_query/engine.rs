//! The fact base of the queries grain over an engine: a conjunctive query is
//! lowered onto the engine's read-only ad-hoc query, and the per-join
//! solutions it returns are grouped into distinct rows with their provenance.

use vstd::prelude::*;

use crate::engine::Engine;
use crate::eval::ExprEval;
use crate::explain::{qsol_view, query_spec, support_view, QueryOutput, QuerySolution, Support};
use crate::fact_query::error::FactQueryError;
use crate::fact_query::query::{safe_spec, ConjunctiveQuery};
use crate::fact_query::typing::{body_typed, check_query_types};
use crate::fact_query::result::{Justification, Provenance, ResultSet, RowProvenance, SupportTuple};
use crate::fact_query::schema::{RelationSchema, Schema};
use crate::fact_query::{Cardinality, FactStore};
use crate::parser::{clauses_view, parse_query_spec};
use crate::store::{copy_tuple, copy_types, rows_view, tuple_eq};
use crate::strata::body_valid;
use crate::value::{Symbol, Value};

verus! {

/// The distinct tuples of `ts`, in order of first occurrence.
pub open spec fn distinct_rows(ts: Seq<Seq<Value>>) -> Seq<Seq<Value>>
    decreases ts.len(),
{
    if ts.len() == 0 {
        Seq::empty()
    } else {
        let prev = distinct_rows(ts.drop_last());
        if prev.contains(ts.last()) {
            prev
        } else {
            prev.push(ts.last())
        }
    }
}

/// The supports of the solutions whose tuple is `row`, in solution order.
pub open spec fn justifications_of(sols: Seq<(Seq<Value>, Support)>, row: Seq<Value>) -> Seq<Support>
    decreases sols.len(),
{
    if sols.len() == 0 {
        Seq::empty()
    } else {
        let prev = justifications_of(sols.drop_last(), row);
        if sols.last().0 == row {
            prev.push(sols.last().1)
        } else {
            prev
        }
    }
}

/// The output tuples of a list of solutions.
pub open spec fn tuples_of(sols: Seq<(Seq<Value>, Support)>) -> Seq<Seq<Value>> {
    sols.map_values(|s: (Seq<Value>, Support)| s.0)
}

/// One entry per distinct output tuple, in order of first occurrence, with
/// the supports of every solution that produced it.
pub open spec fn group_spec(sols: Seq<(Seq<Value>, Support)>) -> Seq<(Seq<Value>, Seq<Support>)> {
    distinct_rows(tuples_of(sols)).map_values(|row: Seq<Value>| (row, justifications_of(sols, row)))
}

/// A justification as values.
pub open spec fn justification_view(j: Justification) -> Support {
    j.support@.map_values(|t: SupportTuple| (t.relation@, t.tuple@))
}

/// A row's provenance as values.
pub open spec fn row_provenance_view(p: RowProvenance) -> (Seq<Value>, Seq<Support>) {
    (p.row@, p.justifications@.map_values(|j: Justification| justification_view(j)))
}

/// Whether `rs` and `pv` are the grouping of the solutions `sols`, with the
/// truncation flag `truncated`.
pub open spec fn grouped(sols: Seq<(Seq<Value>, Support)>, truncated: bool, rs: ResultSet, pv: Provenance) -> bool {
    &&& rs.rows_view() == distinct_rows(tuples_of(sols))
    &&& rs.truncated_view() == truncated
    &&& pv.rows_spec().map_values(|p: RowProvenance| row_provenance_view(p)) == group_spec(sols)
}

/// The distinct rows of `ts` hold no duplicate, are exactly the tuples of
/// `ts`, and are no more than them.
proof fn lemma_distinct_rows(ts: Seq<Seq<Value>>)
    ensures
        distinct_rows(ts).no_duplicates(),
        forall|t: Seq<Value>| distinct_rows(ts).contains(t) <==> ts.contains(t),
        distinct_rows(ts).len() <= ts.len(),
    decreases ts.len(),
{
    if ts.len() > 0 {
        let init = ts.drop_last();
        lemma_distinct_rows(init);
        assert forall|t: Seq<Value>| ts.contains(t) <==> (init.contains(t) || t == ts.last()) by {
            if ts.contains(t) {
                let i = choose|i: int| 0 <= i < ts.len() && ts[i] == t;
                if i < ts.len() - 1 {
                    assert(init[i] == t);
                }
            }
            if init.contains(t) {
                let i = choose|i: int| 0 <= i < init.len() && init[i] == t;
                assert(ts[i] == t);
            }
            assert(ts[ts.len() - 1] == ts.last());
        }
        let prev = distinct_rows(init);
        if !prev.contains(ts.last()) {
            assert forall|t: Seq<Value>| prev.push(ts.last()).contains(t) <==> (prev.contains(t) || t == ts.last()) by {
                if prev.push(ts.last()).contains(t) {
                    let i = choose|i: int| 0 <= i < prev.len() + 1 && prev.push(ts.last())[i] == t;
                    if i < prev.len() {
                        assert(prev[i] == t);
                    }
                }
                if prev.contains(t) {
                    let i = choose|i: int| 0 <= i < prev.len() && prev[i] == t;
                    assert(prev.push(ts.last())[i] == t);
                }
                assert(prev.push(ts.last())[prev.len() as int] == ts.last());
            }
        }
    }
}

/// A tuple has a justification exactly when some solution produced it.
proof fn lemma_justified(sols: Seq<(Seq<Value>, Support)>, row: Seq<Value>)
    ensures
        justifications_of(sols, row).len() >= 1 <==> tuples_of(sols).contains(row),
    decreases sols.len(),
{
    if sols.len() > 0 {
        let init = sols.drop_last();
        lemma_justified(init, row);
        assert(tuples_of(init) =~= tuples_of(sols).drop_last());
        if tuples_of(sols).contains(row) {
            let i = choose|i: int| 0 <= i < tuples_of(sols).len() && tuples_of(sols)[i] == row;
            if i < sols.len() - 1 {
                assert(tuples_of(init)[i] == row);
            }
        }
        if tuples_of(init).contains(row) {
            let i = choose|i: int| 0 <= i < tuples_of(init).len() && tuples_of(init)[i] == row;
            assert(tuples_of(sols)[i] == row);
        }
        assert(tuples_of(sols)[sols.len() - 1] == sols.last().0);
    }
}

/// The grouping of a query's solutions: its rows are distinct, are exactly
/// the solutions' tuples and are no more than the solutions, and every row
/// carries at least one justification.
pub proof fn lemma_grouping(sols: Seq<(Seq<Value>, Support)>)
    ensures
        distinct_rows(tuples_of(sols)).no_duplicates(),
        forall|t: Seq<Value>| distinct_rows(tuples_of(sols)).contains(t) <==> tuples_of(sols).contains(t),
        distinct_rows(tuples_of(sols)).len() <= sols.len(),
        group_spec(sols).len() == distinct_rows(tuples_of(sols)).len(),
        forall|i: int| 0 <= i < group_spec(sols).len() ==> (#[trigger] group_spec(sols)[i]).1.len() >= 1,
{
    let rows = distinct_rows(tuples_of(sols));
    lemma_distinct_rows(tuples_of(sols));
    assert forall|i: int| 0 <= i < group_spec(sols).len() implies (#[trigger] group_spec(sols)[i]).1.len() >= 1 by {
        assert(rows.contains(rows[i]));
        lemma_justified(sols, rows[i]);
    }
}

/// The justification of one solution: its support tuples.
fn justification_of(s: &QuerySolution) -> (j: Justification)
    ensures
        justification_view(j) == support_view(s.support@),
{
    let mut support: Vec<SupportTuple> = Vec::new();
    let mut i: usize = 0;
    while i < s.support.len()
        invariant
            i <= s.support@.len(),
            support@.len() == i,
            forall|j: int| 0 <= j < i ==> (#[trigger] support@[j]).relation@ == s.support@[j].0@
                && support@[j].tuple@ == s.support@[j].1@,
        decreases s.support@.len() - i,
    {
        support.push(SupportTuple { relation: s.support[i].0.clone(), tuple: copy_tuple(&s.support[i].1) });
        i += 1;
    }
    let j = Justification { support };
    assert(justification_view(j) =~= support_view(s.support@));
    j
}

/// Whether `rows` holds `t`.
fn contains_row(rows: &Vec<Vec<Value>>, t: &Vec<Value>) -> (r: bool)
    ensures
        r == rows_view(rows@).contains(t@),
{
    let mut i: usize = 0;
    while i < rows.len()
        invariant
            i <= rows@.len(),
            forall|j: int| 0 <= j < i ==> (#[trigger] rows@[j])@ != t@,
        decreases rows@.len() - i,
    {
        if tuple_eq(&rows[i], t) {
            assert(rows_view(rows@)[i as int] == t@);
            return true;
        }
        i += 1;
    }
    proof {
        if rows_view(rows@).contains(t@) {
            let j = choose|j: int| 0 <= j < rows_view(rows@).len() && rows_view(rows@)[j] == t@;
            assert(rows@[j]@ == t@);
        }
    }
    false
}

/// The distinct output tuples of `sols`, in order of first occurrence.
fn distinct_tuples(sols: &Vec<QuerySolution>) -> (rows: Vec<Vec<Value>>)
    ensures
        rows_view(rows@) == distinct_rows(tuples_of(sols@.map_values(|q: QuerySolution| qsol_view(q)))),
{
    let ghost ts = tuples_of(sols@.map_values(|q: QuerySolution| qsol_view(q)));
    let mut rows: Vec<Vec<Value>> = Vec::new();
    let mut k: usize = 0;
    while k < sols.len()
        invariant
            k <= sols@.len(),
            ts == tuples_of(sols@.map_values(|q: QuerySolution| qsol_view(q))),
            rows_view(rows@) == distinct_rows(ts.take(k as int)),
        decreases sols@.len() - k,
    {
        assert(ts.take(k + 1).drop_last() =~= ts.take(k as int));
        assert(ts.take(k + 1).last() == sols@[k as int].tuple@);
        if !contains_row(&rows, &sols[k].tuple) {
            let ghost before = rows@;
            rows.push(copy_tuple(&sols[k].tuple));
            assert(rows_view(rows@) =~= rows_view(before).push(sols@[k as int].tuple@));
        }
        k += 1;
    }
    assert(ts.take(k as int) =~= ts);
    rows
}

/// The justifications of the solutions whose tuple is `row`, in solution order.
fn justifications_for(sols: &Vec<QuerySolution>, row: &Vec<Value>) -> (js: Vec<Justification>)
    ensures
        js@.map_values(|j: Justification| justification_view(j))
            == justifications_of(sols@.map_values(|q: QuerySolution| qsol_view(q)), row@),
{
    let ghost ss = sols@.map_values(|q: QuerySolution| qsol_view(q));
    let mut js: Vec<Justification> = Vec::new();
    let mut k: usize = 0;
    while k < sols.len()
        invariant
            k <= sols@.len(),
            ss == sols@.map_values(|q: QuerySolution| qsol_view(q)),
            js@.map_values(|j: Justification| justification_view(j)) == justifications_of(ss.take(k as int), row@),
        decreases sols@.len() - k,
    {
        assert(ss.take(k + 1).drop_last() =~= ss.take(k as int));
        assert(ss.take(k + 1).last() == ss[k as int]);
        if tuple_eq(&sols[k].tuple, row) {
            let ghost before = js@;
            js.push(justification_of(&sols[k]));
            assert(js@.map_values(|j: Justification| justification_view(j))
                =~= before.map_values(|j: Justification| justification_view(j)).push(ss[k as int].1));
        }
        k += 1;
    }
    assert(ss.take(k as int) =~= ss);
    js
}

/// Groups the solutions of a query into its distinct rows, in order of
/// first occurrence, each paired with one justification per solution that
/// produced it.
fn group(output: QueryOutput) -> (r: (ResultSet, Provenance))
    ensures
        grouped(output.solutions@.map_values(|q: QuerySolution| qsol_view(q)), output.truncated, r.0, r.1),
{
    let ghost sols = output.solutions@.map_values(|q: QuerySolution| qsol_view(q));
    let rows = distinct_tuples(&output.solutions);
    let mut provs: Vec<RowProvenance> = Vec::new();
    let mut i: usize = 0;
    while i < rows.len()
        invariant
            i <= rows@.len(),
            sols == output.solutions@.map_values(|q: QuerySolution| qsol_view(q)),
            rows_view(rows@) == distinct_rows(tuples_of(sols)),
            provs@.len() == i,
            forall|j: int| 0 <= j < i ==> row_provenance_view(#[trigger] provs@[j])
                == (rows@[j]@, justifications_of(sols, rows@[j]@)),
        decreases rows@.len() - i,
    {
        let justifications = justifications_for(&output.solutions, &rows[i]);
        provs.push(RowProvenance { row: copy_tuple(&rows[i]), justifications });
        i += 1;
    }
    let pv = Provenance::new(provs);
    let rs = ResultSet::new(rows, output.truncated);
    let ghost mapped = pv.rows_spec().map_values(|p: RowProvenance| row_provenance_view(p));
    assert(mapped =~= group_spec(sols)) by {
        assert(distinct_rows(tuples_of(sols)).len() == provs@.len());
        assert forall|j: int| 0 <= j < provs@.len() implies #[trigger] mapped[j] == group_spec(sols)[j] by {
            assert(distinct_rows(tuples_of(sols))[j] == rows@[j]@);
        }
    }
    (rs, pv)
}

/// The schema entry of every declared relation, in declaration order.
pub open spec fn schema_matches(s: Seq<RelationSchema>, rels: Seq<crate::ir::RelationDecl>) -> bool {
    &&& s.len() == rels.len()
    &&& forall|i: int| 0 <= i < s.len() ==> {
        &&& (#[trigger] s[i]).name@ == rels[i].name@
        &&& s[i].columns@ == rels[i].schema@
        &&& s[i].doc is None
    }
}

impl<E: ExprEval> FactStore for Engine<E> {
    type Schema = Schema;
    type Query = ConjunctiveQuery;
    type ResultSet = ResultSet;
    type Provenance = Provenance;
    type Error = FactQueryError;

    open spec fn ready(&self) -> bool {
        self.wf()
    }

    /// Every declared relation with its column types; the program carries no
    /// relation documentation.
    fn schema(&self) -> (r: Schema)
        ensures
            schema_matches(r.relations_spec(), self.prog().relations@),
    {
        let rels = &self.program().relations;
        let mut out: Vec<RelationSchema> = Vec::new();
        let mut i: usize = 0;
        while i < rels.len()
            invariant
                *rels == self.prog().relations,
                i <= rels@.len(),
                out@.len() == i,
                forall|j: int| 0 <= j < i ==> {
                    &&& (#[trigger] out@[j]).name@ == rels@[j].name@
                    &&& out@[j].columns@ == rels@[j].schema@
                    &&& out@[j].doc is None
                },
            decreases rels@.len() - i,
        {
            out.push(RelationSchema { name: rels[i].name.clone(), columns: copy_types(&rels[i].schema), doc: None });
            i += 1;
        }
        Schema::new(out)
    }

    /// Parses `(e1, ..) <-- clause, ..`, interning its symbols.
    fn parse_query(&mut self, text: &str) -> (r: Result<ConjunctiveQuery, FactQueryError>)
        ensures
            final(self).prog() == old(self).prog(),
            final(self).state() == old(self).state(),
            match parse_query_spec(text@, old(self).names()) {
                Some(((outs, body), n)) => r matches Ok(q) && q.outputs_spec() == outs
                    && clauses_view(q.body_spec()) == body && final(self).names() == n,
                None => r matches Err(FactQueryError::Parse(_)),
            },
    {
        match self.parse_query_parts(text) {
            Ok((outputs, body)) => Ok(ConjunctiveQuery::new(outputs, body)),
            Err(e) => Err(FactQueryError::Parse(e.describe())),
        }
    }

    /// Passes when every atom names a declared relation with its arity, the
    /// column types match (literals and variables, see [`body_typed`]), and
    /// the query is safe; a schema fault is reported before a safety fault.
    fn check(&self, query: &ConjunctiveQuery) -> (r: Result<(), FactQueryError>)
        ensures
            r is Ok <==> body_valid(self.prog().relations@, query.body_spec())
                && body_typed(self.prog().relations@, query.body_spec())
                && safe_spec(query.outputs_spec(), query.body_spec()),
            !(body_valid(self.prog().relations@, query.body_spec()) && body_typed(self.prog().relations@, query.body_spec()))
                ==> r matches Err(FactQueryError::Schema(_)),
            body_valid(self.prog().relations@, query.body_spec()) && body_typed(self.prog().relations@, query.body_spec())
                && !safe_spec(query.outputs_spec(), query.body_spec())
                ==> r matches Err(FactQueryError::Unsafe(_)),
    {
        match self.check_query(query.body()) {
            Ok(()) => {},
            Err(e) => return Err(FactQueryError::Schema(e.describe())),
        }
        if !check_query_types(self.program(), query.body()) {
            return Err(FactQueryError::Schema("a literal or a variable does not match its column's declared type".to_owned()));
        }
        let resolve = |s: Symbol| -> (o: Option<String>)
            {
                match self.resolve(s) {
                    Some(t) => Some(t.to_owned()),
                    None => None,
                }
            };
        query.check_safety(resolve)
    }

    /// Evaluates the query read-only against the current database, capped at
    /// `max` solutions, and groups the solutions into rows and provenance.
    fn eval(&mut self, query: &ConjunctiveQuery, max: Cardinality) -> (r: Result<(ResultSet, Provenance), FactQueryError>)
        ensures
            final(self).prog() == old(self).prog(),
            final(self).names() == old(self).names(),
            final(self).state() == old(self).state(),
            r matches Ok((rs, pv)) ==> query_spec::<E>(old(self).state(), query.outputs_spec(), query.body_spec(), max.cap() as nat)
                matches Some((sols, t)) && grouped(sols, t, rs, pv),
            query_spec::<E>(old(self).state(), query.outputs_spec(), query.body_spec(), max.cap() as nat) is None
                ==> r matches Err(FactQueryError::Eval(_)),
            E::exact() && query_spec::<E>(old(self).state(), query.outputs_spec(), query.body_spec(), max.cap() as nat) is Some
                ==> r is Ok,
            r matches Err(e) ==> e is Eval,
    {
        match self.evaluate_query(query.outputs(), query.body(), max.get()) {
            Ok(output) => Ok(group(output)),
            Err(e) => Err(FactQueryError::Eval(e.describe())),
        }
    }
}

} // verus!
