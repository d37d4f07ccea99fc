//! The host side of the queries grain: a fact engine driven from outside
//! the process's type system, where values cross as wire values (an integer
//! as its exact decimal text, a symbol as its name, never as an interner id)
//! and every failure names the stage at which it happened.

use vstd::prelude::*;

use crate::engine::{engine_from_source, source_loads, Engine};
use crate::run::run_spec;
use crate::eval::ExprEval;
use crate::explain::Support;
use crate::expr::decimal;
use crate::fact_query::engine::{justification_view, row_provenance_view};
use crate::fact_query::error::FactQueryError;
use crate::explain::query_spec;
use crate::expr::{Expr, ExprError};
use crate::fact_query::engine::{distinct_rows, group_spec, grouped, lemma_grouping, tuples_of};
use crate::fact_query::query::{safe_spec, ConjunctiveQuery};
use crate::fact_query::typing::body_typed;
use crate::fact_query::result::{Justification, Provenance, ResultSet, RowProvenance};
use crate::fact_query::{Cardinality, FactStore};
use crate::ir::{BodyClause, RelationDecl};
use crate::parser::{clauses_view, parse_query_spec, parse_spec, program_view};
use crate::solve::rule_holds;
use crate::store::{copy_tuple, empty_rel, insert_effect, insert_outcome, rows_view, RelView};
use crate::wasm::WasmEval;
use crate::strata::{body_valid, spanning_heads_are_sets, least_strata};
use crate::value::{Interner, Symbol, Type, Value};

verus! {

/// A value as it crosses the boundary.
#[derive(Debug, Clone, PartialEq, Eq)]
pub enum WireValue {
    /// An integer, as its decimal text.
    Int(String),
    /// A boolean.
    Bool(bool),
    /// A symbol, as its name.
    Sym(String),
}

/// A wire value as text and booleans.
pub enum WireV {
    /// An integer's text.
    Int(Seq<char>),
    /// A boolean.
    Bool(bool),
    /// A symbol's name.
    Sym(Seq<char>),
}

impl View for WireValue {
    type V = WireV;

    open spec fn view(&self) -> WireV {
        match self {
            WireValue::Int(s) => WireV::Int(s@),
            WireValue::Bool(b) => WireV::Bool(*b),
            WireValue::Sym(s) => WireV::Sym(s@),
        }
    }
}

/// The wire values of a list, as text and booleans.
pub open spec fn wires_view(ws: Seq<WireValue>) -> Seq<WireV> {
    ws.map_values(|w: WireValue| w@)
}

/// Whether `c` is an ASCII decimal digit.
pub open spec fn is_digit(c: char) -> bool {
    '0' as int <= c as int <= '9' as int
}

/// The number a run of decimal digits denotes.
pub open spec fn digits_value(ds: Seq<char>) -> int
    decreases ds.len(),
{
    if ds.len() == 0 {
        0
    } else {
        digits_value(ds.drop_last()) * 10 + (ds.last() as int - '0' as int)
    }
}

/// Whether `ds` is one or more decimal digits.
pub open spec fn numeral(ds: Seq<char>) -> bool {
    ds.len() > 0 && forall|i: int| 0 <= i < ds.len() ==> is_digit(#[trigger] ds[i])
}

/// The integer a text denotes: an optional `+` or `-` sign followed by one
/// or more decimal digits, and nothing else.
pub open spec fn integer_text(s: Seq<char>) -> Option<int> {
    if s.len() > 0 && s[0] == '-' && numeral(s.drop_first()) {
        Some(-digits_value(s.drop_first()))
    } else if s.len() > 0 && s[0] == '+' && numeral(s.drop_first()) {
        Some(digits_value(s.drop_first()))
    } else if numeral(s) {
        Some(digits_value(s))
    } else {
        None
    }
}

/// The `i64` a text denotes, when it denotes one in range.
pub open spec fn i64_text(s: Seq<char>) -> Option<i64> {
    match integer_text(s) {
        Some(n) => if i64::MIN <= n <= i64::MAX { Some(n as i64) } else { None },
        None => None,
    }
}

/// The decimal text of an integer, with a leading `-` when negative.
pub open spec fn signed_decimal(i: int) -> Seq<char> {
    if i < 0 { seq!['-'] + decimal((-i) as nat) } else { decimal(i as nat) }
}

/// Parses an integer's decimal text (`str::parse::<i64>`: an optional sign
/// and decimal digits, in range).
#[verifier::external_body]
fn parse_i64(s: &str) -> (r: Option<i64>)
    ensures
        r == i64_text(s@),
{
    s.parse::<i64>().ok()
}

/// The decimal text of an integer (`i64::to_string`, its `Display`).
#[verifier::external_body]
fn i64_text_of(i: i64) -> (r: String)
    ensures
        r@ == signed_decimal(i as int),
{
    i.to_string()
}

/// Where a host request failed.
#[derive(Debug, Clone, Copy, PartialEq, Eq, Structural)]
pub enum Stage {
    /// The query text did not parse.
    Parse,
    /// The query names an unknown relation or has a wrong arity.
    Schema,
    /// The query is not safe.
    Unsafe,
    /// Evaluation failed, or a result could not be expressed.
    Eval,
    /// Loading, asserting or running failed.
    Engine,
}

/// A failed host request: its stage and message.
#[derive(Debug, Clone, PartialEq, Eq)]
pub struct StageError {
    /// The stage.
    pub stage: Stage,
    /// The message.
    pub message: String,
}

/// The index of `s` in a table without duplicates that holds it.
pub open spec fn index_in(names: Seq<Seq<char>>, s: Seq<char>) -> int {
    choose|i: int| 0 <= i < names.len() && names[i] == s
}

/// Lowering a wire value into an engine value, interning a symbol's name:
/// the value and the table after, or `None` (with the table unchanged) for
/// integer text out of range or a full table.
pub open spec fn lower_spec(w: WireV, names: Seq<Seq<char>>) -> Option<(Value, Seq<Seq<char>>)> {
    match w {
        WireV::Int(s) => match i64_text(s) {
            Some(i) => Some((Value::Int(i), names)),
            None => None,
        },
        WireV::Bool(b) => Some((Value::Bool(b), names)),
        WireV::Sym(s) => if names.contains(s) || names.len() <= u32::MAX {
            let after = Interner::interned(names, s);
            Some((Value::Sym(Symbol(index_in(after, s) as u32)), after))
        } else {
            None
        },
    }
}

/// Lowering wire values left to right: the values (or `None` at the first
/// that fails) and the table after the values lowered before.
pub open spec fn lower_all_spec(ws: Seq<WireV>, names: Seq<Seq<char>>) -> (Option<Seq<Value>>, Seq<Seq<char>>)
    decreases ws.len(),
{
    if ws.len() == 0 {
        (Some(Seq::empty()), names)
    } else {
        let (prev, n1) = lower_all_spec(ws.drop_last(), names);
        match prev {
            None => (None, n1),
            Some(vs) => match lower_spec(ws.last(), n1) {
                Some((v, n2)) => (Some(vs.push(v)), n2),
                None => (None, n1),
            },
        }
    }
}

/// Lifting an engine value onto the wire: an integer as its text, a symbol
/// as its name (which must be in the table).
pub open spec fn lift_spec(v: Value, names: Seq<Seq<char>>) -> WireV {
    match v {
        Value::Int(i) => WireV::Int(signed_decimal(i as int)),
        Value::Bool(b) => WireV::Bool(b),
        Value::Sym(s) => WireV::Sym(names[s.0 as int]),
    }
}

/// Whether every symbol of a tuple is in the table.
pub open spec fn resolvable(t: Seq<Value>, names: Seq<Seq<char>>) -> bool {
    forall|j: int| 0 <= j < t.len() ==> ((#[trigger] t[j]) matches Value::Sym(s) ==> (s.0 as int) < names.len())
}

/// A tuple lifted onto the wire.
pub open spec fn lift_tuple_spec(t: Seq<Value>, names: Seq<Seq<char>>) -> Seq<WireV> {
    t.map_values(|v: Value| lift_spec(v, names))
}

/// A supporting tuple as it leaves: its relation and its values.
#[derive(Debug, Clone, PartialEq, Eq)]
pub struct SupportTupleOut {
    /// The relation.
    pub relation: String,
    /// The tuple.
    pub tuple: Vec<WireValue>,
}

/// One justification as it leaves.
#[derive(Debug, Clone, PartialEq, Eq)]
pub struct JustificationOut {
    /// The supporting tuples, in body order.
    pub support: Vec<SupportTupleOut>,
}

/// A row's provenance as it leaves.
#[derive(Debug, Clone, PartialEq, Eq)]
pub struct RowProvenanceOut {
    /// The row.
    pub row: Vec<WireValue>,
    /// Its justifications.
    pub justifications: Vec<JustificationOut>,
}

/// A query's result as it leaves: the distinct rows, whether the cap was
/// reached, and each row's provenance.
#[derive(Debug, Clone, PartialEq, Eq)]
pub struct QueryResultOut {
    /// The rows.
    pub rows: Vec<Vec<WireValue>>,
    /// Whether evaluation stopped at the cap.
    pub truncated: bool,
    /// The provenance of each row, in row order.
    pub provenance: Vec<RowProvenanceOut>,
}

/// A relation as it is described to the host.
#[derive(Debug, Clone, PartialEq, Eq)]
pub struct RelationSchemaOut {
    /// The relation's name.
    pub name: String,
    /// Its column types, as `int`, `bool` or `sym`.
    pub columns: Vec<&'static str>,
    /// Its documentation; the program carries none.
    pub doc: Option<String>,
}

/// The relations as they are described to the host.
#[derive(Debug, Clone, PartialEq, Eq)]
pub struct SchemaOut {
    /// The relations, in declaration order.
    pub relations: Vec<RelationSchemaOut>,
}

/// A fact as it arrives: a relation and wire values.
#[derive(Debug, Clone, PartialEq, Eq)]
pub struct FactInput {
    /// The relation.
    pub relation: String,
    /// The values.
    pub values: Vec<WireValue>,
}

/// A supporting tuple, as values.
pub open spec fn support_out_view(s: SupportTupleOut) -> (Seq<char>, Seq<WireV>) {
    (s.relation@, wires_view(s.tuple@))
}

/// A justification, as values.
pub open spec fn justification_out_view(j: JustificationOut) -> Seq<(Seq<char>, Seq<WireV>)> {
    j.support@.map_values(|s: SupportTupleOut| support_out_view(s))
}

/// A row's provenance, as values.
pub open spec fn row_provenance_out_view(p: RowProvenanceOut) -> (Seq<WireV>, Seq<Seq<(Seq<char>, Seq<WireV>)>>) {
    (wires_view(p.row@), p.justifications@.map_values(|j: JustificationOut| justification_out_view(j)))
}

/// Whether every tuple of a support is resolvable.
pub open spec fn support_resolvable(sup: Support, names: Seq<Seq<char>>) -> bool {
    forall|k: int| 0 <= k < sup.len() ==> resolvable(#[trigger] sup[k].1, names)
}

/// A support lifted onto the wire.
pub open spec fn lift_support_spec(sup: Support, names: Seq<Seq<char>>) -> Seq<(Seq<char>, Seq<WireV>)> {
    sup.map_values(|p: (Seq<char>, Seq<Value>)| (p.0, lift_tuple_spec(p.1, names)))
}

/// Whether a row and every tuple of its justifications are resolvable.
pub open spec fn group_resolvable(g: (Seq<Value>, Seq<Support>), names: Seq<Seq<char>>) -> bool {
    &&& resolvable(g.0, names)
    &&& forall|j: int| 0 <= j < g.1.len() ==> support_resolvable(#[trigger] g.1[j], names)
}

/// A row's provenance lifted onto the wire.
pub open spec fn lift_group_spec(g: (Seq<Value>, Seq<Support>), names: Seq<Seq<char>>) -> (Seq<WireV>, Seq<Seq<(Seq<char>, Seq<WireV>)>>) {
    (lift_tuple_spec(g.0, names), g.1.map_values(|sup: Support| lift_support_spec(sup, names)))
}

/// The name the host gives a column type.
pub open spec fn type_str_spec(t: Type) -> Seq<char> {
    match t {
        Type::Int => "int"@,
        Type::Bool => "bool"@,
        Type::Sym => "sym"@,
    }
}

/// The name the host gives a column type.
pub fn type_str(t: Type) -> (r: &'static str)
    ensures
        r@ == type_str_spec(t),
{
    match t {
        Type::Int => "int",
        Type::Bool => "bool",
        Type::Sym => "sym",
    }
}

/// The stage of a query error.
pub open spec fn query_stage(e: FactQueryError) -> Stage {
    match e {
        FactQueryError::Parse(_) => Stage::Parse,
        FactQueryError::Schema(_) => Stage::Schema,
        FactQueryError::Unsafe(_) => Stage::Unsafe,
        FactQueryError::Eval(_) => Stage::Eval,
    }
}

/// A query error with its stage: the stage of its kind, and its message.
pub fn query_error(e: FactQueryError) -> (r: StageError)
    ensures
        r.stage == query_stage(e),
        r.message@ == match e {
            FactQueryError::Parse(m) => m@,
            FactQueryError::Schema(m) => m@,
            FactQueryError::Unsafe(m) => m@,
            FactQueryError::Eval(m) => m@,
        },
{
    match e {
        FactQueryError::Parse(m) => StageError { stage: Stage::Parse, message: m },
        FactQueryError::Schema(m) => StageError { stage: Stage::Schema, message: m },
        FactQueryError::Unsafe(m) => StageError { stage: Stage::Unsafe, message: m },
        FactQueryError::Eval(m) => StageError { stage: Stage::Eval, message: m },
    }
}

fn unresolvable() -> (r: StageError)
    ensures
        r.stage == Stage::Eval,
{
    StageError { stage: Stage::Eval, message: "result contained an unresolvable symbol".to_owned() }
}

/// A fact as values: its relation's name and its wire values.
pub open spec fn fact_view(f: FactInput) -> (Seq<char>, Seq<WireV>) {
    (f.relation@, wires_view(f.values@))
}

/// Asserting facts in order, stopping at the first that fails to lower or
/// to insert: whether all succeeded, the database and the table after.
pub open spec fn add_all_spec(facts: Seq<(Seq<char>, Seq<WireV>)>, db: Seq<RelView>, names: Seq<Seq<char>>) -> (bool, Seq<RelView>, Seq<Seq<char>>)
    decreases facts.len(),
{
    if facts.len() == 0 {
        (true, db, names)
    } else {
        let (ok, d1, n1) = add_all_spec(facts.drop_last(), db, names);
        if !ok {
            (false, d1, n1)
        } else {
            let (lowered, n2) = lower_all_spec(facts.last().1, n1);
            match lowered {
                None => (false, d1, n2),
                Some(vs) => (
                    insert_outcome(d1, facts.last().0, vs, true) is Inserted,
                    insert_effect(d1, facts.last().0, vs, true),
                    n2,
                ),
            }
        }
    }
}

/// Whether `r` lifts `rows` and `provs` onto the wire: when every row and
/// supporting tuple is resolvable, their lifted forms (and `truncated`);
/// otherwise an evaluation-stage failure.
pub open spec fn lift_agrees(r: Result<QueryResultOut, StageError>, rows: Seq<Seq<Value>>, truncated: bool,
    provs: Seq<(Seq<Value>, Seq<Support>)>, names: Seq<Seq<char>>) -> bool {
    let ok = (forall|i: int| 0 <= i < rows.len() ==> resolvable(#[trigger] rows[i], names))
        && (forall|i: int| 0 <= i < provs.len() ==> group_resolvable(#[trigger] provs[i], names));
    &&& ok ==> (r matches Ok(out) && out.truncated == truncated
        && out.rows@.map_values(|r: Vec<WireValue>| wires_view(r@))
            == rows.map_values(|t: Seq<Value>| lift_tuple_spec(t, names))
        && out.provenance@.map_values(|p: RowProvenanceOut| row_provenance_out_view(p))
            == provs.map_values(|g: (Seq<Value>, Seq<Support>)| lift_group_spec(g, names)))
    &&& !ok ==> (r matches Err(e) && e.stage == Stage::Eval)
}

/// Lifting the grouping of `sols` gives the host's form of it.
proof fn lemma_lift_grouping(sols: Seq<(Seq<Value>, Support)>, t: bool, rs: ResultSet, pv: Provenance,
    names: Seq<Seq<char>>, r: Result<QueryResultOut, StageError>)
    requires
        grouped(sols, t, rs, pv),
        lift_agrees(r, rs.rows_view(), rs.truncated_view(),
            pv.rows_spec().map_values(|p: RowProvenance| row_provenance_view(p)), names),
    ensures
        match r {
            Ok(out) => result_matches(out, sols, t, names),
            Err(e) => e.stage == Stage::Eval,
        },
{
    lemma_grouping(sols);
    let g = group_spec(sols);
    let rows = rs.rows_view();
    assert(rows == distinct_rows(tuples_of(sols)));
    assert forall|i: int| 0 <= i < rows.len() && (forall|x: int| 0 <= x < g.len() ==> group_resolvable(#[trigger] g[x], names))
        implies resolvable(#[trigger] rows[i], names) by {
        assert(g[i].0 == rows[i]);
        assert(group_resolvable(g[i], names));
    }
}

/// Whether `out` is the host's form of the grouping of `sols`: every row
/// and supporting tuple is resolvable, and the rows and provenance are
/// those of the grouping, lifted.
pub open spec fn result_matches(out: QueryResultOut, sols: Seq<(Seq<Value>, Support)>, truncated: bool, names: Seq<Seq<char>>) -> bool {
    &&& forall|i: int| 0 <= i < group_spec(sols).len() ==> group_resolvable(#[trigger] group_spec(sols)[i], names)
    &&& out.truncated == truncated
    &&& out.rows@.map_values(|r: Vec<WireValue>| wires_view(r@))
        == distinct_rows(tuples_of(sols)).map_values(|t: Seq<Value>| lift_tuple_spec(t, names))
    &&& out.provenance@.map_values(|p: RowProvenanceOut| row_provenance_out_view(p))
        == group_spec(sols).map_values(|g: (Seq<Value>, Seq<Support>)| lift_group_spec(g, names))
}

/// What checking a query with outputs `outs` and body `body` answers.
pub open spec fn check_outcome(r: Result<(), StageError>, rels: Seq<crate::ir::RelationDecl>, outs: Seq<Expr>, body: Seq<BodyClause>) -> bool {
    &&& (r is Ok <==> body_valid(rels, body) && body_typed(rels, body) && safe_spec(outs, body))
    &&& !(body_valid(rels, body) && body_typed(rels, body)) ==> (r matches Err(e) && e.stage == Stage::Schema)
    &&& body_valid(rels, body) && body_typed(rels, body) && !safe_spec(outs, body) ==> (r matches Err(e) && e.stage == Stage::Unsafe)
}

/// What running a query with outputs `outs` and body `body` against `db`
/// under the cap `max` answers, with the table `names`.
pub open spec fn query_outcome<E: ExprEval>(r: Result<QueryResultOut, StageError>, rels: Seq<crate::ir::RelationDecl>, db: Seq<RelView>, outs: Seq<Expr>, body: Seq<BodyClause>, max: nat, names: Seq<Seq<char>>) -> bool {
    if !(body_valid(rels, body) && body_typed(rels, body)) {
        r matches Err(e) && e.stage == Stage::Schema
    } else if !safe_spec(outs, body) {
        r matches Err(e) && e.stage == Stage::Unsafe
    } else {
        match query_spec::<E>(db, outs, body, max) {
            None => r matches Err(e) && e.stage == Stage::Eval,
            Some((sols, t)) => match r {
                Ok(out) => result_matches(out, sols, t, names),
                Err(e) => e.stage == Stage::Eval,
            },
        }
    }
}

/// The decimal numeral of `n` is a numeral denoting `n`.
proof fn lemma_decimal(n: nat)
    ensures
        numeral(decimal(n)),
        digits_value(decimal(n)) == n,
    decreases n,
{
    let d = (n % 10) as nat;
    assert(d < 10);
    let c = crate::expr::digit_char(d);
    assert(c as int == '0' as int + d);
    if n >= 10 {
        let q = (n / 10) as nat;
        lemma_decimal(q);
        let s = decimal(q);
        assert(decimal(n) == s.push(c));
        assert(decimal(n).drop_last() =~= s);
        assert(decimal(n).last() == c);
        assert(digits_value(decimal(n)) == digits_value(s) * 10 + (c as int - '0' as int));
        assert(q * 10 + d == n) by (nonlinear_arith)
            requires
                q == n / 10,
                d == n % 10,
        ;
        assert forall|i: int| 0 <= i < decimal(n).len() implies is_digit(#[trigger] decimal(n)[i]) by {
            if i < s.len() {
                assert(decimal(n)[i] == s[i]);
            }
        }
    } else {
        assert(decimal(n) == seq![c]);
        assert(decimal(n).drop_last() =~= Seq::<char>::empty());
        assert(decimal(n).last() == c);
        assert(digits_value(decimal(n)) == digits_value(Seq::<char>::empty()) * 10 + (c as int - '0' as int));
        assert(is_digit(decimal(n)[0]));
    }
}

/// Values cross the boundary exactly: lifting a resolvable value and
/// lowering it again gives the value back and leaves the table as it was.
pub proof fn lemma_wire_round_trip(v: Value, names: Seq<Seq<char>>)
    requires
        names.no_duplicates(),
        resolvable(seq![v], names),
    ensures
        lower_spec(lift_spec(v, names), names) == Some((v, names)),
{
    assert(seq![v][0] == v);
    match v {
        Value::Int(i) => {
            let s = signed_decimal(i as int);
            if i < 0 {
                lemma_decimal((-i) as nat);
                assert(s.drop_first() =~= decimal((-i) as nat));
                assert(s[0] == '-');
            } else {
                lemma_decimal(i as nat);
                assert(is_digit(s[0]));
            }
        },
        Value::Bool(_) => {},
        Value::Sym(sym) => {
            let x = names[sym.0 as int];
            assert(names.contains(x));
            assert(Interner::interned(names, x) == names);
            let k = index_in(names, x);
            assert(0 <= k < names.len() && names[k] == x);
            assert(k == sym.0 as int);
        },
    }
}

/// A fact engine driven from a host.
pub struct FactEngine<E> {
    engine: Engine<E>,
}

impl<E: ExprEval> FactEngine<E> {
    /// The engine behind the host interface.
    pub closed spec fn inner(&self) -> Engine<E> {
        self.engine
    }

    /// Lowers one wire value, interning a symbol's name.
    fn lower_value(&mut self, w: &WireValue) -> (r: Result<Value, StageError>)
        requires
            old(self).inner().wf(),
        ensures
            final(self).inner().wf(),
            final(self).inner().prog() == old(self).inner().prog(),
            final(self).inner().state() == old(self).inner().state(),
            match lower_spec(w@, old(self).inner().names()) {
                Some((v, n)) => r == Ok::<Value, StageError>(v) && final(self).inner().names() == n,
                None => r matches Err(e) && e.stage == Stage::Engine && final(self).inner().names() == old(self).inner().names(),
            },
    {
        match w {
            WireValue::Int(s) => match parse_i64(s.as_str()) {
                Some(i) => Ok(Value::Int(i)),
                None => {
                    let mut m = "invalid integer `".to_owned();
                    m.append(s.as_str());
                    m.append("`");
                    Err(StageError { stage: Stage::Engine, message: m })
                },
            },
            WireValue::Bool(b) => Ok(Value::Bool(*b)),
            WireValue::Sym(s) => match self.engine.try_intern(s.as_str()) {
                Some(sym) => {
                    proof {
                        let after = self.engine.names();
                        assert(after.no_duplicates()) by {
                            assert(self.engine.wf());
                            crate::engine::lemma_names_distinct(self.engine);
                        }
                        let k = index_in(after, s@);
                        assert(after[sym.0 as int] == s@);
                        assert(0 <= k < after.len() && after[k] == s@);
                        assert(k == sym.0 as int);
                    }
                    Ok(Value::Sym(sym))
                },
                None => Err(StageError { stage: Stage::Engine, message: "symbol table full".to_owned() }),
            },
        }
    }

    /// Lifts one value onto the wire, resolving a symbol to its name.
    fn lift_value(&self, v: Value) -> (r: Result<WireValue, StageError>)
        ensures
            resolvable(seq![v], self.inner().names()) ==> (r matches Ok(w) && w@ == lift_spec(v, self.inner().names())),
            !resolvable(seq![v], self.inner().names()) ==> (r matches Err(e) && e.stage == Stage::Eval),
    {
        match v {
            Value::Int(i) => Ok(WireValue::Int(i64_text_of(i))),
            Value::Bool(b) => Ok(WireValue::Bool(b)),
            Value::Sym(s) => match self.engine.resolve(s) {
                Some(name) => Ok(WireValue::Sym(name.to_owned())),
                None => {
                    assert(!resolvable(seq![v], self.inner().names())) by {
                        assert(seq![v][0] == v);
                    }
                    Err(unresolvable())
                },
            },
        }
    }

    /// Lifts a tuple onto the wire.
    fn lift_row(&self, row: &Vec<Value>) -> (r: Result<Vec<WireValue>, StageError>)
        ensures
            resolvable(row@, self.inner().names()) ==> (r matches Ok(ws)
                && wires_view(ws@) == lift_tuple_spec(row@, self.inner().names())),
            !resolvable(row@, self.inner().names()) ==> (r matches Err(e) && e.stage == Stage::Eval),
    {
        let ghost names = self.inner().names();
        let mut out: Vec<WireValue> = Vec::new();
        let mut i: usize = 0;
        while i < row.len()
            invariant
                i <= row@.len(),
                names == self.inner().names(),
                resolvable(row@.take(i as int), names),
                wires_view(out@) == lift_tuple_spec(row@.take(i as int), names),
            decreases row@.len() - i,
        {
            match self.lift_value(row[i]) {
                Ok(w) => {
                    let ghost before = out@;
                    out.push(w);
                    assert(seq![row@[i as int]][0] == row@[i as int]);
                    assert(row@.take(i + 1) =~= row@.take(i as int).push(row@[i as int]));
                    assert(wires_view(out@) =~= wires_view(before).push(w@));
                    assert(lift_tuple_spec(row@.take(i + 1), names)
                        =~= lift_tuple_spec(row@.take(i as int), names).push(lift_spec(row@[i as int], names)));
                },
                Err(e) => {
                    assert(seq![row@[i as int]][0] == row@[i as int]);
                    return Err(e);
                },
            }
            i += 1;
        }
        assert(row@.take(i as int) =~= row@);
        Ok(out)
    }

    /// Lifts a justification onto the wire.
    fn lift_justification(&self, j: &Justification) -> (r: Result<JustificationOut, StageError>)
        ensures
            support_resolvable(justification_view(*j), self.inner().names()) ==> (r matches Ok(o)
                && justification_out_view(o) == lift_support_spec(justification_view(*j), self.inner().names())),
            !support_resolvable(justification_view(*j), self.inner().names()) ==> (r matches Err(e) && e.stage == Stage::Eval),
    {
        let ghost names = self.inner().names();
        let ghost sup = justification_view(*j);
        let mut out: Vec<SupportTupleOut> = Vec::new();
        let mut k: usize = 0;
        while k < j.support.len()
            invariant
                k <= j.support@.len(),
                names == self.inner().names(),
                sup == justification_view(*j),
                support_resolvable(sup.take(k as int), names),
                out@.map_values(|s: SupportTupleOut| support_out_view(s)) == lift_support_spec(sup.take(k as int), names),
            decreases j.support@.len() - k,
        {
            let t = &j.support[k];
            assert(sup[k as int] == (t.relation@, t.tuple@));
            match self.lift_row(&t.tuple) {
                Ok(ws) => {
                    let ghost before = out@;
                    out.push(SupportTupleOut { relation: t.relation.clone(), tuple: ws });
                    assert(sup.take(k + 1) =~= sup.take(k as int).push(sup[k as int]));
                    assert(out@.map_values(|s: SupportTupleOut| support_out_view(s))
                        =~= before.map_values(|s: SupportTupleOut| support_out_view(s)).push((t.relation@, wires_view(ws@))));
                    assert(lift_support_spec(sup.take(k + 1), names)
                        =~= lift_support_spec(sup.take(k as int), names).push((t.relation@, lift_tuple_spec(t.tuple@, names))));
                    assert forall|x: int| 0 <= x < k + 1 implies resolvable(#[trigger] sup.take(k + 1)[x].1, names) by {
                        if x < k {
                            assert(sup.take(k + 1)[x] == sup.take(k as int)[x]);
                        }
                    }
                },
                Err(e) => {
                    assert(!support_resolvable(sup, names)) by {
                        assert(sup[k as int].1 == t.tuple@);
                    }
                    return Err(e);
                },
            }
            k += 1;
        }
        assert(sup.take(k as int) =~= sup);
        Ok(JustificationOut { support: out })
    }

    /// Lifts a row's provenance onto the wire.
    fn lift_provenance(&self, p: &RowProvenance) -> (r: Result<RowProvenanceOut, StageError>)
        ensures
            group_resolvable(row_provenance_view(*p), self.inner().names()) ==> (r matches Ok(o)
                && row_provenance_out_view(o) == lift_group_spec(row_provenance_view(*p), self.inner().names())),
            !group_resolvable(row_provenance_view(*p), self.inner().names()) ==> (r matches Err(e) && e.stage == Stage::Eval),
    {
        let ghost names = self.inner().names();
        let ghost g = row_provenance_view(*p);
        let row = match self.lift_row(&p.row) {
            Ok(ws) => ws,
            Err(e) => return Err(e),
        };
        let mut out: Vec<JustificationOut> = Vec::new();
        let mut j: usize = 0;
        while j < p.justifications.len()
            invariant
                j <= p.justifications@.len(),
                names == self.inner().names(),
                g == row_provenance_view(*p),
                forall|x: int| 0 <= x < j ==> support_resolvable(#[trigger] g.1[x], names),
                out@.map_values(|o: JustificationOut| justification_out_view(o))
                    == g.1.take(j as int).map_values(|sup: Support| lift_support_spec(sup, names)),
            decreases p.justifications@.len() - j,
        {
            assert(g.1[j as int] == justification_view(p.justifications@[j as int]));
            match self.lift_justification(&p.justifications[j]) {
                Ok(o) => {
                    let ghost before = out@;
                    out.push(o);
                    assert(g.1.take(j + 1) =~= g.1.take(j as int).push(g.1[j as int]));
                    assert(out@.map_values(|o: JustificationOut| justification_out_view(o))
                        =~= before.map_values(|o: JustificationOut| justification_out_view(o)).push(justification_out_view(o)));
                },
                Err(e) => return Err(e),
            }
            j += 1;
        }
        assert(g.1.take(j as int) =~= g.1);
        Ok(RowProvenanceOut { row, justifications: out })
    }

    /// Lowers wire values left to right, stopping at the first that fails.
    fn lower_tuple(&mut self, ws: &Vec<WireValue>) -> (r: Result<Vec<Value>, StageError>)
        requires
            old(self).inner().wf(),
        ensures
            final(self).inner().wf(),
            final(self).inner().prog() == old(self).inner().prog(),
            final(self).inner().state() == old(self).inner().state(),
            final(self).inner().names() == lower_all_spec(wires_view(ws@), old(self).inner().names()).1,
            match lower_all_spec(wires_view(ws@), old(self).inner().names()).0 {
                Some(vs) => r matches Ok(v) && v@ == vs,
                None => r matches Err(e) && e.stage == Stage::Engine,
            },
    {
        let ghost n0 = self.engine.names();
        let mut out: Vec<Value> = Vec::new();
        let mut i: usize = 0;
        while i < ws.len()
            invariant
                i <= ws@.len(),
                self.inner().wf(),
                self.inner().prog() == old(self).inner().prog(),
                self.inner().state() == old(self).inner().state(),
                n0 == old(self).inner().names(),
                lower_all_spec(wires_view(ws@).take(i as int), n0) == (Some(out@), self.inner().names()),
            decreases ws@.len() - i,
        {
            let ghost before = self.inner().names();
            assert(wires_view(ws@).take(i + 1).drop_last() =~= wires_view(ws@).take(i as int));
            assert(wires_view(ws@).take(i + 1).last() == ws@[i as int]@);
            match self.lower_value(&ws[i]) {
                Ok(v) => out.push(v),
                Err(e) => {
                    proof { lemma_lower_stops(wires_view(ws@), n0, i as int + 1); }
                    return Err(e);
                },
            }
            i += 1;
        }
        assert(wires_view(ws@).take(i as int) =~= wires_view(ws@));
        Ok(out)
    }

    /// Lifts an evaluation's rows and provenance onto the wire.
    fn lift_result(&self, rs: &ResultSet, pv: &Provenance) -> (r: Result<QueryResultOut, StageError>)
        ensures
            lift_agrees(r, rs.rows_view(), rs.truncated_view(),
                pv.rows_spec().map_values(|p: RowProvenance| row_provenance_view(p)), self.inner().names()),
    {
        let ghost names = self.inner().names();
        let ghost provs = pv.rows_spec().map_values(|p: RowProvenance| row_provenance_view(p));
        let src = rs.rows();
        let mut rows: Vec<Vec<WireValue>> = Vec::new();
        let mut i: usize = 0;
        while i < src.len()
            invariant
                i <= src@.len(),
                names == self.inner().names(),
                rows_view(src@) == rs.rows_view(),
                forall|x: int| 0 <= x < i ==> resolvable(#[trigger] rs.rows_view()[x], names),
                rows@.map_values(|r: Vec<WireValue>| wires_view(r@))
                    == rs.rows_view().take(i as int).map_values(|t: Seq<Value>| lift_tuple_spec(t, names)),
            decreases src@.len() - i,
        {
            assert(rs.rows_view()[i as int] == src@[i as int]@);
            let row = copy_tuple(&src[i]);
            match self.lift_row(&row) {
                Ok(ws) => {
                    let ghost before = rows@;
                    rows.push(ws);
                    assert(rs.rows_view().take(i + 1) =~= rs.rows_view().take(i as int).push(rs.rows_view()[i as int]));
                    assert(rows@.map_values(|r: Vec<WireValue>| wires_view(r@))
                        =~= before.map_values(|r: Vec<WireValue>| wires_view(r@)).push(wires_view(ws@)));
                },
                Err(e) => return Err(e),
            }
            i += 1;
        }
        assert(rs.rows_view().take(i as int) =~= rs.rows_view());
        let ps = pv.rows();
        let mut provenance: Vec<RowProvenanceOut> = Vec::new();
        let mut k: usize = 0;
        while k < ps.len()
            invariant
                k <= ps@.len(),
                names == self.inner().names(),
                ps@ == pv.rows_spec(),
                provs == pv.rows_spec().map_values(|p: RowProvenance| row_provenance_view(p)),
                forall|x: int| 0 <= x < k ==> group_resolvable(#[trigger] provs[x], names),
                provenance@.map_values(|p: RowProvenanceOut| row_provenance_out_view(p))
                    == provs.take(k as int).map_values(|g: (Seq<Value>, Seq<Support>)| lift_group_spec(g, names)),
            decreases ps@.len() - k,
        {
            assert(provs[k as int] == row_provenance_view(ps@[k as int]));
            match self.lift_provenance(&ps[k]) {
                Ok(o) => {
                    let ghost before = provenance@;
                    provenance.push(o);
                    assert(provs.take(k + 1) =~= provs.take(k as int).push(provs[k as int]));
                    assert(provenance@.map_values(|p: RowProvenanceOut| row_provenance_out_view(p))
                        =~= before.map_values(|p: RowProvenanceOut| row_provenance_out_view(p)).push(row_provenance_out_view(o)));
                },
                Err(e) => return Err(e),
            }
            k += 1;
        }
        assert(provs.take(k as int) =~= provs);
        Ok(QueryResultOut { rows, truncated: rs.is_truncated(), provenance })
    }

    /// Asserts a fact given as wire values.
    pub fn add_fact(&mut self, relation: &str, values: Vec<WireValue>) -> (r: Result<(), StageError>)
        requires
            old(self).inner().wf(),
        ensures
            final(self).inner().wf(),
            final(self).inner().prog() == old(self).inner().prog(),
            final(self).inner().names() == lower_all_spec(wires_view(values@), old(self).inner().names()).1,
            match lower_all_spec(wires_view(values@), old(self).inner().names()).0 {
                None => (r matches Err(e) && e.stage == Stage::Engine) && final(self).inner().state() == old(self).inner().state(),
                Some(vs) => {
                    &&& final(self).inner().state() == insert_effect(old(self).inner().state(), relation@, vs, true)
                    &&& (r is Ok <==> insert_outcome(old(self).inner().state(), relation@, vs, true) is Inserted)
                    &&& r matches Err(e) ==> e.stage == Stage::Engine
                },
            },
    {
        let tuple = match self.lower_tuple(&values) {
            Ok(t) => t,
            Err(e) => return Err(e),
        };
        match self.engine.add_fact(relation, tuple) {
            Ok(()) => Ok(()),
            Err(e) => Err(StageError { stage: Stage::Engine, message: e.describe() }),
        }
    }

    /// Asserts facts in order, stopping at the first that fails.
    pub fn add_facts(&mut self, facts: Vec<FactInput>) -> (r: Result<(), StageError>)
        requires
            old(self).inner().wf(),
        ensures
            final(self).inner().wf(),
            final(self).inner().prog() == old(self).inner().prog(),
            ({
                let (ok, db, names) = add_all_spec(facts@.map_values(|f: FactInput| fact_view(f)),
                    old(self).inner().state(), old(self).inner().names());
                &&& (r is Ok <==> ok)
                &&& final(self).inner().state() == db
                &&& final(self).inner().names() == names
            }),
            r matches Err(e) ==> e.stage == Stage::Engine,
    {
        let ghost fs = facts@.map_values(|f: FactInput| fact_view(f));
        let ghost d0 = self.inner().state();
        let ghost n0 = self.inner().names();
        let mut i: usize = 0;
        while i < facts.len()
            invariant
                i <= facts@.len(),
                fs == facts@.map_values(|f: FactInput| fact_view(f)),
                self.inner().wf(),
                self.inner().prog() == old(self).inner().prog(),
                d0 == old(self).inner().state(),
                n0 == old(self).inner().names(),
                add_all_spec(fs.take(i as int), d0, n0) == (true, self.inner().state(), self.inner().names()),
            decreases facts@.len() - i,
        {
            assert(fs.take(i + 1).drop_last() =~= fs.take(i as int));
            assert(fs.take(i + 1).last() == fact_view(facts@[i as int]));
            let f = &facts[i];
            let values = clone_wires(&f.values);
            match self.add_fact(f.relation.as_str(), values) {
                Ok(()) => {},
                Err(e) => {
                    proof { lemma_add_stops(fs, d0, n0, i as int + 1); }
                    return Err(e);
                },
            }
            i += 1;
        }
        assert(fs.take(i as int) =~= fs);
        Ok(())
    }

    /// Runs the program to a fixed point; when a head above its rule's
    /// stratum is never a lattice, every rule then holds and running again
    /// changes nothing.
    pub fn run(&mut self) -> (r: Result<(), StageError>)
        requires
            old(self).inner().wf(),
        ensures
            final(self).inner().wf(),
            final(self).inner().prog() == old(self).inner().prog(),
            final(self).inner().names() == old(self).inner().names(),
            (r is Ok && spanning_heads_are_sets(old(self).inner().prog(), least_strata(old(self).inner().prog()).unwrap())) ==>
                forall|k: int| 0 <= k < old(self).inner().prog().rules@.len()
                    ==> #[trigger] rule_holds::<E>(old(self).inner().prog().rules@[k], final(self).inner().state()),
            (r is Ok && spanning_heads_are_sets(old(self).inner().prog(), least_strata(old(self).inner().prog()).unwrap())) ==>
                run_spec::<E>(old(self).inner().prog(), final(self).inner().state()) == Some(final(self).inner().state()),
            r is Ok ==> run_spec::<E>(old(self).inner().prog(), old(self).inner().state()) == Some(final(self).inner().state()),
            E::exact() && run_spec::<E>(old(self).inner().prog(), old(self).inner().state()) is Some ==> r is Ok,
            r matches Err(e) ==> e.stage == Stage::Engine,
    {
        match self.engine.run() {
            Ok(()) => Ok(()),
            Err(e) => Err(StageError { stage: Stage::Engine, message: e.describe() }),
        }
    }

    /// The relations with their column types, in declaration order.
    pub fn schema(&self) -> (r: SchemaOut)
        ensures
            r.relations@.len() == self.inner().prog().relations@.len(),
            forall|i: int| 0 <= i < r.relations@.len() ==> {
                &&& (#[trigger] r.relations@[i]).name@ == self.inner().prog().relations@[i].name@
                &&& r.relations@[i].columns@.map_values(|c: &'static str| c@)
                    == self.inner().prog().relations@[i].schema@.map_values(|t: Type| type_str_spec(t))
                &&& r.relations@[i].doc is None
            },
    {
        let rels = &self.engine.program().relations;
        let mut out: Vec<RelationSchemaOut> = Vec::new();
        let mut i: usize = 0;
        while i < rels.len()
            invariant
                i <= rels@.len(),
                *rels == self.inner().prog().relations,
                out@.len() == i,
                forall|x: int| 0 <= x < i ==> {
                    &&& (#[trigger] out@[x]).name@ == rels@[x].name@
                    &&& out@[x].columns@.map_values(|c: &'static str| c@) == rels@[x].schema@.map_values(|t: Type| type_str_spec(t))
                    &&& out@[x].doc is None
                },
            decreases rels@.len() - i,
        {
            let cols = &rels[i].schema;
            let mut columns: Vec<&'static str> = Vec::new();
            let mut c: usize = 0;
            while c < cols.len()
                invariant
                    c <= cols@.len(),
                    columns@.map_values(|x: &'static str| x@) == cols@.take(c as int).map_values(|t: Type| type_str_spec(t)),
                decreases cols@.len() - c,
            {
                let ghost before = columns@;
                let name = type_str(cols[c]);
                columns.push(name);
                assert(cols@.take(c + 1) =~= cols@.take(c as int).push(cols@[c as int]));
                assert(columns@.map_values(|x: &'static str| x@) =~= before.map_values(|x: &'static str| x@).push(name@));
                c += 1;
            }
            assert(cols@.take(c as int) =~= cols@);
            out.push(RelationSchemaOut { name: rels[i].name.clone(), columns, doc: None });
            i += 1;
        }
        SchemaOut { relations: out }
    }

    /// Parses and form-checks a query.
    pub fn check(&mut self, text: &str) -> (r: Result<(), StageError>)
        requires
            old(self).inner().wf(),
        ensures
            final(self).inner().wf(),
            final(self).inner().prog() == old(self).inner().prog(),
            final(self).inner().state() == old(self).inner().state(),
            match parse_query_spec(text@, old(self).inner().names()) {
                None => r matches Err(e) && e.stage == Stage::Parse,
                Some(((outs, cv), n)) => final(self).inner().names() == n && exists|body: Seq<BodyClause>|
                    clauses_view(body) == cv && #[trigger] check_outcome(r, old(self).inner().prog().relations@, outs, body),
            },
    {
        let q = match self.engine.parse_query(text) {
            Ok(q) => q,
            Err(e) => return Err(query_error(e)),
        };
        let r = match self.engine.check(&q) {
            Ok(()) => Ok(()),
            Err(e) => Err(query_error(e)),
        };
        assert(check_outcome(r, self.inner().prog().relations@, q.outputs_spec(), q.body_spec()));
        r
    }

    /// Form-checks and evaluates a parsed query under the cap `max`, and
    /// lifts its rows and provenance onto the wire.
    fn run_query(&mut self, q: &ConjunctiveQuery, max: u32) -> (r: Result<QueryResultOut, StageError>)
        requires
            old(self).inner().wf(),
        ensures
            final(self).inner().wf(),
            final(self).inner().prog() == old(self).inner().prog(),
            final(self).inner().state() == old(self).inner().state(),
            final(self).inner().names() == old(self).inner().names(),
            query_outcome::<E>(r, old(self).inner().prog().relations@, old(self).inner().state(),
                q.outputs_spec(), q.body_spec(), max as nat, old(self).inner().names()),
    {
        match self.engine.check(q) {
            Ok(()) => {},
            Err(e) => return Err(query_error(e)),
        }
        match self.engine.eval(q, Cardinality::new(max as usize)) {
            Ok((rs, pv)) => {
                let r = self.lift_result(&rs, &pv);
                proof {
                    let (sols, t) = query_spec::<E>(self.inner().state(), q.outputs_spec(), q.body_spec(), max as nat).unwrap();
                    lemma_lift_grouping(sols, t, rs, pv, self.inner().names(), r);
                }
                r
            },
            Err(e) => Err(query_error(e)),
        }
    }

    /// Parses, form-checks and evaluates a query under the cap `max`, and
    /// hands back its rows and provenance as wire values.
    pub fn query(&mut self, text: &str, max: u32) -> (r: Result<QueryResultOut, StageError>)
        requires
            old(self).inner().wf(),
        ensures
            final(self).inner().wf(),
            final(self).inner().prog() == old(self).inner().prog(),
            final(self).inner().state() == old(self).inner().state(),
            match parse_query_spec(text@, old(self).inner().names()) {
                None => r matches Err(e) && e.stage == Stage::Parse,
                Some(((outs, cv), n)) => final(self).inner().names() == n && exists|body: Seq<BodyClause>|
                    clauses_view(body) == cv && #[trigger] query_outcome::<E>(r, old(self).inner().prog().relations@,
                        old(self).inner().state(), outs, body, max as nat, n),
            },
    {
        let q = match self.engine.parse_query(text) {
            Ok(q) => q,
            Err(e) => return Err(query_error(e)),
        };
        self.run_query(&q, max)
    }
}

impl FactEngine<WasmEval> {
    /// Loads a program into an engine whose expressions run on the WASM
    /// tier; any failure is an engine-stage failure with the engine's message.
    pub fn from_source(src: &str) -> (r: Result<FactEngine<WasmEval>, StageError>)
        ensures
            r matches Ok(f) ==> {
                &&& f.inner().wf()
                &&& parse_spec(src@, Seq::empty()) == Some((program_view(f.inner().prog()), f.inner().names()))
                &&& f.inner().state() == f.inner().prog().relations@.map_values(|d: RelationDecl| empty_rel(d))
            },
            parse_spec(src@, Seq::empty()) is None ==> r is Err,
            r matches Err(e) ==> e.stage == Stage::Engine,
            (source_loads(src@) && r is Err) ==> (r matches Err(e) && exists|x: ExprError| x is Runtime && e.message@ == x.describe_spec()),
    {
        match engine_from_source(src) {
            Ok(engine) => Ok(FactEngine { engine }),
            Err(e) => Err(StageError { stage: Stage::Engine, message: e.describe() }),
        }
    }
}

/// Once lowering fails, it fails for every longer list, with the table left
/// as it was at the failure.
proof fn lemma_lower_stops(ws: Seq<WireV>, names: Seq<Seq<char>>, k: int)
    requires
        0 < k <= ws.len(),
        lower_all_spec(ws.take(k), names).0 is None,
    ensures
        lower_all_spec(ws, names) == lower_all_spec(ws.take(k), names),
    decreases ws.len() - k,
{
    if k < ws.len() {
        assert(ws.take(k + 1).drop_last() =~= ws.take(k));
        lemma_lower_stops(ws, names, k + 1);
    } else {
        assert(ws.take(k) =~= ws);
    }
}

/// Once asserting fails, the rest of the facts are not asserted.
proof fn lemma_add_stops(fs: Seq<(Seq<char>, Seq<WireV>)>, db: Seq<RelView>, names: Seq<Seq<char>>, k: int)
    requires
        0 < k <= fs.len(),
        !add_all_spec(fs.take(k), db, names).0,
    ensures
        add_all_spec(fs, db, names) == add_all_spec(fs.take(k), db, names),
    decreases fs.len() - k,
{
    if k < fs.len() {
        assert(fs.take(k + 1).drop_last() =~= fs.take(k));
        lemma_add_stops(fs, db, names, k + 1);
    } else {
        assert(fs.take(k) =~= fs);
    }
}

/// A copy of a list of wire values.
fn clone_wires(ws: &Vec<WireValue>) -> (r: Vec<WireValue>)
    ensures
        wires_view(r@) == wires_view(ws@),
{
    let mut out: Vec<WireValue> = Vec::new();
    let mut i: usize = 0;
    while i < ws.len()
        invariant
            i <= ws@.len(),
            out@.len() == i,
            forall|x: int| 0 <= x < i ==> (#[trigger] out@[x])@ == ws@[x]@,
        decreases ws@.len() - i,
    {
        let w = match &ws[i] {
            WireValue::Int(s) => WireValue::Int(s.clone()),
            WireValue::Bool(b) => WireValue::Bool(*b),
            WireValue::Sym(s) => WireValue::Sym(s.clone()),
        };
        out.push(w);
        i += 1;
    }
    assert(wires_view(out@) =~= wires_view(ws@));
    out
}

} // verus!
