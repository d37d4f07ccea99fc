//! The engine: a loaded program, its interner and its database, with an
//! expression evaluator. Programs are loaded from source, facts asserted,
//! the program run to a fixed point, and the database queried, explained,
//! speculated upon and queried ad hoc.

use vstd::prelude::*;

use crate::error::EvalError;
use crate::eval::{ExprEval, Interpreter};
use crate::explain::{body_declared, deriv_view, eval_query, explain, first_undeclared, qsol_view, query_spec, rules_derivs, Derivation, QueryOutput, QuerySolution};
use crate::expr::{Expr, ExprError};
use crate::ir::{decl_index, BodyClause, Program, RelationDecl};
use crate::order::{ascending, lemma_minus_contains, lemma_minus_nodup, minus_rows, rows_minus, sort_rows};
use crate::parser::{clauses_view, parse, parse_query, parse_query_spec, parse_spec, parsed_shape, program_view, ParseError};
use crate::groups::strata_groups;
use crate::least_model::{least_at, least_conditions};
use crate::run::{groups_limited, run_spec, db_of_program, run};
use crate::solve::rule_holds;
use crate::store::{copy_tuple, grows, insert_spec, kept, lemma_same_shape_index, rel_index, db_absorbed, db_wf, decls_storable, empty_rel, insert_agrees, insert_effect, insert_outcome, rows_of, rows_view, same_shape, Database, InsertOutcome, RelView};
use crate::strata::{body_valid, first_invalid, spanning_heads_are_sets, least_strata, program_valid, stratify};
use crate::value::{Interner, Symbol, Value};
use crate::wasm::WasmEval;

verus! {

/// Any error produced by the engine.
#[derive(Debug)]
pub enum Error {
    /// A textual program failed to parse.
    Parse(ParseError),
    /// Validation or evaluation failed.
    Eval(EvalError),
    /// The WASM expression tier failed to initialise.
    Wasm(ExprError),
}

/// The text parses to a program that validates and has a stratification.
pub open spec fn source_loads(src: Seq<char>) -> bool {
    parse_spec(src, Seq::empty()) matches Some((pv, n))
        && forall|q: Program| #[trigger] program_view(q) == pv ==> program_valid(q) && least_strata(q) is Some
}

/// The text parses to a valid program that has no stratification (a cycle
/// passes through negation or aggregation).
pub open spec fn source_unstratifiable(src: Seq<char>) -> bool {
    parse_spec(src, Seq::empty()) matches Some((pv, n))
        && forall|q: Program| #[trigger] program_view(q) == pv ==> program_valid(q) && least_strata(q) is None
}

impl Error {
    /// The error's description: that of the error it carries.
    pub fn describe(&self) -> (r: String)
        ensures
            r@ == match self {
                Error::Parse(e) => "parse error: "@ + e.message@,
                Error::Eval(e) => e.describe_spec(),
                Error::Wasm(e) => e.describe_spec(),
            },
    {
        match self {
            Error::Parse(e) => e.describe(),
            Error::Eval(e) => e.describe(),
            Error::Wasm(e) => e.describe(),
        }
    }
}

/// Whether an engine result reports an insertion outcome.
pub open spec fn fact_agrees(r: Result<(), Error>, o: InsertOutcome, name: Seq<char>) -> bool {
    match o {
        InsertOutcome::Inserted(_) => r is Ok,
        _ => r matches Err(Error::Eval(e)) && insert_agrees(Err(e), o, name),
    }
}

/// The tuples of `name` in `after` that `before` lacks.
pub open spec fn delta_of(before: Seq<RelView>, after: Seq<RelView>, name: Seq<char>) -> Seq<Seq<Value>> {
    let a = match rows_of(after, name) { Some(r) => r, None => Seq::empty() };
    let b = match rows_of(before, name) { Some(r) => r, None => Seq::empty() };
    rows_minus(a, b)
}

/// `c` lists, once per declared relation name whose tuples grew from
/// `before` to `after`, the new tuples in ascending order.
pub open spec fn consequences_ok(c: Seq<(Seq<char>, Seq<Seq<Value>>)>, rels: Seq<RelationDecl>, before: Seq<RelView>, after: Seq<RelView>) -> bool {
    &&& forall|a: int, b: int| 0 <= a < b < c.len() ==> (#[trigger] c[a]).0 != (#[trigger] c[b]).0
    &&& forall|k: int| 0 <= k < c.len() ==> {
        &&& decl_index(rels, (#[trigger] c[k]).0) is Some
        &&& c[k].1.len() > 0
        &&& ascending(c[k].1)
        &&& c[k].1.no_duplicates()
        &&& forall|t: Seq<Value>| c[k].1.contains(t) <==> delta_of(before, after, c[k].0).contains(t)
    }
    &&& forall|i: int| 0 <= i < rels.len() && delta_of(before, after, (#[trigger] rels[i]).name@).len() > 0 ==>
        exists|k: int| 0 <= k < c.len() && (#[trigger] c[k]).0 == rels[i].name@
}

/// The database after asserting `facts` in order.
pub open spec fn with_facts(db: Seq<RelView>, facts: Seq<(Seq<char>, Seq<Value>)>) -> Seq<RelView>
    decreases facts.len(),
{
    if facts.len() == 0 {
        db
    } else {
        insert_effect(with_facts(db, facts.drop_last()), facts.last().0, facts.last().1, true)
    }
}

/// Candidate facts as names and values.
pub open spec fn candidates_view(facts: Seq<(&str, Vec<Value>)>) -> Seq<(Seq<char>, Seq<Value>)> {
    facts.map_values(|f: (&str, Vec<Value>)| (f.0@, f.1@))
}

/// What a speculation that succeeded establishes about the fork it ran and
/// the consequences it reported: the fork is a well-formed database of the
/// same relations that keeps every tuple of the base with the candidate
/// facts asserted, a fixed point of every rule when each rule's heads share
/// a stratum, and the consequences are its new tuples.
pub open spec fn speculation_ok<E: ExprEval>(p: Program, base: Seq<RelView>, cands: Seq<(Seq<char>, Seq<Value>)>, fork: Seq<RelView>, c: Seq<(Seq<char>, Seq<Seq<Value>>)>) -> bool {
    &&& db_wf(fork)
    &&& same_shape(base, fork)
    &&& grows(with_facts(base, cands), fork)
    &&& (least_strata(p) matches Some(st) && spanning_heads_are_sets(p, st)) ==>
        forall|k: int| 0 <= k < p.rules@.len() ==> #[trigger] rule_holds::<E>(p.rules@[k], fork)
    &&& consequences_ok(c, p.relations@, base, fork)
}

/// Asserting facts keeps the shape of the database.
proof fn lemma_with_facts_shape(db: Seq<RelView>, cands: Seq<(Seq<char>, Seq<Value>)>)
    ensures
        same_shape(db, with_facts(db, cands)),
    decreases cands.len(),
{
    if cands.len() == 0 {
        crate::run::lemma_shape_refl(db);
    } else {
        let w = with_facts(db, cands.drop_last());
        lemma_with_facts_shape(db, cands.drop_last());
        crate::run::lemma_insert_shape(w, cands.last().0, cands.last().1, true);
        crate::run::lemma_shape_trans(db, w, with_facts(db, cands));
    }
}

/// A candidate asserted without error into a set relation is in the
/// database after all the candidates are asserted.
proof fn lemma_with_facts_holds(db: Seq<RelView>, cands: Seq<(Seq<char>, Seq<Value>)>, k: int, i: int)
    requires
        0 <= k < cands.len(),
        forall|j: int| 0 <= j < cands.len() ==> insert_outcome(db, (#[trigger] cands[j]).0, cands[j].1, true) is Inserted,
        rel_index(db, cands[k].0) == Some(i),
        db[i].kind is Relation,
    ensures
        with_facts(db, cands)[i].rows.contains(cands[k].1),
    decreases cands.len(),
{
    let init = cands.drop_last();
    let w = with_facts(db, init);
    lemma_with_facts_shape(db, init);
    lemma_same_shape_index(db, w, cands[k].0);
    crate::store::lemma_rel_index(db, cands[k].0);
    assert(db[i].name == w[i].name && db[i].kind == w[i].kind);
    let last = cands.last();
    lemma_outcome_shape(db, w, last.0, last.1, true);
    assert(cands[cands.len() - 1] == last);
    crate::store::lemma_insert_grows(w, last.0, last.1, true);
    if k < cands.len() - 1 {
        assert forall|j: int| 0 <= j < init.len() implies insert_outcome(db, (#[trigger] init[j]).0, init[j].1, true) is Inserted by {
            assert(init[j] == cands[j]);
        }
        assert(init[k] == cands[k]);
        lemma_with_facts_holds(db, init, k, i);
        assert(w[i].rows.contains(cands[k].1));
    } else {
        crate::store::lemma_outcome_inserted(w, last.0, last.1, true);
        assert(with_facts(db, cands)[i].rows == insert_spec(w[i], last.1).0);
        if !w[i].rows.contains(last.1) {
            assert(insert_spec(w[i], last.1).0[w[i].rows.len() as int] == last.1);
        }
    }
}

/// A speculation keeps its candidates: a candidate asserted into a set
/// relation is in the fork, and when the base lacked it, it is among the
/// consequences reported for its relation.
pub proof fn lemma_speculation_keeps_candidates<E: ExprEval>(p: Program, base: Seq<RelView>, cands: Seq<(Seq<char>, Seq<Value>)>,
    fork: Seq<RelView>, c: Seq<(Seq<char>, Seq<Seq<Value>>)>, k: int)
    requires
        db_of_program(p, base),
        speculation_ok::<E>(p, base, cands, fork, c),
        0 <= k < cands.len(),
        forall|j: int| 0 <= j < cands.len() ==> insert_outcome(base, (#[trigger] cands[j]).0, cands[j].1, true) is Inserted,
        rel_index(base, cands[k].0) matches Some(i) && base[i].kind is Relation,
    ensures
        rows_of(fork, cands[k].0) matches Some(rows) && rows.contains(cands[k].1),
        !(rows_of(base, cands[k].0) matches Some(b) && b.contains(cands[k].1)) ==>
            exists|x: int| 0 <= x < c.len() && (#[trigger] c[x]).0 == cands[k].0 && c[x].1.contains(cands[k].1),
{
    let name = cands[k].0;
    let t = cands[k].1;
    let i = rel_index(base, name).unwrap();
    crate::store::lemma_rel_index(base, name);
    lemma_with_facts_holds(base, cands, k, i);
    let w = with_facts(base, cands);
    lemma_with_facts_shape(base, cands);
    assert(base[i].name == w[i].name && base[i].kind == w[i].kind);
    assert(w[i].rows.contains(t));
    assert(kept(w[i], fork[i], t));
    lemma_same_shape_index(base, fork, name);
    assert(rows_of(fork, name) == Some(fork[i].rows));
    let d = delta_of(base, fork, name);
    lemma_minus_contains(fork[i].rows, base[i].rows, t);
    if !base[i].rows.contains(t) {
        assert(d.contains(t));
        assert(base[i].name == p.relations@[i].name@);
        assert(d.len() > 0);
        assert(delta_of(base, fork, p.relations@[i].name@).len() > 0);
        let x = choose|x: int| 0 <= x < c.len() && (#[trigger] c[x]).0 == p.relations@[i].name@;
        assert(c[x].1.contains(t));
    }
}

/// Whether a fact inserts without error depends on the declarations only.
proof fn lemma_outcome_shape(a: Seq<RelView>, b: Seq<RelView>, name: Seq<char>, t: Seq<Value>, typed: bool)
    requires
        same_shape(a, b),
    ensures
        (insert_outcome(a, name, t, typed) is Inserted) == (insert_outcome(b, name, t, typed) is Inserted),
{
    reveal(insert_outcome);
    crate::store::lemma_same_shape_index(a, b, name);
    crate::store::lemma_rel_index(a, name);
    match rel_index(a, name) {
        Some(i) => {
            assert(a[i].schema == b[i].schema);
        },
        None => {},
    }
}

/// The tuples that become newly derivable when candidate facts are
/// speculatively added, by relation.
#[derive(Debug, Clone)]
pub struct Consequences {
    added: Vec<(String, Vec<Vec<Value>>)>,
    none: Vec<Vec<Value>>,
}

impl View for Consequences {
    type V = Seq<(Seq<char>, Seq<Seq<Value>>)>;

    closed spec fn view(&self) -> Seq<(Seq<char>, Seq<Seq<Value>>)> {
        self.added@.map_values(|e: (String, Vec<Vec<Value>>)| (e.0@, rows_view(e.1@)))
    }
}

/// The tuples listed for `name`, if any.
pub open spec fn added_spec(c: Seq<(Seq<char>, Seq<Seq<Value>>)>, name: Seq<char>) -> Seq<Seq<Value>> {
    if exists|k: int| 0 <= k < c.len() && c[k].0 == name {
        c[choose|k: int| 0 <= k < c.len() && c[k].0 == name].1
    } else {
        Seq::empty()
    }
}

impl Consequences {
    /// The invariant: `none` is empty and relation names are distinct.
    pub closed spec fn wf(&self) -> bool {
        &&& self.none@.len() == 0
        &&& forall|a: int, b: int| 0 <= a < b < self@.len() ==> (#[trigger] self@[a]).0 != (#[trigger] self@[b]).0
    }

    /// The tuples newly derivable in `relation` (empty if none).
    pub fn added(&self, relation: &str) -> (r: &[Vec<Value>])
        requires
            self.wf(),
        ensures
            rows_view(r@) == added_spec(self@, relation@),
    {
        let name = relation.to_owned();
        let mut k: usize = 0;
        while k < self.added.len()
            invariant
                k <= self.added@.len(),
                self.wf(),
                name@ == relation@,
                forall|j: int| 0 <= j < k ==> (#[trigger] self@[j]).0 != relation@,
            decreases self.added@.len() - k,
        {
            assert(self@[k as int].0 == self.added@[k as int].0@);
            if self.added[k].0 == name {
                proof {
                    let c = self@;
                    let w = choose|w: int| 0 <= w < c.len() && c[w].0 == relation@;
                    if w != k {
                        if w < k { assert(c[w].0 != relation@); }
                        else { assert(c[k as int].0 != c[w].0); }
                    }
                }
                return self.added[k].1.as_slice();
            }
            k += 1;
        }
        assert(rows_view(self.none@) =~= Seq::<Seq<Value>>::empty());
        self.none.as_slice()
    }

    /// Every relation that gained tuples, paired with those tuples.
    pub fn iter(&self) -> (r: Vec<(String, Vec<Vec<Value>>)>)
        ensures
            r@.map_values(|e: (String, Vec<Vec<Value>>)| (e.0@, rows_view(e.1@))) == self@,
    {
        let mut out: Vec<(String, Vec<Vec<Value>>)> = Vec::new();
        let mut k: usize = 0;
        while k < self.added.len()
            invariant
                k <= self.added@.len(),
                out@.map_values(|e: (String, Vec<Vec<Value>>)| (e.0@, rows_view(e.1@))) == self@.take(k as int),
            decreases self.added@.len() - k,
        {
            let ghost before = out@;
            let entry = (self.added[k].0.clone(), crate::store::copy_rows(&self.added[k].1));
            assert((entry.0@, rows_view(entry.1@)) == self@[k as int]);
            out.push(entry);
            assert(out@ =~= before.push(entry));
            assert(out@.map_values(|e: (String, Vec<Vec<Value>>)| (e.0@, rows_view(e.1@)))
                =~= before.map_values(|e: (String, Vec<Vec<Value>>)| (e.0@, rows_view(e.1@))).push(self@[k as int]));
            assert(self@.take(k + 1) =~= self@.take(k as int).push(self@[k as int]));
            k += 1;
        }
        assert(self@.take(k as int) =~= self@);
        out
    }

    /// Whether the candidate facts produced no new derivations anywhere.
    pub fn is_empty(&self) -> (r: bool)
        ensures
            r == (self@.len() == 0),
    {
        self.added.len() == 0
    }
}

/// A loaded program plus its database, ready to accept facts and run.
#[derive(Debug)]
pub struct Engine<E> {
    program: Program,
    interner: Interner,
    db: Database,
    evaluator: E,
}

impl<E: ExprEval> Engine<E> {
    /// The loaded program.
    pub closed spec fn prog(&self) -> Program {
        self.program
    }

    /// The database's contents.
    pub closed spec fn state(&self) -> Seq<RelView> {
        self.db@
    }

    /// The interner's table.
    pub closed spec fn names(&self) -> Seq<Seq<char>> {
        self.interner@
    }

    /// The engine's invariant: the database is well formed and holds the
    /// program's relations; the program is valid and stratifiable and has
    /// the parser's shape; the interner and evaluator are in order.
    pub closed spec fn wf(&self) -> bool {
        &&& self.db.wf()
        &&& db_of_program(self.program, self.db@)
        &&& decls_storable(self.program.relations@)
        &&& forall|r: int| 0 <= r < self.program.rules@.len() ==> (#[trigger] self.program.rules@[r]).heads@.len() >= 1
        &&& program_valid(self.program)
        &&& self.interner.wf()
        &&& self.evaluator.inv()
    }

    /// Parses `src` and builds an engine over `evaluator`. Fails with
    /// [`Error::Parse`] exactly when the text does not parse, and with
    /// [`Error::Eval`] when the program does not validate or stratify.
    pub fn from_source_with_evaluator(src: &str, evaluator: E) -> (r: Result<Engine<E>, Error>)
        requires
            evaluator.inv(),
        ensures
            parse_spec(src@, Seq::empty()) is None <==> r matches Err(Error::Parse(_)),
            r matches Ok(e) ==> {
                &&& e.wf()
                &&& parse_spec(src@, Seq::empty()) == Some((program_view(e.prog()), e.names()))
                &&& least_strata(e.prog()) is Some
                &&& e.state() == e.prog().relations@.map_values(|d: RelationDecl| empty_rel(d))
            },
            r matches Err(Error::Eval(e)) ==> (e is UnknownRelation || e is Arity || e is Stratification),
            !(r matches Err(Error::Wasm(_))),
            source_loads(src@) ==> r is Ok,
            source_unstratifiable(src@) ==> r matches Err(Error::Eval(EvalError::Stratification(_))),
    {
        let mut interner = Interner::new();
        let program = match parse(src, &mut interner) {
            Ok(p) => p,
            Err(e) => return Err(Error::Parse(e)),
        };
        proof {
            crate::parser::lemma_parse_shape(src@, Seq::empty());
            let pv = program_view(program);
            assert forall|i: int| 0 <= i < program.relations@.len() && (#[trigger] program.relations@[i]).kind is Lattice
                implies program.relations@[i].schema@.len() >= 1 by {
                assert(pv.relations[i] == crate::parser::decl_view(program.relations@[i]));
            }
            assert forall|r: int| 0 <= r < program.rules@.len() implies (#[trigger] program.rules@[r]).heads@.len() >= 1 by {
                assert(pv.rules[r] == crate::parser::rule_view(program.rules@[r]));
            }
        }
        proof {
            if source_loads(src@) || source_unstratifiable(src@) {
                assert(program_view(program) == parse_spec(src@, Seq::empty()).unwrap().0);
            }
        }
        match stratify(&program) {
            Ok(_) => {},
            Err(e) => {
                return Err(Error::Eval(e));
            },
        }
        let db = Database::new(&program);
        proof {
            assert forall|i: int| 0 <= i < db@.len() implies #[trigger] db@[i].name == program.relations@[i].name@
                && db@[i].kind == program.relations@[i].kind && db@[i].schema == program.relations@[i].schema@ by {
                assert(db@[i] == empty_rel(program.relations@[i]));
            }
        }
        Ok(Engine { program, interner, db, evaluator })
    }

    /// Interns `s`, for building or querying tuples that contain symbols.
    pub fn intern(&mut self, s: &str) -> (sym: Symbol)
        requires
            old(self).wf(),
            old(self).names().contains(s@) || old(self).names().len() <= u32::MAX,
        ensures
            final(self).wf(),
            final(self).names() == Interner::interned(old(self).names(), s@),
            (sym.0 as int) < final(self).names().len(),
            final(self).names()[sym.0 as int] == s@,
            final(self).state() == old(self).state(),
            final(self).prog() == old(self).prog(),
    {
        self.interner.intern(s)
    }

    /// Interns `s` when the symbol table has room for it; otherwise leaves
    /// the engine unchanged.
    pub(crate) fn try_intern(&mut self, s: &str) -> (r: Option<Symbol>)
        requires
            old(self).wf(),
        ensures
            final(self).wf(),
            final(self).state() == old(self).state(),
            final(self).prog() == old(self).prog(),
            (old(self).names().contains(s@) || old(self).names().len() <= u32::MAX) ==> (r matches Some(sym)
                && final(self).names() == Interner::interned(old(self).names(), s@)
                && (sym.0 as int) < final(self).names().len() && final(self).names()[sym.0 as int] == s@),
            !(old(self).names().contains(s@) || old(self).names().len() <= u32::MAX) ==> r is None
                && final(self).names() == old(self).names(),
    {
        self.interner.try_intern(s)
    }

    /// Resolves a previously interned symbol back to its string.
    pub fn resolve(&self, sym: Symbol) -> (r: Option<&str>)
        ensures
            match r {
                Some(t) => (sym.0 as int) < self.names().len() && t@ == self.names()[sym.0 as int],
                None => (sym.0 as int) >= self.names().len(),
            },
    {
        self.interner.resolve(sym)
    }

    /// Asserts a ground fact into `relation`, checking its arity and the type
    /// of every column against the declaration.
    pub fn add_fact(&mut self, relation: &str, tuple: Vec<Value>) -> (r: Result<(), Error>)
        requires
            old(self).wf(),
        ensures
            final(self).wf(),
            final(self).prog() == old(self).prog(),
            final(self).names() == old(self).names(),
            final(self).state() == insert_effect(old(self).state(), relation@, tuple@, true),
            fact_agrees(r, insert_outcome(old(self).state(), relation@, tuple@, true), relation@),
    {
        let ghost d0 = self.db@;
        let res = self.db.insert_fact(relation, tuple);
        proof { crate::run::lemma_insert_keeps_program(self.program, d0, relation@, tuple@, true); }
        match res {
            Ok(_) => Ok(()),
            Err(e) => Err(Error::Eval(e)),
        }
    }

    /// Runs the program to a fixed point. On success the result is what the
    /// strata, run in order to their fixed points, give ([`run_spec`]); when a
    /// head above its rule's stratum is never a lattice, every rule holds in
    /// it and running again changes nothing; when no rule positively reads a
    /// lattice of its own stratum, each stratum is least ([`least_at`]).
    pub fn run(&mut self) -> (r: Result<(), Error>)
        requires
            old(self).wf(),
        ensures
            final(self).wf(),
            final(self).prog() == old(self).prog(),
            final(self).names() == old(self).names(),
            same_shape(old(self).state(), final(self).state()),
            grows(old(self).state(), final(self).state()),
            !(r matches Err(Error::Parse(_))),
            (r is Ok && spanning_heads_are_sets(old(self).prog(), least_strata(old(self).prog()).unwrap())) ==>
                forall|k: int| 0 <= k < old(self).prog().rules@.len() ==> #[trigger] rule_holds::<E>(old(self).prog().rules@[k], final(self).state()),
            (r is Ok && spanning_heads_are_sets(old(self).prog(), least_strata(old(self).prog()).unwrap())) ==>
                run_spec::<E>(old(self).prog(), final(self).state()) == Some(final(self).state()),
            r is Ok ==> run_spec::<E>(old(self).prog(), old(self).state()) == Some(final(self).state()),
            (r is Ok && least_conditions(old(self).prog(), old(self).state())) ==>
                forall|g: int| 0 <= g < strata_groups(old(self).prog(), least_strata(old(self).prog()).unwrap()).len()
                ==> #[trigger] least_at::<E>(old(self).prog(), least_strata(old(self).prog()).unwrap(), g, old(self).state(), final(self).state()),
            E::exact() && run_spec::<E>(old(self).prog(), old(self).state()) is Some ==> r is Ok,
            (E::exact() && least_strata(old(self).prog()) is Some && groups_limited::<E>(old(self).prog(),
                strata_groups(old(self).prog(), least_strata(old(self).prog()).unwrap()), 0, old(self).state()))
                ==> r matches Err(Error::Eval(EvalError::IterationLimit)),
    {
        let ghost d0 = self.db@;
        let res = run(&self.program, &mut self.db, &mut self.evaluator);
        proof { crate::run::lemma_program_shape(self.program, d0, self.db@); }
        match res {
            Ok(()) => Ok(()),
            Err(e) => Err(Error::Eval(e)),
        }
    }

    /// Speculatively evaluates the effect of adding `facts` without changing
    /// the engine: the facts go into a copy of the database, the copy is run
    /// to a fixed point, and the tuples it gained are reported by relation,
    /// in ascending order.
    pub fn speculate(&mut self, facts: &[(&str, Vec<Value>)]) -> (r: Result<Consequences, Error>)
        requires
            old(self).wf(),
        ensures
            final(self).wf(),
            final(self).prog() == old(self).prog(),
            final(self).names() == old(self).names(),
            final(self).state() == old(self).state(),
            (exists|k: int| 0 <= k < facts@.len()
                && !(insert_outcome(old(self).state(), (#[trigger] facts@[k]).0@, facts@[k].1@, true) is Inserted))
                ==> r matches Err(Error::Eval(_)),
            !(r matches Err(Error::Parse(_))),
            r matches Ok(c) ==> c.wf() && exists|f: Seq<RelView>|
                speculation_ok::<E>(old(self).prog(), old(self).state(), candidates_view(facts@), f, c@),
            r matches Ok(c) ==> run_spec::<E>(old(self).prog(), with_facts(old(self).state(), candidates_view(facts@))) matches Some(f)
                && consequences_ok(c@, old(self).prog().relations@, old(self).state(), f),
            (E::exact() && (forall|k: int| 0 <= k < facts@.len()
                ==> insert_outcome(old(self).state(), (#[trigger] facts@[k]).0@, facts@[k].1@, true) is Inserted)
                && run_spec::<E>(old(self).prog(), with_facts(old(self).state(), candidates_view(facts@))) is Some) ==> r is Ok,
    {
        let ghost base = self.db@;
        let mut fork = self.fork_with(facts)?;
        let ghost f0 = fork@;
        match run(&self.program, &mut fork, &mut self.evaluator) {
            Ok(()) => {},
            Err(e) => return Err(Error::Eval(e)),
        }
        proof { crate::run::lemma_shape_trans(base, f0, fork@); }
        let c = self.consequences(&fork);
        proof {
            let p = self.program;
            if least_strata(p) matches Some(st) && spanning_heads_are_sets(p, st) {
                assert(crate::run::fixpoint_conditions(p, f0));
            }
            assert(speculation_ok::<E>(p, base, candidates_view(facts@), fork@, c@));
            assert(speculation_ok::<E>(old(self).prog(), old(self).state(), candidates_view(facts@), fork@, c@));
        }
        Ok(c)
    }

    /// A copy of the database with `facts` inserted.
    fn fork_with(&self, facts: &[(&str, Vec<Value>)]) -> (r: Result<Database, Error>)
        requires
            self.wf(),
        ensures
            r matches Ok(f) ==> f.wf() && same_shape(self.db@, f@) && db_of_program(self.program, f@)
                && f@ == with_facts(self.db@, candidates_view(facts@)),
            (exists|k: int| 0 <= k < facts@.len()
                && !(insert_outcome(self.db@, (#[trigger] facts@[k]).0@, facts@[k].1@, true) is Inserted))
                ==> r matches Err(Error::Eval(_)),
            (forall|k: int| 0 <= k < facts@.len()
                ==> insert_outcome(self.db@, (#[trigger] facts@[k]).0@, facts@[k].1@, true) is Inserted) ==> r is Ok,
            !(r matches Err(Error::Parse(_))),
    {
        let ghost base = self.db@;
        let mut fork = self.db.duplicate();
        let mut k: usize = 0;
        proof { crate::run::lemma_shape_refl(base); }
        while k < facts.len()
            invariant
                fork.wf(),
                self.wf(),
                base == self.db@,
                k <= facts@.len(),
                same_shape(base, fork@),
                db_of_program(self.program, fork@),
                fork@ == with_facts(base, candidates_view(facts@).take(k as int)),
                forall|j: int| 0 <= j < k ==> insert_outcome(base, (#[trigger] facts@[j]).0@, facts@[j].1@, true) is Inserted,
            decreases facts@.len() - k,
        {
            let rel: &str = facts[k].0;
            let tuple = copy_tuple(&facts[k].1);
            let ghost before = fork@;
            assert(candidates_view(facts@).take(k + 1).drop_last() =~= candidates_view(facts@).take(k as int));
            let res = fork.insert_fact(rel, tuple);
            proof {
                lemma_outcome_shape(base, before, rel@, facts@[k as int].1@, true);
                crate::run::lemma_insert_keeps_program(self.program, before, rel@, facts@[k as int].1@, true);
                crate::run::lemma_insert_shape(before, rel@, facts@[k as int].1@, true);
                crate::run::lemma_shape_trans(base, before, fork@);
            }
            match res {
                Ok(_) => {},
                Err(e) => return Err(Error::Eval(e)),
            }
            k += 1;
        }
        assert(candidates_view(facts@).take(k as int) =~= candidates_view(facts@));
        Ok(fork)
    }

    /// The consequences of `fork` against the engine's database.
    fn consequences(&self, fork: &Database) -> (c: Consequences)
        requires
            self.wf(),
            fork.wf(),
            same_shape(self.db@, fork@),
        ensures
            c.wf(),
            consequences_ok(c@, self.program.relations@, self.db@, fork@),
    {
        let rels = &self.program.relations;
        let ghost before = self.db@;
        let ghost after = fork@;
        let mut added: Vec<(String, Vec<Vec<Value>>)> = Vec::new();
        let ghost mut from: Seq<int> = Seq::empty();
        let mut i: usize = 0;
        while i < rels.len()
            invariant
                self.wf(),
                fork.wf(),
                same_shape(self.db@, fork@),
                before == self.db@,
                after == fork@,
                rels == &self.program.relations,
                i <= rels@.len(),
                from.len() == added@.len(),
                forall|k: int| 0 <= k < from.len() ==> 0 <= (#[trigger] from[k]) < i
                    && added@[k].0@ == rels@[from[k]].name@
                    && forall|j: int| 0 <= j < from[k] ==> (#[trigger] rels@[j]).name@ != rels@[from[k]].name@,
                forall|a: int, b: int| 0 <= a < b < from.len() ==> from[a] < from[b],
                forall|k: int| 0 <= k < added@.len() ==> {
                    let e = (#[trigger] added@[k]);
                    &&& rows_view(e.1@).len() > 0
                    &&& ascending(rows_view(e.1@))
                    &&& rows_view(e.1@).no_duplicates()
                    &&& forall|t: Seq<Value>| rows_view(e.1@).contains(t) <==> delta_of(before, after, e.0@).contains(t)
                },
                forall|x: int| 0 <= x < i && delta_of(before, after, (#[trigger] rels@[x]).name@).len() > 0 ==>
                    exists|k: int| 0 <= k < added@.len() && (#[trigger] added@[k]).0@ == rels@[x].name@,
            decreases rels@.len() - i,
        {
            let name = &rels[i].name;
            let mut dup = false;
            let mut j: usize = 0;
            while j < i
                invariant
                    j <= i < rels@.len(),
                    dup == exists|x: int| 0 <= x < j && (#[trigger] rels@[x]).name@ == name@,
                decreases i - j,
            {
                if rels[j].name == *name {
                    dup = true;
                }
                j += 1;
            }
            if dup {
                proof {
                    let x = choose|x: int| 0 <= x < i && (#[trigger] rels@[x]).name@ == name@;
                    assert(delta_of(before, after, rels@[x].name@) == delta_of(before, after, name@));
                }
            } else {
                let old_rows = self.db.tuples(name.as_str());
                let new_rows = fork.tuples(name.as_str());
                let delta = minus_rows(&new_rows, &old_rows);
                proof {
                    crate::run::lemma_program_shape(self.program, before, after);
                    crate::run::lemma_declared_rows(self.program, before, name@, i as int);
                    crate::run::lemma_declared_rows(self.program, after, name@, i as int);
                    crate::run::lemma_rows_nodup(after, name@);
                    lemma_minus_nodup(rows_view(new_rows@), rows_view(old_rows@));
                }
                if delta.len() > 0 {
                    let sorted = sort_rows(delta);
                    proof {
                        assert forall|t: Seq<Value>| rows_view(sorted@).contains(t) <==> delta_of(before, after, name@).contains(t) by {}
                    }
                    let ghost prev = added@;
                    let entry = (name.clone(), sorted);
                    added.push(entry);
                    proof {
                        from = from.push(i as int);
                        assert(added@[added@.len() - 1] == entry);
                        assert forall|k: int| 0 <= k < prev.len() implies added@[k] == prev[k] by {}
                    }
                }
            }
            i += 1;
        }
        let c = Consequences { added, none: Vec::new() };
        proof {
            assert forall|a: int, b: int| 0 <= a < b < c@.len() implies (#[trigger] c@[a]).0 != (#[trigger] c@[b]).0 by {
                assert(c@[a].0 == rels@[from[a]].name@);
                assert(c@[b].0 == rels@[from[b]].name@);
            }
            assert forall|k: int| 0 <= k < c@.len() implies {
                &&& decl_index(rels@, (#[trigger] c@[k]).0) is Some
                &&& c@[k].1.len() > 0
                &&& ascending(c@[k].1)
                &&& c@[k].1.no_duplicates()
                &&& forall|t: Seq<Value>| c@[k].1.contains(t) <==> delta_of(before, after, c@[k].0).contains(t)
            } by {
                assert(added@[k].0@ == rels@[from[k]].name@);
                crate::ir::lemma_decl_index(rels@, c@[k].0);
            }
            assert forall|x: int| 0 <= x < rels@.len() && delta_of(before, after, (#[trigger] rels@[x]).name@).len() > 0 implies
                exists|k: int| 0 <= k < c@.len() && (#[trigger] c@[k]).0 == rels@[x].name@ by {
                let k = choose|k: int| 0 <= k < added@.len() && (#[trigger] added@[k]).0@ == rels@[x].name@;
                assert(c@[k].0 == rels@[x].name@);
            }
        }
        c
    }

    /// Returns every tuple currently in `relation` (empty if unknown).
    pub fn query(&self, relation: &str) -> (r: Vec<Vec<Value>>)
        ensures
            match rows_of(self.state(), relation@) {
                Some(rows) => rows_view(r@) == rows,
                None => r@.len() == 0,
            },
    {
        self.db.tuples(relation)
    }

    /// Explains why `tuple` is present in `relation`: the one-step derivations
    /// that produce it against the current database.
    pub fn explain(&mut self, relation: &str, tuple: &[Value]) -> (r: Result<Vec<Derivation>, Error>)
        requires
            old(self).wf(),
        ensures
            final(self).wf(),
            final(self).prog() == old(self).prog(),
            final(self).names() == old(self).names(),
            final(self).state() == old(self).state(),
            match decl_index(old(self).prog().relations@, relation@) {
                None => r matches Err(Error::Eval(EvalError::UnknownRelation(n))) && n@ == relation@,
                Some(i) => {
                    let lattice = old(self).prog().relations@[i].kind is Lattice;
                    &&& r matches Ok(v) ==> rules_derivs::<E>(old(self).prog().rules@, old(self).state(), relation@, tuple@, lattice)
                        == Some(v@.map_values(|d: Derivation| deriv_view(d)))
                    &&& (rules_derivs::<E>(old(self).prog().rules@, old(self).state(), relation@, tuple@, lattice) is None
                        ==> r matches Err(Error::Eval(_)))
                    &&& (E::exact() && rules_derivs::<E>(old(self).prog().rules@, old(self).state(), relation@, tuple@, lattice) is Some
                        ==> r is Ok)
                },
            },
    {
        match explain(&self.program, &self.db, &mut self.evaluator, relation, tuple) {
            Ok(v) => Ok(v),
            Err(e) => Err(Error::Eval(e)),
        }
    }

    /// Parses a conjunctive query `(e1, ..) <-- clause, ..` into its output
    /// expressions and body clauses, interning symbols into the engine's
    /// interner.
    pub fn parse_query_parts(&mut self, src: &str) -> (r: Result<(Vec<Expr>, Vec<BodyClause>), Error>)
        requires
            old(self).wf(),
        ensures
            final(self).wf(),
            final(self).prog() == old(self).prog(),
            final(self).state() == old(self).state(),
            match parse_query_spec(src@, old(self).names()) {
                Some(((outs, body), n)) => r matches Ok((o, b)) && o@ == outs && clauses_view(b@) == body
                    && final(self).names() == n,
                None => r matches Err(Error::Parse(_)),
            },
    {
        match parse_query(src, &mut self.interner) {
            Ok(q) => Ok(q),
            Err(e) => Err(Error::Parse(e)),
        }
    }

    /// Form-checks a query body against the loaded schema: every referenced
    /// relation is declared and every atom has its declared arity.
    pub fn check_query(&self, body: &[BodyClause]) -> (r: Result<(), Error>)
        ensures
            r is Ok <==> body_valid(self.prog().relations@, body@),
            r matches Err(Error::Eval(e)) && (e is UnknownRelation || e is Arity) || r is Ok,
            r matches Err(Error::Eval(e)) ==> first_invalid(self.prog().relations@, body@, e),
    {
        match crate::strata::check_query_arities(&self.program, body) {
            Ok(()) => Ok(()),
            Err(e) => Err(Error::Eval(e)),
        }
    }

    /// Evaluates a parsed conjunctive query read-only against the current
    /// database, capped at `max` solutions.
    pub fn evaluate_query(&mut self, outputs: &[Expr], body: &[BodyClause], max: usize) -> (r: Result<QueryOutput, Error>)
        requires
            old(self).wf(),
        ensures
            final(self).wf(),
            final(self).prog() == old(self).prog(),
            final(self).names() == old(self).names(),
            final(self).state() == old(self).state(),
            r matches Ok(o) ==> query_spec::<E>(old(self).state(), outputs@, body@, max as nat)
                == Some((o.solutions@.map_values(|q: QuerySolution| qsol_view(q)), o.truncated)),
            query_spec::<E>(old(self).state(), outputs@, body@, max as nat) is None ==> r matches Err(Error::Eval(_)),
            E::exact() && query_spec::<E>(old(self).state(), outputs@, body@, max as nat) is Some ==> r is Ok,
            !body_declared(old(self).state(), body@) ==> (r matches Err(Error::Eval(EvalError::UnknownRelation(n)))
                && first_undeclared(old(self).state(), body@, n@)),
    {
        match eval_query(&self.db, &mut self.evaluator, outputs, body, max) {
            Ok(o) => Ok(o),
            Err(e) => Err(Error::Eval(e)),
        }
    }

    /// The loaded program.
    pub fn program(&self) -> (r: &Program)
        ensures
            *r == self.prog(),
    {
        &self.program
    }
}

/// The symbol table of a well-formed engine holds no name twice.
pub proof fn lemma_names_distinct<E: ExprEval>(e: Engine<E>)
    requires
        e.wf(),
    ensures
        e.names().no_duplicates(),
        e.names().len() <= u32::MAX + 1,
{
}

impl Engine<Interpreter> {
    /// Parses `src` and builds an engine backed by the pure interpreter.
    pub fn from_source_interpreted(src: &str) -> (r: Result<Engine<Interpreter>, Error>)
        ensures
            parse_spec(src@, Seq::empty()) is None <==> r matches Err(Error::Parse(_)),
            r matches Ok(e) ==> {
                &&& e.wf()
                &&& parse_spec(src@, Seq::empty()) == Some((program_view(e.prog()), e.names()))
                &&& least_strata(e.prog()) is Some
                &&& e.state() == e.prog().relations@.map_values(|d: RelationDecl| empty_rel(d))
            },
            r matches Err(Error::Eval(e)) ==> (e is UnknownRelation || e is Arity || e is Stratification),
            !(r matches Err(Error::Wasm(_))),
            source_loads(src@) ==> r is Ok,
            source_unstratifiable(src@) ==> r matches Err(Error::Eval(EvalError::Stratification(_))),
    {
        Engine::from_source_with_evaluator(src, Interpreter)
    }
}

impl Engine<WasmEval> {
    /// Parses `src` and builds an engine whose expressions are compiled to
    /// WebAssembly. Fails with [`Error::Wasm`] when the WASM runtime cannot
    /// be initialised, before the source is looked at; otherwise as
    /// [`Engine::from_source_with_evaluator`].
    pub fn from_source(src: &str) -> (r: Result<Engine<WasmEval>, Error>)
        ensures
            !(r matches Err(Error::Wasm(_))) ==> (parse_spec(src@, Seq::empty()) is None <==> r matches Err(Error::Parse(_))),
            r matches Ok(e) ==> {
                &&& e.wf()
                &&& parse_spec(src@, Seq::empty()) == Some((program_view(e.prog()), e.names()))
                &&& least_strata(e.prog()) is Some
                &&& e.state() == e.prog().relations@.map_values(|d: RelationDecl| empty_rel(d))
            },
            r matches Err(Error::Eval(e)) ==> (e is UnknownRelation || e is Arity || e is Stratification),
            r matches Err(Error::Wasm(e)) ==> e is Runtime,
            source_loads(src@) && !(r matches Err(Error::Wasm(_))) ==> r is Ok,
            (source_unstratifiable(src@) && !(r matches Err(Error::Wasm(_)))) ==> r matches Err(Error::Eval(EvalError::Stratification(_))),
    {
        let evaluator = match WasmEval::new() {
            Ok(ev) => ev,
            Err(e) => return Err(Error::Wasm(e)),
        };
        Engine::from_source_with_evaluator(src, evaluator)
    }
}

/// Parses `src` and builds an engine for an embedding host, with its
/// expressions on the WASM tier; fails as [`Engine::from_source`].
pub fn engine_from_source(src: &str) -> (r: Result<Engine<WasmEval>, Error>)
    ensures
        !(r matches Err(Error::Wasm(_))) ==> (parse_spec(src@, Seq::empty()) is None <==> r matches Err(Error::Parse(_))),
        r matches Ok(e) ==> {
            &&& e.wf()
            &&& parse_spec(src@, Seq::empty()) == Some((program_view(e.prog()), e.names()))
            &&& least_strata(e.prog()) is Some
            &&& e.state() == e.prog().relations@.map_values(|d: RelationDecl| empty_rel(d))
        },
        r matches Err(Error::Eval(e)) ==> (e is UnknownRelation || e is Arity || e is Stratification),
        r matches Err(Error::Wasm(e)) ==> e is Runtime,
        source_loads(src@) && !(r matches Err(Error::Wasm(_))) ==> r is Ok,
        (source_unstratifiable(src@) && !(r matches Err(Error::Wasm(_)))) ==> r matches Err(Error::Eval(EvalError::Stratification(_))),
{
    Engine::from_source(src)
}

} // verus!
