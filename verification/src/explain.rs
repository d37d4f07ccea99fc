//! Read-only traversals of the materialized database: one-step provenance of
//! a derived tuple ([`explain`]) and ad-hoc conjunctive queries under a
//! cardinality cap ([`eval_query`]). Both enumerate the satisfying
//! assignments of a body in the order stated by [`dfs`].

use vstd::prelude::*;

use crate::env::Env;
use crate::error::EvalError;
use crate::eval::{any_match, dfs, dfs_row, dfs_rows, eval_aggregate, unify, Dfs, ExprEval, Sol};
use crate::expr::Expr;
use crate::ir::{BodyClause, HeadAtom, Program, RelationKind};
use crate::solve::{head_tuple, head_values};
use crate::store::{copy_tuple, prefix_eq, rel_index, rows_view, tuple_eq, Database, RelView};
use crate::value::Value;

verus! {

/// The positive body tuples behind a solution, `(relation, tuple)`.
pub open spec fn support_view(s: Seq<(String, Vec<Value>)>) -> Seq<(Seq<char>, Seq<Value>)> {
    s.map_values(|p: (String, Vec<Value>)| (p.0@, p.1@))
}

/// A copy of a support list.
pub fn copy_support(s: &Vec<(String, Vec<Value>)>) -> (r: Vec<(String, Vec<Value>)>)
    ensures
        support_view(r@) == support_view(s@),
{
    let mut r: Vec<(String, Vec<Value>)> = Vec::new();
    let mut i: usize = 0;
    while i < s.len()
        invariant
            i <= s.len(),
            r@.len() == i,
            forall|j: int| 0 <= j < i ==> (#[trigger] r@[j]).0@ == s@[j].0@ && r@[j].1@ == s@[j].1@,
        decreases s.len() - i,
    {
        let (name, tuple) = (&s[i].0, &s[i].1);
        r.push((name.clone(), copy_tuple(tuple)));
        i += 1;
    }
    assert(support_view(r@) =~= support_view(s@));
    r
}

/// One satisfying assignment found by a traversal.
pub struct Found {
    /// The bindings at the end of the body.
    pub env: Env,
    /// The positive body tuples that justified it.
    pub support: Vec<(String, Vec<Value>)>,
}

impl View for Found {
    type V = Sol;

    open spec fn view(&self) -> Sol {
        Sol { env: self.env@, support: support_view(self.support@) }
    }
}

/// The solutions a list of found assignments stands for.
pub open spec fn found_view(s: Seq<Found>) -> Seq<Sol> {
    s.map_values(|f: Found| f@)
}

/// How many more solutions a cap admits after `used` were collected.
pub open spec fn remaining(cap: Option<usize>, used: nat) -> Option<nat> {
    match cap {
        Some(c) => Some((c - used) as nat),
        None => None,
    }
}

/// Whether a visit reaches more solutions than the remaining capacity.
pub open spec fn capped(d: Dfs, rem: Option<nat>) -> bool {
    rem matches Some(c) && d.sols.len() > c
}

/// What a successful collecting visit did: stopped at the cap after taking
/// as many solutions as it admits, or collected every solution of a visit
/// that did not fail.
pub open spec fn visit_ok(d: Dfs, rem: Option<nat>, before: Seq<Sol>, after: Seq<Sol>, truncated: bool) -> bool {
    if capped(d, rem) {
        truncated && after == before + d.sols.take(rem.unwrap() as int)
    } else {
        !d.failed && !truncated && after == before + d.sols
    }
}

/// Collects, in visiting order, the solutions of `body[idx..]` under `env`
/// into `out`, stopping once `out` would exceed `cap`. Returns whether it
/// stopped at the cap.
fn visit<E: ExprEval>(body: &[BodyClause], idx: usize, env: &Env, sup: &mut Vec<(String, Vec<Value>)>, db: &Database, ev: &mut E, cap: Option<usize>, out: &mut Vec<Found>) -> (r: Result<bool, EvalError>)
    requires
        old(ev).inv(),
        idx <= body@.len(),
        cap matches Some(c) ==> old(out)@.len() <= c,
    ensures
        final(ev).inv(),
        r matches Ok(t) ==> final(sup)@ == old(sup)@ && visit_ok(
            dfs::<E>(body@, idx as int, env@, support_view(old(sup)@), db@),
            remaining(cap, old(out)@.len()), found_view(old(out)@), found_view(final(out)@), t),
        (dfs::<E>(body@, idx as int, env@, support_view(old(sup)@), db@).failed
            && !capped(dfs::<E>(body@, idx as int, env@, support_view(old(sup)@), db@), remaining(cap, old(out)@.len())))
            ==> r is Err,
        E::exact() && (capped(dfs::<E>(body@, idx as int, env@, support_view(old(sup)@), db@), remaining(cap, old(out)@.len()))
            || !dfs::<E>(body@, idx as int, env@, support_view(old(sup)@), db@).failed) ==> r is Ok,
    decreases body@.len() - idx,
{
    let ghost out0 = out@;
    let ghost sup0 = sup@;
    if idx == body.len() {
        match cap {
            Some(c) => {
                if out.len() >= c {
                    assert(found_view(out@) + Seq::<Sol>::empty() =~= found_view(out@));
                    return Ok(true);
                }
            },
            None => {},
        }
        out.push(Found { env: env.duplicate(), support: copy_support(sup) });
        assert(found_view(out@) =~= found_view(out0) + seq![Sol { env: env@, support: support_view(sup0) }]);
        return Ok(false);
    }
    match &body[idx] {
        BodyClause::Positive(atom) => {
            let snapshot = db.snapshot(&atom.relation)?;
            let ghost rows = rows_view(snapshot@);
            let ghost rel = atom.relation@;
            let ghost spv = support_view(sup0);
            let ghost s: Seq<Sol> = Seq::empty();
            let mut j: usize = 0;
            let next = idx + 1;
            assert(found_view(out@) =~= found_view(out0) + s);
            while j < snapshot.len()
                invariant
                    ev.inv(),
                    idx < body@.len(),
                    next == idx + 1,
                    body@[idx as int] == BodyClause::Positive(*atom),
                    rel == atom.relation@,
                    j <= snapshot.len(),
                    rows == rows_view(snapshot@),
                    crate::store::rows_of(db@, rel) == Some(rows),
                    sup@ == sup0,
                    sup0 == old(sup)@,
                    out0 == old(out)@,
                    spv == support_view(sup0),
                    found_view(out@) == found_view(out0) + s,
                    out@.len() == out0.len() + s.len(),
                    cap matches Some(c) ==> out0.len() + s.len() <= c,
                    dfs_rows::<E>(body@, idx as int, rel, atom.args@, env@, spv, db@, rows, 0)
                        == (Dfs { sols: s + dfs_rows::<E>(body@, idx as int, rel, atom.args@, env@, spv, db@, rows, j as int).sols,
                                  failed: dfs_rows::<E>(body@, idx as int, rel, atom.args@, env@, spv, db@, rows, j as int).failed }),
                decreases snapshot.len() - j,
            {
                assert(rows[j as int] == snapshot@[j as int]@);
                let ghost row = dfs_row::<E>(body@, idx as int, rel, atom.args@, env@, spv, db@, rows[j as int]);
                let ghost rest = dfs_rows::<E>(body@, idx as int, rel, atom.args@, env@, spv, db@, rows, j + 1);
                let ghost dj = dfs_rows::<E>(body@, idx as int, rel, atom.args@, env@, spv, db@, rows, j as int);
                assert(dj == if row.failed { row } else { Dfs { sols: row.sols + rest.sols, failed: rest.failed } });
                match unify(&atom.args, &snapshot[j], env) {
                    None => {
                        assert(row == crate::eval::dfs_none());
                        assert(s + rest.sols =~= s + (row.sols + rest.sols));
                    },
                    Some(bindings) => {
                        let env2 = env.extend(&bindings);
                        sup.push((atom.relation.clone(), copy_tuple(&snapshot[j])));
                        assert(support_view(sup@) =~= spv.push((rel, rows[j as int])));
                        let ghost before = out@;
                        let res = visit(body, next, &env2, sup, db, ev, cap, out);
                        let t = match res {
                            Ok(t) => t,
                            Err(e) => {
                                proof {
                                    if E::exact() {
                                        let d = dfs_rows::<E>(body@, idx as int, rel, atom.args@, env@, spv, db@, rows, 0);
                                        assert(row.failed && !capped(row, remaining(cap, before.len())));
                                        assert(dj == row);
                                        assert(d.failed);
                                        assert(d.sols.len() == s.len() + row.sols.len());
                                        assert(!capped(d, remaining(cap, out0.len())));
                                        assert(dfs::<E>(body@, idx as int, env@, spv, db@) == d);
                                    }
                                }
                                return Err(e);
                            },
                        };
                        sup.pop();
                        assert(sup@ =~= sup0);
                        if t {
                            proof {
                                let d = dfs_rows::<E>(body@, idx as int, rel, atom.args@, env@, spv, db@, rows, 0);
                                let m = (cap.unwrap() - out0.len()) as nat;
                                let m2 = (cap.unwrap() - before.len()) as nat;
                                assert(m2 == m - s.len());
                                assert(capped(row, remaining(cap, before.len())));
                                assert(dj.sols.subrange(0, row.sols.len() as int) =~= row.sols);
                                assert(d.sols.len() >= s.len() + row.sols.len());
                                assert(capped(d, remaining(cap, out0.len())));
                                assert(d.sols.subrange(0, s.len() + row.sols.len() as int) =~= s + row.sols);
                                assert(d.sols.take(m as int) =~= s + row.sols.take(m2 as int));
                                assert(found_view(out@) =~= found_view(out0) + d.sols.take(m as int));
                                assert(dfs::<E>(body@, idx as int, env@, spv, db@) == d);
                                assert(sup@ == sup0);
                                assert(visit_ok(d, remaining(cap, out0.len()), found_view(out0), found_view(out@), true));
                            }
                            return Ok(true);
                        }
                        proof {
                            assert(found_view(out@) =~= found_view(out0) + (s + row.sols));
                            assert(s + (row.sols + rest.sols) =~= (s + row.sols) + rest.sols);
                            s = s + row.sols;
                        }
                    },
                }
                j += 1;
            }
            proof {
                let d = dfs_rows::<E>(body@, idx as int, rel, atom.args@, env@, spv, db@, rows, 0);
                assert(s + Seq::<Sol>::empty() =~= s);
                assert(d.sols == s);
            }
            Ok(false)
        },
        BodyClause::Negative(atom) => {
            let snapshot = db.snapshot(&atom.relation)?;
            if any_match(&atom.args, &snapshot, env) {
                assert(found_view(out@) =~= found_view(out0) + Seq::<Sol>::empty());
                Ok(false)
            } else {
                visit(body, idx + 1, env, sup, db, ev, cap, out)
            }
        },
        BodyClause::Condition(expr) => {
            let v = ev.eval_expr(expr, env)?;
            if v == Value::Bool(true) {
                visit(body, idx + 1, env, sup, db, ev, cap, out)
            } else {
                assert(found_view(out@) =~= found_view(out0) + Seq::<Sol>::empty());
                Ok(false)
            }
        },
        BodyClause::Let { var, expr } => {
            let v = ev.eval_expr(expr, env)?;
            let env2 = env.with(*var, v);
            visit(body, idx + 1, &env2, sup, db, ev, cap, out)
        },
        BodyClause::Aggregate(agg) => {
            match eval_aggregate(agg, env, db, ev)? {
                Some(result) => {
                    let env2 = env.with(agg.output, result);
                    visit(body, idx + 1, &env2, sup, db, ev, cap, out)
                },
                None => {
                    assert(found_view(out@) =~= found_view(out0) + Seq::<Sol>::empty());
                    Ok(false)
                },
            }
        },
    }
}

/// A solution's positive body tuples, `(relation, tuple)`.
pub type Support = Seq<(Seq<char>, Seq<Value>)>;

/// One solution to an ad-hoc conjunctive query: the output tuple plus the
/// positive body tuples that justified it (its provenance).
#[derive(Debug, Clone, PartialEq, Eq)]
pub struct QuerySolution {
    /// The output tuple, one value per output expression.
    pub tuple: Vec<Value>,
    /// The positive body tuples that justified this solution, `(relation, tuple)`.
    pub support: Vec<(String, Vec<Value>)>,
}

/// The outcome of an ad-hoc conjunctive query: the solutions found and
/// whether the cardinality cap was reached (the solutions are then a prefix
/// of the full result).
#[derive(Debug, Clone, PartialEq, Eq)]
pub struct QueryOutput {
    /// The solutions found, at most the cap of them.
    pub solutions: Vec<QuerySolution>,
    /// Whether evaluation stopped at the cardinality cap.
    pub truncated: bool,
}

/// A query solution as values.
pub open spec fn qsol_view(q: QuerySolution) -> (Seq<Value>, Support) {
    (q.tuple@, support_view(q.support@))
}

/// The output tuples of a list of solutions, if every output evaluates.
pub open spec fn outputs_of<E: ExprEval>(outputs: Seq<Expr>, sols: Seq<Sol>) -> Option<Seq<(Seq<Value>, Support)>>
    decreases sols.len(),
{
    if sols.len() == 0 {
        Some(Seq::empty())
    } else {
        match (outputs_of::<E>(outputs, sols.drop_last()), head_tuple::<E>(outputs, sols.last().env)) {
            (Some(x), Some(t)) => Some(x.push((t, sols.last().support))),
            _ => None,
        }
    }
}

/// The relation a body clause reads, if it reads one.
pub open spec fn clause_relation(c: BodyClause) -> Option<Seq<char>> {
    match c {
        BodyClause::Positive(a) => Some(a.relation@),
        BodyClause::Negative(a) => Some(a.relation@),
        BodyClause::Aggregate(agg) => Some(agg.source.relation@),
        _ => None,
    }
}

/// Clause `c` reads no relation, or one that the database holds.
pub open spec fn clause_declared(db: Seq<RelView>, c: BodyClause) -> bool {
    match clause_relation(c) {
        Some(n) => rel_index(db, n) is Some,
        None => true,
    }
}

/// Every relation a body reads is in the database.
pub open spec fn body_declared(db: Seq<RelView>, body: Seq<BodyClause>) -> bool {
    forall|c: int| 0 <= c < body.len() ==> clause_declared(db, #[trigger] body[c])
}

/// `n` is the relation read by the first clause of `body` that reads an
/// undeclared one.
pub open spec fn first_undeclared(db: Seq<RelView>, body: Seq<BodyClause>, n: Seq<char>) -> bool {
    exists|c: int| 0 <= c < body.len() && clause_relation(#[trigger] body[c]) == Some(n) && rel_index(db, n) is None
        && forall|k: int| 0 <= k < c ==> clause_declared(db, #[trigger] body[k])
}

/// Checks that every relation `body` reads is declared, failing on the first
/// that is not.
pub fn check_declared(db: &Database, body: &[BodyClause]) -> (r: Result<(), EvalError>)
    ensures
        r is Ok <==> body_declared(db@, body@),
        r matches Err(e) ==> (e matches EvalError::UnknownRelation(n) && first_undeclared(db@, body@, n@)),
{
    let mut i: usize = 0;
    while i < body.len()
        invariant
            i <= body.len(),
            forall|k: int| 0 <= k < i ==> clause_declared(db@, #[trigger] body@[k]),
        decreases body.len() - i,
    {
        let name: Option<&String> = match &body[i] {
            BodyClause::Positive(a) => Some(&a.relation),
            BodyClause::Negative(a) => Some(&a.relation),
            BodyClause::Aggregate(agg) => Some(&agg.source.relation),
            _ => None,
        };
        match name {
            Some(n) => {
                if !db.has_relation(n) {
                    proof {
                        assert(clause_relation(body@[i as int]) == Some(n@));
                        assert(first_undeclared(db@, body@, n@));
                    }
                    return Err(EvalError::UnknownRelation(n.clone()));
                }
            },
            None => {},
        }
        i += 1;
    }
    Ok(())
}

/// The result of the query `(outputs) <-- body` with at most `max`
/// solutions: the first `max` solutions and `true` when there are more;
/// otherwise every solution and `false`. `None` when the body reads an
/// undeclared relation, when the traversal fails before the cap is passed,
/// or when an output expression fails.
pub open spec fn query_spec<E: ExprEval>(db: Seq<RelView>, outputs: Seq<Expr>, body: Seq<BodyClause>, max: nat) -> Option<(Seq<(Seq<Value>, Support)>, bool)> {
    let d = dfs::<E>(body, 0, Map::empty(), Seq::empty(), db);
    if !body_declared(db, body) {
        None
    } else if d.sols.len() > max {
        match outputs_of::<E>(outputs, d.sols.take(max as int)) {
            Some(x) => Some((x, true)),
            None => None,
        }
    } else if d.failed {
        None
    } else {
        match outputs_of::<E>(outputs, d.sols) {
            Some(x) => Some((x, false)),
            None => None,
        }
    }
}

/// Once an output fails for a prefix of the solutions, it fails for all.
proof fn lemma_outputs_stops<E: ExprEval>(outputs: Seq<Expr>, sols: Seq<Sol>, k: int)
    requires
        0 <= k <= sols.len(),
        outputs_of::<E>(outputs, sols.take(k)) is None,
    ensures
        outputs_of::<E>(outputs, sols) is None,
    decreases sols.len() - k,
{
    if k < sols.len() {
        assert(sols.take(k + 1).drop_last() =~= sols.take(k));
        lemma_outputs_stops::<E>(outputs, sols, k + 1);
    } else {
        assert(sols.take(k) =~= sols);
    }
}

/// Once a head fails to evaluate, the derivations of all the heads fail.
proof fn lemma_head_derivs_stops<E: ExprEval>(heads: Seq<HeadAtom>, env: Map<crate::value::Symbol, Value>, rel: Seq<char>, target: Seq<Value>, lattice: bool, r: nat, sup: Support, k: int)
    requires
        0 <= k <= heads.len(),
        head_derivs::<E>(heads.take(k), env, rel, target, lattice, r, sup) is None,
    ensures
        head_derivs::<E>(heads, env, rel, target, lattice, r, sup) is None,
    decreases heads.len() - k,
{
    if k < heads.len() {
        assert(heads.take(k + 1).drop_last() =~= heads.take(k));
        lemma_head_derivs_stops::<E>(heads, env, rel, target, lattice, r, sup, k + 1);
    } else {
        assert(heads.take(k) =~= heads);
    }
}

/// Every solution of `sols` gets one output tuple.
proof fn lemma_outputs_len<E: ExprEval>(outputs: Seq<Expr>, sols: Seq<Sol>)
    ensures
        outputs_of::<E>(outputs, sols) matches Some(x) ==> x.len() == sols.len(),
    decreases sols.len(),
{
    if sols.len() > 0 {
        lemma_outputs_len::<E>(outputs, sols.drop_last());
    }
}

/// An ad-hoc query never yields more than `max` solutions, and it reports
/// truncation only when it stopped at exactly `max` of them.
pub proof fn lemma_query_bounded<E: ExprEval>(db: Seq<RelView>, outputs: Seq<Expr>, body: Seq<BodyClause>, max: nat)
    ensures
        query_spec::<E>(db, outputs, body, max) matches Some((sols, t)) ==> sols.len() <= max && (t ==> sols.len() == max),
{
    let d = dfs::<E>(body, 0, Map::empty(), Seq::empty(), db);
    lemma_outputs_len::<E>(outputs, d.sols);
    lemma_outputs_len::<E>(outputs, d.sols.take(max as int));
}

/// The output tuples of a list of solutions are, one for one, each
/// solution's outputs with its support.
proof fn lemma_outputs_index<E: ExprEval>(outputs: Seq<Expr>, sols: Seq<Sol>)
    ensures
        outputs_of::<E>(outputs, sols) matches Some(x) ==> x.len() == sols.len()
            && forall|k: int| 0 <= k < sols.len() ==> head_tuple::<E>(outputs, (#[trigger] sols[k]).env) is Some
                && x[k] == (head_tuple::<E>(outputs, sols[k].env).unwrap(), sols[k].support),
    decreases sols.len(),
{
    if sols.len() > 0 {
        let init = sols.drop_last();
        lemma_outputs_index::<E>(outputs, init);
        if outputs_of::<E>(outputs, sols) is Some {
            let x = outputs_of::<E>(outputs, sols).unwrap();
            let x0 = outputs_of::<E>(outputs, init).unwrap();
            assert forall|k: int| 0 <= k < sols.len() implies head_tuple::<E>(outputs, (#[trigger] sols[k]).env) is Some
                && x[k] == (head_tuple::<E>(outputs, sols[k].env).unwrap(), sols[k].support) by {
                if k < sols.len() - 1 {
                    assert(init[k] == sols[k]);
                    assert(x[k] == x0[k]);
                }
            }
        }
    }
}

/// The cardinality cap of an ad-hoc query: with `n` solutions in visiting
/// order, a successful query reports `min(n, max)` of them, the first ones,
/// each the outputs of its solution with its support; it is truncated
/// exactly when `n > max` (collecting exactly `max` is no truncation).
pub proof fn lemma_query_cap<E: ExprEval>(db: Seq<RelView>, outputs: Seq<Expr>, body: Seq<BodyClause>, max: nat)
    ensures
        query_spec::<E>(db, outputs, body, max) matches Some((sols, t)) ==> {
            let all = dfs::<E>(body, 0, Map::empty(), Seq::empty(), db).sols;
            &&& t == (all.len() > max)
            &&& sols.len() == if all.len() > max { max as int } else { all.len() as int }
            &&& forall|k: int| 0 <= k < sols.len() ==> head_tuple::<E>(outputs, (#[trigger] all[k]).env) is Some
                && sols[k] == (head_tuple::<E>(outputs, all[k].env).unwrap(), all[k].support)
        },
{
    let d = dfs::<E>(body, 0, Map::empty(), Seq::empty(), db);
    let all = d.sols;
    lemma_outputs_index::<E>(outputs, all);
    lemma_outputs_index::<E>(outputs, all.take(max as int));
    if query_spec::<E>(db, outputs, body, max) is Some {
        let (sols, t) = query_spec::<E>(db, outputs, body, max).unwrap();
        if all.len() > max {
            let pre = all.take(max as int);
            assert(sols == outputs_of::<E>(outputs, pre).unwrap());
            assert forall|k: int| 0 <= k < sols.len() implies head_tuple::<E>(outputs, (#[trigger] all[k]).env) is Some
                && sols[k] == (head_tuple::<E>(outputs, all[k].env).unwrap(), all[k].support) by {
                assert(pre[k] == all[k]);
            }
        } else {
            assert(sols == outputs_of::<E>(outputs, all).unwrap());
        }
    }
}

/// Evaluates the outputs of each found solution.
fn solutions_of<E: ExprEval>(outputs: &[Expr], found: &Vec<Found>, ev: &mut E) -> (r: Result<Vec<QuerySolution>, EvalError>)
    requires
        old(ev).inv(),
    ensures
        final(ev).inv(),
        r matches Ok(v) ==> outputs_of::<E>(outputs@, found_view(found@)) == Some(v@.map_values(|q: QuerySolution| qsol_view(q))),
        outputs_of::<E>(outputs@, found_view(found@)) is None ==> r is Err,
        E::exact() && outputs_of::<E>(outputs@, found_view(found@)) is Some ==> r is Ok,
{
    let mut out: Vec<QuerySolution> = Vec::new();
    let mut k: usize = 0;
    while k < found.len()
        invariant
            ev.inv(),
            k <= found.len(),
            outputs_of::<E>(outputs@, found_view(found@).take(k as int)) == Some(out@.map_values(|q: QuerySolution| qsol_view(q))),
        decreases found.len() - k,
    {
        let ghost fv = found_view(found@);
        assert(fv.take(k + 1).drop_last() =~= fv.take(k as int));
        assert(fv.take(k + 1).last() == found@[k as int]@);
        let tuple = match head_values(outputs, &found[k].env, ev) {
            Ok(t) => t,
            Err(e) => {
                proof {
                    if E::exact() {
                        assert(outputs_of::<E>(outputs@, fv.take(k + 1)) is None);
                        lemma_outputs_stops::<E>(outputs@, fv, k + 1);
                    }
                }
                return Err(e);
            },
        };
        let q = QuerySolution { tuple, support: copy_support(&found[k].support) };
        out.push(q);
        proof {
            assert(out@.map_values(|q: QuerySolution| qsol_view(q))
                =~= outputs_of::<E>(outputs@, fv.take(k as int)).unwrap().push((q.tuple@, fv[k as int].support)));
        }
        k += 1;
    }
    assert(found_view(found@).take(k as int) =~= found_view(found@));
    Ok(out)
}

/// Evaluates the ad-hoc conjunctive query `(outputs) <-- body` read-only
/// against the current materialized database, returning each solution with
/// its provenance and stopping once `max` solutions have been collected.
///
/// The body is traversed first and the outputs are evaluated after, so when
/// the traversal fails (before the cap) that failure is what is reported,
/// even where an output of an earlier solution would fail too.
pub fn eval_query<E: ExprEval>(db: &Database, ev: &mut E, outputs: &[Expr], body: &[BodyClause], max: usize) -> (r: Result<QueryOutput, EvalError>)
    requires
        old(ev).inv(),
    ensures
        final(ev).inv(),
        r matches Ok(o) ==> query_spec::<E>(db@, outputs@, body@, max as nat)
            == Some((o.solutions@.map_values(|q: QuerySolution| qsol_view(q)), o.truncated)),
        query_spec::<E>(db@, outputs@, body@, max as nat) is None ==> r is Err,
        E::exact() && query_spec::<E>(db@, outputs@, body@, max as nat) is Some ==> r is Ok,
        !body_declared(db@, body@) ==> (r matches Err(EvalError::UnknownRelation(n)) && first_undeclared(db@, body@, n@)),
{
    check_declared(db, body)?;
    let env: Env = Env::new();
    let mut sup: Vec<(String, Vec<Value>)> = Vec::new();
    let mut found: Vec<Found> = Vec::new();
    assert(support_view(sup@) =~= Seq::<(Seq<char>, Seq<Value>)>::empty());
    assert(found_view(found@) =~= Seq::<Sol>::empty());
    let truncated = visit(body, 0, &env, &mut sup, db, ev, Some(max), &mut found)?;
    proof {
        let d = dfs::<E>(body@, 0, Map::empty(), Seq::empty(), db@);
        if d.sols.len() > max {
            assert(found_view(found@) =~= d.sols.take(max as int));
        } else {
            assert(found_view(found@) =~= d.sols);
        }
    }
    let solutions = solutions_of(outputs, &found, ev)?;
    Ok(QueryOutput { solutions, truncated })
}

/// A one-step derivation of a tuple: the rule that fired and the positive
/// body tuples that justified it.
#[derive(Debug, Clone, PartialEq, Eq)]
pub struct Derivation {
    /// Index into the program's rules of the rule that fired.
    pub rule: usize,
    /// The positive body tuples that justified the firing, `(relation, tuple)`.
    pub support: Vec<(String, Vec<Value>)>,
}

/// A derivation as values.
pub open spec fn deriv_view(d: Derivation) -> (nat, Support) {
    (d.rule as nat, support_view(d.support@))
}

/// Whether a derived tuple is the target: all columns for a set relation,
/// the key columns (all but the last) for a lattice relation.
pub open spec fn tuple_matches(t: Seq<Value>, target: Seq<Value>, lattice: bool) -> bool {
    if lattice {
        t.len() == target.len() && t.len() > 0 && t.drop_last() == target.drop_last()
    } else {
        t == target
    }
}

/// The derivations one solution of rule `r` yields through its heads on
/// `rel`, in head order; `None` if such a head fails to evaluate.
pub open spec fn head_derivs<E: ExprEval>(heads: Seq<HeadAtom>, env: Map<crate::value::Symbol, Value>, rel: Seq<char>, target: Seq<Value>, lattice: bool, r: nat, sup: Support) -> Option<Seq<(nat, Support)>>
    decreases heads.len(),
{
    if heads.len() == 0 {
        Some(Seq::empty())
    } else {
        match head_derivs::<E>(heads.drop_last(), env, rel, target, lattice, r, sup) {
            None => None,
            Some(x) => if heads.last().relation@ != rel {
                Some(x)
            } else {
                match head_tuple::<E>(heads.last().args@, env) {
                    None => None,
                    Some(t) => if tuple_matches(t, target, lattice) { Some(x.push((r, sup))) } else { Some(x) },
                }
            },
        }
    }
}

/// The derivations of a list of solutions of rule `r`, solution by solution.
pub open spec fn sol_derivs<E: ExprEval>(heads: Seq<HeadAtom>, sols: Seq<Sol>, rel: Seq<char>, target: Seq<Value>, lattice: bool, r: nat) -> Option<Seq<(nat, Support)>>
    decreases sols.len(),
{
    if sols.len() == 0 {
        Some(Seq::empty())
    } else {
        match (sol_derivs::<E>(heads, sols.drop_last(), rel, target, lattice, r),
               head_derivs::<E>(heads, sols.last().env, rel, target, lattice, r, sols.last().support)) {
            (Some(x), Some(y)) => Some(x + y),
            _ => None,
        }
    }
}

/// The derivations of `target` in `rel` by the rules, rule by rule: each
/// rule with a head on `rel` is traversed against `db`; `None` if a traversal
/// or a head on `rel` fails.
pub open spec fn rules_derivs<E: ExprEval>(rules: Seq<crate::ir::Rule>, db: Seq<RelView>, rel: Seq<char>, target: Seq<Value>, lattice: bool) -> Option<Seq<(nat, Support)>>
    decreases rules.len(),
{
    if rules.len() == 0 {
        Some(Seq::empty())
    } else {
        match rules_derivs::<E>(rules.drop_last(), db, rel, target, lattice) {
            None => None,
            Some(x) => {
                let rule = rules.last();
                if !crate::solve::writes(rule.heads@, rel) {
                    Some(x)
                } else {
                    let d = dfs::<E>(rule.body@, 0, Map::empty(), Seq::empty(), db);
                    if d.failed {
                        None
                    } else {
                        match sol_derivs::<E>(rule.heads@, d.sols, rel, target, lattice, (rules.len() - 1) as nat) {
                            None => None,
                            Some(y) => Some(x + y),
                        }
                    }
                }
            },
        }
    }
}

/// Once the derivations of a prefix of the solutions fail, those of all fail.
proof fn lemma_sol_derivs_stops<E: ExprEval>(heads: Seq<HeadAtom>, sols: Seq<Sol>, rel: Seq<char>, target: Seq<Value>, lattice: bool, r: nat, k: int)
    requires
        0 <= k <= sols.len(),
        sol_derivs::<E>(heads, sols.take(k), rel, target, lattice, r) is None,
    ensures
        sol_derivs::<E>(heads, sols, rel, target, lattice, r) is None,
    decreases sols.len() - k,
{
    if k < sols.len() {
        assert(sols.take(k + 1).drop_last() =~= sols.take(k));
        lemma_sol_derivs_stops::<E>(heads, sols, rel, target, lattice, r, k + 1);
    } else {
        assert(sols.take(k) =~= sols);
    }
}

/// Once the derivations by a prefix of the rules fail, those by all fail.
proof fn lemma_rules_derivs_stops<E: ExprEval>(rules: Seq<crate::ir::Rule>, db: Seq<RelView>, rel: Seq<char>, target: Seq<Value>, lattice: bool, k: int)
    requires
        0 <= k <= rules.len(),
        rules_derivs::<E>(rules.take(k), db, rel, target, lattice) is None,
    ensures
        rules_derivs::<E>(rules, db, rel, target, lattice) is None,
    decreases rules.len() - k,
{
    if k < rules.len() {
        assert(rules.take(k + 1).drop_last() =~= rules.take(k));
        lemma_rules_derivs_stops::<E>(rules, db, rel, target, lattice, k + 1);
    } else {
        assert(rules.take(k) =~= rules);
    }
}

/// Whether a derived tuple matches the target.
fn matches_target(t: &Vec<Value>, target: &[Value], lattice: bool) -> (r: bool)
    ensures
        r == tuple_matches(t@, target@, lattice),
{
    if lattice {
        if t.len() != target.len() || t.len() == 0 {
            return false;
        }
        let n = t.len() - 1;
        let r = prefix_eq(t.as_slice(), target, n);
        proof {
            assert(t@.drop_last() =~= t@.subrange(0, n as int));
            assert(target@.drop_last() =~= target@.subrange(0, n as int));
        }
        r
    } else {
        tuple_eq(t.as_slice(), target)
    }
}

/// Appends the derivations one solution of rule `r` yields.
fn derive_heads<E: ExprEval>(heads: &Vec<HeadAtom>, f: &Found, relation: &String, target: &[Value], lattice: bool, r: usize, ev: &mut E, out: &mut Vec<Derivation>) -> (res: Result<(), EvalError>)
    requires
        old(ev).inv(),
    ensures
        final(ev).inv(),
        res is Ok ==> (head_derivs::<E>(heads@, f@.env, relation@, target@, lattice, r as nat, f@.support) matches Some(y)
            && final(out)@.map_values(|d: Derivation| deriv_view(d)) == old(out)@.map_values(|d: Derivation| deriv_view(d)) + y),
        head_derivs::<E>(heads@, f@.env, relation@, target@, lattice, r as nat, f@.support) is None ==> res is Err,
        E::exact() && head_derivs::<E>(heads@, f@.env, relation@, target@, lattice, r as nat, f@.support) is Some ==> res is Ok,
{
    let ghost o0 = out@.map_values(|d: Derivation| deriv_view(d));
    let mut h: usize = 0;
    while h < heads.len()
        invariant
            ev.inv(),
            h <= heads.len(),
            o0 == old(out)@.map_values(|d: Derivation| deriv_view(d)),
            head_derivs::<E>(heads@.take(h as int), f@.env, relation@, target@, lattice, r as nat, f@.support) matches Some(y)
                && out@.map_values(|d: Derivation| deriv_view(d)) == o0 + y,
        decreases heads.len() - h,
    {
        let ghost y = head_derivs::<E>(heads@.take(h as int), f@.env, relation@, target@, lattice, r as nat, f@.support).unwrap();
        assert(heads@.take(h + 1).drop_last() =~= heads@.take(h as int));
        assert(heads@.take(h + 1).last() == heads@[h as int]);
        let head = &heads[h];
        if head.relation == *relation {
            let t = match head_values(head.args.as_slice(), &f.env, ev) {
                Ok(t) => t,
                Err(e) => {
                    proof {
                        if E::exact() {
                            assert(head_derivs::<E>(heads@.take(h + 1), f@.env, relation@, target@, lattice, r as nat, f@.support) is None);
                            lemma_head_derivs_stops::<E>(heads@, f@.env, relation@, target@, lattice, r as nat, f@.support, h + 1);
                        }
                    }
                    return Err(e);
                },
            };
            if matches_target(&t, target, lattice) {
                let ghost prev = out@;
                let d = Derivation { rule: r, support: copy_support(&f.support) };
                assert(deriv_view(d) == (r as nat, f@.support));
                out.push(d);
                assert(out@ =~= prev.push(d));
                assert(out@.map_values(|d: Derivation| deriv_view(d))
                    =~= prev.map_values(|d: Derivation| deriv_view(d)).push(deriv_view(d)));
                assert(out@.map_values(|d: Derivation| deriv_view(d)) =~= o0 + y.push((r as nat, f@.support)));
            }
        }
        h += 1;
    }
    assert(heads@.take(h as int) =~= heads@);
    Ok(())
}

/// Finds the one-step derivations of `tuple` in `relation` against the
/// materialized database: for every rule with a head on `relation`, in rule
/// order, every satisfying assignment of its body whose head produces the
/// tuple (the key columns, for a lattice relation), with the positive body
/// tuples that justify it. Each rule's body is traversed before its heads
/// are evaluated, so a traversal failure is reported ahead of a head that
/// would fail on an earlier solution.
pub fn explain<E: ExprEval>(p: &Program, db: &Database, ev: &mut E, relation: &str, tuple: &[Value]) -> (r: Result<Vec<Derivation>, EvalError>)
    requires
        old(ev).inv(),
    ensures
        final(ev).inv(),
        match crate::ir::decl_index(p.relations@, relation@) {
            None => r matches Err(EvalError::UnknownRelation(n)) && n@ == relation@,
            Some(i) => {
                let lattice = p.relations@[i].kind is Lattice;
                &&& (r matches Ok(v) ==> rules_derivs::<E>(p.rules@, db@, relation@, tuple@, lattice)
                    == Some(v@.map_values(|d: Derivation| deriv_view(d))))
                &&& (rules_derivs::<E>(p.rules@, db@, relation@, tuple@, lattice) is None ==> r is Err)
                &&& (E::exact() && rules_derivs::<E>(p.rules@, db@, relation@, tuple@, lattice) is Some ==> r is Ok)
            },
        },
{
    let name = relation.to_owned();
    let decl = match p.relation_named(&name) {
        Some(d) => d,
        None => return Err(EvalError::UnknownRelation(name)),
    };
    let lattice = match decl.kind {
        RelationKind::Lattice(_) => true,
        RelationKind::Relation => false,
    };
    let mut out: Vec<Derivation> = Vec::new();
    let mut r: usize = 0;
    assert(out@.map_values(|d: Derivation| deriv_view(d)) =~= Seq::<(nat, Support)>::empty());
    while r < p.rules.len()
        invariant
            ev.inv(),
            r <= p.rules.len(),
            name@ == relation@,
            crate::ir::decl_index(p.relations@, relation@) is Some,
            lattice == (p.relations@[crate::ir::decl_index(p.relations@, relation@).unwrap()].kind is Lattice),
            rules_derivs::<E>(p.rules@.take(r as int), db@, relation@, tuple@, lattice) matches Some(x)
                && out@.map_values(|d: Derivation| deriv_view(d)) == x,
        decreases p.rules.len() - r,
    {
        let ghost x = rules_derivs::<E>(p.rules@.take(r as int), db@, relation@, tuple@, lattice).unwrap();
        assert(p.rules@.take(r + 1).drop_last() =~= p.rules@.take(r as int));
        assert(p.rules@.take(r + 1).last() == p.rules@[r as int]);
        let rule = &p.rules[r];
        let mut writes = false;
        let mut h: usize = 0;
        while h < rule.heads.len()
            invariant
                h <= rule.heads.len(),
                writes == exists|k: int| 0 <= k < h && (#[trigger] rule.heads@[k]).relation@ == name@,
            decreases rule.heads.len() - h,
        {
            if rule.heads[h].relation == name {
                writes = true;
            }
            h += 1;
        }
        if writes {
            let env: Env = Env::new();
            let mut sup: Vec<(String, Vec<Value>)> = Vec::new();
            let mut found: Vec<Found> = Vec::new();
            assert(support_view(sup@) =~= Seq::<(Seq<char>, Seq<Value>)>::empty());
            assert(found_view(found@) =~= Seq::<Sol>::empty());
            match visit(rule.body.as_slice(), 0, &env, &mut sup, db, ev, None, &mut found) {
                Ok(_) => {},
                Err(e) => {
                    proof {
                        if E::exact() {
                            assert(rules_derivs::<E>(p.rules@.take(r + 1), db@, relation@, tuple@, lattice) is None);
                            lemma_rules_derivs_stops::<E>(p.rules@, db@, relation@, tuple@, lattice, r + 1);
                        }
                    }
                    return Err(e);
                },
            }
            let ghost sols = found_view(found@);
            assert(sols =~= dfs::<E>(rule.body@, 0, Map::empty(), Seq::empty(), db@).sols);
            let ghost o1 = out@.map_values(|d: Derivation| deriv_view(d));
            let mut k: usize = 0;
            assert(sols.take(0) =~= Seq::<Sol>::empty());
            assert(o1 + Seq::<(nat, Support)>::empty() =~= o1);
            while k < found.len()
                invariant
                    ev.inv(),
                    k <= found.len(),
                    sols == found_view(found@),
                    o1 == x,
                    crate::ir::decl_index(p.relations@, relation@) is Some,
                    r < p.rules@.len(),
                    lattice == (p.relations@[crate::ir::decl_index(p.relations@, relation@).unwrap()].kind is Lattice),
                    rule == &p.rules@[r as int],
                    crate::solve::writes(rule.heads@, relation@),
                    rules_derivs::<E>(p.rules@.take(r as int), db@, relation@, tuple@, lattice) == Some(x),
                    p.rules@.take(r + 1).drop_last() == p.rules@.take(r as int),
                    p.rules@.take(r + 1).last() == p.rules@[r as int],
                    !dfs::<E>(rule.body@, 0, Map::empty(), Seq::empty(), db@).failed,
                    sols == dfs::<E>(rule.body@, 0, Map::empty(), Seq::empty(), db@).sols,
                    sol_derivs::<E>(rule.heads@, sols.take(k as int), relation@, tuple@, lattice, r as nat) matches Some(y)
                        && out@.map_values(|d: Derivation| deriv_view(d)) == o1 + y,
                    name@ == relation@,
                decreases found.len() - k,
            {
                let ghost y = sol_derivs::<E>(rule.heads@, sols.take(k as int), relation@, tuple@, lattice, r as nat).unwrap();
                assert(sols.take(k + 1).drop_last() =~= sols.take(k as int));
                assert(sols.take(k + 1).last() == found@[k as int]@);
                let ghost before = out@.map_values(|d: Derivation| deriv_view(d));
                match derive_heads(&rule.heads, &found[k], &name, tuple, lattice, r, ev, &mut out) {
                    Ok(()) => {},
                    Err(e) => {
                        proof {
                            if E::exact() {
                                assert(sol_derivs::<E>(rule.heads@, sols.take(k + 1), relation@, tuple@, lattice, r as nat) is None);
                                lemma_sol_derivs_stops::<E>(rule.heads@, sols, relation@, tuple@, lattice, r as nat, k + 1);
                                assert(rules_derivs::<E>(p.rules@.take(r + 1), db@, relation@, tuple@, lattice) is None);
                                lemma_rules_derivs_stops::<E>(p.rules@, db@, relation@, tuple@, lattice, r + 1);
                            }
                        }
                        return Err(e);
                    },
                }
                proof {
                    let z = head_derivs::<E>(rule.heads@, found@[k as int]@.env, relation@, tuple@, lattice, r as nat, found@[k as int]@.support).unwrap();
                    assert(out@.map_values(|d: Derivation| deriv_view(d)) =~= o1 + (y + z));
                }
                k += 1;
            }
            assert(sols.take(k as int) =~= sols);
        } else {
            assert(!crate::solve::writes(rule.heads@, relation@));
        }
        r += 1;
    }
    assert(p.rules@.take(r as int) =~= p.rules@);
    Ok(out)
}

/// For a lattice relation a derived tuple matches the target on its key
/// alone: a tuple with the target's length and key matches, whatever its
/// value and the target's, and no other tuple does; two targets that differ
/// only in the value column are matched by the same tuples. For a set
/// relation a tuple matches only itself.
pub proof fn lemma_lattice_match_key(t: Seq<Value>, t1: Seq<Value>, t2: Seq<Value>)
    requires
        t1.len() == t2.len(),
        t1.len() >= 1,
        t1.drop_last() == t2.drop_last(),
    ensures
        tuple_matches(t, t1, true) == tuple_matches(t, t2, true),
        (t.len() == t1.len() && t.drop_last() == t1.drop_last()) ==> tuple_matches(t, t1, true),
        tuple_matches(t, t1, true) ==> t.len() == t1.len() && t.drop_last() == t1.drop_last(),
        tuple_matches(t, t1, false) <==> t == t1,
{
}

/// The derivations a solution yields through its heads do not depend on the
/// value column of a lattice target.
proof fn lemma_head_derivs_key<E: ExprEval>(heads: Seq<HeadAtom>, env: Map<crate::value::Symbol, Value>, rel: Seq<char>, t1: Seq<Value>, t2: Seq<Value>, r: nat, sup: Support)
    requires
        t1.len() == t2.len(),
        t1.len() >= 1,
        t1.drop_last() == t2.drop_last(),
    ensures
        head_derivs::<E>(heads, env, rel, t1, true, r, sup) == head_derivs::<E>(heads, env, rel, t2, true, r, sup),
    decreases heads.len(),
{
    if heads.len() > 0 {
        lemma_head_derivs_key::<E>(heads.drop_last(), env, rel, t1, t2, r, sup);
        match head_tuple::<E>(heads.last().args@, env) {
            Some(t) => lemma_lattice_match_key(t, t1, t2),
            None => {},
        }
    }
}

/// The derivations of a list of solutions do not depend on the value column
/// of a lattice target.
proof fn lemma_sol_derivs_key<E: ExprEval>(heads: Seq<HeadAtom>, sols: Seq<Sol>, rel: Seq<char>, t1: Seq<Value>, t2: Seq<Value>, r: nat)
    requires
        t1.len() == t2.len(),
        t1.len() >= 1,
        t1.drop_last() == t2.drop_last(),
    ensures
        sol_derivs::<E>(heads, sols, rel, t1, true, r) == sol_derivs::<E>(heads, sols, rel, t2, true, r),
    decreases sols.len(),
{
    if sols.len() > 0 {
        lemma_sol_derivs_key::<E>(heads, sols.drop_last(), rel, t1, t2, r);
        lemma_head_derivs_key::<E>(heads, sols.last().env, rel, t1, t2, r, sols.last().support);
    }
}

/// Explaining a tuple of a lattice relation depends on its key alone: two
/// targets that differ only in the value column get the same derivations,
/// so every firing that produced the key is reported, whatever value it
/// carried.
pub proof fn lemma_explain_key_only<E: ExprEval>(rules: Seq<crate::ir::Rule>, db: Seq<RelView>, rel: Seq<char>, t1: Seq<Value>, t2: Seq<Value>)
    requires
        t1.len() == t2.len(),
        t1.len() >= 1,
        t1.drop_last() == t2.drop_last(),
    ensures
        rules_derivs::<E>(rules, db, rel, t1, true) == rules_derivs::<E>(rules, db, rel, t2, true),
    decreases rules.len(),
{
    if rules.len() > 0 {
        lemma_explain_key_only::<E>(rules.drop_last(), db, rel, t1, t2);
        let rule = rules.last();
        let d = dfs::<E>(rule.body@, 0, Map::empty(), Seq::empty(), db);
        lemma_sol_derivs_key::<E>(rule.heads@, d.sols, rel, t1, t2, (rules.len() - 1) as nat);
    }
}

} // verus!
