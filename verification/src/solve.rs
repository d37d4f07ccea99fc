//! Rule firing: one bottom-up pass of a rule over the database. When a pass
//! inserts nothing, every solution of the rule's body already has its head
//! tuples in the database ([`closed`]).

use vstd::prelude::*;

use crate::env::{bindings_map, Env};
use crate::error::EvalError;
use crate::eval::{
    any_match, any_match_spec, agg_spec, dfs, dfs_none, dfs_row, dfs_rows, eval_aggregate, unify,
    unify_spec, Dfs, ExprEval,
};
use crate::expr::Expr;
use crate::ir::{BodyClause, HeadAtom, Rule};
use crate::store::{
    absorbed, db_absorbed, db_insert, insert_outcome, insert_spec, rel_index, rows_of, rows_view,
    same_shape, Database, InsertOutcome, RelView, lemma_rel_index, grows, lemma_grows_refl, lemma_grows_trans, lemma_insert_grows,
};
use crate::value::{Symbol, Value};

verus! {

/// The tuple a head derives under `env`, if every column evaluates.
pub open spec fn head_tuple<E: ExprEval>(args: Seq<Expr>, env: Map<Symbol, Value>) -> Option<Seq<Value>>
    decreases args.len(),
{
    if args.len() == 0 {
        Some(Seq::empty())
    } else {
        match (head_tuple::<E>(args.drop_last(), env), E::value_of(args.last(), env)) {
            (Some(t), Some(v)) => Some(t.push(v)),
            _ => None,
        }
    }
}

/// Once a column fails to evaluate, the whole head does.
proof fn lemma_head_tuple_stops<E: ExprEval>(args: Seq<Expr>, env: Map<Symbol, Value>, k: int)
    requires
        0 <= k <= args.len(),
        head_tuple::<E>(args.subrange(0, k), env) is None,
    ensures
        head_tuple::<E>(args, env) is None,
    decreases args.len() - k,
{
    if k < args.len() {
        assert(args.subrange(0, k + 1).drop_last() =~= args.subrange(0, k));
        lemma_head_tuple_stops::<E>(args, env, k + 1);
    } else {
        assert(args.subrange(0, k) =~= args);
    }
}

/// What firing `heads` under `env` does to `db`: the database after each head
/// tuple is inserted in turn, and whether any insertion changed it; `None`
/// when a column fails to evaluate or a tuple does not fit its relation.
pub open spec fn fire_spec<E: ExprEval>(heads: Seq<HeadAtom>, env: Map<Symbol, Value>, db: Seq<RelView>) -> Option<(Seq<RelView>, bool)>
    decreases heads.len(),
{
    if heads.len() == 0 {
        Some((db, false))
    } else {
        match fire_spec::<E>(heads.drop_last(), env, db) {
            None => None,
            Some((d, c)) => match head_tuple::<E>(heads.last().args@, env) {
                None => None,
                Some(t) => match insert_outcome(d, heads.last().relation@, t, false) {
                    InsertOutcome::Inserted(c2) => Some((db_insert(d, heads.last().relation@, t), c || c2)),
                    _ => None,
                },
            },
        }
    }
}

/// Once a head fails, firing the whole list does.
proof fn lemma_fire_stops<E: ExprEval>(heads: Seq<HeadAtom>, env: Map<Symbol, Value>, db: Seq<RelView>, k: int)
    requires
        0 <= k <= heads.len(),
        fire_spec::<E>(heads.subrange(0, k), env, db) is None,
    ensures
        fire_spec::<E>(heads, env, db) is None,
    decreases heads.len() - k,
{
    if k < heads.len() {
        assert(heads.subrange(0, k + 1).drop_last() =~= heads.subrange(0, k));
        lemma_fire_stops::<E>(heads, env, db, k + 1);
    } else {
        assert(heads.subrange(0, k) =~= heads);
    }
}

/// Every head derives, under `env`, a tuple the database already absorbs.
pub open spec fn heads_hold<E: ExprEval>(heads: Seq<HeadAtom>, env: Map<Symbol, Value>, db: Seq<RelView>) -> bool {
    forall|h: int| 0 <= h < heads.len() ==> match head_tuple::<E>((#[trigger] heads[h]).args@, env) {
        Some(t) => db_absorbed(db, heads[h].relation@, t),
        None => false,
    }
}

/// A visit is closed under the heads: it did not fail, and every solution's
/// head tuples are already in the database.
pub open spec fn closed<E: ExprEval>(heads: Seq<HeadAtom>, d: Dfs, db: Seq<RelView>) -> bool {
    &&& !d.failed
    &&& forall|k: int| 0 <= k < d.sols.len() ==> heads_hold::<E>(heads, (#[trigger] d.sols[k]).env, db)
}

/// A rule holds in a database: every satisfying assignment of its body
/// yields head tuples already present (absorbed, for lattices).
#[verifier::opaque]
pub open spec fn rule_holds<E: ExprEval>(rule: Rule, db: Seq<RelView>) -> bool {
    closed::<E>(rule.heads@, dfs::<E>(rule.body@, 0, Map::empty(), Seq::empty(), db), db)
}

/// Whether some head writes the relation named `name`.
pub open spec fn writes(heads: Seq<HeadAtom>, name: Seq<char>) -> bool {
    exists|h: int| 0 <= h < heads.len() && (#[trigger] heads[h]).relation@ == name
}

/// `b` is `a` with at most the relations written by `heads` changed.
pub open spec fn unchanged_except(a: Seq<RelView>, b: Seq<RelView>, heads: Seq<HeadAtom>) -> bool {
    &&& same_shape(a, b)
    &&& grows(a, b)
    &&& forall|i: int| 0 <= i < a.len() && !writes(heads, a[i].name) ==> #[trigger] b[i] == a[i]
}

/// Closed visits of each candidate tuple make the whole atom visit closed.
pub proof fn lemma_rows_closed<E: ExprEval>(heads: Seq<HeadAtom>, body: Seq<BodyClause>, idx: int, rel: Seq<char>, args: Seq<crate::ir::Arg>, env: Map<Symbol, Value>, sup: Seq<(Seq<char>, Seq<Value>)>, db: Seq<RelView>, rows: Seq<Seq<Value>>, j: int)
    requires
        0 <= idx < body.len(),
        0 <= j <= rows.len(),
        forall|k: int| j <= k < rows.len() ==> closed::<E>(heads, #[trigger] dfs_row::<E>(body, idx, rel, args, env, sup, db, rows[k]), db),
    ensures
        closed::<E>(heads, dfs_rows::<E>(body, idx, rel, args, env, sup, db, rows, j), db),
    decreases rows.len() - j,
{
    if j < rows.len() {
        lemma_rows_closed::<E>(heads, body, idx, rel, args, env, sup, db, rows, j + 1);
        let first = dfs_row::<E>(body, idx, rel, args, env, sup, db, rows[j]);
        let rest = dfs_rows::<E>(body, idx, rel, args, env, sup, db, rows, j + 1);
        assert(closed::<E>(heads, first, db));
        let all = dfs_rows::<E>(body, idx, rel, args, env, sup, db, rows, j);
        assert(all.sols == first.sols + rest.sols);
        assert forall|k: int| 0 <= k < all.sols.len() implies heads_hold::<E>(heads, (#[trigger] all.sols[k]).env, db) by {
            if k < first.sols.len() {
                assert(all.sols[k] == first.sols[k]);
            } else {
                assert(all.sols[k] == rest.sols[k - first.sols.len()]);
            }
        }
    }
}

/// A database with relation `i` updated to the same contents is unchanged.
proof fn lemma_absorbed_db(db: Seq<RelView>, name: Seq<char>, t: Seq<Value>)
    requires
        db_absorbed(db, name, t),
    ensures
        db_insert(db, name, t) == db,
{
    let i = rel_index(db, name).unwrap();
    lemma_rel_index(db, name);
    assert(insert_spec(db[i], t).0 == db[i].rows);
    assert(db_insert(db, name, t) =~= db);
}

/// Evaluates the columns of a head.
pub(crate) fn head_values<E: ExprEval>(args: &[Expr], env: &Env, ev: &mut E) -> (r: Result<Vec<Value>, EvalError>)
    requires
        old(ev).inv(),
    ensures
        final(ev).inv(),
        r matches Ok(t) ==> head_tuple::<E>(args@, env@) == Some(t@),
        E::exact() && head_tuple::<E>(args@, env@) is Some ==> r is Ok,
{
    let mut tuple: Vec<Value> = Vec::new();
    let mut k: usize = 0;
    while k < args.len()
        invariant
            ev.inv(),
            k <= args.len(),
            head_tuple::<E>(args@.subrange(0, k as int), env@) == Some(tuple@),
        decreases args.len() - k,
    {
        assert(args@.subrange(0, k + 1).drop_last() =~= args@.subrange(0, k as int));
        assert(args@.subrange(0, k + 1).last() == args@[k as int]);
        let v = match ev.eval_expr(&args[k], env) {
            Ok(v) => v,
            Err(e) => {
                proof {
                    if E::exact() {
                        lemma_head_tuple_stops::<E>(args@, env@, k + 1);
                    }
                }
                return Err(EvalError::Expr(e));
            },
        };
        tuple.push(v);
        k += 1;
    }
    assert(args@.subrange(0, k as int) =~= args@);
    Ok(tuple)
}

/// Inserts the head tuples of a rule for one satisfying assignment.
#[verifier::rlimit(50)]
fn fire_heads<E: ExprEval>(heads: &Vec<HeadAtom>, env: &Env, db: &mut Database, ev: &mut E) -> (r: Result<bool, EvalError>)
    requires
        old(db).wf(),
        old(ev).inv(),
    ensures
        final(db).wf(),
        final(ev).inv(),
        unchanged_except(old(db)@, final(db)@, heads@),
        r == Ok::<bool, EvalError>(false) ==> final(db)@ == old(db)@ && heads_hold::<E>(heads@, env@, old(db)@),
        r matches Ok(c) ==> fire_spec::<E>(heads@, env@, old(db)@) == Some((final(db)@, c)),
        E::exact() && fire_spec::<E>(heads@, env@, old(db)@) is Some ==> r is Ok,
{
    let ghost d0 = db@;
    let mut changed = false;
    let mut h: usize = 0;
    proof { assert(heads@.subrange(0, 0) =~= Seq::<HeadAtom>::empty()); }
    while h < heads.len()
        invariant
            db.wf(),
            ev.inv(),
            h <= heads.len(),
            d0 == old(db)@,
            fire_spec::<E>(heads@.subrange(0, h as int), env@, d0) == Some((db@, changed)),
            unchanged_except(d0, db@, heads@),
            !changed ==> db@ == d0,
            !changed ==> forall|k: int| 0 <= k < h ==> match head_tuple::<E>((#[trigger] heads@[k]).args@, env@) {
                Some(t) => db_absorbed(d0, heads@[k].relation@, t),
                None => false,
            },
        decreases heads.len() - h,
    {
        let head = &heads[h];
        proof {
            assert(heads@.subrange(0, h + 1).drop_last() =~= heads@.subrange(0, h as int));
            assert(heads@.subrange(0, h + 1).last() == heads@[h as int]);
        }
        let tuple = match head_values(head.args.as_slice(), env, ev) {
            Ok(t) => t,
            Err(e) => {
                proof {
                    if E::exact() {
                        lemma_fire_stops::<E>(heads@, env@, d0, h + 1);
                    }
                }
                return Err(e);
            },
        };
        let ghost t = tuple@;
        let ghost before = db@;
        let c = match db.insert_named(&head.relation, tuple) {
            Ok(c) => c,
            Err(e) => {
                proof {
                    lemma_fire_stops::<E>(heads@, env@, d0, h + 1);
                }
                return Err(e);
            },
        };
        proof {
            lemma_insert_grows(before, head.relation@, t, false);
            lemma_grows_trans(d0, before, db@);
            crate::store::lemma_outcome_inserted(before, head.relation@, t, false);
            let i = rel_index(before, head.relation@).unwrap();
            assert(before[i].name == head.relation@);
            assert(writes(heads@, before[i].name));
            assert forall|x: int| 0 <= x < d0.len() && !writes(heads@, d0[x].name) implies #[trigger] db@[x] == d0[x] by {
                assert(before[x] == d0[x]);
                if x == i {
                    assert(writes(heads@, d0[x].name));
                }
            }
            if !changed && !c {
                assert(db_absorbed(d0, head.relation@, t));
                lemma_absorbed_db(d0, head.relation@, t);
            }
        }
        if c {
            changed = true;
        }
        h += 1;
    }
    assert(heads@.subrange(0, h as int) =~= heads@);
    Ok(changed)
}

/// What a pass that changed nothing establishes about clause `idx` onwards.
pub open spec fn pass_closed<E: ExprEval>(rule: Rule, idx: int, env: Map<Symbol, Value>, d0: Seq<RelView>) -> bool {
    forall|sup: Seq<(Seq<char>, Seq<Value>)>| #[trigger] closed::<E>(rule.heads@, dfs::<E>(rule.body@, idx, env, sup, d0), d0)
}

/// What one pass from clause `idx` under `env` does to `db`, visiting the
/// body depth first as [`dfs`] does but against the database as the pass
/// leaves it so far: the final database and whether it changed; `None` when
/// the pass stops at a failure (an undeclared relation, a failed expression
/// or a head tuple that does not fit).
pub open spec fn pass_spec<E: ExprEval>(heads: Seq<HeadAtom>, body: Seq<BodyClause>, idx: int, env: Map<Symbol, Value>, db: Seq<RelView>) -> Option<(Seq<RelView>, bool)>
    decreases body.len() - idx, 1int, 0int,
{
    if idx >= body.len() || idx < 0 {
        fire_spec::<E>(heads, env, db)
    } else {
        match body[idx] {
            BodyClause::Positive(a) => match rows_of(db, a.relation@) {
                None => None,
                Some(rows) => pass_rows::<E>(heads, body, idx, a.args@, env, db, rows, 0, false),
            },
            BodyClause::Negative(a) => match rows_of(db, a.relation@) {
                None => None,
                Some(rows) => if any_match_spec(a.args@, rows, env) {
                    Some((db, false))
                } else {
                    pass_spec::<E>(heads, body, idx + 1, env, db)
                },
            },
            BodyClause::Condition(e) => match E::value_of(e, env) {
                None => None,
                Some(v) => if v == Value::Bool(true) {
                    pass_spec::<E>(heads, body, idx + 1, env, db)
                } else {
                    Some((db, false))
                },
            },
            BodyClause::Let { var, expr } => match E::value_of(expr, env) {
                None => None,
                Some(v) => pass_spec::<E>(heads, body, idx + 1, env.insert(var, v), db),
            },
            BodyClause::Aggregate(agg) => match agg_spec::<E>(agg, env, db) {
                None => None,
                Some(None) => Some((db, false)),
                Some(Some(r)) => pass_spec::<E>(heads, body, idx + 1, env.insert(agg.output, r), db),
            },
        }
    }
}

/// The pass over a positive atom's candidate tuples `rows[j..]` (taken when
/// the pass reached the atom), starting from `db` with `changed` so far.
pub open spec fn pass_rows<E: ExprEval>(heads: Seq<HeadAtom>, body: Seq<BodyClause>, idx: int, args: Seq<crate::ir::Arg>, env: Map<Symbol, Value>, db: Seq<RelView>, rows: Seq<Seq<Value>>, j: int, changed: bool) -> Option<(Seq<RelView>, bool)>
    decreases body.len() - idx, 0int, rows.len() - j,
{
    if j >= rows.len() || j < 0 || idx >= body.len() || idx < 0 {
        Some((db, changed))
    } else {
        match unify_spec(args, rows[j], env) {
            None => pass_rows::<E>(heads, body, idx, args, env, db, rows, j + 1, changed),
            Some(b) => match pass_spec::<E>(heads, body, idx + 1, env.union_prefer_right(bindings_map(b)), db) {
                None => None,
                Some((d, c)) => pass_rows::<E>(heads, body, idx, args, env, d, rows, j + 1, changed || c),
            },
        }
    }
}

/// Firing heads whose tuples the database already absorbs changes nothing.
pub proof fn lemma_fire_idle<E: ExprEval>(heads: Seq<HeadAtom>, env: Map<Symbol, Value>, db: Seq<RelView>)
    requires
        heads_hold::<E>(heads, env, db),
    ensures
        fire_spec::<E>(heads, env, db) == Some((db, false)),
    decreases heads.len(),
{
    if heads.len() > 0 {
        let init = heads.drop_last();
        assert forall|h: int| 0 <= h < init.len() implies match head_tuple::<E>((#[trigger] init[h]).args@, env) {
            Some(t) => db_absorbed(db, init[h].relation@, t),
            None => false,
        } by {
            assert(init[h] == heads[h]);
        }
        lemma_fire_idle::<E>(init, env, db);
        let last = heads[heads.len() - 1];
        assert(last == heads.last());
        let t = head_tuple::<E>(last.args@, env).unwrap();
        assert(db_absorbed(db, last.relation@, t));
        let i = rel_index(db, last.relation@).unwrap();
        lemma_rel_index(db, last.relation@);
        crate::store::lemma_outcome_at(db, last.relation@, t, false, i);
        lemma_absorbed_db(db, last.relation@, t);
    }
}

/// A pass through a body whose every solution already has its heads in the
/// database, with no failure on the way, changes nothing.
pub proof fn lemma_pass_idle<E: ExprEval>(heads: Seq<HeadAtom>, body: Seq<BodyClause>, idx: int, env: Map<Symbol, Value>, sup: Seq<(Seq<char>, Seq<Value>)>, db: Seq<RelView>)
    requires
        closed::<E>(heads, dfs::<E>(body, idx, env, sup, db), db),
    ensures
        pass_spec::<E>(heads, body, idx, env, db) == Some((db, false)),
    decreases body.len() - idx, 1int, 0int,
{
    if idx >= body.len() || idx < 0 {
        let d = dfs::<E>(body, idx, env, sup, db);
        assert(d.sols[0].env == env);
        lemma_fire_idle::<E>(heads, env, db);
    } else {
        match body[idx] {
            BodyClause::Positive(a) => {
                match rows_of(db, a.relation@) {
                    None => {},
                    Some(rows) => {
                        lemma_rows_idle::<E>(heads, body, idx, a.relation@, a.args@, env, sup, db, rows, 0);
                    },
                }
            },
            BodyClause::Negative(a) => {
                match rows_of(db, a.relation@) {
                    None => {},
                    Some(rows) => {
                        if !any_match_spec(a.args@, rows, env) {
                            lemma_pass_idle::<E>(heads, body, idx + 1, env, sup, db);
                        }
                    },
                }
            },
            BodyClause::Condition(e) => {
                match E::value_of(e, env) {
                    None => {},
                    Some(v) => {
                        if v == Value::Bool(true) {
                            lemma_pass_idle::<E>(heads, body, idx + 1, env, sup, db);
                        }
                    },
                }
            },
            BodyClause::Let { var, expr } => {
                match E::value_of(expr, env) {
                    None => {},
                    Some(v) => {
                        lemma_pass_idle::<E>(heads, body, idx + 1, env.insert(var, v), sup, db);
                    },
                }
            },
            BodyClause::Aggregate(agg) => {
                match agg_spec::<E>(agg, env, db) {
                    Some(Some(r)) => {
                        lemma_pass_idle::<E>(heads, body, idx + 1, env.insert(agg.output, r), sup, db);
                    },
                    _ => {},
                }
            },
        }
    }
}

/// The candidate tuples of a positive atom, when every solution through them
/// already has its heads in the database, change nothing.
pub proof fn lemma_rows_idle<E: ExprEval>(heads: Seq<HeadAtom>, body: Seq<BodyClause>, idx: int, rel: Seq<char>, args: Seq<crate::ir::Arg>, env: Map<Symbol, Value>, sup: Seq<(Seq<char>, Seq<Value>)>, db: Seq<RelView>, rows: Seq<Seq<Value>>, j: int)
    requires
        closed::<E>(heads, dfs_rows::<E>(body, idx, rel, args, env, sup, db, rows, j), db),
    ensures
        pass_rows::<E>(heads, body, idx, args, env, db, rows, j, false) == Some((db, false)),
    decreases body.len() - idx, 0int, rows.len() - j,
{
    if 0 <= j < rows.len() && 0 <= idx < body.len() {
        let first = dfs_row::<E>(body, idx, rel, args, env, sup, db, rows[j]);
        let rest = dfs_rows::<E>(body, idx, rel, args, env, sup, db, rows, j + 1);
        let all = dfs_rows::<E>(body, idx, rel, args, env, sup, db, rows, j);
        assert(!first.failed);
        assert(all.sols == first.sols + rest.sols);
        assert(closed::<E>(heads, rest, db)) by {
            assert forall|k: int| 0 <= k < rest.sols.len() implies heads_hold::<E>(heads, (#[trigger] rest.sols[k]).env, db) by {
                assert(all.sols[k + first.sols.len()] == rest.sols[k]);
            }
        }
        lemma_rows_idle::<E>(heads, body, idx, rel, args, env, sup, db, rows, j + 1);
        match unify_spec(args, rows[j], env) {
            None => {},
            Some(b) => {
                let env2 = env.union_prefer_right(bindings_map(b));
                let sup2 = sup.push((rel, rows[j]));
                assert(first == dfs::<E>(body, idx + 1, env2, sup2, db));
                assert(closed::<E>(heads, first, db)) by {
                    assert forall|k: int| 0 <= k < first.sols.len() implies heads_hold::<E>(heads, (#[trigger] first.sols[k]).env, db) by {
                        assert(all.sols[k] == first.sols[k]);
                    }
                }
                lemma_pass_idle::<E>(heads, body, idx + 1, env2, sup2, db);
            },
        }
    }
}

/// `unchanged_except` composes.
proof fn lemma_unchanged_trans(a: Seq<RelView>, b: Seq<RelView>, c: Seq<RelView>, heads: Seq<HeadAtom>)
    requires
        unchanged_except(a, b, heads),
        unchanged_except(b, c, heads),
    ensures
        unchanged_except(a, c, heads),
{
    assert forall|x: int| 0 <= x < a.len() && !writes(heads, a[x].name) implies #[trigger] c[x] == a[x] by {
        assert(b[x] == a[x]);
    }
    lemma_grows_trans(a, b, c);
}

/// One pass of `rule` from clause `idx` under `env`, inserting every derived
/// head tuple. Returns whether the database changed; if it did not, every
/// solution of the remaining body already has its heads in the database.
pub fn solve<E: ExprEval>(rule: &Rule, idx: usize, env: &Env, db: &mut Database, ev: &mut E) -> (r: Result<bool, EvalError>)
    requires
        old(db).wf(),
        old(ev).inv(),
        idx <= rule.body@.len(),
    ensures
        final(db).wf(),
        final(ev).inv(),
        unchanged_except(old(db)@, final(db)@, rule.heads@),
        r == Ok::<bool, EvalError>(false) ==> final(db)@ == old(db)@ && pass_closed::<E>(*rule, idx as int, env@, old(db)@),
        r matches Ok(c) ==> pass_spec::<E>(rule.heads@, rule.body@, idx as int, env@, old(db)@) == Some((final(db)@, c)),
        E::exact() && pass_spec::<E>(rule.heads@, rule.body@, idx as int, env@, old(db)@) is Some ==> r is Ok,
    decreases rule.body@.len() - idx, 1int,
{
    let ghost d0 = db@;
    if idx == rule.body.len() {
        let c = fire_heads(&rule.heads, env, db, ev)?;
        proof {
            assert forall|sup: Seq<(Seq<char>, Seq<Value>)>| !c implies #[trigger] closed::<E>(rule.heads@, dfs::<E>(rule.body@, idx as int, env@, sup, d0), d0) by {
                let d = dfs::<E>(rule.body@, idx as int, env@, sup, d0);
                assert(d.sols.len() == 1);
                assert(d.sols[0].env == env@);
            }
        }
        return Ok(c);
    }
    match &rule.body[idx] {
        BodyClause::Positive(atom) => solve_atom(rule, idx, atom, env, db, ev),
        BodyClause::Negative(atom) => solve_negative(rule, idx, atom, env, db, ev),
        BodyClause::Condition(expr) => solve_condition(rule, idx, expr, env, db, ev),
        BodyClause::Let { var, expr } => solve_let(rule, idx, *var, expr, env, db, ev),
        BodyClause::Aggregate(agg) => solve_aggregate(rule, idx, agg, env, db, ev),
    }
}

/// One pass through a negated atom.
fn solve_negative<E: ExprEval>(rule: &Rule, idx: usize, atom: &crate::ir::Atom, env: &Env, db: &mut Database, ev: &mut E) -> (r: Result<bool, EvalError>)
    requires
        old(db).wf(),
        old(ev).inv(),
        idx < rule.body@.len(),
        rule.body@[idx as int] == BodyClause::Negative(*atom),
    ensures
        final(db).wf(),
        final(ev).inv(),
        unchanged_except(old(db)@, final(db)@, rule.heads@),
        r == Ok::<bool, EvalError>(false) ==> final(db)@ == old(db)@ && pass_closed::<E>(*rule, idx as int, env@, old(db)@),
        r matches Ok(c) ==> pass_spec::<E>(rule.heads@, rule.body@, idx as int, env@, old(db)@) == Some((final(db)@, c)),
        E::exact() && pass_spec::<E>(rule.heads@, rule.body@, idx as int, env@, old(db)@) is Some ==> r is Ok,
    decreases rule.body@.len() - idx, 0int,
{
    let ghost d0 = db@;
    let n_body = rule.body.len();
    assert(idx < n_body);

        let snapshot = db.snapshot(&atom.relation)?;
        if any_match(&atom.args, &snapshot, env) {
            proof {
                assert forall|sup: Seq<(Seq<char>, Seq<Value>)>| #[trigger] closed::<E>(rule.heads@, dfs::<E>(rule.body@, idx as int, env@, sup, d0), d0) by {
                    assert(dfs::<E>(rule.body@, idx as int, env@, sup, d0) == dfs_none());
                }
                assert(unchanged_except(d0, d0, rule.heads@));
            }
            Ok(false)
        } else {
            let r = solve(rule, idx + 1, env, db, ev);
            proof {
                if r == Ok::<bool, EvalError>(false) {
                    assert forall|sup: Seq<(Seq<char>, Seq<Value>)>| #[trigger] closed::<E>(rule.heads@, dfs::<E>(rule.body@, idx as int, env@, sup, d0), d0) by {
                        assert(dfs::<E>(rule.body@, idx as int, env@, sup, d0) == dfs::<E>(rule.body@, idx + 1, env@, sup, d0));
                        assert(closed::<E>(rule.heads@, dfs::<E>(rule.body@, idx + 1, env@, sup, d0), d0));
                    }
                }
            }
            r
        }
    }

/// One pass through an `if` clause.
fn solve_condition<E: ExprEval>(rule: &Rule, idx: usize, expr: &Expr, env: &Env, db: &mut Database, ev: &mut E) -> (r: Result<bool, EvalError>)
    requires
        old(db).wf(),
        old(ev).inv(),
        idx < rule.body@.len(),
        rule.body@[idx as int] == BodyClause::Condition(*expr),
    ensures
        final(db).wf(),
        final(ev).inv(),
        unchanged_except(old(db)@, final(db)@, rule.heads@),
        r == Ok::<bool, EvalError>(false) ==> final(db)@ == old(db)@ && pass_closed::<E>(*rule, idx as int, env@, old(db)@),
        r matches Ok(c) ==> pass_spec::<E>(rule.heads@, rule.body@, idx as int, env@, old(db)@) == Some((final(db)@, c)),
        E::exact() && pass_spec::<E>(rule.heads@, rule.body@, idx as int, env@, old(db)@) is Some ==> r is Ok,
    decreases rule.body@.len() - idx, 0int,
{
    let ghost d0 = db@;
    let n_body = rule.body.len();
    assert(idx < n_body);

        let v = ev.eval_expr(expr, env)?;
        if v == Value::Bool(true) {
            let r = solve(rule, idx + 1, env, db, ev);
            proof {
                if r == Ok::<bool, EvalError>(false) {
                    assert forall|sup: Seq<(Seq<char>, Seq<Value>)>| #[trigger] closed::<E>(rule.heads@, dfs::<E>(rule.body@, idx as int, env@, sup, d0), d0) by {
                        assert(dfs::<E>(rule.body@, idx as int, env@, sup, d0) == dfs::<E>(rule.body@, idx + 1, env@, sup, d0));
                        assert(closed::<E>(rule.heads@, dfs::<E>(rule.body@, idx + 1, env@, sup, d0), d0));
                    }
                }
            }
            r
        } else {
            proof {
                assert forall|sup: Seq<(Seq<char>, Seq<Value>)>| #[trigger] closed::<E>(rule.heads@, dfs::<E>(rule.body@, idx as int, env@, sup, d0), d0) by {
                    assert(dfs::<E>(rule.body@, idx as int, env@, sup, d0) == dfs_none());
                }
                assert(unchanged_except(d0, d0, rule.heads@));
            }
            Ok(false)
        }
    }

/// One pass through a `let` clause.
fn solve_let<E: ExprEval>(rule: &Rule, idx: usize, var: Symbol, expr: &Expr, env: &Env, db: &mut Database, ev: &mut E) -> (r: Result<bool, EvalError>)
    requires
        old(db).wf(),
        old(ev).inv(),
        idx < rule.body@.len(),
        rule.body@[idx as int] == (BodyClause::Let { var, expr: *expr }),
    ensures
        final(db).wf(),
        final(ev).inv(),
        unchanged_except(old(db)@, final(db)@, rule.heads@),
        r == Ok::<bool, EvalError>(false) ==> final(db)@ == old(db)@ && pass_closed::<E>(*rule, idx as int, env@, old(db)@),
        r matches Ok(c) ==> pass_spec::<E>(rule.heads@, rule.body@, idx as int, env@, old(db)@) == Some((final(db)@, c)),
        E::exact() && pass_spec::<E>(rule.heads@, rule.body@, idx as int, env@, old(db)@) is Some ==> r is Ok,
    decreases rule.body@.len() - idx, 0int,
{
    let ghost d0 = db@;
    let n_body = rule.body.len();
    assert(idx < n_body);
    let v = ev.eval_expr(expr, env)?;
    let env2 = env.with(var, v);
    let r = solve(rule, idx + 1, &env2, db, ev);
    proof {
        if r == Ok::<bool, EvalError>(false) {
            assert forall|sup: Seq<(Seq<char>, Seq<Value>)>| #[trigger] closed::<E>(rule.heads@, dfs::<E>(rule.body@, idx as int, env@, sup, d0), d0) by {
                assert(dfs::<E>(rule.body@, idx as int, env@, sup, d0) == dfs::<E>(rule.body@, idx + 1, env2@, sup, d0));
                assert(closed::<E>(rule.heads@, dfs::<E>(rule.body@, idx + 1, env2@, sup, d0), d0));
            }
        }
    }
    r
}

/// One pass through an aggregate clause.
fn solve_aggregate<E: ExprEval>(rule: &Rule, idx: usize, agg: &crate::ir::Aggregate, env: &Env, db: &mut Database, ev: &mut E) -> (r: Result<bool, EvalError>)
    requires
        old(db).wf(),
        old(ev).inv(),
        idx < rule.body@.len(),
        rule.body@[idx as int] == BodyClause::Aggregate(*agg),
    ensures
        final(db).wf(),
        final(ev).inv(),
        unchanged_except(old(db)@, final(db)@, rule.heads@),
        r == Ok::<bool, EvalError>(false) ==> final(db)@ == old(db)@ && pass_closed::<E>(*rule, idx as int, env@, old(db)@),
        r matches Ok(c) ==> pass_spec::<E>(rule.heads@, rule.body@, idx as int, env@, old(db)@) == Some((final(db)@, c)),
        E::exact() && pass_spec::<E>(rule.heads@, rule.body@, idx as int, env@, old(db)@) is Some ==> r is Ok,
    decreases rule.body@.len() - idx, 0int,
{
    let ghost d0 = db@;
    let n_body = rule.body.len();
    assert(idx < n_body);

        match eval_aggregate(agg, env, db, ev)? {
            Some(result) => {
                let env2 = env.with(agg.output, result);
                let r = solve(rule, idx + 1, &env2, db, ev);
                proof {
                    if r == Ok::<bool, EvalError>(false) {
                        assert forall|sup: Seq<(Seq<char>, Seq<Value>)>| #[trigger] closed::<E>(rule.heads@, dfs::<E>(rule.body@, idx as int, env@, sup, d0), d0) by {
                            assert(dfs::<E>(rule.body@, idx as int, env@, sup, d0) == dfs::<E>(rule.body@, idx + 1, env2@, sup, d0));
                            assert(closed::<E>(rule.heads@, dfs::<E>(rule.body@, idx + 1, env2@, sup, d0), d0));
                        }
                    }
                }
                r
            },
            None => {
                proof {
                    assert forall|sup: Seq<(Seq<char>, Seq<Value>)>| #[trigger] closed::<E>(rule.heads@, dfs::<E>(rule.body@, idx as int, env@, sup, d0), d0) by {
                        assert(dfs::<E>(rule.body@, idx as int, env@, sup, d0) == dfs_none());
                    }
                    assert(unchanged_except(d0, d0, rule.heads@));
                }
                Ok(false)
            },
        }
    }

/// One pass over the candidate tuples of the positive atom at clause `idx`.
fn solve_atom<E: ExprEval>(rule: &Rule, idx: usize, atom: &crate::ir::Atom, env: &Env, db: &mut Database, ev: &mut E) -> (r: Result<bool, EvalError>)
    requires
        old(db).wf(),
        old(ev).inv(),
        idx < rule.body@.len(),
        rule.body@[idx as int] == BodyClause::Positive(*atom),
    ensures
        final(db).wf(),
        final(ev).inv(),
        unchanged_except(old(db)@, final(db)@, rule.heads@),
        r == Ok::<bool, EvalError>(false) ==> final(db)@ == old(db)@ && pass_closed::<E>(*rule, idx as int, env@, old(db)@),
        r matches Ok(c) ==> pass_spec::<E>(rule.heads@, rule.body@, idx as int, env@, old(db)@) == Some((final(db)@, c)),
        E::exact() && pass_spec::<E>(rule.heads@, rule.body@, idx as int, env@, old(db)@) is Some ==> r is Ok,
    decreases rule.body@.len() - idx, 0int,
{
    let ghost d0 = db@;
    let n_body = rule.body.len();
    let snapshot = db.snapshot(&atom.relation)?;
    let ghost rows = rows_view(snapshot@);
    let mut changed = false;
    let mut j: usize = 0;
    proof { assert(unchanged_except(d0, d0, rule.heads@)); }
    while j < snapshot.len()
        invariant
            db.wf(),
            ev.inv(),
            j <= snapshot.len(),
            idx < rule.body@.len(),
            n_body == rule.body@.len(),
            d0 == old(db)@,
            rule.body@[idx as int] == BodyClause::Positive(*atom),
            rows == rows_view(snapshot@),
            rows_of(d0, atom.relation@) == Some(rows),
            unchanged_except(d0, db@, rule.heads@),
            pass_spec::<E>(rule.heads@, rule.body@, idx as int, env@, d0)
                == pass_rows::<E>(rule.heads@, rule.body@, idx as int, atom.args@, env@, db@, rows, j as int, changed),
            !changed ==> db@ == d0,
            !changed ==> forall|k: int, sup: Seq<(Seq<char>, Seq<Value>)>| 0 <= k < j ==>
                #[trigger] closed::<E>(rule.heads@, dfs_row::<E>(rule.body@, idx as int, atom.relation@, atom.args@, env@, sup, d0, rows[k]), d0),
        decreases snapshot.len() - j,
    {
        assert(rows[j as int] == snapshot@[j as int]@);
        let ghost before = db@;
        match unify(&atom.args, &snapshot[j], env) {
            None => {
                proof {
                    assert forall|k: int, sup: Seq<(Seq<char>, Seq<Value>)>| 0 <= k < j + 1 && !changed implies
                        #[trigger] closed::<E>(rule.heads@, dfs_row::<E>(rule.body@, idx as int, atom.relation@, atom.args@, env@, sup, d0, rows[k]), d0) by {
                        if k == j {
                            assert(dfs_row::<E>(rule.body@, idx as int, atom.relation@, atom.args@, env@, sup, d0, rows[k]) == dfs_none());
                        }
                    }
                }
            },
            Some(bindings) => {
                let env2 = env.extend(&bindings);
                let res = solve(rule, idx + 1, &env2, db, ev);
                proof {
                    lemma_unchanged_trans(d0, before, db@, rule.heads@);
                    assert(unify_spec(atom.args@, rows[j as int], env@) == Some(bindings@));
                }
                let c = res?;
                proof {
                    assert forall|k: int, sup: Seq<(Seq<char>, Seq<Value>)>| 0 <= k < j + 1 && !changed && !c implies
                        #[trigger] closed::<E>(rule.heads@, dfs_row::<E>(rule.body@, idx as int, atom.relation@, atom.args@, env@, sup, d0, rows[k]), d0) by {
                        if k == j {
                            let sup2 = sup.push((atom.relation@, rows[k]));
                            assert(closed::<E>(rule.heads@, dfs::<E>(rule.body@, idx + 1, env2@, sup2, d0), d0));
                        }
                    }
                }
                if c {
                    changed = true;
                }
            },
        }
        j += 1;
    }
    proof {
        if !changed {
            assert forall|sup: Seq<(Seq<char>, Seq<Value>)>| #[trigger] closed::<E>(rule.heads@, dfs::<E>(rule.body@, idx as int, env@, sup, d0), d0) by {
                assert forall|k: int| 0 <= k < rows.len() implies #[trigger] closed::<E>(rule.heads@, dfs_row::<E>(rule.body@, idx as int, atom.relation@, atom.args@, env@, sup, d0, rows[k]), d0) by {
                    assert(closed::<E>(rule.heads@, dfs_row::<E>(rule.body@, idx as int, atom.relation@, atom.args@, env@, sup, d0, rows[k]), d0));
                }
                lemma_rows_closed::<E>(rule.heads@, rule.body@, idx as int, atom.relation@, atom.args@, env@, sup, d0, rows, 0);
            }
        }
    }
    Ok(changed)
}

} // verus!
