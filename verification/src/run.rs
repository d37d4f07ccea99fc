//! The stratified fixed-point loop: strata are evaluated in order, and within
//! a stratum every rule is fired until a whole pass derives nothing new.

use vstd::prelude::*;

use crate::env::Env;
use crate::error::EvalError;
use crate::eval::{agg_spec, dfs, dfs_row, dfs_rows, Dfs, ExprEval};
use crate::ir::{decl_index, lemma_decl_index, BodyClause, HeadAtom, Program, Rule};
use crate::solve::{closed, heads_hold, rule_holds, solve, unchanged_except, writes, pass_closed, pass_spec};
use crate::store::{
    db_absorbed, grows, lemma_grows_refl, lemma_grows_trans, lemma_rel_index, lemma_same_shape_index, rel_index, rows_of, same_shape, Database,
    RelView,
};
use crate::groups::strata_groups;
use crate::least_model::{least_at, least_conditions, lemma_least_advance, lemma_state_start, lemma_state_step, state_at};
use crate::strata::{
    body_valid, clause_ok, clause_valid, groups_ok, head_valid, is_least_strata, heads_min, lemma_heads_min_ge,
    lemma_heads_min_le, least_strata, lemma_pos, pos, program_valid, respects, rule_stratum, spanning_heads_are_sets,
    stratify, triple_ok,
};
use crate::value::{Symbol, Value};

verus! {

/// The database holds exactly the program's relations, in declaration order.
pub open spec fn db_of_program(p: Program, db: Seq<RelView>) -> bool {
    &&& db.len() == p.relations@.len()
    &&& forall|i: int| 0 <= i < db.len() ==> #[trigger] db[i].name == p.relations@[i].name@
        && db[i].kind == p.relations@[i].kind && db[i].schema == p.relations@[i].schema@
}

/// Looking a name up in the database agrees with looking it up in the program.
pub proof fn lemma_db_index(p: Program, db: Seq<RelView>, name: Seq<char>)
    requires
        db_of_program(p, db),
    ensures
        rel_index(db, name) == decl_index(p.relations@, name),
{
    lemma_rel_index(db, name);
    lemma_decl_index(p.relations@, name);
    match rel_index(db, name) {
        Some(i) => {
            assert(p.relations@[i].name@ == name);
            match decl_index(p.relations@, name) {
                Some(j) => {
                    if j < i { assert(db[j].name == name); }
                    if i < j { assert(p.relations@[i].name@ == name); }
                },
                None => {},
            }
        },
        None => {
            match decl_index(p.relations@, name) {
                Some(j) => { assert(db[j].name == name); },
                None => {},
            }
        },
    }
}

/// The rows a clause reads are the same in two databases.
pub open spec fn clause_rows_agree(c: BodyClause, d1: Seq<RelView>, d2: Seq<RelView>) -> bool {
    match c {
        BodyClause::Positive(a) => rows_of(d1, a.relation@) == rows_of(d2, a.relation@),
        BodyClause::Negative(a) => rows_of(d1, a.relation@) == rows_of(d2, a.relation@),
        BodyClause::Aggregate(agg) => rows_of(d1, agg.source.relation@) == rows_of(d2, agg.source.relation@),
        _ => true,
    }
}

/// The visit of a body depends only on the rows its clauses read.
pub proof fn lemma_dfs_frame<E: ExprEval>(body: Seq<BodyClause>, idx: int, env: Map<Symbol, Value>, sup: Seq<(Seq<char>, Seq<Value>)>, d1: Seq<RelView>, d2: Seq<RelView>)
    requires
        forall|c: int| idx <= c < body.len() ==> clause_rows_agree(#[trigger] body[c], d1, d2),
    ensures
        dfs::<E>(body, idx, env, sup, d1) == dfs::<E>(body, idx, env, sup, d2),
    decreases body.len() - idx, 1int, 0int,
{
    if 0 <= idx < body.len() {
        assert(clause_rows_agree(body[idx], d1, d2));
        match body[idx] {
            BodyClause::Positive(a) => {
                match rows_of(d1, a.relation@) {
                    None => {},
                    Some(rows) => {
                        lemma_rows_frame::<E>(body, idx, a.relation@, a.args@, env, sup, d1, d2, rows, 0);
                    },
                }
            },
            BodyClause::Negative(a) => {
                lemma_dfs_frame::<E>(body, idx + 1, env, sup, d1, d2);
            },
            BodyClause::Condition(e) => {
                lemma_dfs_frame::<E>(body, idx + 1, env, sup, d1, d2);
            },
            BodyClause::Let { var, expr } => {
                match E::value_of(expr, env) {
                    None => {},
                    Some(v) => {
                        lemma_dfs_frame::<E>(body, idx + 1, env.insert(var, v), sup, d1, d2);
                    },
                }
            },
            BodyClause::Aggregate(agg) => {
                assert(agg_spec::<E>(agg, env, d1) == agg_spec::<E>(agg, env, d2));
                match agg_spec::<E>(agg, env, d1) {
                    Some(Some(r)) => {
                        lemma_dfs_frame::<E>(body, idx + 1, env.insert(agg.output, r), sup, d1, d2);
                    },
                    _ => {},
                }
            },
        }
    }
}

/// The visit of an atom's candidate tuples depends only on the rows read.
pub proof fn lemma_rows_frame<E: ExprEval>(body: Seq<BodyClause>, idx: int, rel: Seq<char>, args: Seq<crate::ir::Arg>, env: Map<Symbol, Value>, sup: Seq<(Seq<char>, Seq<Value>)>, d1: Seq<RelView>, d2: Seq<RelView>, rows: Seq<Seq<Value>>, j: int)
    requires
        forall|c: int| idx <= c < body.len() ==> clause_rows_agree(#[trigger] body[c], d1, d2),
    ensures
        dfs_rows::<E>(body, idx, rel, args, env, sup, d1, rows, j) == dfs_rows::<E>(body, idx, rel, args, env, sup, d2, rows, j),
    decreases body.len() - idx, 0int, rows.len() - j,
{
    if 0 <= j < rows.len() && 0 <= idx < body.len() {
        match crate::eval::unify_spec(args, rows[j], env) {
            None => {},
            Some(b) => {
                lemma_dfs_frame::<E>(body, idx + 1, env.union_prefer_right(crate::env::bindings_map(b)), sup.push((rel, rows[j])), d1, d2);
            },
        }
        lemma_rows_frame::<E>(body, idx, rel, args, env, sup, d1, d2, rows, j + 1);
        assert(dfs_row::<E>(body, idx, rel, args, env, sup, d1, rows[j]) == dfs_row::<E>(body, idx, rel, args, env, sup, d2, rows[j]));
    }
}

/// Every tuple that `d1` absorbs into relation `name`, `d2` absorbs too.
pub open spec fn absorbs_same(d1: Seq<RelView>, d2: Seq<RelView>, name: Seq<char>) -> bool {
    forall|t: Seq<Value>| db_absorbed(d1, name, t) ==> #[trigger] db_absorbed(d2, name, t)
}

/// A rule that holds keeps holding when the rows it reads do not change and
/// the relations it writes still absorb what they absorbed.
pub proof fn lemma_rule_holds_frame<E: ExprEval>(rule: Rule, d1: Seq<RelView>, d2: Seq<RelView>)
    requires
        rule_holds::<E>(rule, d1),
        same_shape(d1, d2),
        forall|c: int| 0 <= c < rule.body@.len() ==> clause_rows_agree(#[trigger] rule.body@[c], d1, d2),
        forall|h: int| 0 <= h < rule.heads@.len() ==> absorbs_same(d1, d2, (#[trigger] rule.heads@[h]).relation@),
    ensures
        rule_holds::<E>(rule, d2),
{
    reveal(rule_holds);
    lemma_dfs_frame::<E>(rule.body@, 0, Map::empty(), Seq::empty(), d1, d2);
    let d = dfs::<E>(rule.body@, 0, Map::empty(), Seq::empty(), d1);
    assert forall|k: int| 0 <= k < d.sols.len() implies heads_hold::<E>(rule.heads@, (#[trigger] d.sols[k]).env, d2) by {
        assert(heads_hold::<E>(rule.heads@, d.sols[k].env, d1));
        assert forall|h: int| 0 <= h < rule.heads@.len() implies match crate::solve::head_tuple::<E>((#[trigger] rule.heads@[h]).args@, d.sols[k].env) {
            Some(t) => db_absorbed(d2, rule.heads@[h].relation@, t),
            None => false,
        } by {
            assert(absorbs_same(d1, d2, rule.heads@[h].relation@));
        }
    }
}

/// `b` differs from `a` at most in relations of stratum `g` or above (under
/// `st`).
pub open spec fn changed_only_in(p: Program, st: Seq<int>, a: Seq<RelView>, b: Seq<RelView>, g: int) -> bool {
    &&& same_shape(a, b)
    &&& forall|i: int| 0 <= i < a.len() && st[pos(p, a[i].name)] < g ==> #[trigger] b[i] == a[i]
}

/// The conditions under which a successful run reaches a fixed point of every
/// rule: the database was built for the program, every rule has a head, the
/// program has a stratification, and a head above its rule's stratum is a
/// set relation.
pub open spec fn fixpoint_conditions(p: Program, db: Seq<RelView>) -> bool {
    &&& db_of_program(p, db)
    &&& forall|r: int| 0 <= r < p.rules@.len() ==> (#[trigger] p.rules@[r]).heads@.len() >= 1
    &&& least_strata(p) matches Some(st) && spanning_heads_are_sets(p, st)
}

/// A pass of a rule changes only relations of the rule's stratum or above.
proof fn lemma_write_stratum(p: Program, st: Seq<int>, r: int, a: Seq<RelView>, b: Seq<RelView>)
    requires
        0 <= r < p.rules@.len(),
        unchanged_except(a, b, p.rules@[r].heads@),
    ensures
        changed_only_in(p, st, a, b, rule_stratum(p, st, p.rules@[r])),
{
    let heads = p.rules@[r].heads@;
    lemma_heads_min_le(p, st, heads);
    assert forall|i: int| 0 <= i < a.len() && st[pos(p, a[i].name)] < rule_stratum(p, st, p.rules@[r])
        implies #[trigger] b[i] == a[i] by {
        if writes(heads, a[i].name) {
            let h = choose|h: int| 0 <= h < heads.len() && (#[trigger] heads[h]).relation@ == a[i].name;
            assert(heads_min(p, st, heads) <= st[pos(p, heads[h].relation@)]);
        }
    }
}

/// `changed_only_in` composes.
proof fn lemma_changed_trans(p: Program, st: Seq<int>, a: Seq<RelView>, b: Seq<RelView>, c: Seq<RelView>, g: int)
    requires
        changed_only_in(p, st, a, b, g),
        changed_only_in(p, st, b, c, g),
    ensures
        changed_only_in(p, st, a, c, g),
{
    assert forall|i: int| 0 <= i < a.len() && st[pos(p, a[i].name)] < g implies #[trigger] c[i] == a[i] by {
        assert(b[i] == a[i]);
    }
}

/// The relation a declared name resolves to in a database built for `p` is
/// at the name's position, and carries the name.
pub proof fn lemma_resolve(p: Program, db: Seq<RelView>, name: Seq<char>)
    requires
        db_of_program(p, db),
        decl_index(p.relations@, name) is Some,
    ensures
        rel_index(db, name) == Some(pos(p, name)),
        0 <= pos(p, name) < db.len(),
        db[pos(p, name)].name == name,
{
    lemma_db_index(p, db, name);
    lemma_pos(p, name);
}

/// A set relation that keeps its tuples still absorbs what it absorbed.
proof fn lemma_set_absorbs(a: Seq<RelView>, b: Seq<RelView>, name: Seq<char>)
    requires
        same_shape(a, b),
        grows(a, b),
        rel_index(a, name) matches Some(i) && a[i].kind is Relation,
    ensures
        absorbs_same(a, b, name),
{
    lemma_same_shape_index(a, b, name);
    lemma_rel_index(a, name);
    let i = rel_index(a, name).unwrap();
    assert forall|t: Seq<Value>| db_absorbed(a, name, t) implies #[trigger] db_absorbed(b, name, t) by {
        assert(a[i].rows.contains(t));
        assert(crate::store::kept(a[i], b[i], t));
        assert(b[i].kind == a[i].kind);
        assert(b[i].schema == a[i].schema);
    }
}

/// A rule below stratum `g` keeps holding while only relations of stratum
/// `g` or above change: it reads none of them, and those of its heads it
/// writes there are set relations, which keep their tuples.
proof fn lemma_rule_stable<E: ExprEval>(p: Program, st: Seq<int>, r: int, a: Seq<RelView>, b: Seq<RelView>, g: int)
    requires
        program_valid(p),
        respects(p, st),
        spanning_heads_are_sets(p, st),
        0 <= r < p.rules@.len(),
        p.rules@[r].heads@.len() >= 1,
        db_of_program(p, a),
        changed_only_in(p, st, a, b, g),
        grows(a, b),
        rule_stratum(p, st, p.rules@[r]) < g,
        rule_holds::<E>(p.rules@[r], a),
    ensures
        rule_holds::<E>(p.rules@[r], b),
{
    let rule = p.rules@[r];
    let heads = rule.heads@;
    let g0 = rule_stratum(p, st, rule);
    assert forall|c: int| 0 <= c < rule.body@.len() implies clause_rows_agree(#[trigger] rule.body@[c], a, b) by {
        assert(body_valid(p.relations@, p.rules@[r].body@));
        assert(clause_valid(p.relations@, rule.body@[c]));
        let n: Seq<char> = match rule.body@[c] {
            BodyClause::Positive(x) => x.relation@,
            BodyClause::Negative(x) => x.relation@,
            BodyClause::Aggregate(agg) => agg.source.relation@,
            _ => Seq::empty(),
        };
        lemma_same_shape_index(a, b, n);
        match rule.body@[c] {
            BodyClause::Condition(_) => {},
            BodyClause::Let { .. } => {},
            _ => {
                assert forall|h: int| 0 <= h < heads.len() implies st[pos(p, (#[trigger] heads[h]).relation@)] >= st[pos(p, n)] by {
                    assert(clause_ok(p, st, p.rules@[r].heads@[h], p.rules@[r].body@[c]));
                }
                lemma_heads_min_ge(p, st, heads, st[pos(p, n)]);
                lemma_resolve(p, a, n);
                assert(b[pos(p, n)] == a[pos(p, n)]);
            },
        }
    }
    assert forall|h: int| 0 <= h < heads.len() implies absorbs_same(a, b, (#[trigger] heads[h]).relation@) by {
        let name = heads[h].relation@;
        assert(head_valid(p.relations@, p.rules@[r].heads@[h]));
        lemma_resolve(p, a, name);
        lemma_same_shape_index(a, b, name);
        let i = pos(p, name);
        if st[i] < g {
            assert(b[i] == a[i]);
        } else {
            assert(p.relations@[i].kind is Relation);
            lemma_set_absorbs(a, b, name);
        }
    }
    lemma_rule_holds_frame::<E>(rule, a, b);
}

/// What one pass of `rule` does to `db`: the database it leaves and whether
/// it changed; `None` when the pass stops at a failure.
pub open spec fn rule_pass<E: ExprEval>(rule: Rule, db: Seq<RelView>) -> Option<(Seq<RelView>, bool)> {
    pass_spec::<E>(rule.heads@, rule.body@, 0, Map::empty(), db)
}

/// One bottom-up pass of rule `rule_idx` over the database. Returns whether
/// the database changed; when it did not, the rule holds in it.
pub fn eval_rule<E: ExprEval>(p: &Program, rule_idx: usize, db: &mut Database, ev: &mut E) -> (r: Result<bool, EvalError>)
    requires
        old(db).wf(),
        old(ev).inv(),
        rule_idx < p.rules@.len(),
    ensures
        final(db).wf(),
        final(ev).inv(),
        unchanged_except(old(db)@, final(db)@, p.rules@[rule_idx as int].heads@),
        r == Ok::<bool, EvalError>(false) ==> final(db)@ == old(db)@ && rule_holds::<E>(p.rules@[rule_idx as int], old(db)@),
        r matches Ok(c) ==> rule_pass::<E>(p.rules@[rule_idx as int], old(db)@) == Some((final(db)@, c)),
        E::exact() && rule_pass::<E>(p.rules@[rule_idx as int], old(db)@) is Some ==> r is Ok,
{
    let rule = &p.rules[rule_idx];
    let env: Env = Env::new();
    let r = solve(rule, 0, &env, db, ev);
    proof {
        if r == Ok::<bool, EvalError>(false) {
            reveal(rule_holds);
            let sup = Seq::<(Seq<char>, Seq<Value>)>::empty();
            assert(closed::<E>(rule.heads@, dfs::<E>(rule.body@, 0, env@, sup, old(db)@), old(db)@));
        }
    }
    r
}

/// The most passes a stratum may take before evaluation gives up.
pub const MAX_STRATUM_ITERATIONS: u32 = 1_000_000;

/// What a pass over the rules `group[k..]` does to `db`, with `changed`
/// telling whether an earlier rule of the pass changed it.
pub open spec fn group_pass<E: ExprEval>(p: Program, group: Seq<usize>, k: int, db: Seq<RelView>, changed: bool) -> Option<(Seq<RelView>, bool)>
    decreases group.len() - k,
{
    if k >= group.len() || k < 0 {
        Some((db, changed))
    } else {
        match rule_pass::<E>(p.rules@[group[k] as int], db) {
            None => None,
            Some((d, c)) => group_pass::<E>(p, group, k + 1, d, changed || c),
        }
    }
}

/// What running a stratum from `db` leaves, `it` changing passes having been
/// made: passes repeat until one changes nothing; `None` when a pass fails or
/// a changing pass comes after the last one allowed.
pub open spec fn stratum_spec<E: ExprEval>(p: Program, group: Seq<usize>, db: Seq<RelView>, it: int) -> Option<Seq<RelView>>
    decreases MAX_STRATUM_ITERATIONS - it,
{
    match group_pass::<E>(p, group, 0, db, false) {
        None => None,
        Some((d, c)) => if !c {
            Some(d)
        } else if it >= MAX_STRATUM_ITERATIONS {
            None
        } else {
            stratum_spec::<E>(p, group, d, it + 1)
        },
    }
}

/// Whether running a stratum from `db`, `it` changing passes having been
/// made, runs into the limit: every pass succeeds, and a pass still changes
/// the database after the last one allowed.
pub open spec fn stratum_limited<E: ExprEval>(p: Program, group: Seq<usize>, db: Seq<RelView>, it: int) -> bool
    decreases MAX_STRATUM_ITERATIONS - it,
{
    match group_pass::<E>(p, group, 0, db, false) {
        None => false,
        Some((d, c)) => c && (it >= MAX_STRATUM_ITERATIONS || stratum_limited::<E>(p, group, d, it + 1)),
    }
}

/// One pass over the rules of a stratum. Returns whether any rule changed the
/// database; when none did, every rule of the group holds in it.
fn run_pass<E: ExprEval>(p: &Program, group: &Vec<usize>, db: &mut Database, ev: &mut E, Ghost(st): Ghost<Seq<int>>, Ghost(g): Ghost<int>) -> (r: Result<bool, EvalError>)
    requires
        old(db).wf(),
        old(ev).inv(),
        forall|k: int| 0 <= k < group@.len() ==> (#[trigger] group@[k]) < p.rules@.len()
            && rule_stratum(*p, st, p.rules@[group@[k] as int]) == g,
    ensures
        final(db).wf(),
        final(ev).inv(),
        same_shape(old(db)@, final(db)@),
        grows(old(db)@, final(db)@),
        changed_only_in(*p, st, old(db)@, final(db)@, g),
        r == Ok::<bool, EvalError>(false) ==> final(db)@ == old(db)@
            && forall|k: int| 0 <= k < group@.len() ==> #[trigger] rule_holds::<E>(p.rules@[group@[k] as int], old(db)@),
        r matches Ok(c) ==> group_pass::<E>(*p, group@, 0, old(db)@, false) == Some((final(db)@, c)),
        E::exact() && group_pass::<E>(*p, group@, 0, old(db)@, false) is Some ==> r is Ok,
{
    let ghost d0 = db@;
    let mut changed = false;
    let mut k: usize = 0;
    proof {
        assert(changed_only_in(*p, st, d0, d0, g));
        lemma_grows_refl(d0);
    }
    while k < group.len()
        invariant
            db.wf(),
            ev.inv(),
            d0 == old(db)@,
            forall|x: int| 0 <= x < group@.len() ==> (#[trigger] group@[x]) < p.rules@.len()
                && rule_stratum(*p, st, p.rules@[group@[x] as int]) == g,
            k <= group.len(),
            same_shape(d0, db@),
            grows(d0, db@),
            changed_only_in(*p, st, d0, db@, g),
            group_pass::<E>(*p, group@, 0, d0, false) == group_pass::<E>(*p, group@, k as int, db@, changed),
            !changed ==> db@ == d0,
            !changed ==> forall|x: int| 0 <= x < k ==> #[trigger] rule_holds::<E>(p.rules@[group@[x] as int], d0),
        decreases group.len() - k,
    {
        let ri = group[k];
        let ghost before = db@;
        let c = match eval_rule(p, ri, db, ev) {
            Ok(c) => c,
            Err(e) => {
                proof {
                    lemma_grows_trans(d0, before, db@);
                    lemma_shape_trans(d0, before, db@);
                    lemma_write_stratum(*p, st, ri as int, before, db@);
                    lemma_changed_trans(*p, st, d0, before, db@, g);
                }
                return Err(e);
            },
        };
        proof {
            lemma_grows_trans(d0, before, db@);
            lemma_shape_trans(d0, before, db@);
            lemma_write_stratum(*p, st, ri as int, before, db@);
            lemma_changed_trans(*p, st, d0, before, db@, g);
        }
        if c {
            changed = true;
        }
        k += 1;
    }
    Ok(changed)
}

/// Runs the rules of one stratum until a whole pass changes nothing, giving
/// up after [`MAX_STRATUM_ITERATIONS`] changing passes.
fn run_stratum<E: ExprEval>(p: &Program, group: &Vec<usize>, db: &mut Database, ev: &mut E, Ghost(st): Ghost<Seq<int>>, Ghost(g): Ghost<int>) -> (r: Result<(), EvalError>)
    requires
        old(db).wf(),
        old(ev).inv(),
        forall|k: int| 0 <= k < group@.len() ==> (#[trigger] group@[k]) < p.rules@.len()
            && rule_stratum(*p, st, p.rules@[group@[k] as int]) == g,
    ensures
        final(db).wf(),
        final(ev).inv(),
        same_shape(old(db)@, final(db)@),
        grows(old(db)@, final(db)@),
        changed_only_in(*p, st, old(db)@, final(db)@, g),
        r is Ok ==> forall|k: int| 0 <= k < group@.len() ==> #[trigger] rule_holds::<E>(p.rules@[group@[k] as int], final(db)@),
        r is Ok ==> stratum_spec::<E>(*p, group@, old(db)@, 0) == Some(final(db)@),
        E::exact() && stratum_spec::<E>(*p, group@, old(db)@, 0) is Some ==> r is Ok,
        E::exact() && stratum_limited::<E>(*p, group@, old(db)@, 0) ==> r == Err::<(), EvalError>(EvalError::IterationLimit),
{
    let ghost d0 = db@;
    let mut iterations: u32 = 0;
    proof {
        assert(changed_only_in(*p, st, d0, d0, g));
        lemma_grows_refl(d0);
    }
    loop
        invariant
            db.wf(),
            ev.inv(),
            d0 == old(db)@,
            forall|k: int| 0 <= k < group@.len() ==> (#[trigger] group@[k]) < p.rules@.len()
                && rule_stratum(*p, st, p.rules@[group@[k] as int]) == g,
            iterations <= MAX_STRATUM_ITERATIONS,
            same_shape(d0, db@),
            grows(d0, db@),
            changed_only_in(*p, st, d0, db@, g),
            stratum_spec::<E>(*p, group@, d0, 0) == stratum_spec::<E>(*p, group@, db@, iterations as int),
            stratum_limited::<E>(*p, group@, d0, 0) == stratum_limited::<E>(*p, group@, db@, iterations as int),
        decreases MAX_STRATUM_ITERATIONS - iterations,
    {
        let ghost before = db@;
        let c = match run_pass(p, group, db, ev, Ghost(st), Ghost(g)) {
            Ok(c) => c,
            Err(e) => {
                proof { lemma_grows_trans(d0, before, db@); lemma_shape_trans(d0, before, db@); }
                proof { lemma_changed_trans(*p, st, d0, before, db@, g); }
                return Err(e);
            },
        };
        proof { lemma_grows_trans(d0, before, db@); lemma_shape_trans(d0, before, db@); }
        proof { lemma_changed_trans(*p, st, d0, before, db@, g); }
        if !c {
            return Ok(());
        }
        if iterations >= MAX_STRATUM_ITERATIONS {
            return Err(EvalError::IterationLimit);
        }
        iterations += 1;
    }
}

/// Having the same shape is transitive.
pub proof fn lemma_shape_trans(a: Seq<RelView>, b: Seq<RelView>, c: Seq<RelView>)
    requires
        same_shape(a, b),
        same_shape(b, c),
    ensures
        same_shape(a, c),
{
    assert forall|i: int| 0 <= i < a.len() implies #[trigger] a[i].name == c[i].name
        && a[i].kind == c[i].kind && a[i].schema == c[i].schema by {
        assert(a[i].name =~= b[i].name);
        assert(b[i].name =~= c[i].name);
        assert(a[i].schema =~= b[i].schema);
        assert(b[i].schema =~= c[i].schema);
    }
    assert(a.len() == c.len());
}

/// What running the groups `groups[g..]` in turn does to `db`, each to its
/// fixed point ([`stratum_spec`]); `None` when one of them fails.
pub open spec fn groups_run<E: ExprEval>(p: Program, groups: Seq<Seq<usize>>, g: int, db: Seq<RelView>) -> Option<Seq<RelView>>
    decreases groups.len() - g,
{
    if g >= groups.len() || g < 0 {
        Some(db)
    } else {
        match stratum_spec::<E>(p, groups[g], db, 0) {
            None => None,
            Some(d) => groups_run::<E>(p, groups, g + 1, d),
        }
    }
}

/// What running `p` over `db` leaves: the rule groups of its least
/// stratification run in order, each to its fixed point; `None` when the
/// program is invalid or cannot be stratified, or when a stratum fails.
pub open spec fn run_spec<E: ExprEval>(p: Program, db: Seq<RelView>) -> Option<Seq<RelView>> {
    if !program_valid(p) {
        None
    } else {
        match least_strata(p) {
            None => None,
            Some(st) => groups_run::<E>(p, strata_groups(p, st), 0, db),
        }
    }
}

/// Whether running the groups `groups[g..]` in turn from `db` runs into the
/// iteration limit: the groups before succeed, and then one's stratum does.
pub open spec fn groups_limited<E: ExprEval>(p: Program, groups: Seq<Seq<usize>>, g: int, db: Seq<RelView>) -> bool
    decreases groups.len() - g,
{
    if g >= groups.len() || g < 0 {
        false
    } else {
        match stratum_spec::<E>(p, groups[g], db, 0) {
            None => stratum_limited::<E>(p, groups[g], db, 0),
            Some(d) => groups_limited::<E>(p, groups, g + 1, d),
        }
    }
}

/// A pass over a group of rules that all hold changes nothing.
pub proof fn lemma_group_idle<E: ExprEval>(p: Program, group: Seq<usize>, k: int, db: Seq<RelView>)
    requires
        0 <= k,
        forall|x: int| 0 <= x < group.len() ==> (#[trigger] group[x]) < p.rules@.len(),
        forall|x: int| 0 <= x < p.rules@.len() ==> #[trigger] rule_holds::<E>(p.rules@[x], db),
    ensures
        group_pass::<E>(p, group, k, db, false) == Some((db, false)),
    decreases group.len() - k,
{
    if k < group.len() {
        let rule = p.rules@[group[k] as int];
        assert(rule_holds::<E>(p.rules@[group[k] as int], db));
        reveal(rule_holds);
        crate::solve::lemma_pass_idle::<E>(rule.heads@, rule.body@, 0, Map::empty(), Seq::empty(), db);
        lemma_group_idle::<E>(p, group, k + 1, db);
    }
}

/// Running groups whose rules all hold changes nothing.
pub proof fn lemma_groups_idle<E: ExprEval>(p: Program, groups: Seq<Seq<usize>>, g: int, db: Seq<RelView>)
    requires
        0 <= g,
        forall|x: int, y: int| 0 <= x < groups.len() && 0 <= y < groups[x].len() ==> (#[trigger] groups[x][y]) < p.rules@.len(),
        forall|x: int| 0 <= x < p.rules@.len() ==> #[trigger] rule_holds::<E>(p.rules@[x], db),
    ensures
        groups_run::<E>(p, groups, g, db) == Some(db),
    decreases groups.len() - g,
{
    if g < groups.len() {
        lemma_group_idle::<E>(p, groups[g], 0, db);
        assert(stratum_spec::<E>(p, groups[g], db, 0) == Some(db));
        lemma_groups_idle::<E>(p, groups, g + 1, db);
    }
}

/// Runs `program` to a fixed point over `db`, stratum by stratum, using `ev`
/// for expressions.
///
/// On success the result is [`run_spec`]. Provided further that the database
/// was built for the program, every rule has a head, and a head above its
/// rule's stratum is a set relation, every rule holds in the resulting
/// database and running again changes nothing: the evaluation reached a
/// fixed point. When no rule positively reads a lattice of its own stratum,
/// each stratum is moreover least ([`least_at`]): the stratified model.
pub fn run<E: ExprEval>(p: &Program, db: &mut Database, ev: &mut E) -> (r: Result<(), EvalError>)
    requires
        old(db).wf(),
        old(ev).inv(),
    ensures
        final(db).wf(),
        final(ev).inv(),
        same_shape(old(db)@, final(db)@),
        grows(old(db)@, final(db)@),
        !program_valid(*p) ==> (r matches Err(e) && (e is UnknownRelation || e is Arity) && final(db)@ == old(db)@),
        (program_valid(*p) && least_strata(*p) is None) ==> (r matches Err(e) && e is Stratification && final(db)@ == old(db)@),
        (r is Ok && fixpoint_conditions(*p, old(db)@)) ==>
            forall|k: int| 0 <= k < p.rules@.len() ==> #[trigger] rule_holds::<E>(p.rules@[k], final(db)@),
        (r is Ok && fixpoint_conditions(*p, old(db)@)) ==> run_spec::<E>(*p, final(db)@) == Some(final(db)@),
        (r is Ok && least_conditions(*p, old(db)@)) ==> forall|g: int| 0 <= g < strata_groups(*p, least_strata(*p).unwrap()).len()
            ==> #[trigger] least_at::<E>(*p, least_strata(*p).unwrap(), g, old(db)@, final(db)@),
        r is Ok ==> run_spec::<E>(*p, old(db)@) == Some(final(db)@),
        E::exact() && run_spec::<E>(*p, old(db)@) is Some ==> r is Ok,
        (E::exact() && program_valid(*p) && least_strata(*p) is Some
            && groups_limited::<E>(*p, strata_groups(*p, least_strata(*p).unwrap()), 0, old(db)@))
            ==> r == Err::<(), EvalError>(EvalError::IterationLimit),
{
    let ghost d0 = db@;
    proof { lemma_grows_refl(d0); }
    let groups = stratify(p)?;
    let ghost st = least_strata(*p).unwrap();
    let ghost cond = fixpoint_conditions(*p, d0);
    let ghost lcond = least_conditions(*p, d0);
    proof { lemma_state_start::<E>(*p, st, d0); }
    let n_rules = p.rules.len();
    proof { lemma_shape_trans(d0, d0, d0); }
    let mut g: usize = 0;
    while g < groups.len()
        invariant
            db.wf(),
            ev.inv(),
            program_valid(*p),
            least_strata(*p) == Some(st),
            is_least_strata(*p, st),
            groups_ok(*p, st, groups@),
            g <= groups.len(),
            d0 == old(db)@,
            n_rules == p.rules@.len(),
            same_shape(d0, db@),
            grows(d0, db@),
            cond == fixpoint_conditions(*p, d0),
            groups@.map_values(|v: Vec<usize>| v@) == strata_groups(*p, st),
            run_spec::<E>(*p, d0) == groups_run::<E>(*p, strata_groups(*p, st), g as int, db@),
            groups_limited::<E>(*p, strata_groups(*p, st), 0, d0) == groups_limited::<E>(*p, strata_groups(*p, st), g as int, db@),
            cond ==> forall|k: int| 0 <= k < p.rules@.len() && rule_stratum(*p, st, p.rules@[k]) < g
                ==> #[trigger] rule_holds::<E>(p.rules@[k], db@),
            lcond == least_conditions(*p, d0),
            state_at::<E>(*p, st, g as int, d0) == Some(db@),
            lcond ==> forall|g2: int| 0 <= g2 < g ==> #[trigger] least_at::<E>(*p, st, g2, d0, db@),
        decreases groups.len() - g,
    {
        let ghost dg = db@;
        let group = &groups[g];
        proof {
            assert forall|k: int| 0 <= k < group@.len() implies (#[trigger] group@[k]) < p.rules@.len()
                && rule_stratum(*p, st, p.rules@[group@[k] as int]) == g by {
                assert(groups@[g as int]@[k] == group@[k]);
            }
        }
        let res = run_stratum(p, group, db, ev, Ghost(st), Ghost(g as int));
        proof {
            lemma_grows_trans(d0, dg, db@);
            lemma_shape_trans(d0, dg, db@);
            assert(groups@.map_values(|v: Vec<usize>| v@)[g as int] == group@);
        }
        match res {
            Ok(()) => {},
            Err(e) => {
                return Err(e);
            },
        }
        proof {
            if cond {
                assert(p.rules@.len() == n_rules);
                lemma_program_shape(*p, d0, dg);
                assert(spanning_heads_are_sets(*p, st));
                lemma_stratum_done::<E>(*p, st, groups@, g as int, dg, db@);
            }
            lemma_state_step::<E>(*p, st, g as int, d0, dg, db@);
            if lcond {
                lemma_program_shape(*p, d0, dg);
                let gs = strata_groups(*p, st);
                assert forall|x: int| 0 <= x < gs[g as int].len() implies (#[trigger] gs[g as int][x]) < p.rules@.len()
                    && p.rules@[gs[g as int][x] as int].heads@.len() >= 1
                    && rule_stratum(*p, st, p.rules@[gs[g as int][x] as int]) == g by {
                    assert(groups@.map_values(|v: Vec<usize>| v@)[g as int] == groups@[g as int]@);
                    assert(groups@[g as int]@[x] < p.rules@.len());
                }
                lemma_least_advance::<E>(*p, st, g as int, d0, dg, db@);
            }
        }
        g += 1;
    }
    proof {
        if cond {
            assert forall|k: int| 0 <= k < p.rules@.len() implies #[trigger] rule_holds::<E>(p.rules@[k], db@) by {
                assert(0 <= rule_stratum(*p, st, p.rules@[k]) < groups@.len());
            }
            let gs = strata_groups(*p, st);
            assert forall|x: int, y: int| 0 <= x < gs.len() && 0 <= y < gs[x].len() implies (#[trigger] gs[x][y]) < p.rules@.len() by {
                assert(groups@.map_values(|v: Vec<usize>| v@)[x] == groups@[x]@);
                assert(groups@[x]@[y] < p.rules@.len());
            }
            lemma_groups_idle::<E>(*p, gs, 0, db@);
        }
    }
    assert(groups_run::<E>(*p, strata_groups(*p, st), g as int, db@) == Some(db@));
    Ok(())
}

/// A database of the same shape as one built for `p` is built for `p`.
pub proof fn lemma_program_shape(p: Program, a: Seq<RelView>, b: Seq<RelView>)
    requires
        db_of_program(p, a),
        same_shape(a, b),
    ensures
        db_of_program(p, b),
{
    assert(a.len() == b.len());
    assert forall|i: int| 0 <= i < b.len() implies #[trigger] b[i].name == p.relations@[i].name@
        && b[i].kind == p.relations@[i].kind && b[i].schema == p.relations@[i].schema@ by {
        assert(a[i].name =~= b[i].name);
        assert(a[i].schema =~= b[i].schema);
        assert(a[i].name =~= p.relations@[i].name@);
        assert(a[i].schema =~= p.relations@[i].schema@);
    }
}

/// After stratum `g` is run, a rule of stratum at most `g` holds.
proof fn lemma_rule_done<E: ExprEval>(p: Program, st: Seq<int>, group: Seq<usize>, g: int, dg: Seq<RelView>, dn: Seq<RelView>, x: int)
    requires
        program_valid(p),
        respects(p, st),
        spanning_heads_are_sets(p, st),
        db_of_program(p, dg),
        grows(dg, dn),
        0 <= x < p.rules@.len(),
        p.rules@.len() <= usize::MAX,
        p.rules@[x].heads@.len() >= 1,
        rule_stratum(p, st, p.rules@[x]) <= g,
        rule_stratum(p, st, p.rules@[x]) == g ==> group.contains(x as usize),
        changed_only_in(p, st, dg, dn, g),
        rule_stratum(p, st, p.rules@[x]) < g ==> rule_holds::<E>(p.rules@[x], dg),
        forall|k: int| 0 <= k < group.len() ==> #[trigger] rule_holds::<E>(p.rules@[group[k] as int], dn),
    ensures
        rule_holds::<E>(p.rules@[x], dn),
{
    if rule_stratum(p, st, p.rules@[x]) < g {
        lemma_rule_stable::<E>(p, st, x, dg, dn, g);
    } else {
        let w = choose|w: int| 0 <= w < group.len() && group[w] == x as usize;
        assert(rule_holds::<E>(p.rules@[group[w] as int], dn));
    }
}

/// After stratum `g` is run, every rule of stratum at most `g` holds.
proof fn lemma_stratum_done<E: ExprEval>(p: Program, st: Seq<int>, groups: Seq<Vec<usize>>, g: int, dg: Seq<RelView>, dn: Seq<RelView>)
    requires
        program_valid(p),
        respects(p, st),
        spanning_heads_are_sets(p, st),
        groups_ok(p, st, groups),
        db_of_program(p, dg),
        grows(dg, dn),
        forall|r: int| 0 <= r < p.rules@.len() ==> (#[trigger] p.rules@[r]).heads@.len() >= 1,
        p.rules@.len() <= usize::MAX,
        0 <= g < groups.len(),
        changed_only_in(p, st, dg, dn, g),
        forall|k: int| 0 <= k < p.rules@.len() && rule_stratum(p, st, p.rules@[k]) < g
            ==> #[trigger] rule_holds::<E>(p.rules@[k], dg),
        forall|k: int| 0 <= k < groups[g]@.len() ==> #[trigger] rule_holds::<E>(p.rules@[groups[g]@[k] as int], dn),
    ensures
        forall|k: int| 0 <= k < p.rules@.len() && rule_stratum(p, st, p.rules@[k]) < g + 1
            ==> #[trigger] rule_holds::<E>(p.rules@[k], dn),
{
    let group = groups[g]@;
    assert forall|x: int| 0 <= x < p.rules@.len() && rule_stratum(p, st, p.rules@[x]) < g + 1
        implies #[trigger] rule_holds::<E>(p.rules@[x], dn) by {
        assert(p.rules@[x].heads@.len() >= 1);
        assert(rule_stratum(p, st, p.rules@[x]) == g ==> group.contains(x as usize));
        lemma_rule_done::<E>(p, st, group, g, dg, dn, x);
    }
}

/// Inserting a fact keeps the database built for the program.
pub proof fn lemma_insert_keeps_program(p: Program, d: Seq<RelView>, name: Seq<char>, t: Seq<Value>, typed: bool)
    requires
        db_of_program(p, d),
    ensures
        db_of_program(p, crate::store::insert_effect(d, name, t, typed)),
{
    let d2 = crate::store::insert_effect(d, name, t, typed);
    match crate::store::insert_outcome(d, name, t, typed) {
        crate::store::InsertOutcome::Inserted(_) => {
            crate::store::lemma_outcome_inserted(d, name, t, typed);
            let i = rel_index(d, name).unwrap();
            assert forall|k: int| 0 <= k < d2.len() implies #[trigger] d2[k].name == p.relations@[k].name@
                && d2[k].kind == p.relations@[k].kind && d2[k].schema == p.relations@[k].schema@ by {
                assert(d[k].name == p.relations@[k].name@);
            }
        },
        _ => {},
    }
}

/// Every database has its own shape.
pub proof fn lemma_shape_refl(a: Seq<RelView>)
    ensures
        same_shape(a, a),
{
}

/// Inserting a fact keeps the database's shape.
pub proof fn lemma_insert_shape(d: Seq<RelView>, name: Seq<char>, t: Seq<Value>, typed: bool)
    ensures
        same_shape(d, crate::store::insert_effect(d, name, t, typed)),
{
    let d2 = crate::store::insert_effect(d, name, t, typed);
    match crate::store::insert_outcome(d, name, t, typed) {
        crate::store::InsertOutcome::Inserted(_) => {
            crate::store::lemma_outcome_inserted(d, name, t, typed);
            assert forall|k: int| 0 <= k < d.len() implies #[trigger] d[k].name == d2[k].name
                && d[k].kind == d2[k].kind && d[k].schema == d2[k].schema by {}
        },
        _ => {},
    }
}

/// A declared relation's rows are present in a database built for the program.
pub proof fn lemma_declared_rows(p: Program, d: Seq<RelView>, name: Seq<char>, i: int)
    requires
        db_of_program(p, d),
        0 <= i < p.relations@.len(),
        p.relations@[i].name@ == name,
    ensures
        rows_of(d, name) is Some,
{
    lemma_db_index(p, d, name);
    crate::ir::lemma_decl_index(p.relations@, name);
}

/// The stored rows of a relation hold no duplicates.
pub proof fn lemma_rows_nodup(d: Seq<RelView>, name: Seq<char>)
    requires
        crate::store::db_wf(d),
        rows_of(d, name) is Some,
    ensures
        rows_of(d, name).unwrap().no_duplicates(),
{
    lemma_rel_index(d, name);
    let i = rel_index(d, name).unwrap();
    assert(crate::store::rel_wf(d[i]));
}

} // verus!
