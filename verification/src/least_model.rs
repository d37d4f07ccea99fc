//! The least-model property of a stratum: what a stratum's fixed-point
//! iteration derives lies below every database that agrees with it on the
//! lower strata and satisfies the stratum's rules.

use vstd::prelude::*;

use crate::eval::ExprEval;
use crate::ir::{decl_index, join_spec, BodyClause, HeadAtom, LatticeKind, Program, RelationKind};
use crate::run::{db_of_program, group_pass, lemma_insert_keeps_program, lemma_resolve, rule_pass, stratum_spec, MAX_STRATUM_ITERATIONS};
use crate::groups::strata_groups;
use crate::strata::{
    least_strata, body_valid, clause_ok, clause_valid, head_valid, is_least_strata, lemma_heads_min_ge, lemma_heads_min_le, program_valid,
    respects, rule_stratum,
};
use crate::eval::{agg_spec, any_match_spec, dfs, dfs_row, dfs_rows, unify_spec};
use crate::env::bindings_map;
use crate::solve::{closed, fire_spec, head_tuple, heads_hold, pass_rows, pass_spec, rule_holds};
use crate::strata::pos;
use crate::store::{
    absorbed, db_absorbed, rows_of, db_insert, db_wf, has_key, insert_outcome, insert_spec, key_slot, lemma_rel_index, rel_index, rel_wf,
    same_key, same_shape, with_rows, InsertOutcome, RelView,
};
use crate::value::{Symbol, Value};

verus! {

/// Relation `b` absorbs every row of relation `a`.
pub open spec fn rel_below(a: RelView, b: RelView) -> bool {
    forall|t: Seq<Value>| #[trigger] a.rows.contains(t) ==> absorbed(b, t)
}

/// `a` lies below `b`: the same relations, and `b` absorbs every row of `a`
/// (a superset for a set relation; a value at least as high in the lattice
/// for a lattice key).
pub open spec fn db_below(a: Seq<RelView>, b: Seq<RelView>) -> bool {
    &&& same_shape(a, b)
    &&& forall|i: int| 0 <= i < a.len() ==> rel_below(#[trigger] a[i], b[i])
}

/// A value the join already absorbs twice absorbs their join.
proof fn lemma_join_below(k: LatticeKind, mv: Value, dv: Value, tv: Value)
    requires
        join_spec(k, mv, dv) == mv,
        join_spec(k, mv, tv) == mv,
    ensures
        join_spec(k, mv, join_spec(k, dv, tv)) == mv,
{
}

/// In a well-formed lattice relation, every row with the key of `t` is the
/// one `key_slot` picks.
proof fn lemma_slot_unique(r: RelView, t: Seq<Value>, i: int)
    requires
        rel_wf(r),
        r.kind is Lattice,
        0 <= i < r.rows.len(),
        same_key(r.rows[i], t),
    ensures
        key_slot(r.rows, t) == i,
{
    let q = key_slot(r.rows, t);
    assert(0 <= q < r.rows.len() && same_key(r.rows[q], t));
    if q != i {
        assert(same_key(r.rows[q], r.rows[i]));
    }
}

/// Inserting a tuple that `m` absorbs into a relation below `m` keeps it
/// below `m`.
proof fn lemma_insert_below(d: RelView, m: RelView, t: Seq<Value>)
    requires
        rel_wf(m),
        d.kind == m.kind,
        rel_below(d, m),
        absorbed(m, t),
    ensures
        rel_below(with_rows(d, insert_spec(d, t).0), m),
{
    let rows = insert_spec(d, t).0;
    match d.kind {
        RelationKind::Relation => {
            assert forall|u: Seq<Value>| #[trigger] rows.contains(u) implies absorbed(m, u) by {
                if !d.rows.contains(t) {
                    let w = choose|w: int| 0 <= w < rows.len() && rows[w] == u;
                    if w < d.rows.len() {
                        assert(d.rows[w] == u);
                        assert(d.rows.contains(u));
                    }
                }
            }
        },
        RelationKind::Lattice(k) => {
            assert(has_key(m.rows, t));
            let q = key_slot(m.rows, t);
            assert forall|u: Seq<Value>| #[trigger] rows.contains(u) implies absorbed(m, u) by {
                let w = choose|w: int| 0 <= w < rows.len() && rows[w] == u;
                if has_key(d.rows, t) {
                    let s = key_slot(d.rows, t);
                    let old_v = d.rows[s].last();
                    let joined = join_spec(k, old_v, t.last());
                    if joined != old_v && w == s {
                        let nr = t.drop_last().push(joined);
                        assert(u == nr);
                        assert(nr.drop_last() =~= t.drop_last());
                        assert(same_key(m.rows[q], nr));
                        assert(has_key(m.rows, nr));
                        lemma_slot_unique(m, nr, q);
                        assert(d.rows.contains(d.rows[s]));
                        assert(absorbed(m, d.rows[s]));
                        assert(same_key(m.rows[q], d.rows[s]));
                        assert(has_key(m.rows, d.rows[s]));
                        lemma_slot_unique(m, d.rows[s], q);
                        lemma_join_below(k, m.rows[q].last(), old_v, t.last());
                    } else {
                        assert(rows[w] == d.rows[w]);
                        assert(d.rows.contains(u));
                    }
                } else {
                    if w < d.rows.len() {
                        assert(d.rows[w] == u);
                        assert(d.rows.contains(u));
                    }
                }
            }
        },
    }
}

/// Inserting into a database below `m` a tuple that `m` absorbs keeps it
/// below `m`.
pub proof fn lemma_db_insert_below(d: Seq<RelView>, m: Seq<RelView>, name: Seq<char>, t: Seq<Value>)
    requires
        db_wf(m),
        db_below(d, m),
        db_absorbed(m, name, t),
    ensures
        db_below(db_insert(d, name, t), m),
{
    crate::store::lemma_same_shape_index(d, m, name);
    lemma_rel_index(d, name);
    let i = rel_index(d, name).unwrap();
    let d2 = db_insert(d, name, t);
    assert(rel_wf(m[i]));
    lemma_insert_below(d[i], m[i], t);
    assert forall|x: int| 0 <= x < d2.len() implies rel_below(#[trigger] d2[x], m[x]) by {
        if x != i {
            assert(d2[x] == d[x]);
        }
    }
    assert(same_shape(d2, m)) by {
        assert forall|x: int| 0 <= x < d2.len() implies #[trigger] d2[x].name == m[x].name
            && d2[x].kind == m[x].kind && d2[x].schema == m[x].schema by {
            assert(d[x].name == m[x].name);
        }
    }
}

/// `a` and `b` agree on every relation of a stratum below `g`.
#[verifier::opaque]
pub open spec fn agree_below(p: Program, st: Seq<int>, a: Seq<RelView>, b: Seq<RelView>, g: int) -> bool {
    forall|i: int| 0 <= i < a.len() && st[pos(p, a[i].name)] < g ==> #[trigger] a[i] == b[i]
}

/// Every head names a declared relation of stratum `g` or above.
#[verifier::opaque]
pub open spec fn heads_fit(p: Program, st: Seq<int>, heads: Seq<HeadAtom>, g: int) -> bool {
    forall|h: int| 0 <= h < heads.len() ==> decl_index(p.relations@, (#[trigger] heads[h]).relation@) is Some
        && st[pos(p, heads[h].relation@)] >= g
}

/// Firing heads whose tuples `m` absorbs, into a database below `m` that
/// agrees with it below stratum `g`, keeps both.
pub proof fn lemma_fire_below<E: ExprEval>(p: Program, st: Seq<int>, g: int, heads: Seq<HeadAtom>, env: Map<Symbol, Value>, d: Seq<RelView>, m: Seq<RelView>)
    requires
        db_of_program(p, d),
        db_wf(m),
        db_below(d, m),
        agree_below(p, st, d, m, g),
        heads_fit(p, st, heads, g),
        heads_hold::<E>(heads, env, m),
        fire_spec::<E>(heads, env, d) is Some,
    ensures
        db_below(fire_spec::<E>(heads, env, d).unwrap().0, m),
        agree_below(p, st, fire_spec::<E>(heads, env, d).unwrap().0, m, g),
        db_of_program(p, fire_spec::<E>(heads, env, d).unwrap().0),
    decreases heads.len(),
{
    reveal(heads_fit);
    reveal(agree_below);
    if heads.len() > 0 {
        let init = heads.drop_last();
        assert forall|h: int| 0 <= h < init.len() implies decl_index(p.relations@, (#[trigger] init[h]).relation@) is Some
            && st[pos(p, init[h].relation@)] >= g by {
            assert(init[h] == heads[h]);
        }
        assert forall|h: int| 0 <= h < init.len() implies match head_tuple::<E>((#[trigger] init[h]).args@, env) {
            Some(t) => crate::store::db_absorbed(m, init[h].relation@, t),
            None => false,
        } by {
            assert(init[h] == heads[h]);
        }
        lemma_fire_below::<E>(p, st, g, init, env, d, m);
        let d1 = fire_spec::<E>(init, env, d).unwrap().0;
        let last = heads[heads.len() - 1];
        assert(last == heads.last());
        let name = last.relation@;
        let t = head_tuple::<E>(last.args@, env).unwrap();
        assert(db_absorbed(m, name, t));
        assert(insert_outcome(d1, name, t, false) is Inserted);
        let d2 = db_insert(d1, name, t);
        assert(fire_spec::<E>(heads, env, d).unwrap().0 == d2);
        lemma_db_insert_below(d1, m, name, t);
        lemma_insert_keeps_program(p, d1, name, t, false);
        lemma_resolve(p, d1, name);
        let i = pos(p, name);
        assert(st[i] >= g);
        assert forall|x: int| 0 <= x < d2.len() && st[pos(p, d2[x].name)] < g implies #[trigger] d2[x] == m[x] by {
            if x == i {
                assert(d1[i].name == name);
                assert(d2[x].name == d1[x].name);
            } else {
                assert(d2[x] == d1[x]);
            }
        }
    }
}

/// Every clause of `body` reads a declared relation of a stratum no higher
/// than `g`, strictly lower when negated or aggregated, and a positive atom
/// of stratum `g` itself reads a set relation.
#[verifier::opaque]
pub open spec fn body_fits(p: Program, st: Seq<int>, body: Seq<BodyClause>, g: int) -> bool {
    forall|c: int| 0 <= c < body.len() ==> match #[trigger] body[c] {
        BodyClause::Positive(a) => decl_index(p.relations@, a.relation@) is Some && st[pos(p, a.relation@)] <= g
            && (st[pos(p, a.relation@)] == g ==> p.relations@[pos(p, a.relation@)].kind is Relation),
        BodyClause::Negative(a) => decl_index(p.relations@, a.relation@) is Some && st[pos(p, a.relation@)] < g,
        BodyClause::Aggregate(agg) => decl_index(p.relations@, agg.source.relation@) is Some
            && st[pos(p, agg.source.relation@)] < g,
        _ => true,
    }
}

/// What `body_fits` says of clause `idx`.
proof fn lemma_body_fits_at(p: Program, st: Seq<int>, body: Seq<BodyClause>, g: int, idx: int)
    requires
        body_fits(p, st, body, g),
        0 <= idx < body.len(),
    ensures
        match body[idx] {
            BodyClause::Positive(a) => decl_index(p.relations@, a.relation@) is Some && st[pos(p, a.relation@)] <= g
                && (st[pos(p, a.relation@)] == g ==> p.relations@[pos(p, a.relation@)].kind is Relation),
            BodyClause::Negative(a) => decl_index(p.relations@, a.relation@) is Some && st[pos(p, a.relation@)] < g,
            BodyClause::Aggregate(agg) => decl_index(p.relations@, agg.source.relation@) is Some
                && st[pos(p, agg.source.relation@)] < g,
            _ => true,
        },
{
    reveal(body_fits);
}

/// A relation of a stratum below `g` reads the same rows in both databases.
proof fn lemma_rows_agree(p: Program, st: Seq<int>, g: int, d: Seq<RelView>, m: Seq<RelView>, name: Seq<char>)
    requires
        db_of_program(p, d),
        same_shape(d, m),
        agree_below(p, st, d, m, g),
        decl_index(p.relations@, name) is Some,
        st[pos(p, name)] < g,
    ensures
        rows_of(d, name) == rows_of(m, name),
{
    reveal(agree_below);
    lemma_resolve(p, d, name);
    crate::store::lemma_same_shape_index(d, m, name);
    let i = pos(p, name);
    assert(d[i] == m[i]);
}

/// A closed visit of candidate tuples is closed at each of them.
proof fn lemma_closed_row<E: ExprEval>(heads: Seq<HeadAtom>, body: Seq<BodyClause>, idx: int, rel: Seq<char>, args: Seq<crate::ir::Arg>, env: Map<Symbol, Value>, sup: Seq<(Seq<char>, Seq<Value>)>, m: Seq<RelView>, rows: Seq<Seq<Value>>, j: int, w: int)
    requires
        0 <= idx < body.len(),
        0 <= j <= w < rows.len(),
        closed::<E>(heads, dfs_rows::<E>(body, idx, rel, args, env, sup, m, rows, j), m),
    ensures
        closed::<E>(heads, dfs_row::<E>(body, idx, rel, args, env, sup, m, rows[w]), m),
    decreases w - j,
{
    let first = dfs_row::<E>(body, idx, rel, args, env, sup, m, rows[j]);
    let rest = dfs_rows::<E>(body, idx, rel, args, env, sup, m, rows, j + 1);
    let all = dfs_rows::<E>(body, idx, rel, args, env, sup, m, rows, j);
    assert(!first.failed);
    assert(all.sols == first.sols + rest.sols);
    if w == j {
        assert forall|k: int| 0 <= k < first.sols.len() implies heads_hold::<E>(heads, (#[trigger] first.sols[k]).env, m) by {
            assert(all.sols[k] == first.sols[k]);
        }
    } else {
        assert forall|k: int| 0 <= k < rest.sols.len() implies heads_hold::<E>(heads, (#[trigger] rest.sols[k]).env, m) by {
            assert(all.sols[k + first.sols.len()] == rest.sols[k]);
        }
        lemma_closed_row::<E>(heads, body, idx, rel, args, env, sup, m, rows, j + 1, w);
    }
}

/// A pass from clause `idx`, over a database below `m` that agrees with it
/// below stratum `g`, keeps both, when `m` closes the same visit.
pub proof fn lemma_pass_below<E: ExprEval>(p: Program, st: Seq<int>, g: int, heads: Seq<HeadAtom>, body: Seq<BodyClause>, idx: int, env: Map<Symbol, Value>, sup: Seq<(Seq<char>, Seq<Value>)>, d: Seq<RelView>, m: Seq<RelView>)
    requires
        db_of_program(p, d),
        db_wf(m),
        db_below(d, m),
        agree_below(p, st, d, m, g),
        heads_fit(p, st, heads, g),
        body_fits(p, st, body, g),
        closed::<E>(heads, dfs::<E>(body, idx, env, sup, m), m),
        pass_spec::<E>(heads, body, idx, env, d) is Some,
    ensures
        db_below(pass_spec::<E>(heads, body, idx, env, d).unwrap().0, m),
        agree_below(p, st, pass_spec::<E>(heads, body, idx, env, d).unwrap().0, m, g),
        db_of_program(p, pass_spec::<E>(heads, body, idx, env, d).unwrap().0),
    decreases body.len() - idx, 1int, 0int,
{
    if idx >= body.len() || idx < 0 {
        let dm = dfs::<E>(body, idx, env, sup, m);
        assert(dm.sols[0].env == env);
        lemma_fire_below::<E>(p, st, g, heads, env, d, m);
    } else {
        lemma_body_fits_at(p, st, body, g, idx);
        let cl = body[idx];
        match cl {
            BodyClause::Positive(a) => {
                lemma_atom_below::<E>(p, st, g, heads, body, idx, a, env, sup, d, m);
            },
            BodyClause::Negative(a) => {
                lemma_rows_agree(p, st, g, d, m, a.relation@);
                let rows = rows_of(d, a.relation@).unwrap();
                if !any_match_spec(a.args@, rows, env) {
                    lemma_pass_below::<E>(p, st, g, heads, body, idx + 1, env, sup, d, m);
                }
            },
            BodyClause::Condition(e) => {
                if E::value_of(e, env).unwrap() == Value::Bool(true) {
                    lemma_pass_below::<E>(p, st, g, heads, body, idx + 1, env, sup, d, m);
                }
            },
            BodyClause::Let { var, expr } => {
                let v = E::value_of(expr, env).unwrap();
                lemma_pass_below::<E>(p, st, g, heads, body, idx + 1, env.insert(var, v), sup, d, m);
            },
            BodyClause::Aggregate(agg) => {
                lemma_rows_agree(p, st, g, d, m, agg.source.relation@);
                assert(agg_spec::<E>(agg, env, d) == agg_spec::<E>(agg, env, m));
                match agg_spec::<E>(agg, env, d) {
                    Some(Some(r)) => {
                        lemma_pass_below::<E>(p, st, g, heads, body, idx + 1, env.insert(agg.output, r), sup, d, m);
                    },
                    _ => {},
                }
            },
        }
    }
}

/// The pass through a positive atom at clause `idx` keeps the database below
/// `m` and in agreement with it below stratum `g`.
#[verifier::spinoff_prover]
proof fn lemma_atom_below<E: ExprEval>(p: Program, st: Seq<int>, g: int, heads: Seq<HeadAtom>, body: Seq<BodyClause>, idx: int, a: crate::ir::Atom, env: Map<Symbol, Value>, sup: Seq<(Seq<char>, Seq<Value>)>, d: Seq<RelView>, m: Seq<RelView>)
    requires
        0 <= idx < body.len(),
        body[idx] == BodyClause::Positive(a),
        db_of_program(p, d),
        db_wf(m),
        db_below(d, m),
        agree_below(p, st, d, m, g),
        heads_fit(p, st, heads, g),
        body_fits(p, st, body, g),
        closed::<E>(heads, dfs::<E>(body, idx, env, sup, m), m),
        pass_spec::<E>(heads, body, idx, env, d) is Some,
    ensures
        db_below(pass_spec::<E>(heads, body, idx, env, d).unwrap().0, m),
        agree_below(p, st, pass_spec::<E>(heads, body, idx, env, d).unwrap().0, m, g),
        db_of_program(p, pass_spec::<E>(heads, body, idx, env, d).unwrap().0),
    decreases body.len() - idx, 0int, rows_of(d, a.relation@).unwrap().len() + 1,
{
    lemma_body_fits_at(p, st, body, g, idx);
    let rows = rows_of(d, a.relation@).unwrap();
    crate::store::lemma_same_shape_index(d, m, a.relation@);
    let rows_m = rows_of(m, a.relation@).unwrap();
    lemma_resolve(p, d, a.relation@);
    let i = pos(p, a.relation@);
    if st[i] < g {
        lemma_rows_agree(p, st, g, d, m, a.relation@);
    }
    assert forall|w: int| 0 <= w < rows.len() implies rows_m.contains(#[trigger] rows[w]) by {
        assert(rows[w] == d[i].rows[w]);
        if st[i] < g {
            assert(rows_m[w] == rows[w]);
        } else {
            assert(d[i].kind is Relation);
            assert(rel_below(d[i], m[i]));
            assert(d[i].rows.contains(rows[w]));
        }
    }
    lemma_rows_below::<E>(p, st, g, heads, body, idx, a.relation@, a.args@, env, sup, d, m, rows, rows_m, 0, false);
}

/// The pass over candidate tuples `rows[j..]`, each a row `m` holds, keeps
/// the database below `m` and in agreement with it below stratum `g`.
pub proof fn lemma_rows_below<E: ExprEval>(p: Program, st: Seq<int>, g: int, heads: Seq<HeadAtom>, body: Seq<BodyClause>, idx: int, rel: Seq<char>, args: Seq<crate::ir::Arg>, env: Map<Symbol, Value>, sup: Seq<(Seq<char>, Seq<Value>)>, d: Seq<RelView>, m: Seq<RelView>, rows: Seq<Seq<Value>>, rows_m: Seq<Seq<Value>>, j: int, c: bool)
    requires
        0 <= idx < body.len(),
        0 <= j,
        db_of_program(p, d),
        db_wf(m),
        db_below(d, m),
        agree_below(p, st, d, m, g),
        heads_fit(p, st, heads, g),
        body_fits(p, st, body, g),
        forall|w: int| 0 <= w < rows.len() ==> rows_m.contains(#[trigger] rows[w]),
        closed::<E>(heads, dfs_rows::<E>(body, idx, rel, args, env, sup, m, rows_m, 0), m),
        pass_rows::<E>(heads, body, idx, args, env, d, rows, j, c) is Some,
    ensures
        db_below(pass_rows::<E>(heads, body, idx, args, env, d, rows, j, c).unwrap().0, m),
        agree_below(p, st, pass_rows::<E>(heads, body, idx, args, env, d, rows, j, c).unwrap().0, m, g),
        db_of_program(p, pass_rows::<E>(heads, body, idx, args, env, d, rows, j, c).unwrap().0),
    decreases body.len() - idx, 0int, rows.len() - j,
{
    if j < rows.len() {
        match unify_spec(args, rows[j], env) {
            None => {
                lemma_rows_below::<E>(p, st, g, heads, body, idx, rel, args, env, sup, d, m, rows, rows_m, j + 1, c);
            },
            Some(b) => {
                let env2 = env.union_prefer_right(bindings_map(b));
                assert(rows_m.contains(rows[j]));
                let w = choose|w: int| 0 <= w < rows_m.len() && rows_m[w] == rows[j];
                lemma_closed_row::<E>(heads, body, idx, rel, args, env, sup, m, rows_m, 0, w);
                assert(dfs_row::<E>(body, idx, rel, args, env, sup, m, rows_m[w])
                    == dfs::<E>(body, idx + 1, env2, sup.push((rel, rows[j])), m));
                lemma_pass_below::<E>(p, st, g, heads, body, idx + 1, env2, sup.push((rel, rows[j])), d, m);
                let (d1, c1) = pass_spec::<E>(heads, body, idx + 1, env2, d).unwrap();
                lemma_rows_below::<E>(p, st, g, heads, body, idx, rel, args, env, sup, d1, m, rows, rows_m, j + 1, c || c1);
            },
        }
    }
}

/// A positive atom of a rule that reads a relation of the rule's own stratum
/// reads a set relation.
#[verifier::opaque]
pub open spec fn own_reads_are_sets(p: Program, st: Seq<int>) -> bool {
    forall|r: int, c: int| 0 <= r < p.rules@.len() && 0 <= c < p.rules@[r].body@.len() ==>
        match #[trigger] p.rules@[r].body@[c] {
            BodyClause::Positive(a) => st[pos(p, a.relation@)] == rule_stratum(p, st, p.rules@[r])
                ==> p.relations@[pos(p, a.relation@)].kind is Relation,
            _ => true,
        }
}

/// A rule of stratum `g` writes heads of stratum `g` or above and reads as
/// `body_fits` says.
proof fn lemma_rule_fits(p: Program, st: Seq<int>, r: int, g: int)
    requires
        program_valid(p),
        respects(p, st),
        own_reads_are_sets(p, st),
        0 <= r < p.rules@.len(),
        p.rules@[r].heads@.len() >= 1,
        rule_stratum(p, st, p.rules@[r]) == g,
    ensures
        heads_fit(p, st, p.rules@[r].heads@, g),
        body_fits(p, st, p.rules@[r].body@, g),
{
    let rule = p.rules@[r];
    let heads = rule.heads@;
    reveal(heads_fit);
    reveal(body_fits);
    reveal(own_reads_are_sets);
    lemma_heads_min_le(p, st, heads);
    assert forall|h: int| 0 <= h < heads.len() implies decl_index(p.relations@, (#[trigger] heads[h]).relation@) is Some
        && st[pos(p, heads[h].relation@)] >= g by {
        assert(head_valid(p.relations@, p.rules@[r].heads@[h]));
    }
    assert forall|c: int| 0 <= c < rule.body@.len() implies match #[trigger] rule.body@[c] {
        BodyClause::Positive(a) => decl_index(p.relations@, a.relation@) is Some && st[pos(p, a.relation@)] <= g
            && (st[pos(p, a.relation@)] == g ==> p.relations@[pos(p, a.relation@)].kind is Relation),
        BodyClause::Negative(a) => decl_index(p.relations@, a.relation@) is Some && st[pos(p, a.relation@)] < g,
        BodyClause::Aggregate(agg) => decl_index(p.relations@, agg.source.relation@) is Some
            && st[pos(p, agg.source.relation@)] < g,
        _ => true,
    } by {
        assert(body_valid(p.relations@, p.rules@[r].body@));
        assert(clause_valid(p.relations@, rule.body@[c]));
        let n: Seq<char> = match rule.body@[c] {
            BodyClause::Positive(x) => x.relation@,
            BodyClause::Negative(x) => x.relation@,
            BodyClause::Aggregate(agg) => agg.source.relation@,
            _ => Seq::empty(),
        };
        let gap: int = match rule.body@[c] {
            BodyClause::Positive(_) => 0,
            _ => 1,
        };
        match rule.body@[c] {
            BodyClause::Condition(_) => {},
            BodyClause::Let { .. } => {},
            _ => {
                assert forall|h: int| 0 <= h < heads.len() implies st[pos(p, (#[trigger] heads[h]).relation@)] >= st[pos(p, n)] + gap by {
                    assert(clause_ok(p, st, p.rules@[r].heads@[h], p.rules@[r].body@[c]));
                }
                lemma_heads_min_ge(p, st, heads, st[pos(p, n)] + gap);
                assert(match p.rules@[r].body@[c] {
                    BodyClause::Positive(a) => st[pos(p, a.relation@)] == rule_stratum(p, st, p.rules@[r])
                        ==> p.relations@[pos(p, a.relation@)].kind is Relation,
                    _ => true,
                });
            },
        }
    }
}

/// A pass over a group of rules of stratum `g`, each closed in `m`, keeps a
/// database below `m` and in agreement with it below stratum `g`.
proof fn lemma_group_below<E: ExprEval>(p: Program, st: Seq<int>, g: int, group: Seq<usize>, k: int, d: Seq<RelView>, m: Seq<RelView>, c: bool)
    requires
        program_valid(p),
        respects(p, st),
        own_reads_are_sets(p, st),
        0 <= k,
        forall|x: int| 0 <= x < group.len() ==> (#[trigger] group[x]) < p.rules@.len()
            && p.rules@[group[x] as int].heads@.len() >= 1 && rule_stratum(p, st, p.rules@[group[x] as int]) == g,
        forall|x: int| 0 <= x < group.len() ==> #[trigger] rule_holds::<E>(p.rules@[group[x] as int], m),
        db_of_program(p, d),
        db_wf(m),
        db_below(d, m),
        agree_below(p, st, d, m, g),
        group_pass::<E>(p, group, k, d, c) is Some,
    ensures
        db_below(group_pass::<E>(p, group, k, d, c).unwrap().0, m),
        agree_below(p, st, group_pass::<E>(p, group, k, d, c).unwrap().0, m, g),
        db_of_program(p, group_pass::<E>(p, group, k, d, c).unwrap().0),
    decreases group.len() - k,
{
    if k < group.len() {
        let r = group[k] as int;
        let rule = p.rules@[r];
        assert(rule_holds::<E>(p.rules@[group[k] as int], m));
        reveal(rule_holds);
        lemma_rule_fits(p, st, r, g);
        lemma_pass_below::<E>(p, st, g, rule.heads@, rule.body@, 0, Map::empty(), Seq::empty(), d, m);
        let (d1, c1) = rule_pass::<E>(rule, d).unwrap();
        lemma_group_below::<E>(p, st, g, group, k + 1, d1, m, c || c1);
    }
}

/// What a stratum's iteration leaves lies below every database that agrees
/// with its start below the stratum, lies above its start, and satisfies
/// the stratum's rules.
proof fn lemma_stratum_below<E: ExprEval>(p: Program, st: Seq<int>, g: int, group: Seq<usize>, d: Seq<RelView>, m: Seq<RelView>, it: int)
    requires
        program_valid(p),
        respects(p, st),
        own_reads_are_sets(p, st),
        forall|x: int| 0 <= x < group.len() ==> (#[trigger] group[x]) < p.rules@.len()
            && p.rules@[group[x] as int].heads@.len() >= 1 && rule_stratum(p, st, p.rules@[group[x] as int]) == g,
        forall|x: int| 0 <= x < group.len() ==> #[trigger] rule_holds::<E>(p.rules@[group[x] as int], m),
        db_of_program(p, d),
        db_wf(m),
        db_below(d, m),
        agree_below(p, st, d, m, g),
        stratum_spec::<E>(p, group, d, it) is Some,
    ensures
        db_below(stratum_spec::<E>(p, group, d, it).unwrap(), m),
    decreases MAX_STRATUM_ITERATIONS - it,
{
    lemma_group_below::<E>(p, st, g, group, 0, d, m, false);
    let (d1, c) = group_pass::<E>(p, group, 0, d, false).unwrap();
    if c && it < MAX_STRATUM_ITERATIONS {
        lemma_stratum_below::<E>(p, st, g, group, d1, m, it + 1);
    }
}

/// The least model of a stratum: running the rules of stratum `g` to their
/// fixed point from `d` derives nothing beyond any database `m` that agrees
/// with `d` on the lower strata, holds everything `d` holds (each lattice
/// key at least as high), and satisfies those rules, provided that no rule
/// of the stratum positively reads a lattice of its own stratum.
pub proof fn lemma_stratum_least<E: ExprEval>(p: Program, st: Seq<int>, g: int, group: Seq<usize>, d: Seq<RelView>, m: Seq<RelView>)
    requires
        program_valid(p),
        is_least_strata(p, st),
        own_reads_are_sets(p, st),
        forall|x: int| 0 <= x < group.len() ==> (#[trigger] group[x]) < p.rules@.len()
            && p.rules@[group[x] as int].heads@.len() >= 1 && rule_stratum(p, st, p.rules@[group[x] as int]) == g,
        forall|x: int| 0 <= x < group.len() ==> #[trigger] rule_holds::<E>(p.rules@[group[x] as int], m),
        db_of_program(p, d),
        db_wf(m),
        db_below(d, m),
        forall|i: int| 0 <= i < d.len() && st[pos(p, d[i].name)] < g ==> #[trigger] d[i] == m[i],
        stratum_spec::<E>(p, group, d, 0) is Some,
    ensures
        db_below(stratum_spec::<E>(p, group, d, 0).unwrap(), m),
{
    reveal(agree_below);
    lemma_stratum_below::<E>(p, st, g, group, d, m, 0);
}

/// The database when stratum `g` starts: the first `g` rule groups of `st`
/// run in order, each to its fixed point, from `db`.
#[verifier::opaque]
pub open spec fn state_at<E: ExprEval>(p: Program, st: Seq<int>, g: int, db: Seq<RelView>) -> Option<Seq<RelView>>
    decreases g,
{
    if g <= 0 {
        Some(db)
    } else {
        match state_at::<E>(p, st, g - 1, db) {
            None => None,
            Some(x) => stratum_spec::<E>(p, strata_groups(p, st)[g - 1], x, 0),
        }
    }
}

/// Stratum `g` of `db` is least: its relations lie below those of every
/// database `m` that agrees on the lower strata with the database at the
/// start of stratum `g`, lies above that database, and satisfies the rules
/// of stratum `g`.
#[verifier::opaque]
pub open spec fn least_at<E: ExprEval>(p: Program, st: Seq<int>, g: int, d0: Seq<RelView>, db: Seq<RelView>) -> bool {
    forall|m: Seq<RelView>| #[trigger] db_wf(m)
        && state_at::<E>(p, st, g, d0) is Some
        && db_below(state_at::<E>(p, st, g, d0).unwrap(), m)
        && (forall|i: int| 0 <= i < m.len() && st[pos(p, m[i].name)] < g ==> #[trigger] state_at::<E>(p, st, g, d0).unwrap()[i] == m[i])
        && (forall|x: int| 0 <= x < strata_groups(p, st)[g].len()
            ==> #[trigger] rule_holds::<E>(p.rules@[strata_groups(p, st)[g][x] as int], m))
        ==> forall|i: int| 0 <= i < db.len() && st[pos(p, db[i].name)] == g ==> rel_below(#[trigger] db[i], m[i])
}

/// The conditions of the least-model law: the database was built for the
/// program, every rule has a head, the program has a stratification, and no
/// rule positively reads a lattice of its own stratum.
pub open spec fn least_conditions(p: Program, db: Seq<RelView>) -> bool {
    &&& db_of_program(p, db)
    &&& forall|r: int| 0 <= r < p.rules@.len() ==> (#[trigger] p.rules@[r]).heads@.len() >= 1
    &&& least_strata(p) matches Some(st) && own_reads_are_sets(p, st)
}

/// Running stratum `g` from the database at its start gives a least stratum.
pub proof fn lemma_least_step<E: ExprEval>(p: Program, st: Seq<int>, g: int, d0: Seq<RelView>, dg: Seq<RelView>, dn: Seq<RelView>)
    requires
        program_valid(p),
        is_least_strata(p, st),
        own_reads_are_sets(p, st),
        0 <= g < strata_groups(p, st).len(),
        forall|x: int| 0 <= x < strata_groups(p, st)[g].len() ==> (#[trigger] strata_groups(p, st)[g][x]) < p.rules@.len()
            && p.rules@[strata_groups(p, st)[g][x] as int].heads@.len() >= 1
            && rule_stratum(p, st, p.rules@[strata_groups(p, st)[g][x] as int]) == g,
        db_of_program(p, dg),
        state_at::<E>(p, st, g, d0) == Some(dg),
        stratum_spec::<E>(p, strata_groups(p, st)[g], dg, 0) == Some(dn),
    ensures
        least_at::<E>(p, st, g, d0, dn),
{
    reveal(least_at);
    let group = strata_groups(p, st)[g];
    assert forall|m: Seq<RelView>| #[trigger] db_wf(m)
        && state_at::<E>(p, st, g, d0) is Some
        && db_below(state_at::<E>(p, st, g, d0).unwrap(), m)
        && (forall|i: int| 0 <= i < m.len() && st[pos(p, m[i].name)] < g ==> #[trigger] state_at::<E>(p, st, g, d0).unwrap()[i] == m[i])
        && (forall|x: int| 0 <= x < group.len() ==> #[trigger] rule_holds::<E>(p.rules@[group[x] as int], m))
        implies forall|i: int| 0 <= i < dn.len() && st[pos(p, dn[i].name)] == g ==> rel_below(#[trigger] dn[i], m[i]) by {
        assert forall|i: int| 0 <= i < dg.len() && st[pos(p, dg[i].name)] < g implies #[trigger] dg[i] == m[i] by {
            assert(dg[i].name == m[i].name);
        }
        lemma_stratum_least::<E>(p, st, g, group, dg, m);
    }
}

/// A stratum that stays least while later strata change only their own
/// relations and those above.
pub proof fn lemma_least_kept<E: ExprEval>(p: Program, st: Seq<int>, g: int, d0: Seq<RelView>, a: Seq<RelView>, b: Seq<RelView>, h: int)
    requires
        least_at::<E>(p, st, g, d0, a),
        g < h,
        same_shape(a, b),
        forall|i: int| 0 <= i < a.len() && st[pos(p, a[i].name)] < h ==> #[trigger] b[i] == a[i],
    ensures
        least_at::<E>(p, st, g, d0, b),
{
    reveal(least_at);
    assert forall|m: Seq<RelView>| #[trigger] db_wf(m)
        && state_at::<E>(p, st, g, d0) is Some
        && db_below(state_at::<E>(p, st, g, d0).unwrap(), m)
        && (forall|i: int| 0 <= i < m.len() && st[pos(p, m[i].name)] < g ==> #[trigger] state_at::<E>(p, st, g, d0).unwrap()[i] == m[i])
        && (forall|x: int| 0 <= x < strata_groups(p, st)[g].len() ==> #[trigger] rule_holds::<E>(p.rules@[strata_groups(p, st)[g][x] as int], m))
        implies forall|i: int| 0 <= i < b.len() && st[pos(p, b[i].name)] == g ==> rel_below(#[trigger] b[i], m[i]) by {
        assert forall|i: int| 0 <= i < b.len() && st[pos(p, b[i].name)] == g implies rel_below(#[trigger] b[i], m[i]) by {
            assert(a[i].name == b[i].name);
            assert(b[i] == a[i]);
            assert(rel_below(a[i], m[i]));
        }
    }
}

/// After stratum `g` runs, the strata up to `g` are least.
pub proof fn lemma_least_advance<E: ExprEval>(p: Program, st: Seq<int>, g: int, d0: Seq<RelView>, dg: Seq<RelView>, dn: Seq<RelView>)
    requires
        program_valid(p),
        is_least_strata(p, st),
        own_reads_are_sets(p, st),
        0 <= g < strata_groups(p, st).len(),
        forall|x: int| 0 <= x < strata_groups(p, st)[g].len() ==> (#[trigger] strata_groups(p, st)[g][x]) < p.rules@.len()
            && p.rules@[strata_groups(p, st)[g][x] as int].heads@.len() >= 1
            && rule_stratum(p, st, p.rules@[strata_groups(p, st)[g][x] as int]) == g,
        db_of_program(p, dg),
        state_at::<E>(p, st, g, d0) == Some(dg),
        stratum_spec::<E>(p, strata_groups(p, st)[g], dg, 0) == Some(dn),
        same_shape(dg, dn),
        forall|i: int| 0 <= i < dg.len() && st[pos(p, dg[i].name)] < g ==> #[trigger] dn[i] == dg[i],
        forall|g2: int| 0 <= g2 < g ==> #[trigger] least_at::<E>(p, st, g2, d0, dg),
    ensures
        forall|g2: int| 0 <= g2 < g + 1 ==> #[trigger] least_at::<E>(p, st, g2, d0, dn),
{
    lemma_least_step::<E>(p, st, g, d0, dg, dn);
    assert forall|g2: int| 0 <= g2 < g + 1 implies #[trigger] least_at::<E>(p, st, g2, d0, dn) by {
        if g2 < g {
            lemma_least_kept::<E>(p, st, g2, d0, dg, dn, g);
        }
    }
}

/// The database at the start of a stratum, one stratum on.
pub proof fn lemma_state_step<E: ExprEval>(p: Program, st: Seq<int>, g: int, d0: Seq<RelView>, dg: Seq<RelView>, dn: Seq<RelView>)
    requires
        0 <= g,
        state_at::<E>(p, st, g, d0) == Some(dg),
        stratum_spec::<E>(p, strata_groups(p, st)[g], dg, 0) == Some(dn),
    ensures
        state_at::<E>(p, st, g + 1, d0) == Some(dn),
{
    reveal(state_at);
}

/// The database at the start of the first stratum is the one the run
/// starts from.
pub proof fn lemma_state_start<E: ExprEval>(p: Program, st: Seq<int>, d0: Seq<RelView>)
    ensures
        state_at::<E>(p, st, 0, d0) == Some(d0),
{
    reveal(state_at);
}

} // verus!
