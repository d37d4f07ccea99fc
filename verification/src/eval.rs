//! Bottom-up evaluation of rule bodies: matching atoms against stored tuples,
//! negation as failure, `if`/`let` clauses and aggregates. The order in which
//! the evaluator visits satisfying assignments is stated by [`dfs`]; rule
//! firing, provenance and ad-hoc queries are all proved against it.

use vstd::prelude::*;

use crate::env::{bindings_map, Env};
use crate::error::EvalError;
use crate::expr::{agrees, eval_spec, Expr, ExprError, Outcome};
use crate::ir::{AggFunc, Aggregate, Arg, Atom, BodyClause};
use crate::store::{rows_of, rows_view, Database, RelView};
use crate::value::{Symbol, Value};

verus! {

/// Evaluates expressions on behalf of the relational interpreter.
///
/// `value_of` is the meaning an evaluator gives an expression: a successful
/// evaluation always returns it.
pub trait ExprEval {
    /// The value the evaluator gives `expr` under `env`, if evaluation succeeds.
    spec fn value_of(expr: Expr, env: Map<Symbol, Value>) -> Option<Value>;

    /// The evaluator's internal invariant.
    spec fn inv(&self) -> bool;

    /// Whether evaluation fails only where `value_of` gives no value, as a
    /// pure evaluator's does; an evaluator whose runtime may fail for reasons
    /// of its own is not exact.
    spec fn exact() -> bool;

    /// Evaluates `expr` under the variable bindings `env`.
    fn eval_expr(&mut self, expr: &Expr, env: &Env) -> (r: Result<Value, ExprError>)
        requires
            old(self).inv(),
        ensures
            final(self).inv(),
            r matches Ok(v) ==> Self::value_of(*expr, env@) == Some(v),
            Self::exact() && Self::value_of(*expr, env@) is Some ==> r is Ok;
}

/// The value of an expression under the interpreter semantics.
pub open spec fn interp_value(e: Expr, env: Map<Symbol, Value>) -> Option<Value> {
    match eval_spec(e, env) {
        Outcome::Val(v) => Some(v),
        _ => None,
    }
}

/// The pure tree-walking expression evaluator: the oracle for the WASM tier.
#[derive(Debug, Default, Clone, Copy)]
pub struct Interpreter;

impl ExprEval for Interpreter {
    open spec fn value_of(expr: Expr, env: Map<Symbol, Value>) -> Option<Value> {
        interp_value(expr, env)
    }

    open spec fn inv(&self) -> bool {
        true
    }

    open spec fn exact() -> bool {
        true
    }

    /// Evaluates `expr`; success and failure are exactly those of [`eval_spec`].
    fn eval_expr(&mut self, expr: &Expr, env: &Env) -> (r: Result<Value, ExprError>)
        ensures
            agrees(r, eval_spec(*expr, env@)),
    {
        expr.eval(env)
    }
}

impl Interpreter {
    /// Evaluates `expr`; success and failure are exactly those of [`eval_spec`].
    pub fn evaluate(&self, expr: &Expr, env: &Env) -> (r: Result<Value, ExprError>)
        ensures
            agrees(r, eval_spec(*expr, env@)),
    {
        expr.eval(env)
    }
}

/// The variable an argument binds or constrains, if any.
pub open spec fn arg_var(a: Arg) -> Option<Symbol> {
    match a {
        Arg::Var(s) => Some(s),
        Arg::LatticeBind(s) => Some(s),
        _ => None,
    }
}

/// Unification of atom arguments `args[i..]` against `t[i..]`: literals must
/// equal the value; a variable bound in `env`, or earlier in this atom, must
/// equal it; an unbound variable is bound to it (collected in `acc`).
pub open spec fn unify_from(args: Seq<Arg>, t: Seq<Value>, env: Map<Symbol, Value>, i: int, acc: Seq<(Symbol, Value)>) -> Option<Seq<(Symbol, Value)>>
    decreases args.len() - i,
{
    if i >= args.len() || i < 0 {
        Some(acc)
    } else {
        match args[i] {
            Arg::Wildcard => unify_from(args, t, env, i + 1, acc),
            Arg::Lit(v) => if v == t[i] { unify_from(args, t, env, i + 1, acc) } else { None },
            Arg::Var(s) | Arg::LatticeBind(s) => if env.contains_key(s) {
                if env[s] == t[i] { unify_from(args, t, env, i + 1, acc) } else { None }
            } else if bindings_map(acc).contains_key(s) {
                if bindings_map(acc)[s] == t[i] { unify_from(args, t, env, i + 1, acc) } else { None }
            } else {
                unify_from(args, t, env, i + 1, acc.push((s, t[i])))
            },
        }
    }
}

/// The new bindings that match an atom against a tuple, if they match.
pub open spec fn unify_spec(args: Seq<Arg>, t: Seq<Value>, env: Map<Symbol, Value>) -> Option<Seq<(Symbol, Value)>> {
    if args.len() != t.len() {
        None
    } else {
        unify_from(args, t, env, 0, Seq::empty())
    }
}

/// Whether a tuple matches an atom for negation as failure: unbound variables,
/// wildcards and lattice reads match anything.
pub open spec fn neg_matches(args: Seq<Arg>, t: Seq<Value>, env: Map<Symbol, Value>) -> bool {
    &&& args.len() == t.len()
    &&& forall|i: int| 0 <= i < args.len() ==> match #[trigger] args[i] {
        Arg::Lit(v) => v == t[i],
        Arg::Var(s) => env.contains_key(s) ==> env[s] == t[i],
        _ => true,
    }
}

/// What a successful unification from position `i` guarantees of each
/// later column: a literal equals the value, a variable bound in `env`
/// equals it.
proof fn lemma_unify_cols(args: Seq<Arg>, t: Seq<Value>, env: Map<Symbol, Value>, i: int, acc: Seq<(Symbol, Value)>)
    requires
        0 <= i,
        unify_from(args, t, env, i, acc) is Some,
    ensures
        forall|k: int| i <= k < args.len() ==> match #[trigger] args[k] {
            Arg::Lit(v) => v == t[k],
            Arg::Var(s) => env.contains_key(s) ==> env[s] == t[k],
            _ => true,
        },
    decreases args.len() - i,
{
    if i < args.len() {
        match args[i] {
            Arg::Wildcard => lemma_unify_cols(args, t, env, i + 1, acc),
            Arg::Lit(v) => lemma_unify_cols(args, t, env, i + 1, acc),
            Arg::Var(s) | Arg::LatticeBind(s) => {
                if env.contains_key(s) || bindings_map(acc).contains_key(s) {
                    lemma_unify_cols(args, t, env, i + 1, acc);
                } else {
                    lemma_unify_cols(args, t, env, i + 1, acc.push((s, t[i])));
                }
            },
        }
    }
}

/// With every variable bound and no lattice read, unification from
/// position `i` succeeds, binding nothing, when each later column fits.
proof fn lemma_unify_bound(args: Seq<Arg>, t: Seq<Value>, env: Map<Symbol, Value>, i: int, acc: Seq<(Symbol, Value)>)
    requires
        0 <= i,
        forall|k: int| 0 <= k < args.len() ==> match #[trigger] args[k] {
            Arg::Var(s) => env.contains_key(s),
            Arg::LatticeBind(_) => false,
            _ => true,
        },
        forall|k: int| i <= k < args.len() ==> match #[trigger] args[k] {
            Arg::Lit(v) => v == t[k],
            Arg::Var(s) => env.contains_key(s) ==> env[s] == t[k],
            _ => true,
        },
    ensures
        unify_from(args, t, env, i, acc) == Some(acc),
    decreases args.len() - i,
{
    if i < args.len() {
        lemma_unify_bound(args, t, env, i + 1, acc);
    }
}

/// Negation agrees with matching: a tuple that unifies with an atom matches
/// the atom's negation; and where every variable of the atom is bound and
/// it reads no lattice value, a tuple matches the negation exactly when it
/// unifies with the atom (a literal column must hold that literal, a
/// variable column that variable's value).
pub proof fn lemma_neg_is_unify(args: Seq<Arg>, t: Seq<Value>, env: Map<Symbol, Value>)
    ensures
        unify_spec(args, t, env) is Some ==> neg_matches(args, t, env),
        (forall|k: int| 0 <= k < args.len() ==> match #[trigger] args[k] {
            Arg::Var(s) => env.contains_key(s),
            Arg::LatticeBind(_) => false,
            _ => true,
        }) ==> (neg_matches(args, t, env) <==> unify_spec(args, t, env) is Some),
{
    if unify_spec(args, t, env) is Some {
        lemma_unify_cols(args, t, env, 0, Seq::empty());
    }
    if args.len() == t.len() && neg_matches(args, t, env) && (forall|k: int| 0 <= k < args.len() ==> match #[trigger] args[k] {
            Arg::Var(s) => env.contains_key(s),
            Arg::LatticeBind(_) => false,
            _ => true,
        }) {
        lemma_unify_bound(args, t, env, 0, Seq::empty());
    }
}

/// Whether any stored tuple matches a negated atom.
pub open spec fn any_match_spec(args: Seq<Arg>, rows: Seq<Seq<Value>>, env: Map<Symbol, Value>) -> bool {
    exists|j: int| 0 <= j < rows.len() && neg_matches(args, #[trigger] rows[j], env)
}

/// The integer an aggregated value contributes: itself, 0/1, or a symbol id.
pub open spec fn value_as_int_spec(v: Value) -> i64 {
    match v {
        Value::Int(i) => i,
        Value::Bool(b) => if b { 1 } else { 0 },
        Value::Sym(s) => s.0 as i64,
    }
}

/// The wrapping sum of a sequence.
pub open spec fn wsum(s: Seq<i64>) -> i64
    decreases s.len(),
{
    if s.len() == 0 { 0 } else { wsum(s.drop_last()).wrapping_add(s.last()) }
}

/// The minimum of a non-empty sequence.
pub open spec fn seq_min(s: Seq<i64>) -> i64
    decreases s.len(),
{
    if s.len() <= 1 { s[0] } else {
        let m = seq_min(s.drop_last());
        if s.last() < m { s.last() } else { m }
    }
}

/// The maximum of a non-empty sequence.
pub open spec fn seq_max(s: Seq<i64>) -> i64
    decreases s.len(),
{
    if s.len() <= 1 { s[0] } else {
        let m = seq_max(s.drop_last());
        if s.last() > m { s.last() } else { m }
    }
}

/// Folds an aggregate over `rows[j..]`: counts the matching tuples and
/// collects the aggregated values; `None` if an aggregated expression fails.
pub open spec fn agg_fold<E: ExprEval>(agg: Aggregate, env: Map<Symbol, Value>, rows: Seq<Seq<Value>>, j: int, count: nat, vals: Seq<i64>) -> Option<(nat, Seq<i64>)>
    decreases rows.len() - j,
{
    if j >= rows.len() || j < 0 {
        Some((count, vals))
    } else {
        match unify_spec(agg.source.args@, rows[j], env) {
            None => agg_fold::<E>(agg, env, rows, j + 1, count, vals),
            Some(b) => match agg.arg {
                None => agg_fold::<E>(agg, env, rows, j + 1, count + 1, vals),
                Some(e) => match E::value_of(e, env.union_prefer_right(bindings_map(b))) {
                    None => None,
                    Some(v) => agg_fold::<E>(agg, env, rows, j + 1, count + 1, vals.push(value_as_int_spec(v))),
                },
            },
        }
    }
}

/// The result of an aggregate function over the count and collected values:
/// `count`, wrapping `sum`, and `min`/`max` (none over no values).
pub open spec fn agg_result(func: AggFunc, count: nat, vals: Seq<i64>) -> Option<Value> {
    match func {
        AggFunc::Count => Some(Value::Int(count as i64)),
        AggFunc::Sum => Some(Value::Int(wsum(vals))),
        AggFunc::Min => if vals.len() == 0 { None } else { Some(Value::Int(seq_min(vals))) },
        AggFunc::Max => if vals.len() == 0 { None } else { Some(Value::Int(seq_max(vals))) },
    }
}

/// The value an aggregate clause binds (`Some(None)` when it binds nothing);
/// `None` when its relation is undeclared or an aggregated expression fails.
pub open spec fn agg_spec<E: ExprEval>(agg: Aggregate, env: Map<Symbol, Value>, db: Seq<RelView>) -> Option<Option<Value>> {
    match rows_of(db, agg.source.relation@) {
        None => None,
        Some(rows) => match agg_fold::<E>(agg, env, rows, 0, 0, Seq::empty()) {
            None => None,
            Some((count, vals)) => Some(agg_result(agg.func, count, vals)),
        },
    }
}

/// One satisfying assignment of a body: the final bindings and the positive
/// body tuples that justified it, `(relation, tuple)`, in body order.
pub struct Sol {
    /// The variable bindings at the end of the body.
    pub env: Map<Symbol, Value>,
    /// The positive body tuples matched, in body order.
    pub support: Seq<(Seq<char>, Seq<Value>)>,
}

/// The solutions of a body suffix in visiting order, and whether the visit
/// stopped at a failure (an undeclared relation or a failed expression)
/// after them.
pub struct Dfs {
    /// The solutions found before any failure.
    pub sols: Seq<Sol>,
    /// Whether the visit stopped at a failure.
    pub failed: bool,
}

/// A visit that found nothing.
pub open spec fn dfs_none() -> Dfs {
    Dfs { sols: Seq::empty(), failed: false }
}

/// A visit that failed immediately.
pub open spec fn dfs_fail() -> Dfs {
    Dfs { sols: Seq::empty(), failed: true }
}

/// The depth-first visit of clauses `body[idx..]` under `env` against `db`:
/// a positive atom tries each stored tuple in order; a negated atom passes if
/// no tuple matches; `if` passes on `true`; `let` and an aggregate bind their
/// result. Reaching the end of the body yields one solution.
pub open spec fn dfs<E: ExprEval>(body: Seq<BodyClause>, idx: int, env: Map<Symbol, Value>, sup: Seq<(Seq<char>, Seq<Value>)>, db: Seq<RelView>) -> Dfs
    decreases body.len() - idx, 1int, 0int,
{
    if idx >= body.len() || idx < 0 {
        Dfs { sols: seq![Sol { env, support: sup }], failed: false }
    } else {
        match body[idx] {
            BodyClause::Positive(a) => match rows_of(db, a.relation@) {
                None => dfs_fail(),
                Some(rows) => dfs_rows::<E>(body, idx, a.relation@, a.args@, env, sup, db, rows, 0),
            },
            BodyClause::Negative(a) => match rows_of(db, a.relation@) {
                None => dfs_fail(),
                Some(rows) => if any_match_spec(a.args@, rows, env) {
                    dfs_none()
                } else {
                    dfs::<E>(body, idx + 1, env, sup, db)
                },
            },
            BodyClause::Condition(e) => match E::value_of(e, env) {
                None => dfs_fail(),
                Some(v) => if v == Value::Bool(true) {
                    dfs::<E>(body, idx + 1, env, sup, db)
                } else {
                    dfs_none()
                },
            },
            BodyClause::Let { var, expr } => match E::value_of(expr, env) {
                None => dfs_fail(),
                Some(v) => dfs::<E>(body, idx + 1, env.insert(var, v), sup, db),
            },
            BodyClause::Aggregate(agg) => match agg_spec::<E>(agg, env, db) {
                None => dfs_fail(),
                Some(None) => dfs_none(),
                Some(Some(r)) => dfs::<E>(body, idx + 1, env.insert(agg.output, r), sup, db),
            },
        }
    }
}

/// The visit of a positive atom's candidate tuples `rows[j..]`.
pub open spec fn dfs_rows<E: ExprEval>(body: Seq<BodyClause>, idx: int, rel: Seq<char>, args: Seq<Arg>, env: Map<Symbol, Value>, sup: Seq<(Seq<char>, Seq<Value>)>, db: Seq<RelView>, rows: Seq<Seq<Value>>, j: int) -> Dfs
    decreases body.len() - idx, 0int, rows.len() - j,
{
    if j >= rows.len() || j < 0 || idx >= body.len() || idx < 0 {
        dfs_none()
    } else {
        let first = dfs_row::<E>(body, idx, rel, args, env, sup, db, rows[j]);
        if first.failed {
            first
        } else {
            let rest = dfs_rows::<E>(body, idx, rel, args, env, sup, db, rows, j + 1);
            Dfs { sols: first.sols + rest.sols, failed: rest.failed }
        }
    }
}

/// The visit of one candidate tuple of a positive atom.
pub open spec fn dfs_row<E: ExprEval>(body: Seq<BodyClause>, idx: int, rel: Seq<char>, args: Seq<Arg>, env: Map<Symbol, Value>, sup: Seq<(Seq<char>, Seq<Value>)>, db: Seq<RelView>, t: Seq<Value>) -> Dfs
    decreases body.len() - idx, 0int, 0int,
{
    if idx >= body.len() || idx < 0 {
        dfs_none()
    } else {
        match unify_spec(args, t, env) {
            None => dfs_none(),
            Some(b) => dfs::<E>(body, idx + 1, env.union_prefer_right(bindings_map(b)), sup.push((rel, t)), db),
        }
    }
}

} // verus!

verus! {

/// Looks up a symbol in a list of bindings (the latest entry wins).
fn pairs_get(v: &Vec<(Symbol, Value)>, s: Symbol) -> (r: Option<Value>)
    ensures
        match r {
            Some(x) => bindings_map(v@).contains_key(s) && bindings_map(v@)[s] == x,
            None => !bindings_map(v@).contains_key(s),
        },
{
    let mut i = v.len();
    assert(v@.subrange(0, i as int) =~= v@);
    while i > 0
        invariant
            i <= v.len(),
            bindings_map(v@.subrange(0, i as int)).contains_key(s) == bindings_map(v@).contains_key(s),
            bindings_map(v@).contains_key(s) ==> bindings_map(v@.subrange(0, i as int))[s] == bindings_map(v@)[s],
        decreases i,
    {
        let ghost pre = v@.subrange(0, i as int);
        assert(pre.drop_last() =~= v@.subrange(0, i - 1));
        if v[i - 1].0 == s {
            return Some(v[i - 1].1);
        }
        i -= 1;
    }
    assert(v@.subrange(0, 0) =~= Seq::<(Symbol, Value)>::empty());
    None
}

/// Unifies `args` against `tuple` given `env`, returning the new bindings to
/// apply, or `None` if they do not match.
pub fn unify(args: &Vec<Arg>, tuple: &Vec<Value>, env: &Env) -> (r: Option<Vec<(Symbol, Value)>>)
    ensures
        match unify_spec(args@, tuple@, env@) {
            Some(b) => r matches Some(v) && v@ == b,
            None => r is None,
        },
{
    if args.len() != tuple.len() {
        return None;
    }
    let mut new: Vec<(Symbol, Value)> = Vec::new();
    let mut i: usize = 0;
    while i < args.len()
        invariant
            args.len() == tuple.len(),
            i <= args.len(),
            unify_spec(args@, tuple@, env@) == unify_from(args@, tuple@, env@, i as int, new@),
        decreases args.len() - i,
    {
        let val = tuple[i];
        match args[i] {
            Arg::Wildcard => {},
            Arg::Lit(v) => {
                if v != val {
                    return None;
                }
            },
            Arg::Var(s) | Arg::LatticeBind(s) => {
                match env.get(s) {
                    Some(existing) => {
                        if existing != val {
                            return None;
                        }
                    },
                    None => match pairs_get(&new, s) {
                        Some(existing) => {
                            if existing != val {
                                return None;
                            }
                        },
                        None => {
                            new.push((s, val));
                        },
                    },
                }
            },
        }
        i += 1;
    }
    Some(new)
}

/// Whether one tuple matches a negated atom.
fn neg_match_row(args: &Vec<Arg>, tuple: &Vec<Value>, env: &Env) -> (r: bool)
    ensures
        r == neg_matches(args@, tuple@, env@),
{
    if args.len() != tuple.len() {
        return false;
    }
    let mut i: usize = 0;
    while i < args.len()
        invariant
            args.len() == tuple.len(),
            i <= args.len(),
            forall|k: int| 0 <= k < i ==> match #[trigger] args@[k] {
                Arg::Lit(v) => v == tuple@[k],
                Arg::Var(s) => env@.contains_key(s) ==> env@[s] == tuple@[k],
                _ => true,
            },
        decreases args.len() - i,
    {
        let val = tuple[i];
        match args[i] {
            Arg::Lit(v) => {
                if v != val {
                    return false;
                }
            },
            Arg::Var(s) => {
                match env.get(s) {
                    Some(bound) => {
                        if bound != val {
                            return false;
                        }
                    },
                    None => {},
                }
            },
            _ => {},
        }
        i += 1;
    }
    true
}

/// Negation-as-failure existence check: whether any tuple matches the atom
/// under `env` (unbound variables match anything and bind nothing).
pub fn any_match(args: &Vec<Arg>, rows: &Vec<Vec<Value>>, env: &Env) -> (r: bool)
    ensures
        r == any_match_spec(args@, rows_view(rows@), env@),
{
    let mut j: usize = 0;
    while j < rows.len()
        invariant
            j <= rows.len(),
            forall|k: int| 0 <= k < j ==> !neg_matches(args@, #[trigger] rows_view(rows@)[k], env@),
        decreases rows.len() - j,
    {
        assert(rows_view(rows@)[j as int] == rows@[j as int]@);
        if neg_match_row(args, &rows[j], env) {
            return true;
        }
        j += 1;
    }
    false
}

/// The integer an aggregated value contributes.
fn value_as_int(v: Value) -> (r: i64)
    ensures
        r == value_as_int_spec(v),
{
    match v {
        Value::Int(i) => i,
        Value::Bool(b) => if b { 1 } else { 0 },
        Value::Sym(s) => s.0 as i64,
    }
}

/// Applies an aggregate function to the count and the collected values.
fn agg_apply(func: AggFunc, count: usize, vals: &Vec<i64>) -> (r: Option<Value>)
    ensures
        r == agg_result(func, count as nat, vals@),
{
    match func {
        AggFunc::Count => Some(Value::Int(count as i64)),
        AggFunc::Sum => {
            let mut acc: i64 = 0;
            let mut k: usize = 0;
            while k < vals.len()
                invariant
                    k <= vals.len(),
                    acc == wsum(vals@.subrange(0, k as int)),
                decreases vals.len() - k,
            {
                assert(vals@.subrange(0, k + 1).drop_last() =~= vals@.subrange(0, k as int));
                acc = acc.wrapping_add(vals[k]);
                k += 1;
            }
            assert(vals@.subrange(0, k as int) =~= vals@);
            Some(Value::Int(acc))
        },
        AggFunc::Min | AggFunc::Max => {
            if vals.len() == 0 {
                return None;
            }
            let is_min = match func {
                AggFunc::Min => true,
                _ => false,
            };
            let mut acc: i64 = vals[0];
            let mut k: usize = 1;
            assert(vals@.subrange(0, 1) =~= seq![vals@[0]]);
            while k < vals.len()
                invariant
                    1 <= k <= vals.len(),
                    is_min ==> acc == seq_min(vals@.subrange(0, k as int)),
                    !is_min ==> acc == seq_max(vals@.subrange(0, k as int)),
                decreases vals.len() - k,
            {
                assert(vals@.subrange(0, k + 1).drop_last() =~= vals@.subrange(0, k as int));
                let x = vals[k];
                if is_min {
                    if x < acc {
                        acc = x;
                    }
                } else {
                    if x > acc {
                        acc = x;
                    }
                }
                k += 1;
            }
            assert(vals@.subrange(0, k as int) =~= vals@);
            Some(Value::Int(acc))
        },
    }
}

/// Evaluates an aggregate clause over the current contents of its relation.
pub fn eval_aggregate<E: ExprEval>(agg: &Aggregate, env: &Env, db: &Database, ev: &mut E) -> (r: Result<Option<Value>, EvalError>)
    requires
        old(ev).inv(),
    ensures
        final(ev).inv(),
        r matches Ok(x) ==> agg_spec::<E>(*agg, env@, db@) == Some(x),
        rows_of(db@, agg.source.relation@) is None ==>
            (r matches Err(EvalError::UnknownRelation(n)) && n@ == agg.source.relation@),
        E::exact() && agg_spec::<E>(*agg, env@, db@) is Some ==> r is Ok,
{
    let snapshot = db.snapshot(&agg.source.relation)?;
    let ghost rows = rows_view(snapshot@);
    let mut vals: Vec<i64> = Vec::new();
    let mut count: usize = 0;
    let mut j: usize = 0;
    while j < snapshot.len()
        invariant
            ev.inv(),
            j <= snapshot.len(),
            count <= j,
            rows == rows_view(snapshot@),
            rows_of(db@, agg.source.relation@) == Some(rows),
            agg_fold::<E>(*agg, env@, rows, 0, 0, Seq::empty())
                == agg_fold::<E>(*agg, env@, rows, j as int, count as nat, vals@),
        decreases snapshot.len() - j,
    {
        assert(rows[j as int] == snapshot@[j as int]@);
        match unify(&agg.source.args, &snapshot[j], env) {
            None => {},
            Some(bindings) => {
                match &agg.arg {
                    None => {},
                    Some(arg) => {
                        let local = env.extend(&bindings);
                        let v = match ev.eval_expr(arg, &local) {
                            Ok(v) => v,
                            Err(e) => {
                                assert(E::exact() ==> agg_fold::<E>(*agg, env@, rows, j as int, count as nat, vals@) is None);
                                return Err(EvalError::Expr(e));
                            },
                        };
                        vals.push(value_as_int(v));
                    },
                }
                count += 1;
            },
        }
        j += 1;
    }
    Ok(agg_apply(agg.func, count, &vals))
}

} // verus!
