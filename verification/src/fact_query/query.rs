//! A parsed conjunctive query and its safety (range-restriction) check.

use vstd::prelude::*;

use crate::eval::arg_var;
use crate::expr::{mentions, Expr};
use crate::fact_query::error::FactQueryError;
use crate::ir::{Arg, BodyClause};
use crate::value::Symbol;

verus! {

/// A conjunctive query: output expressions over a body of clauses.
#[derive(Debug)]
pub struct ConjunctiveQuery {
    outputs: Vec<Expr>,
    body: Vec<BodyClause>,
}

/// The variables the first `k` clauses of `body` bind: those of positive
/// atoms, aggregate outputs, and each `let` variable whose expression reads
/// only variables bound by the clauses before it.
pub open spec fn bound_set(body: Seq<BodyClause>, k: int) -> Set<Symbol>
    decreases k,
{
    if k <= 0 || k > body.len() {
        Set::empty()
    } else {
        let prev = bound_set(body, k - 1);
        match body[k - 1] {
            BodyClause::Positive(a) => prev.union(Set::new(|s: Symbol| args_bind(a.args@, s))),
            BodyClause::Let { var, expr } => if forall|t: Symbol| mentions(expr, t) ==> #[trigger] prev.contains(t) {
                prev.insert(var)
            } else {
                prev
            },
            BodyClause::Aggregate(g) => prev.insert(g.output),
            _ => prev,
        }
    }
}

/// Whether the first `k` clauses of `body` bind `s`.
pub open spec fn bound_upto(body: Seq<BodyClause>, k: int, s: Symbol) -> bool {
    bound_set(body, k).contains(s)
}

/// Whether the body binds `s`.
pub open spec fn bound_in(body: Seq<BodyClause>, s: Symbol) -> bool {
    bound_upto(body, body.len() as int, s)
}

/// Whether every variable of `e` is bound by `body`.
pub open spec fn restricted(e: Expr, body: Seq<BodyClause>) -> bool {
    forall|s: Symbol| mentions(e, s) ==> bound_in(body, s)
}

/// A query is safe when its body has no negation and every variable of its
/// outputs and of its `if` filters is bound by the body.
pub open spec fn safe_spec(outputs: Seq<Expr>, body: Seq<BodyClause>) -> bool {
    &&& forall|k: int| 0 <= k < body.len() ==> !((#[trigger] body[k]) is Negative)
    &&& forall|k: int| 0 <= k < outputs.len() ==> restricted(#[trigger] outputs[k], body)
    &&& forall|k: int| 0 <= k < body.len() ==> ((#[trigger] body[k]) matches BodyClause::Condition(e) ==> restricted(e, body))
}

impl ConjunctiveQuery {
    /// A query of these outputs over this body.
    pub fn new(outputs: Vec<Expr>, body: Vec<BodyClause>) -> (r: ConjunctiveQuery)
        ensures
            r.outputs_spec() == outputs@,
            r.body_spec() == body@,
    {
        ConjunctiveQuery { outputs, body }
    }

    /// The output expressions.
    pub closed spec fn outputs_spec(&self) -> Seq<Expr> {
        self.outputs@
    }

    /// The body clauses.
    pub closed spec fn body_spec(&self) -> Seq<BodyClause> {
        self.body@
    }

    /// The output expressions.
    pub fn outputs(&self) -> (r: &[Expr])
        ensures
            r@ == self.outputs_spec(),
    {
        self.outputs.as_slice()
    }

    /// The body clauses.
    pub fn body(&self) -> (r: &[BodyClause])
        ensures
            r@ == self.body_spec(),
    {
        self.body.as_slice()
    }

    /// Checks safety: no negation, and every variable used in an output or
    /// an `if` filter is bound by a positive atom, an aggregate, or a `let`
    /// whose expression reads only variables bound before it ([`bound_in`]).
    /// `resolve` names variables in the error.
    pub fn check_safety<F: Fn(Symbol) -> Option<String>>(&self, resolve: F) -> (r: Result<(), FactQueryError>)
        requires
            forall|s: Symbol| call_requires(resolve, (s,)),
        ensures
            r is Ok <==> safe_spec(self.outputs_spec(), self.body_spec()),
            r matches Err(e) ==> e is Unsafe,
    {
        let ghost body = self.body@;
        let mut bound: Vec<Symbol> = Vec::new();
        let mut k: usize = 0;
        while k < self.body.len()
            invariant
                body == self.body@,
                k <= body.len(),
                forall|j: int| 0 <= j < k ==> !((#[trigger] body[j]) is Negative),
                forall|s: Symbol| bound@.contains(s) <==> bound_upto(body, k as int, s),
            decreases body.len() - k,
        {
            let ghost b0 = bound@;
            let ghost prev = bound_set(body, k as int);
            let ghost k1: int = k + 1;
            assert(k1 - 1 == k);
            match &self.body[k] {
                BodyClause::Positive(atom) => {
                    add_arg_vars(&atom.args, &mut bound);
                    proof {
                        assert(body[k as int] == BodyClause::Positive(*atom));
                        assert(bound_set(body, k1) == prev.union(Set::new(|s: Symbol| args_bind(atom.args@, s))));
                        assert forall|t: Symbol| bound@.contains(t) <==> bound_upto(body, k1, t) by {
                            assert(prev.contains(t) <==> b0.contains(t));
                            assert(Set::new(|s: Symbol| args_bind(atom.args@, s)).contains(t) == args_bind(atom.args@, t));
                            assert(bound_set(body, k1).contains(t) == (prev.contains(t) || args_bind(atom.args@, t)));
                        }
                    }
                },
                BodyClause::Let { var, expr } => {
                    let fu = first_unbound(expr, &bound);
                    proof {
                        assert(body[k as int] == (BodyClause::Let { var: *var, expr: *expr }));
                    }
                    match fu {
                        Some(v) => {
                            proof {
                                assert(mentions(*expr, v) && !prev.contains(v));
                                assert(bound_set(body, k1) == prev);
                                assert forall|t: Symbol| bound@.contains(t) <==> bound_upto(body, k1, t) by {
                                    assert(prev.contains(t) <==> b0.contains(t));
                                }
                            }
                        },
                        None => {
                            push_var(&mut bound, *var);
                            proof {
                                assert forall|t: Symbol| mentions(*expr, t) implies #[trigger] prev.contains(t) by {
                                    assert(b0.contains(t));
                                }
                                assert(bound_set(body, k1) == prev.insert(*var));
                                assert forall|t: Symbol| bound@.contains(t) <==> bound_upto(body, k1, t) by {
                                    assert(prev.contains(t) <==> b0.contains(t));
                                }
                            }
                        },
                    }
                },
                BodyClause::Aggregate(agg) => {
                    push_var(&mut bound, agg.output);
                    proof {
                        assert(body[k as int] == BodyClause::Aggregate(*agg));
                        assert(bound_set(body, k1) == prev.insert(agg.output));
                        assert forall|t: Symbol| bound@.contains(t) <==> bound_upto(body, k1, t) by {
                            assert(prev.contains(t) <==> b0.contains(t));
                        }
                    }
                },
                BodyClause::Negative(_) => {
                    return Err(FactQueryError::Unsafe("negation is not allowed in a conjunctive query".to_owned()));
                },
                BodyClause::Condition(e) => {
                    proof {
                        assert(body[k as int] == BodyClause::Condition(*e));
                        assert(bound_set(body, k1) == prev);
                        assert forall|t: Symbol| bound@.contains(t) <==> bound_upto(body, k1, t) by {
                            assert(prev.contains(t) <==> b0.contains(t));
                        }
                    }
                },
            }
            k += 1;
        }
        proof {
            assert(body.len() as int == k as int);
        }
        let mut o: usize = 0;
        while o < self.outputs.len()
            invariant
                body == self.body@,
                forall|s: Symbol| bound@.contains(s) <==> bound_in(body, s),
                o <= self.outputs@.len(),
                forall|j: int| 0 <= j < o ==> restricted(#[trigger] self.outputs@[j], body),
                forall|s: Symbol| call_requires(resolve, (s,)),
            decreases self.outputs@.len() - o,
        {
            match first_unbound(&self.outputs[o], &bound) {
                Some(v) => {
                    return Err(FactQueryError::Unsafe(unsafe_message("output expression", v, &resolve)));
                },
                None => {},
            }
            o += 1;
        }
        let mut c: usize = 0;
        while c < self.body.len()
            invariant
                body == self.body@,
                forall|s: Symbol| bound@.contains(s) <==> bound_in(body, s),
                forall|j: int| 0 <= j < self.outputs@.len() ==> restricted(#[trigger] self.outputs@[j], body),
                forall|j: int| 0 <= j < body.len() ==> !((#[trigger] body[j]) is Negative),
                c <= body.len(),
                forall|j: int| 0 <= j < c ==> ((#[trigger] body[j]) matches BodyClause::Condition(e) ==> restricted(e, body)),
                forall|s: Symbol| call_requires(resolve, (s,)),
            decreases body.len() - c,
        {
            match &self.body[c] {
                BodyClause::Condition(e) => {
                    match first_unbound(e, &bound) {
                        Some(v) => {
                            return Err(FactQueryError::Unsafe(unsafe_message("filter", v, &resolve)));
                        },
                        None => {},
                    }
                },
                _ => {},
            }
            c += 1;
        }
        Ok(())
    }
}

/// Whether some argument binds `s`.
pub open spec fn args_bind(args: Seq<Arg>, s: Symbol) -> bool {
    exists|x: int| 0 <= x < args.len() && arg_var(#[trigger] args[x]) == Some(s)
}

/// Adds the variables of atom arguments to `bound`.
fn add_arg_vars(args: &Vec<Arg>, bound: &mut Vec<Symbol>)
    ensures
        forall|s: Symbol| final(bound)@.contains(s) <==> (old(bound)@.contains(s) || args_bind(args@, s)),
{
    let ghost b0 = bound@;
    let mut i: usize = 0;
    while i < args.len()
        invariant
            i <= args@.len(),
            b0 == old(bound)@,
            forall|s: Symbol| bound@.contains(s) <==> (b0.contains(s) || args_bind(args@.take(i as int), s)),
        decreases args@.len() - i,
    {
        let ghost bi = bound@;
        let ghost t0 = args@.take(i as int);
        let ghost t1 = args@.take(i + 1);
        assert(t1 =~= t0.push(args@[i as int]));
        proof {
            assert forall|t: Symbol| args_bind(t1, t) <==> (args_bind(t0, t) || arg_var(args@[i as int]) == Some(t)) by {
                if args_bind(t1, t) {
                    let x = choose|x: int| 0 <= x < t1.len() && arg_var(#[trigger] t1[x]) == Some(t);
                    if x < i {
                        assert(t0[x] == t1[x]);
                    }
                }
                if args_bind(t0, t) {
                    let x = choose|x: int| 0 <= x < t0.len() && arg_var(#[trigger] t0[x]) == Some(t);
                    assert(t1[x] == t0[x]);
                }
                if arg_var(args@[i as int]) == Some(t) {
                    assert(t1[i as int] == args@[i as int]);
                }
            }
        }
        match args[i] {
            Arg::Var(v) | Arg::LatticeBind(v) => {
                bound.push(v);
                proof {
                    assert(arg_var(args@[i as int]) == Some(v));
                    assert forall|t: Symbol| bound@.contains(t) <==> (bi.contains(t) || arg_var(args@[i as int]) == Some(t)) by {
                        if bound@.contains(t) {
                            let w = choose|w: int| 0 <= w < bound@.len() && bound@[w] == t;
                            if w < bi.len() { assert(bi[w] == t); }
                        }
                        if bi.contains(t) {
                            let w = choose|w: int| 0 <= w < bi.len() && bi[w] == t;
                            assert(bound@[w] == t);
                        }
                        if t == v {
                            assert(bound@[bound@.len() - 1] == t);
                        }
                    }
                }
            },
            _ => {
                assert(arg_var(args@[i as int]) is None);
                assert forall|t: Symbol| bound@.contains(t) <==> (bi.contains(t) || arg_var(args@[i as int]) == Some(t)) by {}
            },
        }
        proof {
            assert forall|t: Symbol| bound@.contains(t) <==> (b0.contains(t) || args_bind(t1, t)) by {
                assert(bound@.contains(t) <==> (bi.contains(t) || arg_var(args@[i as int]) == Some(t)));
                assert(bi.contains(t) <==> (b0.contains(t) || args_bind(t0, t)));
                assert(args_bind(t1, t) <==> (args_bind(t0, t) || arg_var(args@[i as int]) == Some(t)));
            }
        }
        i += 1;
    }
    assert(args@.take(i as int) =~= args@);
}

/// Adds a variable to `bound`.
fn push_var(bound: &mut Vec<Symbol>, v: Symbol)
    ensures
        forall|t: Symbol| final(bound)@.contains(t) <==> (old(bound)@.contains(t) || t == v),
{
    let ghost b0 = bound@;
    bound.push(v);
    assert forall|t: Symbol| bound@.contains(t) <==> (b0.contains(t) || t == v) by {
        if bound@.contains(t) {
            let w = choose|w: int| 0 <= w < bound@.len() && bound@[w] == t;
            if w < b0.len() { assert(b0[w] == t); }
        }
        if b0.contains(t) {
            let w = choose|w: int| 0 <= w < b0.len() && b0[w] == t;
            assert(bound@[w] == t);
        }
        if t == v {
            assert(bound@[bound@.len() - 1] == t);
        }
    }
}

/// A variable of `e` that `bound` lacks, if any.
fn first_unbound(e: &Expr, bound: &Vec<Symbol>) -> (r: Option<Symbol>)
    ensures
        match r {
            Some(v) => mentions(*e, v) && !bound@.contains(v),
            None => forall|s: Symbol| mentions(*e, s) ==> bound@.contains(s),
        },
{
    let mut vars: Vec<Symbol> = Vec::new();
    e.collect_vars(&mut vars);
    proof { crate::expr::lemma_vars_spec(*e, Seq::empty()); }
    let mut i: usize = 0;
    while i < vars.len()
        invariant
            i <= vars@.len(),
            forall|s: Symbol| vars@.contains(s) <==> mentions(*e, s),
            forall|j: int| 0 <= j < i ==> bound@.contains(#[trigger] vars@[j]),
        decreases vars@.len() - i,
    {
        let v = vars[i];
        let mut found = false;
        let mut j: usize = 0;
        while j < bound.len()
            invariant
                j <= bound@.len(),
                found == exists|x: int| 0 <= x < j && bound@[x] == v,
            decreases bound@.len() - j,
        {
            if bound[j] == v {
                found = true;
            }
            j += 1;
        }
        if !found {
            assert(vars@.contains(v));
            return Some(v);
        }
        i += 1;
    }
    proof {
        assert forall|s: Symbol| mentions(*e, s) implies bound@.contains(s) by {
            assert(vars@.contains(s));
            let w = choose|w: int| 0 <= w < vars@.len() && vars@[w] == s;
            assert(bound@.contains(vars@[w]));
        }
    }
    None
}

/// How a variable is named in a message: by the name `resolve` gave it, or
/// else by its number.
pub open spec fn var_name(o: Option<String>, v: Symbol) -> Seq<char> {
    match o {
        Some(n) => n@,
        None => "<sym "@ + crate::expr::decimal(v.0 as nat) + ">"@,
    }
}

/// The message naming an unbound variable of an output or a filter.
fn unsafe_message<F: Fn(Symbol) -> Option<String>>(role: &str, v: Symbol, resolve: &F) -> (r: String)
    requires
        call_requires(*resolve, (v,)),
    ensures
        exists|o: Option<String>| call_ensures(*resolve, (v,), o)
            && r@ == role@ + " uses variable `"@ + var_name(o, v) + "`, which no positive body literal binds"@,
{
    let resolved = resolve(v);
    let ghost o = resolved;
    let name = match resolved {
        Some(n) => n,
        None => {
            let mut n = "<sym ".to_owned();
            n.append(crate::expr::describe_number(v.0 as u64).as_str());
            n.append(">");
            n
        },
    };
    let mut m = role.to_owned();
    m.append(" uses variable `");
    m.append(name.as_str());
    m.append("`, which no positive body literal binds");
    assert(name@ == var_name(o, v));
    m
}

/// Clause `j` of `body` binds `s` given what the clauses before it bind: a
/// positive atom binds its variables, an aggregate its output, and a `let`
/// its variable when its expression reads only variables bound before.
pub open spec fn clause_binds(body: Seq<BodyClause>, j: int, s: Symbol) -> bool {
    match body[j] {
        BodyClause::Positive(a) => exists|i: int| 0 <= i < a.args@.len() && arg_var(#[trigger] a.args@[i]) == Some(s),
        BodyClause::Aggregate(g) => g.output == s,
        BodyClause::Let { var, expr } => var == s && forall|t: Symbol| mentions(expr, t) ==> #[trigger] bound_upto(body, j, t),
        _ => false,
    }
}

/// What the first clauses bind only grows.
proof fn lemma_bound_grows(body: Seq<BodyClause>, j: int, k: int)
    requires
        0 <= j <= k <= body.len(),
    ensures
        bound_set(body, j).subset_of(bound_set(body, k)),
    decreases k - j,
{
    if j < k {
        lemma_bound_grows(body, j, k - 1);
        assert(bound_set(body, k - 1).subset_of(bound_set(body, k)));
    }
}

/// The first `k` clauses bind exactly the variables some clause among them
/// binds: every variable of a positive atom, every aggregate output, and
/// every `let` variable whose expression reads only variables bound before
/// it, and nothing else.
pub proof fn lemma_binders(body: Seq<BodyClause>, k: int, s: Symbol)
    requires
        0 <= k <= body.len(),
    ensures
        bound_upto(body, k, s) <==> exists|j: int| 0 <= j < k && #[trigger] clause_binds(body, j, s),
    decreases k,
{
    if k > 0 {
        lemma_binders(body, k - 1, s);
        let prev = bound_set(body, k - 1);
        if exists|j: int| 0 <= j < k && #[trigger] clause_binds(body, j, s) {
            let j = choose|j: int| 0 <= j < k && #[trigger] clause_binds(body, j, s);
            if j < k - 1 {
                assert(exists|j2: int| 0 <= j2 < k - 1 && #[trigger] clause_binds(body, j2, s));
                assert(bound_upto(body, k - 1, s));
                lemma_bound_grows(body, k - 1, k);
                assert(bound_set(body, k - 1).contains(s));
            } else {
                match body[j] {
                    BodyClause::Positive(a) => {
                        let i = choose|i: int| 0 <= i < a.args@.len() && arg_var(#[trigger] a.args@[i]) == Some(s);
                        assert(args_bind(a.args@, s));
                        assert(Set::new(|x: Symbol| args_bind(a.args@, x)).contains(s));
                        assert(bound_set(body, k) == prev.union(Set::new(|x: Symbol| args_bind(a.args@, x))));
                    },
                    BodyClause::Let { var, expr } => {
                        assert(forall|t: Symbol| mentions(expr, t) ==> #[trigger] prev.contains(t)) by {
                            assert forall|t: Symbol| mentions(expr, t) implies #[trigger] prev.contains(t) by {
                                assert(bound_upto(body, j, t));
                            }
                        }
                        assert(bound_set(body, k) == prev.insert(var));
                    },
                    BodyClause::Aggregate(g) => {
                        assert(bound_set(body, k) == prev.insert(g.output));
                    },
                    _ => {},
                }
            }
            assert(bound_upto(body, k, s));
        } else {
            assert(!(exists|j2: int| 0 <= j2 < k - 1 && #[trigger] clause_binds(body, j2, s))) by {
                if exists|j2: int| 0 <= j2 < k - 1 && #[trigger] clause_binds(body, j2, s) {
                    let j2 = choose|j2: int| 0 <= j2 < k - 1 && #[trigger] clause_binds(body, j2, s);
                    assert(0 <= j2 < k && clause_binds(body, j2, s));
                }
            }
            assert(!prev.contains(s));
            match body[k - 1] {
                BodyClause::Positive(a) => {
                    if args_bind(a.args@, s) {
                        let i = choose|i: int| 0 <= i < a.args@.len() && arg_var(#[trigger] a.args@[i]) == Some(s);
                        assert(clause_binds(body, k - 1, s));
                    }
                    assert(!Set::new(|x: Symbol| args_bind(a.args@, x)).contains(s));
                },
                BodyClause::Let { var, expr } => {
                    if var == s && forall|t: Symbol| mentions(expr, t) ==> #[trigger] prev.contains(t) {
                        assert(clause_binds(body, k - 1, s));
                    }
                },
                BodyClause::Aggregate(g) => {
                    if g.output == s {
                        assert(clause_binds(body, k - 1, s));
                    }
                },
                _ => {},
            }
        }
    }
}

/// A clause's binders are bound by the body: in particular the output of an
/// aggregate, so that a query may use it in its outputs and filters.
pub proof fn lemma_binders_bound(body: Seq<BodyClause>, j: int, s: Symbol)
    requires
        0 <= j < body.len(),
        clause_binds(body, j, s),
    ensures
        bound_in(body, s),
{
    lemma_binders(body, body.len() as int, s);
}

} // verus!
