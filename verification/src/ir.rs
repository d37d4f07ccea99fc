//! The runtime program IR produced by the parser and consumed by evaluation.

use vstd::prelude::*;

use crate::expr::Expr;
use crate::value::{Symbol, Type, Value};

verus! {

/// The lattice ordering applied to a lattice relation's value column.
#[derive(Debug, Clone, Copy, PartialEq, Eq, Structural)]
pub enum LatticeKind {
    /// Join is `max`.
    Max,
    /// Join is `min` (`Dual<T>`).
    Min,
}

/// The join of two lattice values: `max`/`min` on integers; a non-integer
/// pair joins to the newer value `b`.
pub open spec fn join_spec(k: LatticeKind, a: Value, b: Value) -> Value {
    match (a, b) {
        (Value::Int(x), Value::Int(y)) => match k {
            LatticeKind::Max => Value::Int(if x >= y { x } else { y }),
            LatticeKind::Min => Value::Int(if x <= y { x } else { y }),
        },
        _ => b,
    }
}

impl LatticeKind {
    /// Joins two lattice values under this ordering.
    pub fn join(self, a: Value, b: Value) -> (r: Value)
        ensures
            r == join_spec(self, a, b),
    {
        match (a, b) {
            (Value::Int(x), Value::Int(y)) => match self {
                LatticeKind::Max => Value::Int(if x >= y { x } else { y }),
                LatticeKind::Min => Value::Int(if x <= y { x } else { y }),
            },
            _ => b,
        }
    }
}

/// Whether a relation has set semantics or lattice semantics.
#[derive(Debug, Clone, Copy, PartialEq, Eq, Structural)]
pub enum RelationKind {
    /// Ordinary relation: a set of tuples.
    Relation,
    /// Lattice relation: the last column is joined on duplicate keys.
    Lattice(LatticeKind),
}

/// A relation declaration.
#[derive(Debug)]
pub struct RelationDecl {
    /// The relation's name.
    pub name: String,
    /// The column types, in order.
    pub schema: Vec<Type>,
    /// Set vs lattice semantics.
    pub kind: RelationKind,
}

impl RelationDecl {
    /// The number of columns.
    pub fn arity(&self) -> (r: usize)
        ensures
            r == self.schema@.len(),
    {
        self.schema.len()
    }
}

/// An argument in a body atom.
#[derive(Debug, Clone, Copy, PartialEq, Eq, Structural)]
pub enum Arg {
    /// Binds (on first occurrence) or constrains (on repeat) a variable.
    Var(Symbol),
    /// Matches a literal constant.
    Lit(Value),
    /// Matches anything, binding nothing.
    Wildcard,
    /// Reads a lattice value column, binding the stored value to a variable.
    LatticeBind(Symbol),
}

/// A relational atom: a relation name applied to positional arguments.
#[derive(Debug)]
pub struct Atom {
    /// The relation referenced.
    pub relation: String,
    /// The positional arguments.
    pub args: Vec<Arg>,
}

/// A built-in aggregation function.
#[derive(Debug, Clone, Copy, PartialEq, Eq, Structural)]
pub enum AggFunc {
    /// Number of matching tuples.
    Count,
    /// Wrapping sum of the aggregated expression.
    Sum,
    /// Minimum of the aggregated expression.
    Min,
    /// Maximum of the aggregated expression.
    Max,
}

/// An `agg out = func(arg) in source(..)` clause.
#[derive(Debug)]
pub struct Aggregate {
    /// The variable bound to the aggregate result.
    pub output: Symbol,
    /// The aggregation function.
    pub func: AggFunc,
    /// The expression aggregated (absent for [`AggFunc::Count`]).
    pub arg: Option<Expr>,
    /// The relation iterated.
    pub source: Atom,
}

/// A clause in a rule body.
#[derive(Debug)]
pub enum BodyClause {
    /// A positive atom: tuples must be present.
    Positive(Atom),
    /// A negated atom: no matching tuple may be present.
    Negative(Atom),
    /// An `if` guard.
    Condition(Expr),
    /// A `let` binding.
    Let {
        /// The bound variable.
        var: Symbol,
        /// The bound expression.
        expr: Expr,
    },
    /// An aggregation.
    Aggregate(Aggregate),
}

/// A head atom; its arguments are expressions over the body's bound variables.
#[derive(Debug)]
pub struct HeadAtom {
    /// The relation written to.
    pub relation: String,
    /// The column expressions, in order.
    pub args: Vec<Expr>,
}

/// A rule: one or more heads derived from a conjunctive body.
#[derive(Debug)]
pub struct Rule {
    /// The head atoms derived when the body is satisfied.
    pub heads: Vec<HeadAtom>,
    /// The body clauses, evaluated left to right.
    pub body: Vec<BodyClause>,
}

/// A complete program: relation declarations plus rules.
#[derive(Debug)]
pub struct Program {
    /// The relation declarations.
    pub relations: Vec<RelationDecl>,
    /// The rules.
    pub rules: Vec<Rule>,
}

/// The index of the first declaration named `name`.
pub open spec fn decl_index(rels: Seq<RelationDecl>, name: Seq<char>) -> Option<int> {
    if exists|i: int| 0 <= i < rels.len() && rels[i].name@ == name {
        Some(choose|i: int| 0 <= i < rels.len() && rels[i].name@ == name
            && forall|j: int| 0 <= j < i ==> rels[j].name@ != name)
    } else {
        None
    }
}

/// The first-declaration lookup is well defined.
pub proof fn lemma_decl_index(rels: Seq<RelationDecl>, name: Seq<char>)
    ensures
        match decl_index(rels, name) {
            Some(i) => 0 <= i < rels.len() && rels[i].name@ == name
                && forall|j: int| 0 <= j < i ==> rels[j].name@ != name,
            None => forall|j: int| 0 <= j < rels.len() ==> rels[j].name@ != name,
        },
{
    if exists|i: int| 0 <= i < rels.len() && rels[i].name@ == name {
        let i = choose|i: int| 0 <= i < rels.len() && rels[i].name@ == name;
        lemma_first_index(rels, name, i);
    }
}

proof fn lemma_first_index(rels: Seq<RelationDecl>, name: Seq<char>, i: int)
    requires
        0 <= i < rels.len(),
        rels[i].name@ == name,
    ensures
        exists|k: int| 0 <= k < rels.len() && rels[k].name@ == name
            && forall|j: int| 0 <= j < k ==> rels[j].name@ != name,
    decreases i,
{
    if exists|j: int| 0 <= j < i && rels[j].name@ == name {
        let j = choose|j: int| 0 <= j < i && rels[j].name@ == name;
        lemma_first_index(rels, name, j);
    } else {
        assert(forall|j: int| 0 <= j < i ==> rels[j].name@ != name);
    }
}

/// The expressions one clause hands to the evaluator.
pub open spec fn clause_exprs(c: BodyClause) -> Seq<Expr> {
    match c {
        BodyClause::Condition(e) => seq![e],
        BodyClause::Let { expr, .. } => seq![expr],
        BodyClause::Aggregate(agg) => match agg.arg {
            Some(e) => seq![e],
            None => Seq::empty(),
        },
        _ => Seq::empty(),
    }
}

/// The expressions of a rule: every head column, then every body expression.
pub open spec fn rule_exprs(r: Rule) -> Seq<Expr> {
    r.heads@.map_values(|h: HeadAtom| h.args@).flatten()
        + r.body@.map_values(|c: BodyClause| clause_exprs(c)).flatten()
}

/// The expressions of a program, rule by rule.
pub open spec fn program_exprs(p: Program) -> Seq<Expr> {
    p.rules@.map_values(|r: Rule| rule_exprs(r)).flatten()
}

impl Program {
    /// Whether the program is at its initial (empty) state.
    pub fn empty() -> (r: Program)
        ensures
            r.relations@.len() == 0,
            r.rules@.len() == 0,
    {
        Program { relations: Vec::new(), rules: Vec::new() }
    }

    /// Looks up the first relation declaration named `name`.
    pub fn relation(&self, name: &str) -> (r: Option<&RelationDecl>)
        ensures
            match decl_index(self.relations@, name@) {
                Some(i) => r == Some(&self.relations@[i]),
                None => r is None,
            },
    {
        let owned = name.to_owned();
        self.relation_named(&owned)
    }

    /// Looks up the first relation declaration named `name`.
    pub fn relation_named(&self, name: &String) -> (r: Option<&RelationDecl>)
        ensures
            match decl_index(self.relations@, name@) {
                Some(i) => r == Some(&self.relations@[i]),
                None => r is None,
            },
    {
        proof { lemma_decl_index(self.relations@, name@); }
        let mut i: usize = 0;
        while i < self.relations.len()
            invariant
                i <= self.relations.len(),
                forall|j: int| 0 <= j < i ==> self.relations@[j].name@ != name@,
            decreases self.relations.len() - i,
        {
            if self.relations[i].name == *name {
                return Some(&self.relations[i]);
            }
            i += 1;
        }
        None
    }

    /// Collects every top-level expression the rules evaluate: each head
    /// column expression and each body `if` condition, `let` binding, and
    /// aggregate argument, rule by rule.
    pub fn exprs(&self) -> (out: Vec<&Expr>)
        ensures
            out@.map_values(|e: &Expr| *e) == program_exprs(*self),
    {
        let mut out: Vec<&Expr> = Vec::new();
        let mut i: usize = 0;
        while i < self.rules.len()
            invariant
                i <= self.rules.len(),
                out@.map_values(|e: &Expr| *e)
                    == self.rules@.subrange(0, i as int).map_values(|r: Rule| rule_exprs(r)).flatten(),
            decreases self.rules.len() - i,
        {
            let rule = &self.rules[i];
            let ghost before = out@.map_values(|e: &Expr| *e);
            let mut h: usize = 0;
            while h < rule.heads.len()
                invariant
                    h <= rule.heads.len(),
                    rule == &self.rules@[i as int],
                    out@.map_values(|e: &Expr| *e) == before
                        + rule.heads@.subrange(0, h as int).map_values(|x: HeadAtom| x.args@).flatten(),
                decreases rule.heads.len() - h,
            {
                let head = &rule.heads[h];
                let ghost mid = out@.map_values(|e: &Expr| *e);
                let mut k: usize = 0;
                while k < head.args.len()
                    invariant
                        k <= head.args.len(),
                        out@.map_values(|e: &Expr| *e) == mid + head.args@.subrange(0, k as int),
                    decreases head.args.len() - k,
                {
                    let ghost prev = out@;
                    out.push(&head.args[k]);
                    proof {
                        assert(out@.map_values(|e: &Expr| *e)
                            =~= prev.map_values(|e: &Expr| *e).push(head.args@[k as int]));
                        assert(head.args@.subrange(0, k + 1) =~= head.args@.subrange(0, k as int).push(head.args@[k as int]));
                        assert(out@.map_values(|e: &Expr| *e)
                            =~= mid + head.args@.subrange(0, k + 1));
                    }
                    k += 1;
                }
                proof {
                    let hs = rule.heads@.subrange(0, h + 1).map_values(|x: HeadAtom| x.args@);
                    assert(hs.drop_last() =~= rule.heads@.subrange(0, h as int).map_values(|x: HeadAtom| x.args@));
                    hs.drop_last().lemma_flatten_push(hs.last());
                    assert(head.args@.subrange(0, k as int) =~= head.args@);
                    assert(hs.drop_last().push(hs.last()) =~= hs);
                }
                h += 1;
            }
            let ghost after_heads = out@.map_values(|e: &Expr| *e);
            proof {
                assert(rule.heads@.subrange(0, h as int) =~= rule.heads@);
            }
            let mut c: usize = 0;
            while c < rule.body.len()
                invariant
                    c <= rule.body.len(),
                    rule == &self.rules@[i as int],
                    out@.map_values(|e: &Expr| *e) == after_heads
                        + rule.body@.subrange(0, c as int).map_values(|x: BodyClause| clause_exprs(x)).flatten(),
                decreases rule.body.len() - c,
            {
                let ghost mid = out@.map_values(|e: &Expr| *e);
                match &rule.body[c] {
                    BodyClause::Condition(e) => { out.push(e); },
                    BodyClause::Let { expr, .. } => { out.push(expr); },
                    BodyClause::Aggregate(agg) => {
                        match &agg.arg {
                            Some(e) => { out.push(e); },
                            None => {},
                        }
                    },
                    _ => {},
                }
                proof {
                    let cs = rule.body@.subrange(0, c + 1).map_values(|x: BodyClause| clause_exprs(x));
                    assert(cs.drop_last() =~= rule.body@.subrange(0, c as int).map_values(|x: BodyClause| clause_exprs(x)));
                    cs.drop_last().lemma_flatten_push(cs.last());
                    assert(cs.drop_last().push(cs.last()) =~= cs);
                    assert(out@.map_values(|e: &Expr| *e) =~= mid + clause_exprs(rule.body@[c as int]));
                }
                c += 1;
            }
            proof {
                assert(rule.body@.subrange(0, c as int) =~= rule.body@);
                let rs = self.rules@.subrange(0, i + 1).map_values(|r: Rule| rule_exprs(r));
                assert(rs.drop_last() =~= self.rules@.subrange(0, i as int).map_values(|r: Rule| rule_exprs(r)));
                rs.drop_last().lemma_flatten_push(rs.last());
                assert(rs.drop_last().push(rs.last()) =~= rs);
            }
            i += 1;
        }
        proof {
            assert(self.rules@.subrange(0, i as int) =~= self.rules@);
        }
        out
    }
}

} // verus!
