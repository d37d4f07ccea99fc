//! The textual frontend: Ascent-style surface syntax to the [`Program`] IR.
//!
//! ```text
//! program    := (decl | rule)*
//! decl       := ("relation" | "lattice") ident "(" col ("," col)* ")" ";"
//! col        := "dual"? type            // "dual" only on a lattice's last col
//! type       := "int" | "bool" | "sym"
//! rule       := head ("," head)* "<--" clause ("," clause)* ";"
//! head       := ident "(" (expr ("," expr)*)? ")"
//! clause     := atom | "!" atom | "if" expr | "let" ident "=" expr | agg
//! agg        := "agg" ident "=" aggfn "(" expr? ")" "in" atom
//! atom       := ident "(" (arg ("," arg)*)? ")"
//! arg        := ident | "_" | "-"? int | "true" | "false" | string
//!             | "?" ("Dual" "(" ident ")" | ident)
//! query      := "(" expr ("," expr)* ")" "<--" clause ("," clause)* ";"?
//! ```
//!
//! Expressions, loosest first: `||`, `&&`, one comparison, `+ -`, `* / %`,
//! a postfix `as type` (ignored), prefix `- !`, and primaries (parentheses,
//! literals, variables, `Dual(e)` which stands for `e`). Symbols are interned
//! as they are met, left to right.

use vstd::prelude::*;

use crate::expr::{binary_spec, BinOp, Expr, Outcome, UnOp};
use crate::ir::{AggFunc, Aggregate, Arg, Atom, BodyClause, HeadAtom, LatticeKind, Program, RelationDecl, RelationKind, Rule};
use crate::lexer::{chars_of, digits_end, is_digit, is_ws, lemma_digits_all, lemma_digits_prefix, lemma_scan_progress, lex_spec, step_spec, Step, Tok, TokV};
use crate::value::{Interner, Symbol, Type, Value};

verus! {

/// An interner's table.
pub type Names = Seq<Seq<char>>;

/// An atom, as values.
pub struct AtomV {
    pub relation: Seq<char>,
    pub args: Seq<Arg>,
}

/// A body clause, as values.
pub enum ClauseV {
    Positive(AtomV),
    Negative(AtomV),
    Condition(Expr),
    Let(Symbol, Expr),
    Aggregate(Symbol, AggFunc, Option<Expr>, AtomV),
}

/// A head atom, as values.
pub struct HeadV {
    pub relation: Seq<char>,
    pub args: Seq<Expr>,
}

/// A rule, as values.
pub struct RuleV {
    pub heads: Seq<HeadV>,
    pub body: Seq<ClauseV>,
}

/// A relation declaration, as values.
pub struct DeclV {
    pub name: Seq<char>,
    pub schema: Seq<Type>,
    pub kind: RelationKind,
}

/// A program, as values.
pub struct ProgramV {
    pub relations: Seq<DeclV>,
    pub rules: Seq<RuleV>,
}

pub open spec fn atom_view(a: Atom) -> AtomV {
    AtomV { relation: a.relation@, args: a.args@ }
}

pub open spec fn clause_view(c: BodyClause) -> ClauseV {
    match c {
        BodyClause::Positive(a) => ClauseV::Positive(atom_view(a)),
        BodyClause::Negative(a) => ClauseV::Negative(atom_view(a)),
        BodyClause::Condition(e) => ClauseV::Condition(e),
        BodyClause::Let { var, expr } => ClauseV::Let(var, expr),
        BodyClause::Aggregate(g) => ClauseV::Aggregate(g.output, g.func, g.arg, atom_view(g.source)),
    }
}

pub open spec fn clauses_view(cs: Seq<BodyClause>) -> Seq<ClauseV> {
    cs.map_values(|c: BodyClause| clause_view(c))
}

pub open spec fn head_view(h: HeadAtom) -> HeadV {
    HeadV { relation: h.relation@, args: h.args@ }
}

pub open spec fn rule_view(r: Rule) -> RuleV {
    RuleV { heads: r.heads@.map_values(|h: HeadAtom| head_view(h)), body: clauses_view(r.body@) }
}

pub open spec fn decl_view(d: RelationDecl) -> DeclV {
    DeclV { name: d.name@, schema: d.schema@, kind: d.kind }
}

pub open spec fn program_view(p: Program) -> ProgramV {
    ProgramV {
        relations: p.relations@.map_values(|d: RelationDecl| decl_view(d)),
        rules: p.rules@.map_values(|r: Rule| rule_view(r)),
    }
}

/// Interning `s` in table `n`: its existing symbol, or the next one (none
/// once the `u32` id space is exhausted).
pub open spec fn intern_spec(n: Names, s: Seq<char>) -> Option<(Symbol, Names)> {
    if n.contains(s) {
        Some((Symbol(n.index_of(s) as u32), n))
    } else if n.len() <= u32::MAX {
        Some((Symbol(n.len() as u32), n.push(s)))
    } else {
        None
    }
}

/// The token at `p`, if any.
pub open spec fn tok_at(ts: Seq<TokV>, p: int) -> Option<TokV> {
    if 0 <= p < ts.len() { Some(ts[p]) } else { None }
}

/// Whether the token at `p` is the word `w`.
pub open spec fn word_at(ts: Seq<TokV>, p: int, w: Seq<char>) -> bool {
    tok_at(ts, p) == Some(TokV::Ident(w))
}

/// The identifier at `p`.
pub open spec fn ident_spec(ts: Seq<TokV>, p: int) -> Option<Seq<char>> {
    match tok_at(ts, p) {
        Some(TokV::Ident(s)) => Some(s),
        _ => None,
    }
}

/// A parse of something at a position: the value, the next position, and
/// the interner table after it; `None` when the input is rejected.
pub type Parsed<T> = Option<(T, int, Names)>;

/// A body argument.
pub open spec fn arg_spec(ts: Seq<TokV>, p: int, n: Names) -> Parsed<Arg> {
    match tok_at(ts, p) {
        Some(TokV::Underscore) => Some((Arg::Wildcard, p + 1, n)),
        Some(TokV::Int(v)) => Some((Arg::Lit(Value::Int(v)), p + 1, n)),
        Some(TokV::Minus) => match tok_at(ts, p + 1) {
            Some(TokV::Int(v)) => Some((Arg::Lit(Value::Int((-v) as i64)), p + 2, n)),
            _ => None,
        },
        Some(TokV::Str(s)) => match intern_spec(n, s) {
            Some((sym, n2)) => Some((Arg::Lit(Value::Sym(sym)), p + 1, n2)),
            None => None,
        },
        Some(TokV::Question) => if word_at(ts, p + 1, "Dual"@) {
            if tok_at(ts, p + 2) == Some(TokV::LParen) && ident_spec(ts, p + 3) is Some
                && tok_at(ts, p + 4) == Some(TokV::RParen) {
                match intern_spec(n, ident_spec(ts, p + 3).unwrap()) {
                    Some((sym, n2)) => Some((Arg::LatticeBind(sym), p + 5, n2)),
                    None => None,
                }
            } else {
                None
            }
        } else {
            match ident_spec(ts, p + 1) {
                Some(v) => match intern_spec(n, v) {
                    Some((sym, n2)) => Some((Arg::LatticeBind(sym), p + 2, n2)),
                    None => None,
                },
                None => None,
            }
        },
        Some(TokV::Ident(s)) => if s == "true"@ {
            Some((Arg::Lit(Value::Bool(true)), p + 1, n))
        } else if s == "false"@ {
            Some((Arg::Lit(Value::Bool(false)), p + 1, n))
        } else {
            match intern_spec(n, s) {
                Some((sym, n2)) => Some((Arg::Var(sym), p + 1, n2)),
                None => None,
            }
        },
        _ => None,
    }
}

/// The arguments after `acc`, from `p` up to and including the closing `)`.
pub open spec fn args_from(ts: Seq<TokV>, p: int, n: Names, acc: Seq<Arg>) -> Parsed<Seq<Arg>>
    decreases ts.len() - p,
{
    match arg_spec(ts, p, n) {
        None => None,
        Some((a, p1, n1)) => if !(p < p1 < ts.len()) {
            None
        } else {
            match ts[p1] {
                TokV::Comma => if p1 + 1 <= ts.len() { args_from(ts, p1 + 1, n1, acc.push(a)) } else { None },
                TokV::RParen => Some((acc.push(a), p1 + 1, n1)),
                _ => None,
            }
        },
    }
}

/// An atom `rel(args)`.
pub open spec fn atom_spec(ts: Seq<TokV>, p: int, n: Names) -> Parsed<AtomV> {
    match ident_spec(ts, p) {
        None => None,
        Some(rel) => if tok_at(ts, p + 1) != Some(TokV::LParen) {
            None
        } else if tok_at(ts, p + 2) == Some(TokV::RParen) {
            Some((AtomV { relation: rel, args: Seq::empty() }, p + 3, n))
        } else {
            match args_from(ts, p + 2, n, Seq::empty()) {
                Some((args, p1, n1)) => Some((AtomV { relation: rel, args }, p1, n1)),
                None => None,
            }
        },
    }
}

/// The binary operator of a comparison token.
pub open spec fn compare_op(t: Option<TokV>) -> Option<BinOp> {
    match t {
        Some(TokV::EqEq) => Some(BinOp::Eq),
        Some(TokV::Ne) => Some(BinOp::Ne),
        Some(TokV::Lt) => Some(BinOp::Lt),
        Some(TokV::Le) => Some(BinOp::Le),
        Some(TokV::Gt) => Some(BinOp::Gt),
        Some(TokV::Ge) => Some(BinOp::Ge),
        _ => None,
    }
}

/// The binary operator of an additive token.
pub open spec fn add_op(t: Option<TokV>) -> Option<BinOp> {
    match t {
        Some(TokV::Plus) => Some(BinOp::Add),
        Some(TokV::Minus) => Some(BinOp::Sub),
        _ => None,
    }
}

/// The binary operator of a multiplicative token.
pub open spec fn mul_op(t: Option<TokV>) -> Option<BinOp> {
    match t {
        Some(TokV::Star) => Some(BinOp::Mul),
        Some(TokV::Slash) => Some(BinOp::Div),
        Some(TokV::Percent) => Some(BinOp::Rem),
        _ => None,
    }
}

/// An expression.
pub open spec fn expr_spec(ts: Seq<TokV>, p: int, n: Names) -> Parsed<Expr>
    decreases ts.len() - p, 8int,
{
    if p > ts.len() { None } else { or_spec(ts, p, n) }
}

/// `a || b || ..`, left-associative.
pub open spec fn or_spec(ts: Seq<TokV>, p: int, n: Names) -> Parsed<Expr>
    decreases ts.len() - p, 7int,
{
    if p > ts.len() {
        None
    } else {
        match and_spec(ts, p, n) {
            Some((l, p1, n1)) => if p < p1 <= ts.len() { or_tail(ts, l, p1, n1) } else { None },
            None => None,
        }
    }
}

pub open spec fn or_tail(ts: Seq<TokV>, lhs: Expr, p: int, n: Names) -> Parsed<Expr>
    decreases ts.len() - p, 7int,
{
    if p > ts.len() {
        None
    } else if tok_at(ts, p) == Some(TokV::OrOr) {
        match and_spec(ts, p + 1, n) {
            Some((r, p1, n1)) => if p + 1 < p1 <= ts.len() {
                or_tail(ts, Expr::Binary(BinOp::Or, Box::new(lhs), Box::new(r)), p1, n1)
            } else {
                None
            },
            None => None,
        }
    } else {
        Some((lhs, p, n))
    }
}

/// `a && b && ..`, left-associative.
pub open spec fn and_spec(ts: Seq<TokV>, p: int, n: Names) -> Parsed<Expr>
    decreases ts.len() - p, 6int,
{
    if p > ts.len() {
        None
    } else {
        match compare_spec(ts, p, n) {
            Some((l, p1, n1)) => if p < p1 <= ts.len() { and_tail(ts, l, p1, n1) } else { None },
            None => None,
        }
    }
}

pub open spec fn and_tail(ts: Seq<TokV>, lhs: Expr, p: int, n: Names) -> Parsed<Expr>
    decreases ts.len() - p, 6int,
{
    if p > ts.len() {
        None
    } else if tok_at(ts, p) == Some(TokV::AndAnd) {
        match compare_spec(ts, p + 1, n) {
            Some((r, p1, n1)) => if p + 1 < p1 <= ts.len() {
                and_tail(ts, Expr::Binary(BinOp::And, Box::new(lhs), Box::new(r)), p1, n1)
            } else {
                None
            },
            None => None,
        }
    } else {
        Some((lhs, p, n))
    }
}

/// At most one comparison between two additive expressions.
pub open spec fn compare_spec(ts: Seq<TokV>, p: int, n: Names) -> Parsed<Expr>
    decreases ts.len() - p, 5int,
{
    if p > ts.len() {
        None
    } else {
        match add_spec(ts, p, n) {
            Some((l, p1, n1)) => if !(p < p1 <= ts.len()) {
                None
            } else {
                match compare_op(tok_at(ts, p1)) {
                    Some(op) => match add_spec(ts, p1 + 1, n1) {
                        Some((r, p2, n2)) => Some((Expr::Binary(op, Box::new(l), Box::new(r)), p2, n2)),
                        None => None,
                    },
                    None => Some((l, p1, n1)),
                }
            },
            None => None,
        }
    }
}

/// `a + b - ..`, left-associative.
pub open spec fn add_spec(ts: Seq<TokV>, p: int, n: Names) -> Parsed<Expr>
    decreases ts.len() - p, 4int,
{
    if p > ts.len() {
        None
    } else {
        match mul_spec(ts, p, n) {
            Some((l, p1, n1)) => if p < p1 <= ts.len() { add_tail(ts, l, p1, n1) } else { None },
            None => None,
        }
    }
}

pub open spec fn add_tail(ts: Seq<TokV>, lhs: Expr, p: int, n: Names) -> Parsed<Expr>
    decreases ts.len() - p, 4int,
{
    if p > ts.len() {
        None
    } else {
        match add_op(tok_at(ts, p)) {
            Some(op) => match mul_spec(ts, p + 1, n) {
                Some((r, p1, n1)) => if p + 1 < p1 <= ts.len() {
                    add_tail(ts, Expr::Binary(op, Box::new(lhs), Box::new(r)), p1, n1)
                } else {
                    None
                },
                None => None,
            },
            None => Some((lhs, p, n)),
        }
    }
}

/// `a * b / c % ..`, left-associative.
pub open spec fn mul_spec(ts: Seq<TokV>, p: int, n: Names) -> Parsed<Expr>
    decreases ts.len() - p, 3int,
{
    if p > ts.len() {
        None
    } else {
        match cast_spec(ts, p, n) {
            Some((l, p1, n1)) => if p < p1 <= ts.len() { mul_tail(ts, l, p1, n1) } else { None },
            None => None,
        }
    }
}

pub open spec fn mul_tail(ts: Seq<TokV>, lhs: Expr, p: int, n: Names) -> Parsed<Expr>
    decreases ts.len() - p, 3int,
{
    if p > ts.len() {
        None
    } else {
        match mul_op(tok_at(ts, p)) {
            Some(op) => match cast_spec(ts, p + 1, n) {
                Some((r, p1, n1)) => if p + 1 < p1 <= ts.len() {
                    mul_tail(ts, Expr::Binary(op, Box::new(lhs), Box::new(r)), p1, n1)
                } else {
                    None
                },
                None => None,
            },
            None => Some((lhs, p, n)),
        }
    }
}

/// A unary expression, optionally followed by `as type` (which is ignored).
pub open spec fn cast_spec(ts: Seq<TokV>, p: int, n: Names) -> Parsed<Expr>
    decreases ts.len() - p, 2int,
{
    if p > ts.len() {
        None
    } else {
        match unary_spec(ts, p, n) {
            Some((e, p1, n1)) => if word_at(ts, p1, "as"@) {
                if ident_spec(ts, p1 + 1) is Some { Some((e, p1 + 2, n1)) } else { None }
            } else {
                Some((e, p1, n1))
            },
            None => None,
        }
    }
}

/// Prefix `-` and `!`.
pub open spec fn unary_spec(ts: Seq<TokV>, p: int, n: Names) -> Parsed<Expr>
    decreases ts.len() - p, 1int,
{
    if p >= ts.len() {
        None
    } else if ts[p] == TokV::Minus {
        match unary_spec(ts, p + 1, n) {
            Some((e, p1, n1)) => Some((Expr::Unary(UnOp::Neg, Box::new(e)), p1, n1)),
            None => None,
        }
    } else if ts[p] == TokV::Bang {
        match unary_spec(ts, p + 1, n) {
            Some((e, p1, n1)) => Some((Expr::Unary(UnOp::Not, Box::new(e)), p1, n1)),
            None => None,
        }
    } else {
        primary_spec(ts, p, n)
    }
}

/// Parentheses, literals, variables and `Dual(e)`.
pub open spec fn primary_spec(ts: Seq<TokV>, p: int, n: Names) -> Parsed<Expr>
    decreases ts.len() - p, 0int,
{
    if p >= ts.len() {
        None
    } else {
        match ts[p] {
            TokV::LParen => match expr_spec(ts, p + 1, n) {
                Some((e, p1, n1)) => if tok_at(ts, p1) == Some(TokV::RParen) { Some((e, p1 + 1, n1)) } else { None },
                None => None,
            },
            TokV::Int(v) => Some((Expr::Lit(Value::Int(v)), p + 1, n)),
            TokV::Str(s) => match intern_spec(n, s) {
                Some((sym, n2)) => Some((Expr::Lit(Value::Sym(sym)), p + 1, n2)),
                None => None,
            },
            TokV::Ident(s) => if s == "true"@ {
                Some((Expr::Lit(Value::Bool(true)), p + 1, n))
            } else if s == "false"@ {
                Some((Expr::Lit(Value::Bool(false)), p + 1, n))
            } else if s == "Dual"@ {
                if tok_at(ts, p + 1) != Some(TokV::LParen) {
                    None
                } else {
                    match expr_spec(ts, p + 2, n) {
                        Some((e, p1, n1)) => if tok_at(ts, p1) == Some(TokV::RParen) { Some((e, p1 + 1, n1)) } else { None },
                        None => None,
                    }
                }
            } else {
                match intern_spec(n, s) {
                    Some((sym, n2)) => Some((Expr::Var(sym), p + 1, n2)),
                    None => None,
                }
            },
            _ => None,
        }
    }
}

/// The expressions after `acc`, from `p` up to and including the closing `)`.
pub open spec fn exprs_from(ts: Seq<TokV>, p: int, n: Names, acc: Seq<Expr>) -> Parsed<Seq<Expr>>
    decreases ts.len() - p,
{
    match expr_spec(ts, p, n) {
        None => None,
        Some((e, p1, n1)) => if !(p < p1 < ts.len()) {
            None
        } else {
            match ts[p1] {
                TokV::Comma => exprs_from(ts, p1 + 1, n1, acc.push(e)),
                TokV::RParen => Some((acc.push(e), p1 + 1, n1)),
                _ => None,
            }
        },
    }
}

/// A head `rel(exprs)`.
pub open spec fn head_spec(ts: Seq<TokV>, p: int, n: Names) -> Parsed<HeadV> {
    match ident_spec(ts, p) {
        None => None,
        Some(rel) => if tok_at(ts, p + 1) != Some(TokV::LParen) {
            None
        } else if tok_at(ts, p + 2) == Some(TokV::RParen) {
            Some((HeadV { relation: rel, args: Seq::empty() }, p + 3, n))
        } else {
            match exprs_from(ts, p + 2, n, Seq::empty()) {
                Some((args, p1, n1)) => Some((HeadV { relation: rel, args }, p1, n1)),
                None => None,
            }
        },
    }
}

/// The aggregation function named `f`.
pub open spec fn agg_func_spec(f: Seq<char>) -> Option<AggFunc> {
    if f == "count"@ { Some(AggFunc::Count) }
    else if f == "sum"@ { Some(AggFunc::Sum) }
    else if f == "min"@ { Some(AggFunc::Min) }
    else if f == "max"@ { Some(AggFunc::Max) }
    else { None }
}

/// `agg out = func(arg?) in atom`, with `agg` at `p`.
#[verifier::opaque]
pub open spec fn aggregate_spec(ts: Seq<TokV>, p: int, n: Names) -> Parsed<ClauseV> {
    match ident_spec(ts, p + 1) {
        None => None,
        Some(out) => match intern_spec(n, out) {
            None => None,
            Some((output, n1)) => if tok_at(ts, p + 2) != Some(TokV::Eq) {
                None
            } else {
                match ident_spec(ts, p + 3) {
                    None => None,
                    Some(f) => match agg_func_spec(f) {
                        None => None,
                        Some(func) => if tok_at(ts, p + 4) != Some(TokV::LParen) {
                            None
                        } else {
                            let arg: Parsed<Option<Expr>> = if tok_at(ts, p + 5) == Some(TokV::RParen) {
                                Some((None, p + 5, n1))
                            } else {
                                match expr_spec(ts, p + 5, n1) {
                                    Some((e, q, n2)) => Some((Some(e), q, n2)),
                                    None => None,
                                }
                            };
                            match arg {
                                None => None,
                                Some((a, q, n2)) => if tok_at(ts, q) == Some(TokV::RParen) && word_at(ts, q + 1, "in"@) {
                                    match atom_spec(ts, q + 2, n2) {
                                        Some((src, q2, n3)) => Some((ClauseV::Aggregate(output, func, a, src), q2, n3)),
                                        None => None,
                                    }
                                } else {
                                    None
                                },
                            }
                        },
                    },
                }
            },
        },
    }
}

/// A body clause.
pub open spec fn clause_spec(ts: Seq<TokV>, p: int, n: Names) -> Parsed<ClauseV> {
    if tok_at(ts, p) == Some(TokV::Bang) {
        match atom_spec(ts, p + 1, n) {
            Some((a, p1, n1)) => Some((ClauseV::Negative(a), p1, n1)),
            None => None,
        }
    } else if word_at(ts, p, "if"@) {
        match expr_spec(ts, p + 1, n) {
            Some((e, p1, n1)) => Some((ClauseV::Condition(e), p1, n1)),
            None => None,
        }
    } else if word_at(ts, p, "let"@) {
        match ident_spec(ts, p + 1) {
            None => None,
            Some(v) => match intern_spec(n, v) {
                None => None,
                Some((var, n1)) => if tok_at(ts, p + 2) != Some(TokV::Eq) {
                    None
                } else {
                    match expr_spec(ts, p + 3, n1) {
                        Some((e, p1, n2)) => Some((ClauseV::Let(var, e), p1, n2)),
                        None => None,
                    }
                },
            },
        }
    } else if word_at(ts, p, "agg"@) {
        aggregate_spec(ts, p, n)
    } else {
        match atom_spec(ts, p, n) {
            Some((a, p1, n1)) => Some((ClauseV::Positive(a), p1, n1)),
            None => None,
        }
    }
}

/// Comma-separated clauses after `acc`, from `p`.
pub open spec fn clauses_from(ts: Seq<TokV>, p: int, n: Names, acc: Seq<ClauseV>) -> Parsed<Seq<ClauseV>>
    decreases ts.len() - p,
{
    match clause_spec(ts, p, n) {
        None => None,
        Some((c, p1, n1)) => if !(p < p1 <= ts.len()) {
            None
        } else if tok_at(ts, p1) == Some(TokV::Comma) {
            clauses_from(ts, p1 + 1, n1, acc.push(c))
        } else {
            Some((acc.push(c), p1, n1))
        },
    }
}

/// Comma-separated heads after `acc`, from `p`.
pub open spec fn heads_from(ts: Seq<TokV>, p: int, n: Names, acc: Seq<HeadV>) -> Parsed<Seq<HeadV>>
    decreases ts.len() - p,
{
    match head_spec(ts, p, n) {
        None => None,
        Some((h, p1, n1)) => if !(p < p1 <= ts.len()) {
            None
        } else if tok_at(ts, p1) == Some(TokV::Comma) {
            heads_from(ts, p1 + 1, n1, acc.push(h))
        } else {
            Some((acc.push(h), p1, n1))
        },
    }
}

/// A rule `heads <-- clauses ;`.
#[verifier::opaque]
pub open spec fn rule_spec(ts: Seq<TokV>, p: int, n: Names) -> Parsed<RuleV> {
    match heads_from(ts, p, n, Seq::empty()) {
        None => None,
        Some((heads, p1, n1)) => if tok_at(ts, p1) != Some(TokV::Arrow) {
            None
        } else {
            match clauses_from(ts, p1 + 1, n1, Seq::empty()) {
                Some((body, p2, n2)) => if tok_at(ts, p2) == Some(TokV::Semi) {
                    Some((RuleV { heads, body }, p2 + 1, n2))
                } else {
                    None
                },
                None => None,
            }
        },
    }
}

/// The type named `t`.
pub open spec fn type_spec(t: Seq<char>) -> Option<Type> {
    if t == "int"@ { Some(Type::Int) }
    else if t == "bool"@ { Some(Type::Bool) }
    else if t == "sym"@ { Some(Type::Sym) }
    else { None }
}

/// A column `dual? type`: its type, whether it is `dual`, and the next position.
pub open spec fn column_spec(ts: Seq<TokV>, p: int) -> Option<(Type, bool, int)> {
    match ident_spec(ts, p) {
        None => None,
        Some(w) => if w == "dual"@ {
            match ident_spec(ts, p + 1) {
                Some(t) => match type_spec(t) {
                    Some(ty) => Some((ty, true, p + 2)),
                    None => None,
                },
                None => None,
            }
        } else {
            match type_spec(w) {
                Some(ty) => Some((ty, false, p + 1)),
                None => None,
            }
        },
    }
}

/// Comma-separated columns after `acc`, from `p` up to and including `)`.
pub open spec fn cols_from(ts: Seq<TokV>, p: int, acc: Seq<(Type, bool)>) -> Option<(Seq<(Type, bool)>, int)>
    decreases ts.len() - p,
{
    match column_spec(ts, p) {
        None => None,
        Some((ty, d, p1)) => if !(p < p1 < ts.len()) {
            None
        } else {
            match ts[p1] {
                TokV::Comma => cols_from(ts, p1 + 1, acc.push((ty, d))),
                TokV::RParen => Some((acc.push((ty, d)), p1 + 1)),
                _ => None,
            }
        },
    }
}

/// The kind of a relation from its keyword and columns: a `lattice` may mark
/// only its last column `dual` (which makes its join `min`); a `relation`
/// may mark none.
pub open spec fn decl_kind(lattice: bool, cols: Seq<(Type, bool)>) -> Option<RelationKind> {
    if lattice {
        if cols.len() == 0 || exists|i: int| 0 <= i < cols.len() - 1 && (#[trigger] cols[i]).1 {
            None
        } else if cols.last().1 {
            Some(RelationKind::Lattice(LatticeKind::Min))
        } else {
            Some(RelationKind::Lattice(LatticeKind::Max))
        }
    } else if exists|i: int| 0 <= i < cols.len() && (#[trigger] cols[i]).1 {
        None
    } else {
        Some(RelationKind::Relation)
    }
}

/// A declaration `(relation | lattice) name(cols);` (the keyword at `p`).
#[verifier::opaque]
pub open spec fn decl_spec(ts: Seq<TokV>, p: int, n: Names) -> Parsed<DeclV> {
    match (ident_spec(ts, p), ident_spec(ts, p + 1)) {
        (Some(kw), Some(name)) => if tok_at(ts, p + 2) != Some(TokV::LParen) {
            None
        } else {
            match cols_from(ts, p + 3, Seq::empty()) {
                None => None,
                Some((cols, p1)) => if tok_at(ts, p1) != Some(TokV::Semi) {
                    None
                } else {
                    match decl_kind(kw == "lattice"@, cols) {
                        Some(kind) => Some((DeclV {
                            name,
                            schema: cols.map_values(|c: (Type, bool)| c.0),
                            kind,
                        }, p1 + 1, n)),
                        None => None,
                    }
                },
            }
        },
        _ => None,
    }
}

/// Declarations and rules from `p` to the end, after those already read.
pub open spec fn program_from(ts: Seq<TokV>, p: int, n: Names, rels: Seq<DeclV>, rules: Seq<RuleV>) -> Option<(ProgramV, Names)>
    decreases ts.len() - p,
{
    if p < 0 || p >= ts.len() {
        Some((ProgramV { relations: rels, rules }, n))
    } else if word_at(ts, p, "relation"@) || word_at(ts, p, "lattice"@) {
        match decl_spec(ts, p, n) {
            Some((d, p1, n1)) => if p < p1 <= ts.len() { program_from(ts, p1, n1, rels.push(d), rules) } else { None },
            None => None,
        }
    } else {
        match rule_spec(ts, p, n) {
            Some((r, p1, n1)) => if p < p1 <= ts.len() { program_from(ts, p1, n1, rels, rules.push(r)) } else { None },
            None => None,
        }
    }
}

/// A whole program.
pub open spec fn program_spec(ts: Seq<TokV>, n: Names) -> Option<(ProgramV, Names)> {
    program_from(ts, 0, n, Seq::empty(), Seq::empty())
}

/// A whole conjunctive query `(exprs) <-- clauses ;?` with nothing after it.
pub open spec fn query_spec(ts: Seq<TokV>, n: Names) -> Option<((Seq<Expr>, Seq<ClauseV>), Names)> {
    if tok_at(ts, 0) != Some(TokV::LParen) || tok_at(ts, 1) == Some(TokV::RParen) {
        None
    } else {
        match exprs_from(ts, 1, n, Seq::empty()) {
            None => None,
            Some((outs, p1, n1)) => if tok_at(ts, p1) != Some(TokV::Arrow) {
                None
            } else {
                match clauses_from(ts, p1 + 1, n1, Seq::empty()) {
                    None => None,
                    Some((body, p2, n2)) => {
                        let q = if tok_at(ts, p2) == Some(TokV::Semi) { p2 + 1 } else { p2 };
                        if q == ts.len() { Some(((outs, body), n2)) } else { None }
                    },
                }
            },
        }
    }
}

/// What parsing `src` yields: the program and the interner table after it.
pub open spec fn parse_spec(src: Seq<char>, n: Names) -> Option<(ProgramV, Names)> {
    match crate::lexer::lex_spec(src, 0) {
        Some(ts) => program_spec(ts, n),
        None => None,
    }
}

/// What parsing `src` as a query yields: its outputs, its body, and the
/// interner table after it.
pub open spec fn parse_query_spec(src: Seq<char>, n: Names) -> Option<((Seq<Expr>, Seq<ClauseV>), Names)> {
    match crate::lexer::lex_spec(src, 0) {
        Some(ts) => query_spec(ts, n),
        None => None,
    }
}

} // verus!

verus! {

/// An error produced while parsing source text.
#[derive(Debug, Clone, PartialEq, Eq)]
pub struct ParseError {
    /// A human-readable description of the problem.
    pub message: String,
}

impl ParseError {
    /// The error's description, prefixed as a parse error.
    pub fn describe(&self) -> (r: String)
        ensures
            r@ == "parse error: "@ + self.message@,
    {
        let mut r = "parse error: ".to_owned();
        r.append(self.message.as_str());
        r
    }
}

fn perr(message: &str) -> (r: ParseError)
    ensures
        r.message@ == message@,
{
    ParseError { message: message.to_owned() }
}

/// Every integer token is non-negative (the lexer reads no sign).
pub open spec fn toks_ok(ts: Seq<TokV>) -> bool {
    forall|i: int| 0 <= i < ts.len() ==> (#[trigger] ts[i] matches TokV::Int(v) ==> v >= 0)
}

/// The tokens, as values.
pub open spec fn tv(ts: &Vec<Tok>) -> Seq<TokV> {
    crate::lexer::toks_view(ts@)
}

/// The token at `p`, if any.
fn at(ts: &Vec<Tok>, p: usize) -> (r: Option<&Tok>)
    ensures
        match tok_at(tv(ts), p as int) {
            Some(t) => r matches Some(x) && x@ == t,
            None => r is None,
        },
        r is Some ==> p < ts@.len() <= usize::MAX,
{
    let n = ts.len();
    if p < n { Some(&ts[p]) } else { None }
}

/// Whether the token is the word `w`.
fn is_word(t: Option<&Tok>, w: &str) -> (r: bool)
    ensures
        r == (t matches Some(x) && x@ == TokV::Ident(w@)),
{
    match t {
        Some(Tok::Ident(s)) => {
            let k = w.to_owned();
            *s == k
        },
        _ => false,
    }
}

/// Whether a string is the word `w`.
fn str_is(s: &String, w: &str) -> (r: bool)
    ensures
        r == (s@ == w@),
{
    let k = w.to_owned();
    *s == k
}

/// The identifier at `p`.
fn ident_at(ts: &Vec<Tok>, p: usize) -> (r: Result<&String, ParseError>)
    ensures
        match ident_spec(tv(ts), p as int) {
            Some(s) => r matches Ok(x) && x@ == s,
            None => r is Err,
        },
        r is Ok ==> p < ts@.len() <= usize::MAX,
{
    match at(ts, p) {
        Some(Tok::Ident(s)) => Ok(s),
        _ => Err(perr("expected identifier")),
    }
}

/// Interns a string met in the source.
fn intern_str(it: &mut Interner, s: &String) -> (r: Result<Symbol, ParseError>)
    requires
        old(it).wf(),
    ensures
        final(it).wf(),
        match intern_spec(old(it)@, s@) {
            Some((sym, n)) => r == Ok::<Symbol, ParseError>(sym) && final(it)@ == n,
            None => r is Err && final(it)@ == old(it)@,
        },
{
    let ghost n0 = it@;
    match it.try_intern(s.as_str()) {
        Some(sym) => {
            proof {
                if n0.contains(s@) {
                    let k = n0.index_of(s@);
                    assert(n0[k] == s@);
                    assert(Interner::interned(n0, s@) == n0);
                    if k != sym.0 as int {
                        assert(n0[sym.0 as int] == s@);
                    }
                } else {
                    assert(Interner::interned(n0, s@) == n0.push(s@));
                    if sym.0 as int != n0.len() {
                        assert(n0.contains(s@));
                    }
                }
            }
            Ok(sym)
        },
        None => Err(perr("too many symbols")),
    }
}

/// Parses a body argument at `p`.
#[verifier::rlimit(40)]
fn parse_arg(ts: &Vec<Tok>, p: usize, it: &mut Interner) -> (r: Result<(Arg, usize), ParseError>)
    requires
        old(it).wf(),
        toks_ok(tv(ts)),
    ensures
        final(it).wf(),
        match arg_spec(tv(ts), p as int, old(it)@) {
            Some((a, q, n)) => r matches Ok((x, k)) && x == a && k == q && final(it)@ == n && p < k <= ts@.len(),
            None => r is Err,
        },
{
    match at(ts, p) {
        Some(Tok::Underscore) => Ok((Arg::Wildcard, p + 1)),
        Some(Tok::Int(v)) => Ok((Arg::Lit(Value::Int(*v)), p + 1)),
        Some(Tok::Minus) => match at(ts, p + 1) {
            Some(Tok::Int(v)) => {
                assert(tv(ts)[p + 1] == TokV::Int(*v));
                Ok((Arg::Lit(Value::Int(-*v)), p + 2))
            },
            _ => Err(perr("expected integer after `-`")),
        },
        Some(Tok::Str(s)) => {
            let sym = intern_str(it, s)?;
            Ok((Arg::Lit(Value::Sym(sym)), p + 1))
        },
        Some(Tok::Question) => {
            if is_word(at(ts, p + 1), "Dual") {
                match at(ts, p + 2) {
                    Some(Tok::LParen) => {},
                    _ => return Err(perr("expected `(`")),
                }
                let v = ident_at(ts, p + 3)?;
                match at(ts, p + 4) {
                    Some(Tok::RParen) => {},
                    _ => return Err(perr("expected `)`")),
                }
                let sym = intern_str(it, v)?;
                Ok((Arg::LatticeBind(sym), p + 5))
            } else {
                let v = ident_at(ts, p + 1)?;
                let sym = intern_str(it, v)?;
                Ok((Arg::LatticeBind(sym), p + 2))
            }
        },
        Some(Tok::Ident(s)) => {
            if str_is(s, "true") {
                Ok((Arg::Lit(Value::Bool(true)), p + 1))
            } else if str_is(s, "false") {
                Ok((Arg::Lit(Value::Bool(false)), p + 1))
            } else {
                let sym = intern_str(it, s)?;
                Ok((Arg::Var(sym), p + 1))
            }
        },
        _ => Err(perr("unexpected token in argument")),
    }
}

/// Parses an atom at `p`.
fn parse_atom(ts: &Vec<Tok>, p: usize, it: &mut Interner) -> (r: Result<(Atom, usize), ParseError>)
    requires
        old(it).wf(),
        toks_ok(tv(ts)),
    ensures
        final(it).wf(),
        match atom_spec(tv(ts), p as int, old(it)@) {
            Some((a, q, n)) => r matches Ok((x, k)) && atom_view(x) == a && k == q && final(it)@ == n && p < k <= ts@.len(),
            None => r is Err,
        },
{
    let rel = ident_at(ts, p)?;
    match at(ts, p + 1) {
        Some(Tok::LParen) => {},
        _ => return Err(perr("expected `(`")),
    }
    match at(ts, p + 2) {
        Some(Tok::RParen) => {
            return Ok((Atom { relation: rel.clone(), args: Vec::new() }, p + 3));
        },
        _ => {},
    }
    let ghost t = tv(ts);
    let ghost n0 = it@;
    let mut args: Vec<Arg> = Vec::new();
    let mut q = p + 2;
    while q < ts.len()
        invariant
            it.wf(),
            toks_ok(tv(ts)),
            t == tv(ts),
            n0 == old(it)@,
            ident_spec(t, p as int) == Some(rel@),
            tok_at(t, p + 1) == Some(TokV::LParen),
            tok_at(t, p + 2) != Some(TokV::RParen),
            p + 2 <= q <= ts@.len(),
            args_from(t, p + 2, n0, Seq::empty()) == args_from(t, q as int, it@, args@),
        decreases ts@.len() - q,
    {
        let (a, q1) = parse_arg(ts, q, it)?;
        if q1 >= ts.len() {
            return Err(perr("expected `,` or `)`"));
        }
        match &ts[q1] {
            Tok::Comma => {
                args.push(a);
                q = q1 + 1;
            },
            Tok::RParen => {
                args.push(a);
                return Ok((Atom { relation: rel.clone(), args }, q1 + 1));
            },
            _ => return Err(perr("expected `,` or `)`")),
        }
    }
    Err(perr("unexpected end of input"))
}

/// Parses an expression at `p`.
fn parse_expr(ts: &Vec<Tok>, p: usize, it: &mut Interner) -> (r: Result<(Expr, usize), ParseError>)
    requires
        old(it).wf(),
        toks_ok(tv(ts)),
        p <= ts@.len(),
    ensures
        final(it).wf(),
        match expr_spec(tv(ts), p as int, old(it)@) {
            Some((e, q, n)) => r matches Ok((x, k)) && x == e && k == q && final(it)@ == n && p < k <= ts@.len(),
            None => r is Err,
        },
    decreases ts@.len() - p, 8int,
{
    parse_or(ts, p, it)
}

/// Parses or at `p`.
fn parse_or(ts: &Vec<Tok>, p: usize, it: &mut Interner) -> (r: Result<(Expr, usize), ParseError>)
    requires
        old(it).wf(),
        toks_ok(tv(ts)),
        p <= ts@.len(),
    ensures
        final(it).wf(),
        match or_spec(tv(ts), p as int, old(it)@) {
            Some((e, q, n)) => r matches Ok((x, k)) && x == e && k == q && final(it)@ == n && p < k <= ts@.len(),
            None => r is Err,
        },
    decreases ts@.len() - p, 7int,
{
    let ghost t = tv(ts);
    let ghost n0 = it@;
    let (mut lhs, mut q) = parse_and(ts, p, it)?;
    loop
        invariant
            it.wf(),
            toks_ok(tv(ts)),
            t == tv(ts),
            n0 == old(it)@,
            p < q <= ts@.len(),
            or_spec(t, p as int, n0) == or_tail(t, lhs, q as int, it@),
        decreases ts@.len() - q,
    {
        let op = match at(ts, q) {
            Some(Tok::OrOr) => BinOp::Or,
            _ => return Ok((lhs, q)),
        };
        let (rhs, q1) = parse_and(ts, q + 1, it)?;
        lhs = Expr::Binary(op, Box::new(lhs), Box::new(rhs));
        q = q1;
    }
}

/// Parses and at `p`.
fn parse_and(ts: &Vec<Tok>, p: usize, it: &mut Interner) -> (r: Result<(Expr, usize), ParseError>)
    requires
        old(it).wf(),
        toks_ok(tv(ts)),
        p <= ts@.len(),
    ensures
        final(it).wf(),
        match and_spec(tv(ts), p as int, old(it)@) {
            Some((e, q, n)) => r matches Ok((x, k)) && x == e && k == q && final(it)@ == n && p < k <= ts@.len(),
            None => r is Err,
        },
    decreases ts@.len() - p, 6int,
{
    let ghost t = tv(ts);
    let ghost n0 = it@;
    let (mut lhs, mut q) = parse_compare(ts, p, it)?;
    loop
        invariant
            it.wf(),
            toks_ok(tv(ts)),
            t == tv(ts),
            n0 == old(it)@,
            p < q <= ts@.len(),
            and_spec(t, p as int, n0) == and_tail(t, lhs, q as int, it@),
        decreases ts@.len() - q,
    {
        let op = match at(ts, q) {
            Some(Tok::AndAnd) => BinOp::And,
            _ => return Ok((lhs, q)),
        };
        let (rhs, q1) = parse_compare(ts, q + 1, it)?;
        lhs = Expr::Binary(op, Box::new(lhs), Box::new(rhs));
        q = q1;
    }
}

/// Parses add at `p`.
fn parse_add(ts: &Vec<Tok>, p: usize, it: &mut Interner) -> (r: Result<(Expr, usize), ParseError>)
    requires
        old(it).wf(),
        toks_ok(tv(ts)),
        p <= ts@.len(),
    ensures
        final(it).wf(),
        match add_spec(tv(ts), p as int, old(it)@) {
            Some((e, q, n)) => r matches Ok((x, k)) && x == e && k == q && final(it)@ == n && p < k <= ts@.len(),
            None => r is Err,
        },
    decreases ts@.len() - p, 4int,
{
    let ghost t = tv(ts);
    let ghost n0 = it@;
    let (mut lhs, mut q) = parse_mul(ts, p, it)?;
    loop
        invariant
            it.wf(),
            toks_ok(tv(ts)),
            t == tv(ts),
            n0 == old(it)@,
            p < q <= ts@.len(),
            add_spec(t, p as int, n0) == add_tail(t, lhs, q as int, it@),
        decreases ts@.len() - q,
    {
        let op = match at(ts, q) {
            Some(Tok::Plus) => BinOp::Add,
            Some(Tok::Minus) => BinOp::Sub,
            _ => return Ok((lhs, q)),
        };
        let (rhs, q1) = parse_mul(ts, q + 1, it)?;
        lhs = Expr::Binary(op, Box::new(lhs), Box::new(rhs));
        q = q1;
    }
}

/// Parses mul at `p`.
fn parse_mul(ts: &Vec<Tok>, p: usize, it: &mut Interner) -> (r: Result<(Expr, usize), ParseError>)
    requires
        old(it).wf(),
        toks_ok(tv(ts)),
        p <= ts@.len(),
    ensures
        final(it).wf(),
        match mul_spec(tv(ts), p as int, old(it)@) {
            Some((e, q, n)) => r matches Ok((x, k)) && x == e && k == q && final(it)@ == n && p < k <= ts@.len(),
            None => r is Err,
        },
    decreases ts@.len() - p, 3int,
{
    let ghost t = tv(ts);
    let ghost n0 = it@;
    let (mut lhs, mut q) = parse_cast(ts, p, it)?;
    loop
        invariant
            it.wf(),
            toks_ok(tv(ts)),
            t == tv(ts),
            n0 == old(it)@,
            p < q <= ts@.len(),
            mul_spec(t, p as int, n0) == mul_tail(t, lhs, q as int, it@),
        decreases ts@.len() - q,
    {
        let op = match at(ts, q) {
            Some(Tok::Star) => BinOp::Mul,
            Some(Tok::Slash) => BinOp::Div,
            Some(Tok::Percent) => BinOp::Rem,
            _ => return Ok((lhs, q)),
        };
        let (rhs, q1) = parse_cast(ts, q + 1, it)?;
        lhs = Expr::Binary(op, Box::new(lhs), Box::new(rhs));
        q = q1;
    }
}

/// The comparison operator a token stands for.
fn compare_tok(t: Option<&Tok>) -> (r: Option<BinOp>)
    ensures
        r == compare_op(match t { Some(x) => Some(x@), None => None }),
{
    match t {
        Some(Tok::EqEq) => Some(BinOp::Eq),
        Some(Tok::Ne) => Some(BinOp::Ne),
        Some(Tok::Lt) => Some(BinOp::Lt),
        Some(Tok::Le) => Some(BinOp::Le),
        Some(Tok::Gt) => Some(BinOp::Gt),
        Some(Tok::Ge) => Some(BinOp::Ge),
        _ => None,
    }
}

/// Parses at most one comparison at `p`.
fn parse_compare(ts: &Vec<Tok>, p: usize, it: &mut Interner) -> (r: Result<(Expr, usize), ParseError>)
    requires
        old(it).wf(),
        toks_ok(tv(ts)),
        p <= ts@.len(),
    ensures
        final(it).wf(),
        match compare_spec(tv(ts), p as int, old(it)@) {
            Some((e, q, n)) => r matches Ok((x, k)) && x == e && k == q && final(it)@ == n && p < k <= ts@.len(),
            None => r is Err,
        },
    decreases ts@.len() - p, 5int,
{
    let (l, q) = parse_add(ts, p, it)?;
    let op = match compare_tok(at(ts, q)) {
        Some(op) => op,
        None => return Ok((l, q)),
    };
    let (r, q2) = parse_add(ts, q + 1, it)?;
    Ok((Expr::Binary(op, Box::new(l), Box::new(r)), q2))
}

/// Parses a unary expression and an optional `as type` at `p`.
fn parse_cast(ts: &Vec<Tok>, p: usize, it: &mut Interner) -> (r: Result<(Expr, usize), ParseError>)
    requires
        old(it).wf(),
        toks_ok(tv(ts)),
        p <= ts@.len(),
    ensures
        final(it).wf(),
        match cast_spec(tv(ts), p as int, old(it)@) {
            Some((e, q, n)) => r matches Ok((x, k)) && x == e && k == q && final(it)@ == n && p < k <= ts@.len(),
            None => r is Err,
        },
    decreases ts@.len() - p, 2int,
{
    let (e, q) = parse_unary(ts, p, it)?;
    if is_word(at(ts, q), "as") {
        let _ty = ident_at(ts, q + 1)?;
        return Ok((e, q + 2));
    }
    Ok((e, q))
}

/// Parses prefix operators at `p`.
fn parse_unary(ts: &Vec<Tok>, p: usize, it: &mut Interner) -> (r: Result<(Expr, usize), ParseError>)
    requires
        old(it).wf(),
        toks_ok(tv(ts)),
        p <= ts@.len(),
    ensures
        final(it).wf(),
        match unary_spec(tv(ts), p as int, old(it)@) {
            Some((e, q, n)) => r matches Ok((x, k)) && x == e && k == q && final(it)@ == n && p < k <= ts@.len(),
            None => r is Err,
        },
    decreases ts@.len() - p, 1int,
{
    match at(ts, p) {
        Some(Tok::Minus) => {
            let (e, q) = parse_unary(ts, p + 1, it)?;
            Ok((Expr::Unary(UnOp::Neg, Box::new(e)), q))
        },
        Some(Tok::Bang) => {
            let (e, q) = parse_unary(ts, p + 1, it)?;
            Ok((Expr::Unary(UnOp::Not, Box::new(e)), q))
        },
        _ => parse_primary(ts, p, it),
    }
}

/// Parses a primary expression at `p`.
#[verifier::rlimit(100)]
#[verifier::spinoff_prover]
fn parse_primary(ts: &Vec<Tok>, p: usize, it: &mut Interner) -> (r: Result<(Expr, usize), ParseError>)
    requires
        old(it).wf(),
        toks_ok(tv(ts)),
        p <= ts@.len(),
    ensures
        final(it).wf(),
        match primary_spec(tv(ts), p as int, old(it)@) {
            Some((e, q, n)) => r matches Ok((x, k)) && x == e && k == q && final(it)@ == n && p < k <= ts@.len(),
            None => r is Err,
        },
    decreases ts@.len() - p, 0int,
{
    let ghost t = tv(ts);
    let ghost n0 = it@;
    match at(ts, p) {
        Some(Tok::LParen) => {
            assert(t[p as int] == TokV::LParen);
            let res = parse_expr(ts, p + 1, it);
            let (e, q) = match res {
                Ok(x) => x,
                Err(er) => {
                    return Err(er);
                },
            };
            match at(ts, q) {
                Some(Tok::RParen) => Ok((e, q + 1)),
                _ => Err(perr("expected `)`")),
            }
        },
        Some(Tok::Int(v)) => Ok((Expr::Lit(Value::Int(*v)), p + 1)),
        Some(Tok::Str(s)) => {
            let sym = intern_str(it, s)?;
            Ok((Expr::Lit(Value::Sym(sym)), p + 1))
        },
        Some(Tok::Ident(s)) => {
            if str_is(s, "true") {
                Ok((Expr::Lit(Value::Bool(true)), p + 1))
            } else if str_is(s, "false") {
                Ok((Expr::Lit(Value::Bool(false)), p + 1))
            } else if str_is(s, "Dual") {
                match at(ts, p + 1) {
                    Some(Tok::LParen) => {},
                    _ => return Err(perr("expected `(`")),
                }
                let res = parse_expr(ts, p + 2, it);
                let (e, q) = match res {
                    Ok(x) => x,
                    Err(er) => {
                        return Err(er);
                    },
                };
                match at(ts, q) {
                    Some(Tok::RParen) => Ok((e, q + 1)),
                    _ => Err(perr("expected `)`")),
                }
            } else {
                let sym = intern_str(it, s)?;
                Ok((Expr::Var(sym), p + 1))
            }
        },
        _ => Err(perr("unexpected token in expression")),
    }
}


/// Parses expressions up to and including the closing `)`, from `p`.
#[verifier::rlimit(60)]
fn parse_exprs(ts: &Vec<Tok>, p: usize, it: &mut Interner) -> (r: Result<(Vec<Expr>, usize), ParseError>)
    requires
        old(it).wf(),
        toks_ok(tv(ts)),
        p <= ts@.len(),
    ensures
        final(it).wf(),
        match exprs_from(tv(ts), p as int, old(it)@, Seq::empty()) {
            Some((es, q, n)) => r matches Ok((x, k)) && x@ == es && k == q && final(it)@ == n && p < k <= ts@.len(),
            None => r is Err,
        },
{
    let ghost t = tv(ts);
    let ghost n0 = it@;
    let mut out: Vec<Expr> = Vec::new();
    let mut q = p;
    loop
        invariant
            it.wf(),
            toks_ok(tv(ts)),
            t == tv(ts),
            n0 == old(it)@,
            p <= q <= ts@.len(),
            exprs_from(t, p as int, n0, Seq::empty()) == exprs_from(t, q as int, it@, out@),
        decreases ts@.len() - q,
    {
        let (e, q1) = parse_expr(ts, q, it)?;
        match at(ts, q1) {
            Some(Tok::Comma) => {
                out.push(e);
                q = q1 + 1;
            },
            Some(Tok::RParen) => {
                out.push(e);
                return Ok((out, q1 + 1));
            },
            _ => return Err(perr("expected `,` or `)`")),
        }
    }
}

/// Parses a head atom at `p`.
fn parse_head(ts: &Vec<Tok>, p: usize, it: &mut Interner) -> (r: Result<(HeadAtom, usize), ParseError>)
    requires
        old(it).wf(),
        toks_ok(tv(ts)),
        p <= ts@.len(),
    ensures
        final(it).wf(),
        match head_spec(tv(ts), p as int, old(it)@) {
            Some((h, q, n)) => r matches Ok((x, k)) && head_view(x) == h && k == q && final(it)@ == n && p < k <= ts@.len(),
            None => r is Err,
        },
{
    let rel = ident_at(ts, p)?;
    match at(ts, p + 1) {
        Some(Tok::LParen) => {},
        _ => return Err(perr("expected `(`")),
    }
    match at(ts, p + 2) {
        Some(Tok::RParen) => {
            return Ok((HeadAtom { relation: rel.clone(), args: Vec::new() }, p + 3));
        },
        _ => {},
    }
    let (args, q) = parse_exprs(ts, p + 2, it)?;
    Ok((HeadAtom { relation: rel.clone(), args }, q))
}

/// The aggregation function a word names.
fn agg_func(f: &String) -> (r: Option<AggFunc>)
    ensures
        r == agg_func_spec(f@),
{
    if str_is(f, "count") { Some(AggFunc::Count) }
    else if str_is(f, "sum") { Some(AggFunc::Sum) }
    else if str_is(f, "min") { Some(AggFunc::Min) }
    else if str_is(f, "max") { Some(AggFunc::Max) }
    else { None }
}

/// Parses an aggregate clause whose `agg` is at `p`.
#[verifier::rlimit(40)]
fn parse_aggregate(ts: &Vec<Tok>, p: usize, it: &mut Interner) -> (r: Result<(BodyClause, usize), ParseError>)
    requires
        old(it).wf(),
        toks_ok(tv(ts)),
        p < ts@.len(),
    ensures
        final(it).wf(),
        match aggregate_spec(tv(ts), p as int, old(it)@) {
            Some((c, q, n)) => r matches Ok((x, k)) && clause_view(x) == c && k == q && final(it)@ == n && p < k <= ts@.len(),
            None => r is Err,
        },
{
    reveal(aggregate_spec);
    let len = ts.len();
    let out = ident_at(ts, p + 1)?;
    let output = intern_str(it, out)?;
    match at(ts, p + 2) {
        Some(Tok::Eq) => {},
        _ => return Err(perr("expected `=`")),
    }
    let f = ident_at(ts, p + 3)?;
    let func = match agg_func(f) {
        Some(func) => func,
        None => return Err(perr("unknown aggregator")),
    };
    match at(ts, p + 4) {
        Some(Tok::LParen) => {},
        _ => return Err(perr("expected `(`")),
    }
    let (arg, q) = match at(ts, p + 5) {
        Some(Tok::RParen) => (None, p + 5),
        _ => {
            let (e, q) = parse_expr(ts, p + 5, it)?;
            (Some(e), q)
        },
    };
    match at(ts, q) {
        Some(Tok::RParen) => {},
        _ => return Err(perr("expected `)`")),
    }
    if !is_word(at(ts, q + 1), "in") {
        return Err(perr("expected `in` after aggregator"));
    }
    let (source, q2) = parse_atom(ts, q + 2, it)?;
    Ok((BodyClause::Aggregate(Aggregate { output, func, arg, source }), q2))
}

/// Parses a body clause at `p`.
#[verifier::rlimit(40)]
fn parse_clause(ts: &Vec<Tok>, p: usize, it: &mut Interner) -> (r: Result<(BodyClause, usize), ParseError>)
    requires
        old(it).wf(),
        toks_ok(tv(ts)),
        p <= ts@.len(),
    ensures
        final(it).wf(),
        match clause_spec(tv(ts), p as int, old(it)@) {
            Some((c, q, n)) => r matches Ok((x, k)) && clause_view(x) == c && k == q && final(it)@ == n && p < k <= ts@.len(),
            None => r is Err,
        },
{
    let t = at(ts, p);
    match t {
        Some(Tok::Bang) => {
            let (a, q) = parse_atom(ts, p + 1, it)?;
            return Ok((BodyClause::Negative(a), q));
        },
        _ => {},
    }
    if is_word(t, "if") {
        let (e, q) = parse_expr(ts, p + 1, it)?;
        return Ok((BodyClause::Condition(e), q));
    }
    if is_word(t, "let") {
        let v = ident_at(ts, p + 1)?;
        let var = intern_str(it, v)?;
        match at(ts, p + 2) {
            Some(Tok::Eq) => {},
            _ => return Err(perr("expected `=`")),
        }
        let (expr, q) = parse_expr(ts, p + 3, it)?;
        return Ok((BodyClause::Let { var, expr }, q));
    }
    if is_word(t, "agg") {
        return parse_aggregate(ts, p, it);
    }
    let (a, q) = parse_atom(ts, p, it)?;
    Ok((BodyClause::Positive(a), q))
}

/// Parses comma-separated clauses from `p`.
#[verifier::rlimit(40)]
fn parse_clauses(ts: &Vec<Tok>, p: usize, it: &mut Interner) -> (r: Result<(Vec<BodyClause>, usize), ParseError>)
    requires
        old(it).wf(),
        toks_ok(tv(ts)),
        p <= ts@.len(),
    ensures
        final(it).wf(),
        match clauses_from(tv(ts), p as int, old(it)@, Seq::empty()) {
            Some((cs, q, n)) => r matches Ok((x, k)) && clauses_view(x@) == cs && k == q && final(it)@ == n && p < k <= ts@.len(),
            None => r is Err,
        },
{
    let ghost t = tv(ts);
    let ghost n0 = it@;
    let mut out: Vec<BodyClause> = Vec::new();
    let mut q = p;
    assert(clauses_view(out@) =~= Seq::<ClauseV>::empty());
    loop
        invariant
            it.wf(),
            toks_ok(tv(ts)),
            t == tv(ts),
            n0 == old(it)@,
            p <= q <= ts@.len(),
            q > p ==> out@.len() > 0,
            clauses_from(t, p as int, n0, Seq::empty()) == clauses_from(t, q as int, it@, clauses_view(out@)),
        decreases ts@.len() - q,
    {
        let (c, q1) = parse_clause(ts, q, it)?;
        let ghost before = out@;
        out.push(c);
        assert(clauses_view(out@) =~= clauses_view(before).push(clause_view(c)));
        match at(ts, q1) {
            Some(Tok::Comma) => {
                q = q1 + 1;
            },
            _ => return Ok((out, q1)),
        }
    }
}

/// Parses comma-separated heads from `p`.
#[verifier::rlimit(40)]
fn parse_heads(ts: &Vec<Tok>, p: usize, it: &mut Interner) -> (r: Result<(Vec<HeadAtom>, usize), ParseError>)
    requires
        old(it).wf(),
        toks_ok(tv(ts)),
        p <= ts@.len(),
    ensures
        final(it).wf(),
        match heads_from(tv(ts), p as int, old(it)@, Seq::empty()) {
            Some((hs, q, n)) => r matches Ok((x, k)) && x@.map_values(|h: HeadAtom| head_view(h)) == hs
                && k == q && final(it)@ == n && p < k <= ts@.len(),
            None => r is Err,
        },
{
    let ghost t = tv(ts);
    let ghost n0 = it@;
    let mut out: Vec<HeadAtom> = Vec::new();
    let mut q = p;
    assert(out@.map_values(|h: HeadAtom| head_view(h)) =~= Seq::<HeadV>::empty());
    loop
        invariant
            it.wf(),
            toks_ok(tv(ts)),
            t == tv(ts),
            n0 == old(it)@,
            p <= q <= ts@.len(),
            heads_from(t, p as int, n0, Seq::empty()) == heads_from(t, q as int, it@, out@.map_values(|h: HeadAtom| head_view(h))),
        decreases ts@.len() - q,
    {
        let (h, q1) = parse_head(ts, q, it)?;
        let ghost before = out@;
        out.push(h);
        assert(out@.map_values(|h: HeadAtom| head_view(h)) =~= before.map_values(|h: HeadAtom| head_view(h)).push(head_view(h)));
        match at(ts, q1) {
            Some(Tok::Comma) => {
                q = q1 + 1;
            },
            _ => return Ok((out, q1)),
        }
    }
}

/// Parses a rule at `p`.
fn parse_rule(ts: &Vec<Tok>, p: usize, it: &mut Interner) -> (r: Result<(Rule, usize), ParseError>)
    requires
        old(it).wf(),
        toks_ok(tv(ts)),
        p <= ts@.len(),
    ensures
        final(it).wf(),
        match rule_spec(tv(ts), p as int, old(it)@) {
            Some((rv, q, n)) => r matches Ok((x, k)) && rule_view(x) == rv && k == q && final(it)@ == n && p < k <= ts@.len(),
            None => r is Err,
        },
{
    reveal(rule_spec);
    let (heads, q) = parse_heads(ts, p, it)?;
    match at(ts, q) {
        Some(Tok::Arrow) => {},
        _ => return Err(perr("expected `<--`")),
    }
    let (body, q2) = parse_clauses(ts, q + 1, it)?;
    match at(ts, q2) {
        Some(Tok::Semi) => {},
        _ => return Err(perr("expected `;`")),
    }
    Ok((Rule { heads, body }, q2 + 1))
}


/// The type a word names.
fn type_named(t: &String) -> (r: Option<Type>)
    ensures
        r == type_spec(t@),
{
    if str_is(t, "int") { Some(Type::Int) }
    else if str_is(t, "bool") { Some(Type::Bool) }
    else if str_is(t, "sym") { Some(Type::Sym) }
    else { None }
}

/// Parses a column at `p`.
fn parse_column(ts: &Vec<Tok>, p: usize) -> (r: Result<(Type, bool, usize), ParseError>)
    ensures
        match column_spec(tv(ts), p as int) {
            Some((ty, d, q)) => r matches Ok((x, y, k)) && x == ty && y == d && k == q && p < k <= ts@.len(),
            None => r is Err,
        },
{
    let w = ident_at(ts, p)?;
    if str_is(w, "dual") {
        let t = ident_at(ts, p + 1)?;
        match type_named(t) {
            Some(ty) => Ok((ty, true, p + 2)),
            None => Err(perr("unknown type")),
        }
    } else {
        match type_named(w) {
            Some(ty) => Ok((ty, false, p + 1)),
            None => Err(perr("unknown type")),
        }
    }
}

/// Parses columns up to and including `)`, from `p`.
fn parse_columns(ts: &Vec<Tok>, p: usize) -> (r: Result<(Vec<(Type, bool)>, usize), ParseError>)
    requires
        p <= ts@.len(),
    ensures
        match cols_from(tv(ts), p as int, Seq::empty()) {
            Some((cs, q)) => r matches Ok((x, k)) && x@ == cs && k == q && p < k <= ts@.len(),
            None => r is Err,
        },
{
    let ghost t = tv(ts);
    let mut out: Vec<(Type, bool)> = Vec::new();
    let mut q = p;
    loop
        invariant
            t == tv(ts),
            p <= q <= ts@.len(),
            cols_from(t, p as int, Seq::empty()) == cols_from(t, q as int, out@),
        decreases ts@.len() - q,
    {
        let (ty, d, q1) = parse_column(ts, q)?;
        match at(ts, q1) {
            Some(Tok::Comma) => {
                out.push((ty, d));
                q = q1 + 1;
            },
            Some(Tok::RParen) => {
                out.push((ty, d));
                return Ok((out, q1 + 1));
            },
            _ => return Err(perr("expected `,` or `)`")),
        }
    }
}

/// The relation kind of a declaration.
fn kind_of(lattice: bool, cols: &Vec<(Type, bool)>) -> (r: Result<RelationKind, ParseError>)
    ensures
        match decl_kind(lattice, cols@) {
            Some(k) => r == Ok::<RelationKind, ParseError>(k),
            None => r is Err,
        },
{
    let n = cols.len();
    if lattice {
        if n == 0 {
            return Err(perr("lattice needs at least one column"));
        }
        let mut i: usize = 0;
        while i < n - 1
            invariant
                lattice,
                n == cols@.len(),
                n >= 1,
                i <= n - 1,
                forall|k: int| 0 <= k < i ==> !(#[trigger] cols@[k]).1,
            decreases n - 1 - i,
        {
            if cols[i].1 {
                return Err(perr("only a lattice's last column may be `dual`"));
            }
            i += 1;
        }
        if cols[n - 1].1 {
            Ok(RelationKind::Lattice(LatticeKind::Min))
        } else {
            Ok(RelationKind::Lattice(LatticeKind::Max))
        }
    } else {
        let mut i: usize = 0;
        while i < n
            invariant
                !lattice,
                n == cols@.len(),
                i <= n,
                forall|k: int| 0 <= k < i ==> !(#[trigger] cols@[k]).1,
            decreases n - i,
        {
            if cols[i].1 {
                assert((cols@[i as int]).1);
                return Err(perr("`dual` is only valid in a `lattice` declaration"));
            }
            i += 1;
        }
        Ok(RelationKind::Relation)
    }
}

/// Parses a declaration whose keyword is at `p`.
fn parse_decl(ts: &Vec<Tok>, p: usize, it: &Interner) -> (r: Result<(RelationDecl, usize), ParseError>)
    ensures
        match decl_spec(tv(ts), p as int, it@) {
            Some((d, q, n)) => r matches Ok((x, k)) && decl_view(x) == d && k == q && n == it@ && p < k <= ts@.len(),
            None => r is Err,
        },
{
    reveal(decl_spec);
    let kw = ident_at(ts, p)?;
    let name = ident_at(ts, p + 1)?;
    match at(ts, p + 2) {
        Some(Tok::LParen) => {},
        _ => return Err(perr("expected `(`")),
    }
    let (cols, q) = parse_columns(ts, p + 3)?;
    match at(ts, q) {
        Some(Tok::Semi) => {},
        _ => return Err(perr("expected `;`")),
    }
    let kind = kind_of(str_is(kw, "lattice"), &cols)?;
    let mut schema: Vec<Type> = Vec::new();
    let mut i: usize = 0;
    while i < cols.len()
        invariant
            i <= cols@.len(),
            schema@ =~= cols@.take(i as int).map_values(|c: (Type, bool)| c.0),
        decreases cols@.len() - i,
    {
        schema.push(cols[i].0);
        i += 1;
    }
    assert(cols@.take(i as int) =~= cols@);
    Ok((RelationDecl { name: name.clone(), schema, kind }, q + 1))
}

/// Parses a whole program.
fn parse_program(ts: &Vec<Tok>, it: &mut Interner) -> (r: Result<Program, ParseError>)
    requires
        old(it).wf(),
        toks_ok(tv(ts)),
    ensures
        final(it).wf(),
        match program_spec(tv(ts), old(it)@) {
            Some((pv, n)) => r matches Ok(x) && program_view(x) == pv && final(it)@ == n,
            None => r is Err,
        },
{
    let ghost t = tv(ts);
    let ghost n0 = it@;
    let mut relations: Vec<RelationDecl> = Vec::new();
    let mut rules: Vec<Rule> = Vec::new();
    let mut q: usize = 0;
    assert(relations@.map_values(|d: RelationDecl| decl_view(d)) =~= Seq::<DeclV>::empty());
    assert(rules@.map_values(|r: Rule| rule_view(r)) =~= Seq::<RuleV>::empty());
    while q < ts.len()
        invariant
            it.wf(),
            toks_ok(tv(ts)),
            t == tv(ts),
            n0 == old(it)@,
            q <= ts@.len(),
            program_spec(t, n0) == program_from(t, q as int, it@,
                relations@.map_values(|d: RelationDecl| decl_view(d)), rules@.map_values(|r: Rule| rule_view(r))),
        decreases ts@.len() - q,
    {
        let tk = at(ts, q);
        if is_word(tk, "relation") || is_word(tk, "lattice") {
            let (d, q1) = parse_decl(ts, q, it)?;
            let ghost before = relations@;
            relations.push(d);
            assert(relations@.map_values(|d: RelationDecl| decl_view(d))
                =~= before.map_values(|d: RelationDecl| decl_view(d)).push(decl_view(d)));
            q = q1;
        } else {
            let (r, q1) = parse_rule(ts, q, it)?;
            let ghost before = rules@;
            rules.push(r);
            assert(rules@.map_values(|r: Rule| rule_view(r))
                =~= before.map_values(|r: Rule| rule_view(r)).push(rule_view(r)));
            q = q1;
        }
    }
    Ok(Program { relations, rules })
}

/// The lexer yields no negative integer.
proof fn lemma_lex_ok(cs: Seq<char>, i: int)
    requires
        lex_spec(cs, i) is Some,
    ensures
        toks_ok(lex_spec(cs, i).unwrap()),
    decreases cs.len() - i,
{
    if 0 <= i < cs.len() {
        match step_spec(cs, i) {
            Step::Skip(j) => {
                lemma_lex_ok(cs, j);
            },
            Step::Emit(t, j) => {
                lemma_lex_ok(cs, j);
                let rest = lex_spec(cs, j).unwrap();
                let all = seq![t] + rest;
                if is_digit(cs[i]) && !is_ws(cs[i]) {
                    let e = digits_end(cs, i);
                    lemma_scan_progress(cs, i);
                    lemma_digits_all(cs, i, i);
                    let ds = cs.subrange(i, e);
                    assert forall|k: int| 0 <= k < ds.len() implies is_digit(#[trigger] ds[k]) by {
                        assert(ds[k] == cs[i + k]);
                    }
                    lemma_digits_prefix(ds, 0);
                }
                assert forall|k: int| 0 <= k < all.len() implies (#[trigger] all[k] matches TokV::Int(v) ==> v >= 0) by {
                    if k > 0 {
                        assert(all[k] == rest[k - 1]);
                    }
                }
            },
            Step::Fail => {},
        }
    }
}

/// Parses `src` into a [`Program`], interning symbols into `interner`.
pub fn parse(src: &str, interner: &mut Interner) -> (r: Result<Program, ParseError>)
    requires
        old(interner).wf(),
    ensures
        final(interner).wf(),
        match parse_spec(src@, old(interner)@) {
            Some((pv, n)) => r matches Ok(p) && program_view(p) == pv && final(interner)@ == n,
            None => r is Err,
        },
{
    let cs = chars_of(src);
    let ts = match crate::lexer::tokenize(&cs) {
        Ok(ts) => ts,
        Err(m) => return Err(ParseError { message: m }),
    };
    proof { lemma_lex_ok(cs@, 0); }
    parse_program(&ts, interner)
}

/// Parses a conjunctive query `(exprs) <-- clauses ;?` into its output
/// expressions and body clauses, interning symbols into `interner`.
/// Trailing tokens after the query are rejected.
pub fn parse_query(src: &str, interner: &mut Interner) -> (r: Result<(Vec<Expr>, Vec<BodyClause>), ParseError>)
    requires
        old(interner).wf(),
    ensures
        final(interner).wf(),
        match parse_query_spec(src@, old(interner)@) {
            Some(((outs, body), n)) => r matches Ok((o, b)) && o@ == outs && clauses_view(b@) == body && final(interner)@ == n,
            None => r is Err,
        },
{
    let cs = chars_of(src);
    let ts = match crate::lexer::tokenize(&cs) {
        Ok(ts) => ts,
        Err(m) => return Err(ParseError { message: m }),
    };
    proof { lemma_lex_ok(cs@, 0); }
    match at(&ts, 0) {
        Some(Tok::LParen) => {},
        _ => return Err(perr("expected `(`")),
    }
    match at(&ts, 1) {
        Some(Tok::RParen) => return Err(perr("a query must have at least one output expression")),
        _ => {},
    }
    let (outputs, q) = parse_exprs(&ts, 1, interner)?;
    match at(&ts, q) {
        Some(Tok::Arrow) => {},
        _ => return Err(perr("expected `<--`")),
    }
    let (body, q2) = parse_clauses(&ts, q + 1, interner)?;
    let end = match at(&ts, q2) {
        Some(Tok::Semi) => q2 + 1,
        _ => q2,
    };
    if end != ts.len() {
        return Err(perr("trailing tokens after query"));
    }
    Ok((outputs, body))
}


/// Declarations and rules as the parser yields them: every lattice has a
/// value column and every rule has a head.
pub open spec fn shape_ok(rels: Seq<DeclV>, rules: Seq<RuleV>) -> bool {
    &&& forall|i: int| 0 <= i < rels.len() ==> ((#[trigger] rels[i]).kind is Lattice ==> rels[i].schema.len() >= 1)
    &&& forall|i: int| 0 <= i < rules.len() ==> (#[trigger] rules[i]).heads.len() >= 1
}

/// A parsed program's shape.
pub open spec fn parsed_shape(pv: ProgramV) -> bool {
    shape_ok(pv.relations, pv.rules)
}

proof fn lemma_heads_nonempty(ts: Seq<TokV>, p: int, n: Names, acc: Seq<HeadV>)
    requires
        heads_from(ts, p, n, acc) is Some,
    ensures
        heads_from(ts, p, n, acc).unwrap().0.len() >= acc.len() + 1,
    decreases ts.len() - p,
{
    let (h, p1, n1) = head_spec(ts, p, n).unwrap();
    if tok_at(ts, p1) == Some(TokV::Comma) {
        lemma_heads_nonempty(ts, p1 + 1, n1, acc.push(h));
    }
}

proof fn lemma_decl_shape(ts: Seq<TokV>, p: int, n: Names)
    requires
        decl_spec(ts, p, n) is Some,
    ensures
        decl_spec(ts, p, n).unwrap().0.kind is Lattice ==> decl_spec(ts, p, n).unwrap().0.schema.len() >= 1,
{
    reveal(decl_spec);
}

proof fn lemma_rule_shape(ts: Seq<TokV>, p: int, n: Names)
    requires
        rule_spec(ts, p, n) is Some,
    ensures
        rule_spec(ts, p, n).unwrap().0.heads.len() >= 1,
{
    reveal(rule_spec);
    lemma_heads_nonempty(ts, p, n, Seq::empty());
}

/// Parsed programs have the parser's shape.
#[verifier::rlimit(40)]
pub proof fn lemma_parsed_shape(ts: Seq<TokV>, p: int, n: Names, rels: Seq<DeclV>, rules: Seq<RuleV>)
    requires
        program_from(ts, p, n, rels, rules) is Some,
        shape_ok(rels, rules),
    ensures
        parsed_shape(program_from(ts, p, n, rels, rules).unwrap().0),
    decreases ts.len() - p,
{
    if 0 <= p < ts.len() {
        if word_at(ts, p, "relation"@) || word_at(ts, p, "lattice"@) {
            let (d, p1, n1) = decl_spec(ts, p, n).unwrap();
            lemma_decl_shape(ts, p, n);
            let rels2 = rels.push(d);
            assert forall|i: int| 0 <= i < rels2.len() && (#[trigger] rels2[i]).kind is Lattice implies
                rels2[i].schema.len() >= 1 by {
                if i < rels.len() { assert(rels2[i] == rels[i]); }
            }
            lemma_parsed_shape(ts, p1, n1, rels2, rules);
        } else {
            let (r, p1, n1) = rule_spec(ts, p, n).unwrap();
            lemma_rule_shape(ts, p, n);
            let rules2 = rules.push(r);
            assert forall|i: int| 0 <= i < rules2.len() implies (#[trigger] rules2[i]).heads.len() >= 1 by {
                if i < rules.len() { assert(rules2[i] == rules[i]); }
            }
            lemma_parsed_shape(ts, p1, n1, rels, rules2);
        }
    }
}

/// What parsing succeeds on has the parser's shape.
pub proof fn lemma_parse_shape(src: Seq<char>, n: Names)
    requires
        parse_spec(src, n) is Some,
    ensures
        parsed_shape(parse_spec(src, n).unwrap().0),
{
    let ts = lex_spec(src, 0).unwrap();
    assert(shape_ok(Seq::empty(), Seq::empty()));
    lemma_parsed_shape(ts, 0, n, Seq::empty(), Seq::empty());
}

/// The comparison operator the grammar reads for the token the lexer emits
/// at `i`, if it is one.
pub open spec fn comparison_at(cs: Seq<char>, i: int) -> Option<BinOp> {
    match step_spec(cs, i) {
        Step::Emit(t, _) => compare_op(Some(t)),
        _ => None,
    }
}

/// The arithmetic operator the grammar reads for the token the lexer emits
/// at `i`, if it is one.
pub open spec fn arith_at(cs: Seq<char>, i: int) -> Option<BinOp> {
    match step_spec(cs, i) {
        Step::Emit(t, _) => match add_op(Some(t)) {
            Some(o) => Some(o),
            None => mul_op(Some(t)),
        },
        _ => None,
    }
}

/// An operator's text means what it says: the token the lexer emits for it
/// is read by the grammar as the operator whose value on integers is the
/// comparison or the arithmetic the text denotes (`<` strictly less, `<=`
/// less or equal, and so on; `==` and `!=` on any two values).
pub proof fn lemma_operator_text(cs: Seq<char>, i: int, x: i64, y: i64, a: Value, b: Value)
    requires
        0 <= i < cs.len(),
    ensures
        (cs[i] == '<' && !(i + 1 < cs.len() && (cs[i + 1] == '=' || cs[i + 1] == '-'))) ==> (comparison_at(cs, i) is Some
            && binary_spec(comparison_at(cs, i).unwrap(), Value::Int(x), Value::Int(y)) == Outcome::Val(Value::Bool(x < y))),
        (cs[i] == '<' && i + 1 < cs.len() && cs[i + 1] == '=') ==> (comparison_at(cs, i) is Some
            && binary_spec(comparison_at(cs, i).unwrap(), Value::Int(x), Value::Int(y)) == Outcome::Val(Value::Bool(x <= y))),
        (cs[i] == '>' && !(i + 1 < cs.len() && cs[i + 1] == '=')) ==> (comparison_at(cs, i) is Some
            && binary_spec(comparison_at(cs, i).unwrap(), Value::Int(x), Value::Int(y)) == Outcome::Val(Value::Bool(x > y))),
        (cs[i] == '>' && i + 1 < cs.len() && cs[i + 1] == '=') ==> (comparison_at(cs, i) is Some
            && binary_spec(comparison_at(cs, i).unwrap(), Value::Int(x), Value::Int(y)) == Outcome::Val(Value::Bool(x >= y))),
        (cs[i] == '=' && i + 1 < cs.len() && cs[i + 1] == '=') ==> (comparison_at(cs, i) is Some
            && binary_spec(comparison_at(cs, i).unwrap(), a, b) == Outcome::Val(Value::Bool(a == b))),
        (cs[i] == '!' && i + 1 < cs.len() && cs[i + 1] == '=') ==> (comparison_at(cs, i) is Some
            && binary_spec(comparison_at(cs, i).unwrap(), a, b) == Outcome::Val(Value::Bool(a != b))),
        cs[i] == '+' ==> (arith_at(cs, i) is Some
            && binary_spec(arith_at(cs, i).unwrap(), Value::Int(x), Value::Int(y)) == Outcome::Val(Value::Int(x.wrapping_add(y)))),
        (cs[i] == '-' && !(i + 1 < cs.len() && cs[i + 1] == '-')) ==> (arith_at(cs, i) is Some
            && binary_spec(arith_at(cs, i).unwrap(), Value::Int(x), Value::Int(y)) == Outcome::Val(Value::Int(x.wrapping_sub(y)))),
        cs[i] == '*' ==> (arith_at(cs, i) is Some
            && binary_spec(arith_at(cs, i).unwrap(), Value::Int(x), Value::Int(y)) == Outcome::Val(Value::Int(x.wrapping_mul(y)))),
        (cs[i] == '/' && !(i + 1 < cs.len() && cs[i + 1] == '/')) ==> (arith_at(cs, i) is Some
            && binary_spec(arith_at(cs, i).unwrap(), Value::Int(x), Value::Int(y)) == match x.checked_div(y) {
                Some(q) => Outcome::Val(Value::Int(q)),
                None => Outcome::Arith,
            }),
        cs[i] == '%' ==> (arith_at(cs, i) is Some
            && binary_spec(arith_at(cs, i).unwrap(), Value::Int(x), Value::Int(y)) == match x.checked_rem(y) {
                Some(q) => Outcome::Val(Value::Int(q)),
                None => Outcome::Arith,
            }),
{
}

} // verus!
