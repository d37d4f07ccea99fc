//! Column typing of a conjunctive body: a literal argument has its column's
//! declared type, and a variable is read at one column type only.

use vstd::prelude::*;

use crate::eval::arg_var;
use crate::ir::{decl_index, lemma_decl_index, Arg, Atom, BodyClause, Program, RelationDecl};
use crate::strata::{body_valid, clause_atom, clause_valid};
use crate::value::{type_of_spec, Symbol, Type};

verus! {

/// The declared type of column `i` of the relation atom `a` reads.
pub open spec fn col_type(rels: Seq<RelationDecl>, a: Atom, i: int) -> Type {
    rels[decl_index(rels, a.relation@).unwrap()].schema@[i]
}

/// The arguments of `a`, each with its column's declared type.
pub open spec fn atom_occs(rels: Seq<RelationDecl>, a: Atom) -> Seq<(Arg, Type)> {
    Seq::new(a.args@.len(), |i: int| (a.args@[i], col_type(rels, a, i)))
}

/// The arguments of every atom the body reads, in body order, each with its
/// column's declared type.
pub open spec fn body_occs(rels: Seq<RelationDecl>, body: Seq<BodyClause>) -> Seq<(Arg, Type)>
    decreases body.len(),
{
    if body.len() == 0 {
        Seq::empty()
    } else {
        body_occs(rels, body.drop_last()) + match clause_atom(body.last()) {
            Some(a) => atom_occs(rels, a),
            None => Seq::empty(),
        }
    }
}

/// A literal argument has its column's type.
pub open spec fn occ_lit_ok(o: (Arg, Type)) -> bool {
    match o.0 {
        Arg::Lit(v) => type_of_spec(v) == o.1,
        _ => true,
    }
}

/// Two arguments that read the same variable read it at the same type.
pub open spec fn occs_agree(a: (Arg, Type), b: (Arg, Type)) -> bool {
    arg_var(a.0) is Some && arg_var(a.0) == arg_var(b.0) ==> a.1 == b.1
}

/// Every literal has its column's type and every variable one type.
pub open spec fn occs_typed(occs: Seq<(Arg, Type)>) -> bool {
    &&& forall|i: int| 0 <= i < occs.len() ==> occ_lit_ok(#[trigger] occs[i])
    &&& forall|i: int, j: int| 0 <= i < occs.len() && 0 <= j < occs.len() ==> occs_agree(#[trigger] occs[i], #[trigger] occs[j])
}

/// The body's column types match: each literal argument has its column's
/// declared type, and each variable is read at one type.
pub open spec fn body_typed(rels: Seq<RelationDecl>, body: Seq<BodyClause>) -> bool {
    occs_typed(body_occs(rels, body))
}

/// The arguments of every atom of `body`, each with its column's type.
fn body_occurrences(p: &Program, body: &[BodyClause]) -> (r: Vec<(Arg, Type)>)
    requires
        body_valid(p.relations@, body@),
    ensures
        r@ == body_occs(p.relations@, body@),
{
    let mut out: Vec<(Arg, Type)> = Vec::new();
    let mut c: usize = 0;
    assert(body@.take(0) =~= Seq::<BodyClause>::empty());
    while c < body.len()
        invariant
            c <= body.len(),
            body_valid(p.relations@, body@),
            out@ == body_occs(p.relations@, body@.take(c as int)),
        decreases body.len() - c,
    {
        assert(body@.take(c + 1).drop_last() =~= body@.take(c as int));
        assert(body@.take(c + 1).last() == body@[c as int]);
        assert(clause_valid(p.relations@, body@[c as int]));
        let atom: Option<&Atom> = match &body[c] {
            BodyClause::Positive(a) => Some(a),
            BodyClause::Negative(a) => Some(a),
            BodyClause::Aggregate(g) => Some(&g.source),
            _ => None,
        };
        match atom {
            Some(a) => {
                assert(clause_atom(body@[c as int]) == Some(*a));
                proof { lemma_decl_index(p.relations@, a.relation@); }
                match p.relation_named(&a.relation) {
                    Some(decl) => {
                        let ghost base = out@;
                        let ghost occs = atom_occs(p.relations@, *a);
                        let mut i: usize = 0;
                        while i < a.args.len()
                            invariant
                                i <= a.args@.len(),
                                decl.schema@.len() == a.args@.len(),
                                *decl == p.relations@[decl_index(p.relations@, a.relation@).unwrap()],
                                occs == atom_occs(p.relations@, *a),
                                out@ == base + occs.take(i as int),
                            decreases a.args.len() - i,
                        {
                            out.push((a.args[i], decl.schema[i]));
                            assert(occs.take(i + 1) =~= occs.take(i as int).push(occs[i as int]));
                            assert(out@ =~= base + occs.take(i + 1));
                            i += 1;
                        }
                        assert(occs.take(i as int) =~= occs);
                    },
                    None => {},
                }
            },
            None => {
                assert(out@ =~= out@ + Seq::<(Arg, Type)>::empty());
            },
        }
        c += 1;
    }
    assert(body@.take(c as int) =~= body@);
    out
}

/// The variable an argument reads, if any.
fn var_of(a: Arg) -> (r: Option<Symbol>)
    ensures
        r == arg_var(a),
{
    match a {
        Arg::Var(s) => Some(s),
        Arg::LatticeBind(s) => Some(s),
        _ => None,
    }
}

/// Whether the column types of a schema-valid body match (see
/// [`body_typed`]).
pub fn check_query_types(p: &Program, body: &[BodyClause]) -> (r: bool)
    requires
        body_valid(p.relations@, body@),
    ensures
        r == body_typed(p.relations@, body@),
{
    let occ = body_occurrences(p, body);
    let mut i: usize = 0;
    while i < occ.len()
        invariant
            i <= occ@.len(),
            occ@ == body_occs(p.relations@, body@),
            occs_typed(occ@.take(i as int)),
        decreases occ.len() - i,
    {
        let (arg_i, ty_i) = occ[i];
        match arg_i {
            Arg::Lit(v) => {
                if v.type_of() != ty_i {
                    assert(!occ_lit_ok(occ@[i as int]));
                    assert(!occs_typed(occ@));
                    return false;
                }
            },
            _ => {},
        }
        let vi = var_of(arg_i);
        let mut j: usize = 0;
        while j < i
            invariant
                i < occ@.len(),
                j <= i,
                occ@ == body_occs(p.relations@, body@),
                occ@[i as int] == (arg_i, ty_i),
                vi == arg_var(arg_i),
                forall|k: int| 0 <= k < j ==> occs_agree(#[trigger] occ@[k], occ@[i as int]) && occs_agree(occ@[i as int], occ@[k]),
            decreases i - j,
        {
            let (arg_j, ty_j) = occ[j];
            let vj = var_of(arg_j);
            match (vi, vj) {
                (Some(a), Some(b)) => {
                    if a == b && ty_i != ty_j {
                        assert(!occs_agree(occ@[i as int], occ@[j as int]));
                        assert(!occs_typed(occ@));
                        return false;
                    }
                },
                _ => {},
            }
            j += 1;
        }
        proof {
            let t1 = occ@.take(i + 1);
            let t0 = occ@.take(i as int);
            assert forall|x: int| 0 <= x < t1.len() implies occ_lit_ok(#[trigger] t1[x]) by {
                if x < i { assert(t1[x] == t0[x]); }
            }
            assert forall|x: int, y: int| 0 <= x < t1.len() && 0 <= y < t1.len() implies occs_agree(#[trigger] t1[x], #[trigger] t1[y]) by {
                if x < i && y < i {
                    assert(t1[x] == t0[x] && t1[y] == t0[y]);
                }
            }
        }
        i += 1;
    }
    assert(occ@.take(i as int) =~= occ@);
    true
}

} // verus!
