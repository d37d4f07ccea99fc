//! Validation and stratification: every referenced relation must be declared
//! with a matching arity, and relations get the least strata such that a rule's
//! head is no lower than its positive body atoms and strictly above its
//! negated and aggregated ones.

use vstd::prelude::*;

use crate::error::EvalError;
use crate::groups::{max_stratum_of, members_upto, strata_groups};
use crate::least::lemma_least_bounded;
use crate::ir::{decl_index, lemma_decl_index, Atom, BodyClause, HeadAtom, Program, RelationDecl, Rule};

verus! {

/// The declared arity of the first relation named `name`.
pub open spec fn declared_arity(rels: Seq<RelationDecl>, name: Seq<char>) -> Option<nat> {
    match decl_index(rels, name) {
        Some(i) => Some(rels[i].schema@.len()),
        None => None,
    }
}

/// An atom names a declared relation and has its arity.
pub open spec fn atom_valid(rels: Seq<RelationDecl>, a: Atom) -> bool {
    declared_arity(rels, a.relation@) == Some(a.args@.len())
}

/// Every atom read by a body clause is valid.
pub open spec fn clause_valid(rels: Seq<RelationDecl>, c: BodyClause) -> bool {
    match c {
        BodyClause::Positive(a) => atom_valid(rels, a),
        BodyClause::Negative(a) => atom_valid(rels, a),
        BodyClause::Aggregate(agg) => atom_valid(rels, agg.source),
        _ => true,
    }
}

/// Every atom of a body is valid.
pub open spec fn body_valid(rels: Seq<RelationDecl>, body: Seq<BodyClause>) -> bool {
    forall|c: int| 0 <= c < body.len() ==> clause_valid(rels, #[trigger] body[c])
}

/// The atom a body clause reads, if it reads one.
pub open spec fn clause_atom(c: BodyClause) -> Option<Atom> {
    match c {
        BodyClause::Positive(a) => Some(a),
        BodyClause::Negative(a) => Some(a),
        BodyClause::Aggregate(g) => Some(g.source),
        _ => None,
    }
}

/// The error an invalid atom is reported with: its undeclared relation, or
/// its relation with the declared and the actual arity.
pub open spec fn atom_error(rels: Seq<RelationDecl>, a: Atom, e: EvalError) -> bool {
    match declared_arity(rels, a.relation@) {
        None => e matches EvalError::UnknownRelation(n) && n@ == a.relation@,
        Some(k) => e matches EvalError::Arity { relation, expected, got }
            && relation@ == a.relation@ && expected as nat == k && got as nat == a.args@.len(),
    }
}

/// `e` reports the first clause of `body` whose atom is not valid.
pub open spec fn first_invalid(rels: Seq<RelationDecl>, body: Seq<BodyClause>, e: EvalError) -> bool {
    exists|c: int| 0 <= c < body.len() && !clause_valid(rels, #[trigger] body[c])
        && (forall|k: int| 0 <= k < c ==> clause_valid(rels, #[trigger] body[k]))
        && (clause_atom(body[c]) matches Some(a) && atom_error(rels, a, e))
}

/// A head names a declared relation and has one column per declared column.
pub open spec fn head_valid(rels: Seq<RelationDecl>, h: HeadAtom) -> bool {
    declared_arity(rels, h.relation@) == Some(h.args@.len())
}

/// Every head and body atom of every rule is valid.
pub open spec fn program_valid(p: Program) -> bool {
    forall|r: int| 0 <= r < p.rules@.len() ==> {
        &&& forall|h: int| 0 <= h < p.rules@[r].heads@.len() ==> head_valid(p.relations@, #[trigger] p.rules@[r].heads@[h])
        &&& body_valid(p.relations@, (#[trigger] p.rules@[r]).body@)
    }
}

/// The position of the first declaration named `name` (assumed declared).
#[verifier::opaque]
pub open spec fn pos(p: Program, name: Seq<char>) -> int {
    decl_index(p.relations@, name).unwrap()
}

/// The position of a declared relation is its first declaration.
pub proof fn lemma_pos(p: Program, name: Seq<char>)
    requires
        decl_index(p.relations@, name) is Some,
    ensures
        pos(p, name) == decl_index(p.relations@, name).unwrap(),
        0 <= pos(p, name) < p.relations@.len(),
        p.relations@[pos(p, name)].name@ == name,
{
    reveal(pos);
    lemma_decl_index(p.relations@, name);
}

/// The stratum constraint a body clause puts on a head under `st`.
pub open spec fn clause_ok(p: Program, st: Seq<int>, head: HeadAtom, c: BodyClause) -> bool {
    match c {
        BodyClause::Positive(a) => st[pos(p, head.relation@)] >= st[pos(p, a.relation@)],
        BodyClause::Negative(a) => st[pos(p, head.relation@)] >= st[pos(p, a.relation@)] + 1,
        BodyClause::Aggregate(agg) => st[pos(p, head.relation@)] >= st[pos(p, agg.source.relation@)] + 1,
        _ => true,
    }
}

/// `st` assigns each declared relation a stratum respecting every rule.
pub open spec fn respects(p: Program, st: Seq<int>) -> bool {
    &&& st.len() == p.relations@.len()
    &&& forall|i: int| 0 <= i < st.len() ==> #[trigger] st[i] >= 0
    &&& forall|r: int, h: int, c: int| 0 <= r < p.rules@.len() && 0 <= h < p.rules@[r].heads@.len()
        && 0 <= c < p.rules@[r].body@.len() ==>
        #[trigger] clause_ok(p, st, p.rules@[r].heads@[h], p.rules@[r].body@[c])
}

/// `a` is pointwise no greater than `b`.
pub open spec fn pointwise_le(a: Seq<int>, b: Seq<int>) -> bool {
    a.len() == b.len() && forall|i: int| 0 <= i < a.len() ==> #[trigger] a[i] <= b[i]
}

/// `st` is the least stratification of `p`.
pub open spec fn is_least_strata(p: Program, st: Seq<int>) -> bool {
    &&& respects(p, st)
    &&& forall|other: Seq<int>| respects(p, other) ==> pointwise_le(st, other)
}

/// The least stratification of `p`, if one exists.
pub open spec fn least_strata(p: Program) -> Option<Seq<int>> {
    if exists|st: Seq<int>| is_least_strata(p, st) {
        Some(choose|st: Seq<int>| is_least_strata(p, st))
    } else {
        None
    }
}

/// The least stratification is unique.
pub proof fn lemma_least_unique(p: Program, st: Seq<int>)
    requires
        is_least_strata(p, st),
    ensures
        least_strata(p) == Some(st),
{
    let other = choose|s: Seq<int>| is_least_strata(p, s);
    assert(pointwise_le(st, other));
    assert(pointwise_le(other, st));
    assert(other =~= st);
}

/// The stratum of a rule: the lowest stratum of its heads (0 without
/// heads). Every relation the rule reads lies in that stratum or below, and
/// every rule reading one of its heads lies in that head's stratum or above,
/// so running the rule there gives each head its tuples before any stratum
/// that reads them.
pub open spec fn rule_stratum(p: Program, st: Seq<int>, r: Rule) -> int {
    heads_min(p, st, r.heads@)
}

/// The lowest stratum among a list of heads (0 for none).
pub open spec fn heads_min(p: Program, st: Seq<int>, heads: Seq<HeadAtom>) -> int
    decreases heads.len(),
{
    if heads.len() == 0 {
        0
    } else if heads.len() == 1 {
        st[pos(p, heads[0].relation@)]
    } else {
        let m = heads_min(p, st, heads.drop_last());
        let x = st[pos(p, heads.last().relation@)];
        if x < m { x } else { m }
    }
}

/// Every head of a rule that lies above the rule's stratum (the lowest of
/// its heads) is a set relation: a lattice that later strata may rewrite is
/// only ever a head at the rule's own stratum.
pub open spec fn spanning_heads_are_sets(p: Program, st: Seq<int>) -> bool {
    forall|r: int, h: int| 0 <= r < p.rules@.len() && 0 <= h < p.rules@[r].heads@.len()
        && st[pos(p, (#[trigger] p.rules@[r].heads@[h]).relation@)] != rule_stratum(p, st, p.rules@[r])
        ==> p.relations@[pos(p, p.rules@[r].heads@[h].relation@)].kind is Relation
}

/// `heads_min` is no higher than any head's stratum.
pub proof fn lemma_heads_min_le(p: Program, st: Seq<int>, heads: Seq<HeadAtom>)
    ensures
        forall|h: int| 0 <= h < heads.len() ==> heads_min(p, st, heads) <= st[pos(p, (#[trigger] heads[h]).relation@)],
    decreases heads.len(),
{
    if heads.len() > 1 {
        let init = heads.drop_last();
        lemma_heads_min_le(p, st, init);
        assert forall|h: int| 0 <= h < heads.len() implies heads_min(p, st, heads) <= st[pos(p, (#[trigger] heads[h]).relation@)] by {
            if h < heads.len() - 1 {
                assert(init[h] == heads[h]);
            }
        }
    }
}

/// `heads_min` is no lower than a bound every head's stratum meets.
pub proof fn lemma_heads_min_ge(p: Program, st: Seq<int>, heads: Seq<HeadAtom>, x: int)
    requires
        heads.len() >= 1,
        forall|h: int| 0 <= h < heads.len() ==> st[pos(p, (#[trigger] heads[h]).relation@)] >= x,
    ensures
        heads_min(p, st, heads) >= x,
    decreases heads.len(),
{
    if heads.len() > 1 {
        let init = heads.drop_last();
        assert forall|h: int| 0 <= h < init.len() implies st[pos(p, (#[trigger] init[h]).relation@)] >= x by {
            assert(init[h] == heads[h]);
        }
        lemma_heads_min_ge(p, st, init, x);
        assert(st[pos(p, heads[heads.len() - 1].relation@)] >= x);
    } else {
        assert(st[pos(p, heads[0].relation@)] >= x);
    }
}

} // verus!

verus! {

/// The position of the first declaration named `name`.
pub fn decl_pos(p: &Program, name: &String) -> (r: Option<usize>)
    ensures
        match r {
            Some(i) => decl_index(p.relations@, name@) == Some(i as int) && i < p.relations@.len()
                && pos(*p, name@) == i,
            None => decl_index(p.relations@, name@) is None,
        },
{
    proof { lemma_decl_index(p.relations@, name@); }
    let mut i: usize = 0;
    while i < p.relations.len()
        invariant
            i <= p.relations.len(),
            forall|j: int| 0 <= j < i ==> p.relations@[j].name@ != name@,
        decreases p.relations.len() - i,
    {
        if p.relations[i].name == *name {
            proof {
                lemma_decl_index(p.relations@, name@);
                lemma_pos(*p, name@);
            }
            return Some(i);
        }
        i += 1;
    }
    None
}

/// The declared arity of `name`, or [`EvalError::UnknownRelation`].
fn relation_arity(p: &Program, name: &String) -> (r: Result<usize, EvalError>)
    ensures
        match declared_arity(p.relations@, name@) {
            Some(n) => r matches Ok(k) && k as nat == n,
            None => r matches Err(EvalError::UnknownRelation(m)) && m@ == name@,
        },
{
    match decl_pos(p, name) {
        Some(i) => Ok(p.relations[i].schema.len()),
        None => Err(EvalError::UnknownRelation(name.clone())),
    }
}

/// Validates a single body atom against its declared relation.
fn check_atom_arity(p: &Program, atom: &Atom) -> (r: Result<(), EvalError>)
    ensures
        r is Ok <==> atom_valid(p.relations@, *atom),
        declared_arity(p.relations@, atom.relation@) is None ==>
            (r matches Err(EvalError::UnknownRelation(m)) && m@ == atom.relation@),
        (declared_arity(p.relations@, atom.relation@) is Some && !atom_valid(p.relations@, *atom)) ==>
            (r matches Err(EvalError::Arity { relation, expected, got })
                && relation@ == atom.relation@ && got == atom.args@.len()
                && Some(expected as nat) == declared_arity(p.relations@, atom.relation@)),
{
    let want = relation_arity(p, &atom.relation)?;
    if atom.args.len() != want {
        return Err(EvalError::Arity { relation: atom.relation.clone(), expected: want, got: atom.args.len() });
    }
    Ok(())
}

/// Validates that every relation a conjunctive body reads exists and that
/// every atom matches its declared arity.
pub fn check_query_arities(p: &Program, body: &[BodyClause]) -> (r: Result<(), EvalError>)
    ensures
        r is Ok <==> body_valid(p.relations@, body@),
        r matches Err(e) ==> (e is UnknownRelation || e is Arity),
        r matches Err(e) ==> first_invalid(p.relations@, body@, e),
{
    let mut i: usize = 0;
    while i < body.len()
        invariant
            i <= body.len(),
            forall|c: int| 0 <= c < i ==> clause_valid(p.relations@, #[trigger] body@[c]),
        decreases body.len() - i,
    {
        let atom: Option<&Atom> = match &body[i] {
            BodyClause::Positive(a) => Some(a),
            BodyClause::Negative(a) => Some(a),
            BodyClause::Aggregate(agg) => Some(&agg.source),
            _ => None,
        };
        match atom {
            Some(a) => {
                assert(clause_atom(body@[i as int]) == Some(*a));
                match check_atom_arity(p, a) {
                    Ok(()) => {},
                    Err(e) => {
                        assert(!clause_valid(p.relations@, body@[i as int]));
                        assert(first_invalid(p.relations@, body@, e));
                        return Err(e);
                    },
                }
            },
            None => {},
        }
        i += 1;
    }
    Ok(())
}

/// Validates every head and body atom of every rule.
fn validate_arities(p: &Program) -> (r: Result<(), EvalError>)
    ensures
        r is Ok <==> program_valid(*p),
        r matches Err(e) ==> (e is UnknownRelation || e is Arity),
{
    let mut r: usize = 0;
    while r < p.rules.len()
        invariant
            r <= p.rules.len(),
            forall|k: int| 0 <= k < r ==> {
                &&& forall|h: int| 0 <= h < p.rules@[k].heads@.len() ==> head_valid(p.relations@, #[trigger] p.rules@[k].heads@[h])
                &&& body_valid(p.relations@, (#[trigger] p.rules@[k]).body@)
            },
        decreases p.rules.len() - r,
    {
        let rule = &p.rules[r];
        let mut h: usize = 0;
        while h < rule.heads.len()
            invariant
                r < p.rules.len(),
                h <= rule.heads.len(),
                rule == &p.rules@[r as int],
                forall|k: int| 0 <= k < r ==> {
                    &&& forall|h: int| 0 <= h < p.rules@[k].heads@.len() ==> head_valid(p.relations@, #[trigger] p.rules@[k].heads@[h])
                    &&& body_valid(p.relations@, (#[trigger] p.rules@[k]).body@)
                },
                forall|x: int| 0 <= x < h ==> head_valid(p.relations@, #[trigger] rule.heads@[x]),
            decreases rule.heads.len() - h,
        {
            let head = &rule.heads[h];
            let want = match relation_arity(p, &head.relation) {
                Ok(w) => w,
                Err(e) => {
                    assert(!head_valid(p.relations@, p.rules@[r as int].heads@[h as int]));
                    return Err(e);
                },
            };
            if head.args.len() != want {
                assert(!head_valid(p.relations@, p.rules@[r as int].heads@[h as int]));
                return Err(EvalError::Arity { relation: head.relation.clone(), expected: want, got: head.args.len() });
            }
            h += 1;
        }
        let body = rule.body.as_slice();
        match check_query_arities(p, body) {
            Ok(()) => {},
            Err(e) => {
                assert(!body_valid(p.relations@, p.rules@[r as int].body@));
                return Err(e);
            },
        }
        r += 1;
    }
    Ok(())
}

/// The strata as integers.
pub open spec fn strata_view(st: Seq<usize>) -> Seq<int> {
    st.map_values(|x: usize| x as int)
}

/// Raises the stratum of `dst` to at least that of `src` (plus one if strict).
fn relax(st: &mut Vec<usize>, dst: usize, src: usize, strict: bool, changed: &mut bool) -> (r: Result<(), EvalError>)
    requires
        dst < old(st)@.len(),
        src < old(st)@.len(),
    ensures
        final(st)@.len() == old(st)@.len(),
        (r is Ok && final(st)@ == old(st)@) ==> old(st)@[dst as int] >= old(st)@[src as int] + (if strict { 1int } else { 0int }),
        r is Ok ==> (final(st)@ == old(st)@ || (final(st)@ == old(st)@.update(dst as int,
            (old(st)@[src as int] + (if strict { 1int } else { 0int })) as usize)
            && old(st)@[dst as int] < old(st)@[src as int] + (if strict { 1int } else { 0int }))),
        r is Ok ==> (*final(changed) == (*old(changed) || final(st)@ != old(st)@)),
        r is Err ==> final(st)@ == old(st)@,
        r matches Err(e) ==> e is Stratification,
        r is Err ==> old(st)@[src as int] == usize::MAX,
        r is Ok ==> forall|i: int| 0 <= i < old(st)@.len() ==> old(st)@[i] <= #[trigger] final(st)@[i],
{
    let add: usize = if strict { 1 } else { 0 };
    let cand = match st[src].checked_add(add) {
        Some(c) => c,
        None => return Err(EvalError::Stratification("stratum overflow".to_owned())),
    };
    if cand > st[dst] {
        st.set(dst, cand);
        *changed = true;
        proof {
            assert(st@[dst as int] != old(st)@[dst as int]);
        }
    }
    Ok(())
}

} // verus!

verus! {

/// The constraint of clause `c` on head `h` of rule `r` holds under `st`.
pub open spec fn triple_ok(p: Program, st: Seq<int>, r: int, h: int, c: int) -> bool {
    clause_ok(p, st, p.rules@[r].heads@[h], p.rules@[r].body@[c])
}

/// `st` lies below every stratification of `p`.
pub open spec fn below_all(p: Program, st: Seq<int>) -> bool {
    forall|other: Seq<int>| #[trigger] respects(p, other) ==> pointwise_le(st, other)
}

/// One relaxation of a clause's constraint keeps the strata below every
/// stratification.
proof fn lemma_relax_below(p: Program, s0: Seq<usize>, s1: Seq<usize>, r: int, h: int, c: int, d: int, src: int, strict: bool)
    requires
        below_all(p, strata_view(s0)),
        0 <= r < p.rules@.len(),
        0 <= h < p.rules@[r].heads@.len(),
        0 <= c < p.rules@[r].body@.len(),
        d == pos(p, p.rules@[r].heads@[h].relation@),
        0 <= d < s0.len(),
        0 <= src < s0.len(),
        match p.rules@[r].body@[c] {
            BodyClause::Positive(a) => src == pos(p, a.relation@) && !strict,
            BodyClause::Negative(a) => src == pos(p, a.relation@) && strict,
            BodyClause::Aggregate(agg) => src == pos(p, agg.source.relation@) && strict,
            _ => false,
        },
        s1 == s0 || s1 == s0.update(d, (s0[src] + (if strict { 1int } else { 0int })) as usize),
    ensures
        below_all(p, strata_view(s1)),
{
    assert forall|other: Seq<int>| #[trigger] respects(p, other) implies pointwise_le(strata_view(s1), other) by {
        assert(pointwise_le(strata_view(s0), other));
        assert(clause_ok(p, other, p.rules@[r].heads@[h], p.rules@[r].body@[c]));
        assert forall|i: int| 0 <= i < strata_view(s1).len() implies #[trigger] strata_view(s1)[i] <= other[i] by {
            assert(strata_view(s0)[i] <= other[i]);
            assert(strata_view(s0)[src] <= other[src]);
        }
    }
}

/// The sum of a sequence of integers.
pub open spec fn seq_total(s: Seq<int>) -> int
    decreases s.len(),
{
    if s.len() == 0 { 0 } else { seq_total(s.drop_last()) + s.last() }
}

/// A pointwise larger sequence has a larger sum, strictly so when it differs.
proof fn lemma_total_grows(a: Seq<int>, b: Seq<int>)
    requires
        pointwise_le(a, b),
    ensures
        seq_total(a) <= seq_total(b),
        a != b ==> seq_total(a) < seq_total(b),
    decreases a.len(),
{
    if a.len() > 0 {
        let a0 = a.drop_last();
        let b0 = b.drop_last();
        assert(pointwise_le(a0, b0)) by {
            assert forall|i: int| 0 <= i < a0.len() implies #[trigger] a0[i] <= b0[i] by {
                assert(a[i] <= b[i]);
            }
        }
        lemma_total_grows(a0, b0);
        assert(a[a.len() - 1] <= b[b.len() - 1]);
        if a != b && a0 =~= b0 {
            if a.last() == b.last() {
                assert(a =~= b) by {
                    assert forall|i: int| 0 <= i < a.len() implies a[i] == b[i] by {
                        if i < a.len() - 1 {
                            assert(a[i] == a0[i] && b[i] == b0[i]);
                        }
                    }
                }
            }
        }
    } else {
        assert(a =~= b);
    }
}

/// A sequence of `n` integers in `0..=m` sums to at most `n * m`.
proof fn lemma_total_bound(a: Seq<int>, m: int)
    requires
        0 <= m,
        forall|i: int| 0 <= i < a.len() ==> 0 <= #[trigger] a[i] <= m,
    ensures
        0 <= seq_total(a) <= a.len() * m,
    decreases a.len(),
{
    if a.len() > 0 {
        let a0 = a.drop_last();
        assert forall|i: int| 0 <= i < a0.len() implies 0 <= #[trigger] a0[i] <= m by {
            assert(a0[i] == a[i]);
        }
        lemma_total_bound(a0, m);
        assert(a[a.len() - 1] <= m);
        assert(a0.len() * m + m == a.len() * m) by (nonlinear_arith)
            requires a0.len() + 1 == a.len();
    }
}

/// Relaxes the constraint that clause `c` of rule `r` puts on head `h`.
#[verifier::rlimit(60)]
fn relax_clause(p: &Program, strata: &mut Vec<usize>, r: usize, h: usize, c: usize, d: usize, changed: &mut bool) -> (res: Result<(), EvalError>)
    requires
        clause_valid(p.relations@, p.rules@[r as int].body@[c as int]),
        r < p.rules@.len(),
        h < p.rules@[r as int].heads@.len(),
        c < p.rules@[r as int].body@.len(),
        d == pos(*p, p.rules@[r as int].heads@[h as int].relation@),
        d < old(strata)@.len(),
        old(strata)@.len() == p.relations@.len(),
        below_all(*p, strata_view(old(strata)@)),
    ensures
        final(strata)@.len() == old(strata)@.len(),
        below_all(*p, strata_view(final(strata)@)),
        res matches Err(e) ==> e is Stratification,
        res is Ok ==> (*old(changed) ==> *final(changed)),
        res is Ok ==> (!*final(changed) ==> (final(strata)@ == old(strata)@
            && triple_ok(*p, strata_view(old(strata)@), r as int, h as int, c as int))),
        res is Ok ==> pointwise_le(strata_view(old(strata)@), strata_view(final(strata)@)),
        res is Ok ==> (*final(changed) ==> (*old(changed) || final(strata)@ != old(strata)@)),
        res is Err ==> exists|i: int| 0 <= i < old(strata)@.len() && old(strata)@[i] == usize::MAX,
{
    let rule = &p.rules[r];
    let ghost before = strata@;
    let target: Option<(&String, bool)> = match &rule.body[c] {
        BodyClause::Positive(a) => Some((&a.relation, false)),
        BodyClause::Negative(a) => Some((&a.relation, true)),
        BodyClause::Aggregate(agg) => Some((&agg.source.relation, true)),
        _ => None,
    };
    match target {
        None => {},
        Some((name, strict)) => {
            let src = match decl_pos(p, name) {
                Some(s) => s,
                None => return Err(EvalError::Stratification("undeclared relation".to_owned())),
            };
            match relax(strata, d, src, strict, changed) {
                Ok(()) => {},
                Err(e) => {
                    assert(before[src as int] == usize::MAX);
                    return Err(e);
                },
            }
            proof {
                assert forall|i: int| 0 <= i < strata_view(before).len() implies #[trigger] strata_view(before)[i] <= strata_view(strata@)[i] by {
                    assert(strata_view(before)[i] == before[i] as int);
                    assert(strata_view(strata@)[i] == strata@[i] as int);
                }
                lemma_relax_below(*p, before, strata@, r as int, h as int, c as int, d as int, src as int, strict);
                if strata@ == before {
                    assert(strata_view(before)[d as int] == before[d as int] as int);
                    assert(strata_view(before)[src as int] == before[src as int] as int);
                }
            }
        },
    }
    Ok(())
}

/// Growth since the start of a pass composes, and a change, once made,
/// stays visible.
proof fn lemma_grow_step(s0: Seq<usize>, a: Seq<usize>, b: Seq<usize>, ca: bool, cb: bool)
    requires
        pointwise_le(strata_view(s0), strata_view(a)),
        ca ==> a != s0,
        pointwise_le(strata_view(a), strata_view(b)),
        cb ==> (ca || b != a),
    ensures
        pointwise_le(strata_view(s0), strata_view(b)),
        cb ==> b != s0,
{
    assert forall|i: int| 0 <= i < strata_view(s0).len() implies #[trigger] strata_view(s0)[i] <= strata_view(b)[i] by {
        assert(strata_view(s0)[i] <= strata_view(a)[i]);
        assert(strata_view(a)[i] <= strata_view(b)[i]);
    }
    if cb {
        if ca {
            if b == s0 {
                assert(a =~= s0) by {
                    assert forall|i: int| 0 <= i < a.len() implies a[i] == s0[i] by {
                        assert(strata_view(s0)[i] <= strata_view(a)[i]);
                        assert(strata_view(a)[i] <= strata_view(b)[i]);
                    }
                }
            }
        } else {
            if b == s0 {
                assert(b =~= a) by {
                    assert forall|i: int| 0 <= i < a.len() implies a[i] == b[i] by {
                        assert(strata_view(s0)[i] <= strata_view(a)[i]);
                        assert(strata_view(a)[i] <= strata_view(b)[i]);
                    }
                }
            }
        }
    }
}

/// Strata below every stratification lie below the number of relations,
/// when the program has a stratification.
proof fn lemma_strata_small(p: Program, st: Seq<usize>)
    requires
        program_valid(p),
        st.len() == p.relations@.len(),
        below_all(p, strata_view(st)),
        least_strata(p) is Some,
    ensures
        forall|i: int| 0 <= i < st.len() ==> #[trigger] st[i] < st.len(),
{
    let l = least_strata(p).unwrap();
    assert(is_least_strata(p, l));
    lemma_least_bounded(p, l);
    assert(pointwise_le(strata_view(st), l));
    assert forall|i: int| 0 <= i < st.len() implies #[trigger] st[i] < st.len() by {
        assert(strata_view(st)[i] <= l[i]);
        assert(strata_view(st)[i] == st[i] as int);
    }
}

/// Assigns each relation its least stratum by repeated relaxation; fails
/// once a stratum reaches the number of relations, which only a cycle
/// through negation or aggregation can force (the least stratification,
/// when there is one, has every stratum below that number).
fn relation_strata(p: &Program) -> (res: Result<Vec<usize>, EvalError>)
    requires
        program_valid(*p),
    ensures
        res matches Ok(st) ==> is_least_strata(*p, strata_view(st@)),
        res matches Err(e) ==> e is Stratification,
        least_strata(*p) is Some ==> res is Ok,
{
    let n = p.relations.len();
    let mut strata: Vec<usize> = Vec::new();
    let mut i: usize = 0;
    while i < n
        invariant
            i <= n,
            n == p.relations@.len(),
            strata@.len() == i,
            forall|k: int| 0 <= k < i ==> strata@[k] == 0,
        decreases n - i,
    {
        strata.push(0);
        i += 1;
    }
    proof {
        assert forall|other: Seq<int>| #[trigger] respects(*p, other) implies pointwise_le(strata_view(strata@), other) by {
            assert forall|k: int| 0 <= k < strata_view(strata@).len() implies #[trigger] strata_view(strata@)[k] <= other[k] by {
                assert(other[k] >= 0);
            }
        }
    }
    loop
        invariant
            n == p.relations@.len(),
            strata@.len() == n,
            program_valid(*p),
            below_all(*p, strata_view(strata@)),
            forall|k: int| 0 <= k < n ==> #[trigger] strata@[k] < n,
        decreases (n as int) * (n as int) - seq_total(strata_view(strata@)),
    {
        let ghost s0 = strata@;
        proof {
            lemma_total_bound(strata_view(strata@), n as int);
        }
        let mut changed = false;
        let mut r: usize = 0;
        while r < p.rules.len()
            invariant
                n == p.relations@.len(),
                strata@.len() == n,
                program_valid(*p),
                below_all(*p, strata_view(strata@)),
                r <= p.rules.len(),
                !changed ==> strata@ == s0,
                pointwise_le(strata_view(s0), strata_view(strata@)),
                changed ==> strata@ != s0,
                !changed ==> forall|x: int, h: int, c: int| 0 <= x < r && 0 <= h < p.rules@[x].heads@.len()
                    && 0 <= c < p.rules@[x].body@.len() ==> #[trigger] triple_ok(*p, strata_view(s0), x, h, c),
            decreases p.rules.len() - r,
        {
            let rule = &p.rules[r];
            let mut h: usize = 0;
            while h < rule.heads.len()
                invariant
                    n == p.relations@.len(),
                    strata@.len() == n,
                    program_valid(*p),
                    below_all(*p, strata_view(strata@)),
                    r < p.rules.len(),
                    rule == &p.rules@[r as int],
                    h <= rule.heads.len(),
                    !changed ==> strata@ == s0,
                    pointwise_le(strata_view(s0), strata_view(strata@)),
                    changed ==> strata@ != s0,
                    !changed ==> forall|x: int, y: int, c: int| 0 <= c < p.rules@[x].body@.len() && (
                        (0 <= x < r && 0 <= y < p.rules@[x].heads@.len()) || (x == r && 0 <= y < h))
                        ==> #[trigger] triple_ok(*p, strata_view(s0), x, y, c),
                decreases rule.heads.len() - h,
            {
                let head = &rule.heads[h];
                proof {
                    assert(head_valid(p.relations@, p.rules@[r as int].heads@[h as int]));
                }
                let d = match decl_pos(p, &head.relation) {
                    Some(d) => d,
                    None => return Err(EvalError::Stratification("undeclared relation".to_owned())),
                };
                let mut c: usize = 0;
                while c < rule.body.len()
                    invariant
                        n == p.relations@.len(),
                        strata@.len() == n,
                        program_valid(*p),
                        below_all(*p, strata_view(strata@)),
                        r < p.rules.len(),
                        rule == &p.rules@[r as int],
                        h < rule.heads.len(),
                        head == &rule.heads@[h as int],
                        d == pos(*p, head.relation@),
                        d < n,
                        c <= rule.body.len(),
                        !changed ==> strata@ == s0,
                        pointwise_le(strata_view(s0), strata_view(strata@)),
                        changed ==> strata@ != s0,
                        !changed ==> forall|x: int, y: int, z: int| 0 <= z < p.rules@[x].body@.len() && (
                            (0 <= x < r && 0 <= y < p.rules@[x].heads@.len()) || (x == r && 0 <= y < h)
                            || (x == r && y == h && z < c))
                            ==> #[trigger] triple_ok(*p, strata_view(s0), x, y, z),
                    decreases rule.body.len() - c,
                {
                    let ghost changed_before = changed;
                    proof {
                        assert(body_valid(p.relations@, p.rules@[r as int].body@));
                        assert(clause_valid(p.relations@, p.rules@[r as int].body@[c as int]));
                    }
                    let ghost before = strata@;
                    match relax_clause(p, &mut strata, r, h, c, d, &mut changed) {
                        Ok(()) => {},
                        Err(e) => {
                            proof {
                                if least_strata(*p) is Some {
                                    lemma_strata_small(*p, before);
                                }
                            }
                            return Err(e);
                        },
                    }
                    proof {
                        lemma_grow_step(s0, before, strata@, changed_before, changed);
                        if !changed {
                            assert forall|x: int, y: int, z: int| 0 <= z < p.rules@[x].body@.len() && (
                                (0 <= x < r && 0 <= y < p.rules@[x].heads@.len()) || (x == r && 0 <= y < h)
                                || (x == r && y == h && z < c + 1))
                                implies #[trigger] triple_ok(*p, strata_view(s0), x, y, z) by {
                                if x == r && y == h && z == c {
                                } else {
                                    assert(!changed_before);
                                }
                            }
                        }
                    }
                    c += 1;
                }
                h += 1;
            }
            r += 1;
        }
        if !changed {
            proof {
                let sv = strata_view(strata@);
                assert forall|x: int, y: int, z: int| 0 <= x < p.rules@.len() && 0 <= y < p.rules@[x].heads@.len()
                    && 0 <= z < p.rules@[x].body@.len() implies #[trigger] clause_ok(*p, sv, p.rules@[x].heads@[y], p.rules@[x].body@[z]) by {
                    assert(triple_ok(*p, strata_view(s0), x, y, z));
                }
                assert forall|k: int| 0 <= k < sv.len() implies #[trigger] sv[k] >= 0 by {}
                assert(respects(*p, sv));
            }
            return Ok(strata);
        }
        let ghost s1 = strata@;
        let mut i: usize = 0;
        while i < n
            invariant
                n == p.relations@.len(),
                strata@.len() == n,
                strata@ == s1,
                program_valid(*p),
                below_all(*p, strata_view(strata@)),
                i <= n,
                forall|k: int| 0 <= k < i ==> #[trigger] strata@[k] < n,
            decreases n - i,
        {
            if strata[i] >= n {
                proof {
                    if least_strata(*p) is Some {
                        lemma_strata_small(*p, strata@);
                    }
                }
                return Err(EvalError::Stratification("a cycle passes through negation or aggregation".to_owned()));
            }
            i += 1;
        }
        proof {
            lemma_total_grows(strata_view(s0), strata_view(strata@));
            if strata_view(s0) == strata_view(strata@) {
                assert(s0 =~= strata@) by {
                    assert forall|k: int| 0 <= k < s0.len() implies s0[k] == strata@[k] by {
                        assert(strata_view(s0)[k] == strata_view(strata@)[k]);
                    }
                }
            }
            lemma_total_bound(strata_view(strata@), n as int);
        }
    }
}

} // verus!

verus! {

/// `groups` lists rule indices by stratum: each listed rule is in the group
/// of its stratum, and every rule is listed there.
pub open spec fn groups_ok(p: Program, st: Seq<int>, groups: Seq<Vec<usize>>) -> bool {
    &&& forall|g: int, k: int| 0 <= g < groups.len() && 0 <= k < groups[g]@.len() ==> {
        &&& (#[trigger] groups[g]@[k]) < p.rules@.len()
        &&& rule_stratum(p, st, p.rules@[groups[g]@[k] as int]) == g
    }
    &&& forall|r: int| 0 <= r < p.rules@.len() ==> {
        &&& 0 <= #[trigger] rule_stratum(p, st, p.rules@[r]) < groups.len()
        &&& groups[rule_stratum(p, st, p.rules@[r])]@.contains(r as usize)
    }
}

/// A rule that reads a relation through negation or aggregation lies in a
/// strictly higher stratum, so in a strictly later group, than any
/// single-headed rule deriving that relation.
pub proof fn lemma_stratified_order(p: Program, st: Seq<int>, x: int, y: int, c: int)
    requires
        program_valid(p),
        respects(p, st),
        0 <= x < p.rules@.len(),
        0 <= y < p.rules@.len(),
        p.rules@[x].heads@.len() >= 1,
        p.rules@[y].heads@.len() == 1,
        0 <= c < p.rules@[x].body@.len(),
        match p.rules@[x].body@[c] {
            BodyClause::Negative(a) => a.relation@ == p.rules@[y].heads@[0].relation@,
            BodyClause::Aggregate(agg) => agg.source.relation@ == p.rules@[y].heads@[0].relation@,
            _ => false,
        },
    ensures
        rule_stratum(p, st, p.rules@[x]) > rule_stratum(p, st, p.rules@[y]),
{
    let heads = p.rules@[x].heads@;
    let n = p.rules@[y].heads@[0].relation@;
    assert(rule_stratum(p, st, p.rules@[y]) == st[pos(p, n)]);
    assert forall|h: int| 0 <= h < heads.len() implies st[pos(p, (#[trigger] heads[h]).relation@)] >= st[pos(p, n)] + 1 by {
        assert(clause_ok(p, st, p.rules@[x].heads@[h], p.rules@[x].body@[c]));
    }
    lemma_heads_min_ge(p, st, heads, st[pos(p, n)] + 1);
}

/// `heads_min` lies within the bounds of the heads' strata.
proof fn lemma_heads_min(p: Program, st: Seq<int>, heads: Seq<HeadAtom>, bound: int)
    requires
        0 <= bound,
        forall|h: int| 0 <= h < heads.len() ==> 0 <= st[pos(p, (#[trigger] heads[h]).relation@)] <= bound,
    ensures
        0 <= heads_min(p, st, heads) <= bound,
    decreases heads.len(),
{
    if heads.len() == 1 {
        assert(0 <= st[pos(p, heads[0].relation@)] <= bound);
    } else if heads.len() > 1 {
        let init = heads.drop_last();
        assert forall|h: int| 0 <= h < init.len() implies 0 <= st[pos(p, (#[trigger] init[h]).relation@)] <= bound by {
            assert(init[h] == heads[h]);
        }
        lemma_heads_min(p, st, init, bound);
        assert(0 <= st[pos(p, heads[heads.len() - 1].relation@)] <= bound);
    }
}

/// The stratum of a rule under the computed strata.
fn rule_stratum_of(p: &Program, strata: &Vec<usize>, r: usize) -> (res: Result<usize, EvalError>)
    requires
        program_valid(*p),
        r < p.rules@.len(),
        strata@.len() == p.relations@.len(),
    ensures
        res matches Ok(s) ==> s as int == rule_stratum(*p, strata_view(strata@), p.rules@[r as int]),
        res is Ok,
{
    let rule = &p.rules[r];
    let mut m: usize = 0;
    let mut h: usize = 0;
    while h < rule.heads.len()
        invariant
            program_valid(*p),
            r < p.rules@.len(),
            rule == &p.rules@[r as int],
            strata@.len() == p.relations@.len(),
            h <= rule.heads.len(),
            m as int == heads_min(*p, strata_view(strata@), rule.heads@.subrange(0, h as int)),
        decreases rule.heads.len() - h,
    {
        proof { assert(head_valid(p.relations@, p.rules@[r as int].heads@[h as int])); }
        let d = match decl_pos(p, &rule.heads[h].relation) {
            Some(d) => d,
            None => return Err(EvalError::Stratification("undeclared relation".to_owned())),
        };
        proof {
            let hs = rule.heads@.subrange(0, h + 1);
            assert(hs.drop_last() =~= rule.heads@.subrange(0, h as int));
            assert(hs.last() == rule.heads@[h as int]);
            assert(strata_view(strata@)[d as int] == strata@[d as int] as int);
        }
        if h == 0 || strata[d] < m {
            m = strata[d];
        }
        h += 1;
    }
    assert(rule.heads@.subrange(0, h as int) =~= rule.heads@);
    Ok(m)
}

/// Validates `program` (every referenced relation declared, every atom and
/// head of the declared arity), computes the least stratification, and groups
/// rule indices by stratum (each rule in the group of its lowest head).
pub fn stratify(p: &Program) -> (res: Result<Vec<Vec<usize>>, EvalError>)
    ensures
        !program_valid(*p) ==> (res matches Err(e) && (e is UnknownRelation || e is Arity)),
        res matches Ok(groups) ==> {
            &&& program_valid(*p)
            &&& least_strata(*p) is Some
            &&& groups_ok(*p, least_strata(*p).unwrap(), groups@)
            &&& groups@.map_values(|v: Vec<usize>| v@) == strata_groups(*p, least_strata(*p).unwrap())
        },
        (program_valid(*p) && res is Err) ==> (res matches Err(e) && e is Stratification),
        program_valid(*p) && least_strata(*p) is Some ==> res is Ok,
{
    validate_arities(p)?;
    let strata = relation_strata(p)?;
    proof {
        lemma_least_unique(*p, strata_view(strata@));
        lemma_least_bounded(*p, strata_view(strata@));
    }
    let ghost st = strata_view(strata@);
    // the highest stratum
    let mut max_stratum: usize = 0;
    let mut i: usize = 0;
    while i < strata.len()
        invariant
            i <= strata.len(),
            forall|k: int| 0 <= k < i ==> strata@[k] <= max_stratum,
            max_stratum == 0 || max_stratum < strata@.len(),
            max_stratum as int == max_stratum_of(strata_view(strata@).take(i as int)),
            forall|k: int| 0 <= k < strata@.len() ==> #[trigger] strata_view(strata@)[k] <= strata@.len() - 1,
        decreases strata.len() - i,
    {
        assert(strata_view(strata@)[i as int] == strata@[i as int] as int);
        assert(strata_view(strata@).take(i + 1).drop_last() =~= strata_view(strata@).take(i as int));
        if strata[i] > max_stratum {
            max_stratum = strata[i];
        }
        i += 1;
    }
    assert(strata_view(strata@).take(i as int) =~= strata_view(strata@));
    let n_groups = match max_stratum.checked_add(1) {
        Some(n) => n,
        None => return Err(EvalError::Stratification("stratum overflow".to_owned())),
    };
    // the stratum of each rule
    let mut rule_strata: Vec<usize> = Vec::new();
    let mut r: usize = 0;
    while r < p.rules.len()
        invariant
            program_valid(*p),
            strata@.len() == p.relations@.len(),
            st == strata_view(strata@),
            forall|k: int| 0 <= k < strata@.len() ==> strata@[k] <= max_stratum,
            r <= p.rules.len(),
            rule_strata@.len() == r,
            forall|k: int| 0 <= k < r ==> (#[trigger] rule_strata@[k]) as int == rule_stratum(*p, st, p.rules@[k])
                && rule_strata@[k] <= max_stratum,
        decreases p.rules.len() - r,
    {
        let s = rule_stratum_of(p, &strata, r)?;
        proof {
            let heads = p.rules@[r as int].heads@;
            assert forall|h: int| 0 <= h < heads.len() implies 0 <= st[pos(*p, (#[trigger] heads[h]).relation@)] <= max_stratum by {
                assert(head_valid(p.relations@, p.rules@[r as int].heads@[h]));
                lemma_pos(*p, heads[h].relation@);
                let d = pos(*p, heads[h].relation@);
                assert(st[d] == strata@[d] as int);
            }
            lemma_heads_min(*p, st, heads, max_stratum as int);
        }
        rule_strata.push(s);
        r += 1;
    }
    // group rule indices by stratum, in rule order
    let mut groups: Vec<Vec<usize>> = Vec::new();
    let mut g: usize = 0;
    while g < n_groups
        invariant
            g <= n_groups,
            n_groups == max_stratum + 1,
            rule_strata@.len() == p.rules@.len(),
            forall|k: int| 0 <= k < rule_strata@.len() ==> (#[trigger] rule_strata@[k]) as int == rule_stratum(*p, st, p.rules@[k])
                && rule_strata@[k] <= max_stratum,
            groups@.len() == g,
            forall|x: int, k: int| 0 <= x < g && 0 <= k < groups@[x]@.len() ==>
                (#[trigger] groups@[x]@[k]) < p.rules@.len() && rule_strata@[groups@[x]@[k] as int] == x,
            forall|k: int| 0 <= k < p.rules@.len() && (#[trigger] rule_strata@[k]) < g ==> groups@[rule_strata@[k] as int]@.contains(k as usize),
            forall|x: int| 0 <= x < g ==> (#[trigger] groups@[x])@ == members_upto(*p, st, x, p.rules@.len() as int),
        decreases n_groups - g,
    {
        let mut members: Vec<usize> = Vec::new();
        let mut k: usize = 0;
        while k < rule_strata.len()
            invariant
                k <= rule_strata.len(),
                forall|y: int| 0 <= y < members@.len() ==> (#[trigger] members@[y]) < k && rule_strata@[members@[y] as int] == g,
                forall|y: int| 0 <= y < k && (#[trigger] rule_strata@[y]) == g ==> members@.contains(y as usize),
                members@ == members_upto(*p, st, g as int, k as int),
                rule_strata@.len() == p.rules@.len(),
                forall|y: int| 0 <= y < rule_strata@.len() ==> (#[trigger] rule_strata@[y]) as int == rule_stratum(*p, st, p.rules@[y]),
            decreases rule_strata.len() - k,
        {
            let ghost prev = members@;
            if rule_strata[k] == g {
                members.push(k);
                assert(members@[members@.len() - 1] == k);
            }
            proof {
                assert forall|y: int| 0 <= y < k + 1 && (#[trigger] rule_strata@[y]) == g implies members@.contains(y as usize) by {
                    if y < k {
                        let w = choose|w: int| 0 <= w < prev.len() && prev[w] == y as usize;
                        assert(members@[w] == prev[w]);
                    }
                }
            }
            k += 1;
        }
        groups.push(members);
        g += 1;
    }
    proof {
        assert forall|x: int, k: int| 0 <= x < groups@.len() && 0 <= k < groups@[x]@.len() implies {
            &&& (#[trigger] groups@[x]@[k]) < p.rules@.len()
            &&& rule_stratum(*p, st, p.rules@[groups@[x]@[k] as int]) == x
        } by {
            let rr = groups@[x]@[k] as int;
            assert(rule_strata@[rr] as int == rule_stratum(*p, st, p.rules@[rr]));
        }
        assert forall|r: int| 0 <= r < p.rules@.len() implies {
            &&& 0 <= #[trigger] rule_stratum(*p, st, p.rules@[r]) < groups@.len()
            &&& groups@[rule_stratum(*p, st, p.rules@[r])]@.contains(r as usize)
        } by {
            assert(rule_strata@[r] as int == rule_stratum(*p, st, p.rules@[r]));
        }
    }
    Ok(groups)
}

} // verus!
