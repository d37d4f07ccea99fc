//! The least stratification is small: the ranks of any stratification form
//! one too, so no stratum of the least one reaches the number of relations.

use vstd::prelude::*;

use crate::ir::{decl_index, BodyClause, HeadAtom, Program};
use crate::strata::{body_valid, clause_ok, clause_valid, head_valid, is_least_strata, lemma_pos, pointwise_le, pos, program_valid, respects};

verus! {

/// The distinct values of `s` below `v`.
pub open spec fn values_below(s: Seq<int>, v: int) -> Set<int> {
    s.to_set().filter(|x: int| x < v)
}

/// The rank of `v` among the values of `s`: how many distinct values lie
/// below it.
#[verifier::opaque]
pub open spec fn rank(s: Seq<int>, v: int) -> int {
    values_below(s, v).len() as int
}

/// Ranks keep order, strictly between values of the sequence, and a value
/// of the sequence ranks below its length.
proof fn lemma_rank(s: Seq<int>, u: int, v: int)
    ensures
        u <= v ==> rank(s, u) <= rank(s, v),
        (u < v && s.contains(u)) ==> rank(s, u) + 1 <= rank(s, v),
        s.contains(v) ==> rank(s, v) <= s.len() - 1,
        0 <= rank(s, v),
{
    reveal(rank);
    let all = s.to_set();
    s.lemma_cardinality_of_set();
    all.lemma_len_filter(|x: int| x < u);
    all.lemma_len_filter(|x: int| x < v);
    let bu = values_below(s, u);
    let bv = values_below(s, v);
    if u <= v {
        assert(bu.subset_of(bv));
        vstd::set_lib::lemma_len_subset(bu, bv);
    }
    if u < v && s.contains(u) {
        assert(all.contains(u));
        assert(bu.insert(u).subset_of(bv));
        assert(!bu.contains(u));
        vstd::set_lib::lemma_len_subset(bu.insert(u), bv);
    }
    if s.contains(v) {
        assert(all.contains(v));
        assert(bv.subset_of(all.remove(v)));
        vstd::set_lib::lemma_len_subset(bv, all.remove(v));
    }
}

/// Ranks keep a constraint between two strata.
proof fn lemma_rank_pair(st: Seq<int>, x: int, d: int, gap: int)
    requires
        0 <= x < st.len(),
        0 <= d < st.len(),
        gap == 0 || gap == 1,
        st[d] >= st[x] + gap,
    ensures
        rank(st, st[d]) >= rank(st, st[x]) + gap,
{
    assert(st.contains(st[x]));
    lemma_rank(st, st[x], st[d]);
}

/// The ranks of a stratification meet the constraint a clause puts on a head.
proof fn lemma_rank_clause(p: Program, st: Seq<int>, rk: Seq<int>, head: HeadAtom, cl: BodyClause)
    requires
        st.len() == p.relations@.len(),
        clause_ok(p, st, head, cl),
        head_valid(p.relations@, head),
        clause_valid(p.relations@, cl),
        rk == Seq::new(st.len(), |i: int| rank(st, st[i])),
    ensures
        clause_ok(p, rk, head, cl),
{
    lemma_pos(p, head.relation@);
    let d = pos(p, head.relation@);
    match cl {
        BodyClause::Positive(a) => {
            lemma_pos(p, a.relation@);
            lemma_rank_pair(st, pos(p, a.relation@), d, 0);
        },
        BodyClause::Negative(a) => {
            lemma_pos(p, a.relation@);
            lemma_rank_pair(st, pos(p, a.relation@), d, 1);
        },
        BodyClause::Aggregate(agg) => {
            lemma_pos(p, agg.source.relation@);
            lemma_rank_pair(st, pos(p, agg.source.relation@), d, 1);
        },
        _ => {},
    }
}

/// The ranks of a stratification form a stratification too, with every
/// stratum below the number of relations.
proof fn lemma_rank_respects(p: Program, st: Seq<int>)
    requires
        program_valid(p),
        respects(p, st),
    ensures
        respects(p, Seq::new(st.len(), |i: int| rank(st, st[i]))),
        forall|i: int| 0 <= i < st.len() ==> #[trigger] rank(st, st[i]) <= st.len() - 1,
{
    let rk = Seq::new(st.len(), |i: int| rank(st, st[i]));
    assert forall|i: int| 0 <= i < st.len() implies #[trigger] rank(st, st[i]) <= st.len() - 1 by {
        assert(st.contains(st[i]));
        lemma_rank(st, st[i], st[i]);
    }
    assert forall|i: int| 0 <= i < rk.len() implies #[trigger] rk[i] >= 0 by {
        lemma_rank(st, st[i], st[i]);
    }
    assert forall|r: int, h: int, c: int| 0 <= r < p.rules@.len() && 0 <= h < p.rules@[r].heads@.len()
        && 0 <= c < p.rules@[r].body@.len() implies
        #[trigger] clause_ok(p, rk, p.rules@[r].heads@[h], p.rules@[r].body@[c]) by {
        assert(head_valid(p.relations@, p.rules@[r].heads@[h]));
        assert(body_valid(p.relations@, p.rules@[r].body@));
        assert(clause_valid(p.relations@, p.rules@[r].body@[c]));
        assert(clause_ok(p, st, p.rules@[r].heads@[h], p.rules@[r].body@[c]));
        lemma_rank_clause(p, st, rk, p.rules@[r].heads@[h], p.rules@[r].body@[c]);
    }
}

/// Every stratum of the least stratification lies below the number of
/// relations.
pub proof fn lemma_least_bounded(p: Program, st: Seq<int>)
    requires
        program_valid(p),
        is_least_strata(p, st),
    ensures
        forall|i: int| 0 <= i < st.len() ==> #[trigger] st[i] <= st.len() - 1,
{
    lemma_rank_respects(p, st);
    let rk = Seq::new(st.len(), |i: int| rank(st, st[i]));
    assert(pointwise_le(st, rk));
    assert forall|i: int| 0 <= i < st.len() implies #[trigger] st[i] <= st.len() - 1 by {
        assert(st[i] <= rk[i]);
    }
}

} // verus!
