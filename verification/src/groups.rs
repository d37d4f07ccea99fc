//! The rule groups a stratification induces: one group per stratum, each
//! listing the rules of that stratum in rule order.

use vstd::prelude::*;

use crate::ir::Program;
use crate::strata::rule_stratum;

verus! {

/// The highest stratum of `st` (0 when empty).
pub open spec fn max_stratum_of(st: Seq<int>) -> int
    decreases st.len(),
{
    if st.len() == 0 {
        0
    } else {
        let m = max_stratum_of(st.drop_last());
        if st.last() > m { st.last() } else { m }
    }
}

/// The rules among the first `k` whose stratum is `g`, in rule order.
pub open spec fn members_upto(p: Program, st: Seq<int>, g: int, k: int) -> Seq<usize>
    decreases k,
{
    if k <= 0 {
        Seq::empty()
    } else if rule_stratum(p, st, p.rules@[k - 1]) == g {
        members_upto(p, st, g, k - 1).push((k - 1) as usize)
    } else {
        members_upto(p, st, g, k - 1)
    }
}

/// The rule groups of stratification `st`: one group per stratum up to the
/// highest, each listing the rules of that stratum in rule order.
pub open spec fn strata_groups(p: Program, st: Seq<int>) -> Seq<Seq<usize>> {
    Seq::new((max_stratum_of(st) + 1) as nat, |g: int| members_upto(p, st, g, p.rules@.len() as int))
}

/// The members of a group are in ascending rule order, each below `k`.
pub proof fn lemma_members_ascending(p: Program, st: Seq<int>, g: int, k: int)
    requires
        k <= usize::MAX + 1,
    ensures
        forall|i: int| 0 <= i < members_upto(p, st, g, k).len() ==> (#[trigger] members_upto(p, st, g, k)[i]) < k,
        forall|i: int, j: int| 0 <= i < j < members_upto(p, st, g, k).len()
            ==> #[trigger] members_upto(p, st, g, k)[i] < #[trigger] members_upto(p, st, g, k)[j],
    decreases k,
{
    if k > 0 {
        lemma_members_ascending(p, st, g, k - 1);
        let prev = members_upto(p, st, g, k - 1);
        let cur = members_upto(p, st, g, k);
        if rule_stratum(p, st, p.rules@[k - 1]) == g {
            assert(cur == prev.push((k - 1) as usize));
            assert forall|i: int| 0 <= i < cur.len() implies (#[trigger] cur[i]) < k by {
                if i < prev.len() { assert(cur[i] == prev[i]); }
            }
            assert forall|i: int, j: int| 0 <= i < j < cur.len() implies #[trigger] cur[i] < #[trigger] cur[j] by {
                assert(cur[i] == prev[i]);
                if j < prev.len() { assert(cur[j] == prev[j]); }
            }
        }
    }
}

} // verus!
