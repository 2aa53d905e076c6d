//! Ordering of opportunities by profit.
use vstd::prelude::*;
use vstd::multiset::Multiset;
use crate::model::ArbitrageOpportunity;

verus! {

broadcast use vstd::seq_lib::group_to_multiset_ensures;

/// No element has a strictly greater profit than one before it.
pub open spec fn sorted_by_profit(s: Seq<ArbitrageOpportunity>) -> bool {
    forall|i: int, j: int| 0 <= i < j < s.len() ==> s[i].profit >= s[j].profit
}

/// Orders `items` by profit, largest first; items of equal profit keep their
/// relative order.
pub fn rank_by_profit(items: Vec<ArbitrageOpportunity>) -> (r: Vec<ArbitrageOpportunity>)
    ensures
        sorted_by_profit(r@),
        r@.to_multiset() == items@.to_multiset(),
{
    let ghost orig = items@;
    let mut rest = items;
    let mut out: Vec<ArbitrageOpportunity> = Vec::new();
    let mut taken: usize = 0;
    let n = rest.len();
    assert(orig.subrange(0, 0).to_multiset() =~= Multiset::empty());
    assert(orig.subrange(0, orig.len() as int) =~= orig);
    while rest.len() > 0
        invariant
            sorted_by_profit(out@),
            taken <= orig.len(),
            n == orig.len(),
            rest@ == orig.subrange(taken as int, orig.len() as int),
            out@.to_multiset() == orig.subrange(0, taken as int).to_multiset(),
        decreases rest@.len(),
    {
        assert(taken < orig.len());
        let x = rest.remove(0);
        let mut p: usize = 0;
        while p < out.len() && out[p].profit >= x.profit
            invariant
                p <= out@.len(),
                forall|k: int| 0 <= k < p ==> out@[k].profit >= x.profit,
            decreases out@.len() - p,
        {
            p = p + 1;
        }
        proof {
            assert(x == orig[taken as int]);
            assert(orig.subrange(0, taken + 1) =~= orig.subrange(0, taken as int).push(x));
            vstd::seq_lib::to_multiset_insert(out@, p as int, x);
            assert(out@.push(x) =~= out@.insert(out@.len() as int, x));
            vstd::seq_lib::to_multiset_insert(out@, out@.len() as int, x);
            if p < out@.len() {
                assert(out@[p as int].profit < x.profit);
            }
        }
        out.insert(p, x);
        taken = taken + 1;
        assert(rest@ =~= orig.subrange(taken as int, orig.len() as int));
    }
    assert(taken == orig.len());
    out
}

} // verus!
