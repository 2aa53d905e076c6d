//! Enumeration of cyclic 2-hop and 3-hop routes over a snapshot of pools.
use vstd::prelude::*;
use vstd::string::StringExecFns;
use rayon::iter::{IntoParallelRefIterator, ParallelIterator};
use crate::model::{ArbitrageOpportunity, OpportunityView, PoolState, opportunities_view, strings_view};
use crate::registry::{PairIndex, index_get, index_insert, index_new, pair_index_map};
use crate::swap::{compute_output, opt_amount, swap_output};
use crate::order::{lemma_str_lt_irreflexive, lemma_str_lt_total, lemma_str_lt_transitive, str_less, str_lt};

verus! {

/// Gas charged to a 2-hop route.
pub const TWO_HOP_GAS: u64 = 350000;
/// Gas charged to a 3-hop route.
pub const THREE_HOP_GAS: u64 = 450000;
/// Confidence of a 2-hop route, in basis points.
pub const TWO_HOP_CONFIDENCE_BPS: u32 = 8500;
/// Confidence of a 3-hop route, in basis points.
pub const THREE_HOP_CONFIDENCE_BPS: u32 = 7500;
/// Basis points in a whole.
pub const BPS_SCALE: u32 = 10000;
/// A 2-hop route must gain more than this many basis points of its input.
pub const TWO_HOP_MIN_PROFIT_BPS: u32 = 10;
/// A 3-hop route must gain more than this many basis points of its input.
pub const THREE_HOP_MIN_PROFIT_BPS: u32 = 15;

/// The element of an option, as a sequence of at most one element.
pub open spec fn opt_seq<A>(o: Option<A>) -> Seq<A> {
    match o {
        Some(x) => seq![x],
        None => Seq::empty(),
    }
}

/// `f` applied to each element in order, the results concatenated.
pub open spec fn flat_map<A, B>(s: Seq<A>, f: spec_fn(A) -> Seq<B>) -> Seq<B>
    decreases s.len(),
{
    if s.len() == 0 {
        Seq::empty()
    } else {
        flat_map(s.drop_last(), f) + f(s.last())
    }
}

/// Every fee of the snapshot is a fraction in `[0, 1)`.
pub open spec fn all_valid(snap: Seq<PoolState>) -> bool {
    forall|i: int| 0 <= i < snap.len() ==> (#[trigger] snap[i]).valid()
}

/// Pool `p` swaps `token_in` for `token_out`.
pub open spec fn swaps_pair(p: PoolState, token_in: Seq<char>, token_out: Seq<char>) -> bool {
    p.token_a@ == token_in && p.token_b@ == token_out
}

/// `p` is one of `pools` for the pair, on the exchange that comes first by
/// name among those pools for that pair.
pub open spec fn least_in(pools: Set<PoolState>, p: PoolState, token_in: Seq<char>, token_out: Seq<char>) -> bool {
    &&& pools.contains(p)
    &&& swaps_pair(p, token_in, token_out)
    &&& forall|q: PoolState| #[trigger] pools.contains(q) && swaps_pair(q, token_in, token_out)
            ==> !str_lt(q.dex@, p.dex@)
}

/// The pool of `pools` for the pair on the exchange that comes first by name.
pub open spec fn pair_choice(pools: Set<PoolState>, token_in: Seq<char>, token_out: Seq<char>) -> Option<PoolState> {
    if exists|p: PoolState| least_in(pools, p, token_in, token_out) {
        Some(choose|p: PoolState| least_in(pools, p, token_in, token_out))
    } else {
        None
    }
}

/// `p` is a pool of the snapshot for the pair whose exchange comes first
/// among the snapshot's pools for that pair.
pub open spec fn least_pair(snap: Seq<PoolState>, p: PoolState, token_in: Seq<char>, token_out: Seq<char>) -> bool {
    least_in(snap.to_set(), p, token_in, token_out)
}

/// The pool of the snapshot that swaps `token_in` for `token_out` on the
/// exchange that comes first by name. It depends on which pools the snapshot
/// holds, not on their order.
pub open spec fn find_pair(snap: Seq<PoolState>, token_in: Seq<char>, token_out: Seq<char>) -> Option<PoolState> {
    pair_choice(snap.to_set(), token_in, token_out)
}

/// The output of swapping `amount` through pool `p`, from token A to token B.
pub open spec fn pool_swap(p: PoolState, amount: int) -> Option<int> {
    swap_output(amount, p.reserve_a as int, p.reserve_b as int, p.fee as int)
}

/// Whether a round trip from `amount` to `fin` gains more than `min_bps` basis
/// points of `amount`.
pub open spec fn gains_more_than(amount: int, fin: int, min_bps: int) -> bool {
    (fin - amount) * BPS_SCALE > amount * min_bps
}

/// The amount back in `pool1`'s token A after the round trip through `pool1` and the
/// reverse pool that `find_pair` chooses, when both hops are priced.
pub open spec fn two_hop_final(snap: Seq<PoolState>, pool1: PoolState, amount: int) -> Option<int> {
    match pool_swap(pool1, amount) {
        None => None,
        Some(mid) => match find_pair(snap, pool1.token_b@, pool1.token_a@) {
            None => None,
            Some(pool2) => pool_swap(pool2, mid),
        },
    }
}

/// The 2-hop opportunity that starts in pool `pool1` with `amount`, if it qualifies.
pub open spec fn two_hop_at(snap: Seq<PoolState>, pool1: PoolState, amount: u64, now: u64) -> Option<OpportunityView> {
    match two_hop_final(snap, pool1, amount as int) {
        Some(fin) if gains_more_than(amount as int, fin, TWO_HOP_MIN_PROFIT_BPS as int) => Some(
            OpportunityView {
                route_id: pool1.dex@ + "_2hop"@,
                tokens: seq![pool1.token_a@, pool1.token_b@, pool1.token_a@],
                dexes: seq![pool1.dex@, find_pair(snap, pool1.token_b@, pool1.token_a@).unwrap().dex@],
                input_amount: amount as int,
                expected_output: fin,
                gas_estimate: TWO_HOP_GAS as int,
                profit: fin - amount,
                confidence_bps: TWO_HOP_CONFIDENCE_BPS as int,
                timestamp: now as int,
            },
        ),
        _ => None,
    }
}

/// The 2-hop opportunities that start in pool `pool1`, one candidate amount after another.
pub open spec fn two_hop_for_pool(snap: Seq<PoolState>, pool1: PoolState, amounts: Seq<u64>, now: u64) -> Seq<OpportunityView> {
    flat_map(amounts, |a: u64| opt_seq(two_hop_at(snap, pool1, a, now)))
}

/// The 2-hop opportunities of the pools `starts`, one pool after another.
pub open spec fn two_hop_routes(snap: Seq<PoolState>, starts: Seq<PoolState>, amounts: Seq<u64>, now: u64) -> Seq<OpportunityView> {
    flat_map(starts, |p: PoolState| two_hop_for_pool(snap, p, amounts, now))
}

/// The amount back in `pool1`'s token A after the cycle through `pool1`, `pool2` and
/// the closing pool that `find_pair` chooses, when `pool2` continues from `pool1` and
/// all three hops are priced.
pub open spec fn three_hop_final(snap: Seq<PoolState>, pool1: PoolState, pool2: PoolState, amount: int) -> Option<int> {
    if pool1.token_b@ != pool2.token_a@ {
        None
    } else {
        match pool_swap(pool1, amount) {
            None => None,
            Some(a1) => match pool_swap(pool2, a1) {
                None => None,
                Some(a2) => match find_pair(snap, pool2.token_b@, pool1.token_a@) {
                    None => None,
                    Some(pool3) => pool_swap(pool3, a2),
                },
            },
        }
    }
}

/// The 3-hop opportunity through `pool1` then `pool2` with `amount`, if it qualifies.
pub open spec fn three_hop_at(snap: Seq<PoolState>, pool1: PoolState, pool2: PoolState, amount: u64, now: u64) -> Option<OpportunityView> {
    match three_hop_final(snap, pool1, pool2, amount as int) {
        Some(fin) if gains_more_than(amount as int, fin, THREE_HOP_MIN_PROFIT_BPS as int) => Some(
            OpportunityView {
                route_id: pool1.dex@ + "_"@ + pool2.dex@ + "_3hop"@,
                tokens: seq![pool1.token_a@, pool1.token_b@, pool2.token_b@, pool1.token_a@],
                dexes: seq![pool1.dex@, pool2.dex@, find_pair(snap, pool2.token_b@, pool1.token_a@).unwrap().dex@],
                input_amount: amount as int,
                expected_output: fin,
                gas_estimate: THREE_HOP_GAS as int,
                profit: fin - amount,
                confidence_bps: THREE_HOP_CONFIDENCE_BPS as int,
                timestamp: now as int,
            },
        ),
        _ => None,
    }
}

/// The 3-hop opportunities through `pool1` then `pool2`, one candidate amount after another.
pub open spec fn three_hop_for_pair(snap: Seq<PoolState>, pool1: PoolState, pool2: PoolState, amounts: Seq<u64>, now: u64) -> Seq<OpportunityView> {
    flat_map(amounts, |a: u64| opt_seq(three_hop_at(snap, pool1, pool2, a, now)))
}

/// The 3-hop opportunities that start in pool `pool1`, one second pool of `seconds` after another.
pub open spec fn three_hop_for_pool(snap: Seq<PoolState>, pool1: PoolState, seconds: Seq<PoolState>, amounts: Seq<u64>, now: u64) -> Seq<OpportunityView> {
    flat_map(seconds, |pool2: PoolState| three_hop_for_pair(snap, pool1, pool2, amounts, now))
}

/// The 3-hop opportunities of the first pools `starts`, one after another.
pub open spec fn three_hop_routes(snap: Seq<PoolState>, starts: Seq<PoolState>, amounts: Seq<u64>, now: u64) -> Seq<OpportunityView> {
    flat_map(starts, |p: PoolState| three_hop_for_pool(snap, p, snap, amounts, now))
}

/// An optional opportunity, seen through its view.
pub open spec fn opt_view(o: Option<ArbitrageOpportunity>) -> Option<OpportunityView> {
    match o {
        Some(x) => Some(x@),
        None => None,
    }
}

/// With distinct keys, at most one pool is the least for a pair.
proof fn lemma_least_pair_unique(snap: Seq<PoolState>, p: PoolState, q: PoolState, token_in: Seq<char>, token_out: Seq<char>)
    requires
        keys_distinct(snap),
        least_pair(snap, p, token_in, token_out),
        least_pair(snap, q, token_in, token_out),
    ensures
        p == q,
{
    if p.dex@ != q.dex@ {
        lemma_str_lt_total(p.dex@, q.dex@);
    }
    let i = choose|i: int| 0 <= i < snap.len() && snap[i] == p;
    let j = choose|j: int| 0 <= j < snap.len() && snap[j] == q;
    assert(snap[i].key() == snap[j].key());
    if i < j {
        assert(snap[i].key() != snap[j].key());
    } else if j < i {
        assert(snap[j].key() != snap[i].key());
    }
}

/// `idx` gives, for each token pair, the position of `find_pair`'s choice in
/// the snapshot, and holds no pair that the snapshot has no pool for.
pub open spec fn index_ok(idx: Map<(Seq<char>, Seq<char>), usize>, snap: Seq<PoolState>) -> bool {
    forall|a: Seq<char>, b: Seq<char>| match #[trigger] idx.get((a, b)) {
        Some(k) => k < snap.len() && find_pair(snap, a, b) == Some(snap[k as int]),
        None => find_pair(snap, a, b) is None,
    }
}

/// The index of `find_pair`'s choices for every pair the snapshot holds,
/// built in one pass.
pub fn build_pair_index(snap: &Vec<PoolState>) -> (r: PairIndex)
    requires
        keys_distinct(snap@),
    ensures
        index_ok(pair_index_map(r), snap@),
{
    let mut idx = index_new();
    let mut i: usize = 0;
    while i < snap.len()
        invariant
            i <= snap@.len(),
            forall|a: Seq<char>, b: Seq<char>| match #[trigger] pair_index_map(idx).get((a, b)) {
                Some(k) => k < i && swaps_pair(snap@[k as int], a, b)
                    && forall|l: int| 0 <= l < i && swaps_pair(#[trigger] snap@[l], a, b)
                        ==> !str_lt(snap@[l].dex@, snap@[k as int].dex@),
                None => forall|l: int| 0 <= l < i ==> !swaps_pair(#[trigger] snap@[l], a, b),
            },
        decreases snap@.len() - i,
    {
        let key = (snap[i].token_a.clone(), snap[i].token_b.clone());
        let ghost ka = snap@[i as int].token_a@;
        let ghost kb = snap@[i as int].token_b@;
        let ghost before = pair_index_map(idx);
        let replace = match index_get(&idx, &key) {
            None => true,
            Some(k) => str_less(&snap[i].dex, &snap[k].dex),
        };
        proof { lemma_str_lt_irreflexive(snap@[i as int].dex@); }
        if replace {
            index_insert(&mut idx, key, i);
            proof {
                assert forall|a: Seq<char>, b: Seq<char>| match #[trigger] pair_index_map(idx).get((a, b)) {
                    Some(k) => k < i + 1 && swaps_pair(snap@[k as int], a, b)
                        && forall|l: int| 0 <= l < i + 1 && swaps_pair(#[trigger] snap@[l], a, b)
                            ==> !str_lt(snap@[l].dex@, snap@[k as int].dex@),
                    None => forall|l: int| 0 <= l < i + 1 ==> !swaps_pair(#[trigger] snap@[l], a, b),
                } by {
                    if (a, b) == (ka, kb) {
                        assert(pair_index_map(idx).get((a, b)) == Some(i));
                        assert forall|l: int| 0 <= l < i + 1 && swaps_pair(#[trigger] snap@[l], a, b)
                            implies !str_lt(snap@[l].dex@, snap@[i as int].dex@) by {
                            if l < i {
                                assert(before.get((a, b)) matches Some(_));
                                let k = before.get((a, b)).unwrap();
                                if str_lt(snap@[l].dex@, snap@[i as int].dex@) {
                                    lemma_str_lt_transitive(snap@[l].dex@, snap@[i as int].dex@, snap@[k as int].dex@);
                                }
                            }
                        }
                    } else {
                        assert(pair_index_map(idx).get((a, b)) == before.get((a, b)));
                        assert(!swaps_pair(snap@[i as int], a, b));
                    }
                }
            }
        } else {
            proof {
                assert forall|a: Seq<char>, b: Seq<char>| match #[trigger] pair_index_map(idx).get((a, b)) {
                    Some(k) => k < i + 1 && swaps_pair(snap@[k as int], a, b)
                        && forall|l: int| 0 <= l < i + 1 && swaps_pair(#[trigger] snap@[l], a, b)
                            ==> !str_lt(snap@[l].dex@, snap@[k as int].dex@),
                    None => forall|l: int| 0 <= l < i + 1 ==> !swaps_pair(#[trigger] snap@[l], a, b),
                } by {
                    if (a, b) == (ka, kb) {
                        assert(before.get((a, b)) matches Some(_));
                    } else {
                        assert(!swaps_pair(snap@[i as int], a, b));
                    }
                }
            }
        }
        i = i + 1;
    }
    proof {
        assert forall|a: Seq<char>, b: Seq<char>| match #[trigger] pair_index_map(idx).get((a, b)) {
            Some(k) => k < snap@.len() && find_pair(snap@, a, b) == Some(snap@[k as int]),
            None => find_pair(snap@, a, b) is None,
        } by {
            match pair_index_map(idx).get((a, b)) {
                Some(k) => { lemma_least_at(snap@, k as int, a, b); },
                None => { lemma_no_pair(snap@, a, b); },
            }
        }
    }
    idx
}

/// A pool of the snapshot for the pair whose exchange no other pool for the
/// pair precedes is `find_pair`'s choice.
proof fn lemma_least_at(snap: Seq<PoolState>, k: int, token_in: Seq<char>, token_out: Seq<char>)
    requires
        keys_distinct(snap),
        0 <= k < snap.len(),
        swaps_pair(snap[k], token_in, token_out),
        forall|l: int| 0 <= l < snap.len() && swaps_pair(#[trigger] snap[l], token_in, token_out)
            ==> !str_lt(snap[l].dex@, snap[k].dex@),
    ensures
        find_pair(snap, token_in, token_out) == Some(snap[k]),
{
    let p = snap[k];
    assert(snap.contains(p));
    assert(snap.to_set().contains(p));
    assert forall|q: PoolState| #[trigger] snap.to_set().contains(q) && swaps_pair(q, token_in, token_out)
        implies !str_lt(q.dex@, p.dex@) by {
        assert(snap.contains(q));
        let l = choose|l: int| 0 <= l < snap.len() && snap[l] == q;
        assert(swaps_pair(snap[l], token_in, token_out));
    }
    assert(least_pair(snap, p, token_in, token_out));
    let c = choose|c: PoolState| least_in(snap.to_set(), c, token_in, token_out);
    lemma_least_pair_unique(snap, c, p, token_in, token_out);
}

/// A snapshot with no pool for the pair has no choice for it.
proof fn lemma_no_pair(snap: Seq<PoolState>, token_in: Seq<char>, token_out: Seq<char>)
    requires
        forall|l: int| 0 <= l < snap.len() ==> !swaps_pair(#[trigger] snap[l], token_in, token_out),
    ensures
        find_pair(snap, token_in, token_out) is None,
{
    assert forall|p: PoolState| !least_pair(snap, p, token_in, token_out) by {
        if snap.contains(p) {
            let l = choose|l: int| 0 <= l < snap.len() && snap[l] == p;
            assert(!swaps_pair(snap[l], token_in, token_out));
        }
    }
}

/// Whether the round trip from `amount` to `fin` gains more than `min_bps`
/// basis points of `amount`.
fn gains(amount: u64, fin: u64, min_bps: u32) -> (r: bool)
    ensures
        r == gains_more_than(amount as int, fin as int, min_bps as int),
{
    let profit: i128 = (fin as i128) - (amount as i128);
    assert(-0x1_0000_0000_0000_0000 * 10000 <= profit * 10000 <= 0x1_0000_0000_0000_0000 * 10000)
        by (nonlinear_arith)
        requires -0x1_0000_0000_0000_0000 <= profit <= 0x1_0000_0000_0000_0000;
    assert(0 <= amount * min_bps <= 0x1_0000_0000_0000_0000 * 0x1_0000_0000) by (nonlinear_arith)
        requires 0 <= amount <= 0x1_0000_0000_0000_0000, 0 <= min_bps <= 0x1_0000_0000;
    profit * (BPS_SCALE as i128) > (amount as i128) * (min_bps as i128)
}

/// The 2-hop opportunity that starts in `pool1` with `amount`, if it qualifies.
pub fn find_2hop_opportunity(snap: &Vec<PoolState>, index: &PairIndex, pool1: &PoolState, amount: u64, now: u64) -> (r: Option<ArbitrageOpportunity>)
    requires
        all_valid(snap@),
        keys_distinct(snap@),
        index_ok(pair_index_map(*index), snap@),
        pool1.valid(),
    ensures
        opt_view(r) == two_hop_at(snap@, *pool1, amount, now),
{
    let mid = match compute_output(amount, pool1.reserve_a, pool1.reserve_b, pool1.fee) {
        Some(m) => m,
        None => return None,
    };
    let j = match index_get(index, &(pool1.token_b.clone(), pool1.token_a.clone())) {
        Some(j) => j,
        None => return None,
    };
    let pool2 = &snap[j];
    assert(pool2.valid());
    let fin = match compute_output(mid, pool2.reserve_a, pool2.reserve_b, pool2.fee) {
        Some(f) => f,
        None => return None,
    };
    if !gains(amount, fin, TWO_HOP_MIN_PROFIT_BPS) {
        return None;
    }
    let mut route_id = pool1.dex.clone();
    route_id.append("_2hop");
    let tokens = vec![pool1.token_a.clone(), pool1.token_b.clone(), pool1.token_a.clone()];
    let dexes = vec![pool1.dex.clone(), pool2.dex.clone()];
    let o = ArbitrageOpportunity {
        route_id,
        tokens,
        dexes,
        input_amount: amount,
        expected_output: fin,
        gas_estimate: TWO_HOP_GAS,
        profit: (fin as i128) - (amount as i128),
        confidence_bps: TWO_HOP_CONFIDENCE_BPS,
        timestamp: now,
    };
    assert(strings_view(o.tokens@) =~= seq![pool1.token_a@, pool1.token_b@, pool1.token_a@]);
    assert(strings_view(o.dexes@) =~= seq![pool1.dex@, pool2.dex@]);
    Some(o)
}

proof fn lemma_flat_map_step<A, B>(s: Seq<A>, f: spec_fn(A) -> Seq<B>, i: int)
    requires
        0 <= i < s.len(),
    ensures
        flat_map(s.subrange(0, i + 1), f) == flat_map(s.subrange(0, i), f) + f(s[i]),
{
    assert(s.subrange(0, i + 1).drop_last() =~= s.subrange(0, i));
}

proof fn lemma_views_push(s: Seq<ArbitrageOpportunity>, o: ArbitrageOpportunity)
    ensures
        opportunities_view(s.push(o)) == opportunities_view(s) + seq![o@],
{
    assert(opportunities_view(s.push(o)) =~= opportunities_view(s) + seq![o@]);
}

pub(crate) proof fn lemma_views_concat(s: Seq<ArbitrageOpportunity>, t: Seq<ArbitrageOpportunity>)
    ensures
        opportunities_view(s + t) == opportunities_view(s) + opportunities_view(t),
{
    assert(opportunities_view(s + t) =~= opportunities_view(s) + opportunities_view(t));
}

/// The 2-hop opportunities that start in `pool1`, in the order of `amounts`.
pub fn two_hop_for_pool_exec(snap: &Vec<PoolState>, index: &PairIndex, pool1: &PoolState, amounts: &Vec<u64>, now: u64) -> (r: Vec<ArbitrageOpportunity>)
    requires
        all_valid(snap@),
        keys_distinct(snap@),
        index_ok(pair_index_map(*index), snap@),
        pool1.valid(),
    ensures
        opportunities_view(r@) == two_hop_for_pool(snap@, *pool1, amounts@, now),
{
    let mut out: Vec<ArbitrageOpportunity> = Vec::new();
    let mut j: usize = 0;
    while j < amounts.len()
        invariant
            all_valid(snap@),
            keys_distinct(snap@),
            index_ok(pair_index_map(*index), snap@),
            pool1.valid(),
            j <= amounts@.len(),
            opportunities_view(out@) == two_hop_for_pool(snap@, *pool1, amounts@.subrange(0, j as int), now),
        decreases amounts@.len() - j,
    {
        let found = find_2hop_opportunity(snap, index, pool1, amounts[j], now);
        proof {
            lemma_flat_map_step(amounts@, |a: u64| opt_seq(two_hop_at(snap@, *pool1, a, now)), j as int);
        }
        match found {
            Some(o) => {
                proof { lemma_views_push(out@, o); }
                out.push(o);
            },
            None => {
                assert(opportunities_view(out@) + Seq::<OpportunityView>::empty() =~= opportunities_view(out@));
            },
        }
        j = j + 1;
    }
    assert(amounts@.subrange(0, amounts@.len() as int) =~= amounts@);
    out
}

/// Relies on rayon's `par_iter().map(..).collect()`: one result for each pool of
/// the snapshot, in the snapshot's order, each computed by the verified
/// `two_hop_for_pool_exec`, which only reads the snapshot and the index.
#[verifier::external_body]
fn par_two_hop(snap: &Vec<PoolState>, index: &PairIndex, amounts: &Vec<u64>, now: u64) -> (r: Vec<Vec<ArbitrageOpportunity>>)
    requires
        all_valid(snap@),
        keys_distinct(snap@),
        index_ok(pair_index_map(*index), snap@),
    ensures
        r@.len() == snap@.len(),
        forall|i: int| 0 <= i < snap@.len() ==>
            opportunities_view(#[trigger] r@[i]@) == two_hop_for_pool(snap@, snap@[i], amounts@, now),
{
    snap.par_iter().map(|p| two_hop_for_pool_exec(snap, index, p, amounts, now)).collect()
}

/// Every 2-hop opportunity of the snapshot: pool after pool in the snapshot's
/// order, and for each pool, amount after amount.
pub fn scan_2hop_in(snap: &Vec<PoolState>, amounts: &Vec<u64>, now: u64) -> (r: Vec<ArbitrageOpportunity>)
    requires
        all_valid(snap@),
        keys_distinct(snap@),
    ensures
        opportunities_view(r@) == two_hop_routes(snap@, snap@, amounts@, now),
{
    let index = build_pair_index(snap);
    let mut parts = par_two_hop(snap, &index, amounts, now);
    let mut out: Vec<ArbitrageOpportunity> = Vec::new();
    let mut i: usize = 0;
    let n = parts.len();
    while i < n
        invariant
            n == snap@.len(),
            i <= n,
            parts@.len() == n,
            forall|k: int| i <= k < n ==>
                opportunities_view(#[trigger] parts@[k]@) == two_hop_for_pool(snap@, snap@[k], amounts@, now),
            opportunities_view(out@) == two_hop_routes(snap@, snap@.subrange(0, i as int), amounts@, now),
        decreases n - i,
    {
        let mut part: Vec<ArbitrageOpportunity> = Vec::new();
        std::mem::swap(&mut part, &mut parts[i]);
        proof {
            lemma_flat_map_step(snap@, |p: PoolState| two_hop_for_pool(snap@, p, amounts@, now), i as int);
            lemma_views_concat(out@, part@);
        }
        out.append(&mut part);
        i = i + 1;
    }
    assert(snap@.subrange(0, n as int) =~= snap@);
    out
}

/// The 3-hop opportunity through `pool1` then `pool2` with `amount`, if it qualifies.
pub fn find_3hop_opportunity(snap: &Vec<PoolState>, index: &PairIndex, pool1: &PoolState, pool2: &PoolState, amount: u64, now: u64) -> (r: Option<ArbitrageOpportunity>)
    requires
        all_valid(snap@),
        keys_distinct(snap@),
        index_ok(pair_index_map(*index), snap@),
        pool1.valid(),
        pool2.valid(),
    ensures
        opt_view(r) == three_hop_at(snap@, *pool1, *pool2, amount, now),
{
    if pool1.token_b != pool2.token_a {
        return None;
    }
    let a1 = match compute_output(amount, pool1.reserve_a, pool1.reserve_b, pool1.fee) {
        Some(v) => v,
        None => return None,
    };
    let a2 = match compute_output(a1, pool2.reserve_a, pool2.reserve_b, pool2.fee) {
        Some(v) => v,
        None => return None,
    };
    let k = match index_get(index, &(pool2.token_b.clone(), pool1.token_a.clone())) {
        Some(k) => k,
        None => return None,
    };
    let pool3 = &snap[k];
    assert(pool3.valid());
    let fin = match compute_output(a2, pool3.reserve_a, pool3.reserve_b, pool3.fee) {
        Some(f) => f,
        None => return None,
    };
    if !gains(amount, fin, THREE_HOP_MIN_PROFIT_BPS) {
        return None;
    }
    let mut route_id = pool1.dex.clone();
    route_id.append("_");
    route_id.append(pool2.dex.as_str());
    route_id.append("_3hop");
    let tokens = vec![pool1.token_a.clone(), pool1.token_b.clone(), pool2.token_b.clone(), pool1.token_a.clone()];
    let dexes = vec![pool1.dex.clone(), pool2.dex.clone(), pool3.dex.clone()];
    let o = ArbitrageOpportunity {
        route_id,
        tokens,
        dexes,
        input_amount: amount,
        expected_output: fin,
        gas_estimate: THREE_HOP_GAS,
        profit: (fin as i128) - (amount as i128),
        confidence_bps: THREE_HOP_CONFIDENCE_BPS,
        timestamp: now,
    };
    assert(strings_view(o.tokens@) =~= seq![pool1.token_a@, pool1.token_b@, pool2.token_b@, pool1.token_a@]);
    assert(strings_view(o.dexes@) =~= seq![pool1.dex@, pool2.dex@, pool3.dex@]);
    Some(o)
}

/// The 3-hop opportunities through `pool1` then `pool2`, in the order of `amounts`.
pub fn three_hop_for_pair_exec(snap: &Vec<PoolState>, index: &PairIndex, pool1: &PoolState, pool2: &PoolState, amounts: &Vec<u64>, now: u64) -> (r: Vec<ArbitrageOpportunity>)
    requires
        all_valid(snap@),
        keys_distinct(snap@),
        index_ok(pair_index_map(*index), snap@),
        pool1.valid(),
        pool2.valid(),
    ensures
        opportunities_view(r@) == three_hop_for_pair(snap@, *pool1, *pool2, amounts@, now),
{
    let mut out: Vec<ArbitrageOpportunity> = Vec::new();
    let mut j: usize = 0;
    while j < amounts.len()
        invariant
            all_valid(snap@),
            keys_distinct(snap@),
            index_ok(pair_index_map(*index), snap@),
            pool1.valid(),
            pool2.valid(),
            j <= amounts@.len(),
            opportunities_view(out@) == three_hop_for_pair(snap@, *pool1, *pool2, amounts@.subrange(0, j as int), now),
        decreases amounts@.len() - j,
    {
        let found = find_3hop_opportunity(snap, index, pool1, pool2, amounts[j], now);
        proof {
            lemma_flat_map_step(amounts@, |a: u64| opt_seq(three_hop_at(snap@, *pool1, *pool2, a, now)), j as int);
        }
        match found {
            Some(o) => {
                proof { lemma_views_push(out@, o); }
                out.push(o);
            },
            None => {
                assert(opportunities_view(out@) + Seq::<OpportunityView>::empty() =~= opportunities_view(out@));
            },
        }
        j = j + 1;
    }
    assert(amounts@.subrange(0, amounts@.len() as int) =~= amounts@);
    out
}

/// The 3-hop opportunities that start in `pool1`: second pool after second pool
/// in the snapshot's order, and for each, amount after amount.
pub fn three_hop_for_pool_exec(snap: &Vec<PoolState>, index: &PairIndex, pool1: &PoolState, amounts: &Vec<u64>, now: u64) -> (r: Vec<ArbitrageOpportunity>)
    requires
        all_valid(snap@),
        keys_distinct(snap@),
        index_ok(pair_index_map(*index), snap@),
        pool1.valid(),
    ensures
        opportunities_view(r@) == three_hop_for_pool(snap@, *pool1, snap@, amounts@, now),
{
    let mut out: Vec<ArbitrageOpportunity> = Vec::new();
    let mut i: usize = 0;
    while i < snap.len()
        invariant
            all_valid(snap@),
            keys_distinct(snap@),
            index_ok(pair_index_map(*index), snap@),
            pool1.valid(),
            i <= snap@.len(),
            opportunities_view(out@) == three_hop_for_pool(snap@, *pool1, snap@.subrange(0, i as int), amounts@, now),
        decreases snap@.len() - i,
    {
        let mut part = three_hop_for_pair_exec(snap, index, pool1, &snap[i], amounts, now);
        proof {
            lemma_flat_map_step(snap@, |pool2: PoolState| three_hop_for_pair(snap@, *pool1, pool2, amounts@, now), i as int);
            lemma_views_concat(out@, part@);
        }
        out.append(&mut part);
        i = i + 1;
    }
    assert(snap@.subrange(0, snap@.len() as int) =~= snap@);
    out
}

/// Relies on rayon's `par_iter().map(..).collect()`: one result for each pool of
/// the snapshot, in the snapshot's order, each computed by the verified
/// `three_hop_for_pool_exec`, which only reads the snapshot and the index.
#[verifier::external_body]
fn par_three_hop(snap: &Vec<PoolState>, index: &PairIndex, amounts: &Vec<u64>, now: u64) -> (r: Vec<Vec<ArbitrageOpportunity>>)
    requires
        all_valid(snap@),
        keys_distinct(snap@),
        index_ok(pair_index_map(*index), snap@),
    ensures
        r@.len() == snap@.len(),
        forall|i: int| 0 <= i < snap@.len() ==>
            opportunities_view(#[trigger] r@[i]@) == three_hop_for_pool(snap@, snap@[i], snap@, amounts@, now),
{
    snap.par_iter().map(|p| three_hop_for_pool_exec(snap, index, p, amounts, now)).collect()
}

/// Every 3-hop opportunity of the snapshot: first pool after first pool in the
/// snapshot's order, then second pool after second pool, then amount after amount.
pub fn scan_3hop_in(snap: &Vec<PoolState>, amounts: &Vec<u64>, now: u64) -> (r: Vec<ArbitrageOpportunity>)
    requires
        all_valid(snap@),
        keys_distinct(snap@),
    ensures
        opportunities_view(r@) == three_hop_routes(snap@, snap@, amounts@, now),
{
    let index = build_pair_index(snap);
    let mut parts = par_three_hop(snap, &index, amounts, now);
    let mut out: Vec<ArbitrageOpportunity> = Vec::new();
    let mut i: usize = 0;
    let n = parts.len();
    while i < n
        invariant
            n == snap@.len(),
            i <= n,
            parts@.len() == n,
            forall|k: int| i <= k < n ==>
                opportunities_view(#[trigger] parts@[k]@) == three_hop_for_pool(snap@, snap@[k], snap@, amounts@, now),
            opportunities_view(out@) == three_hop_routes(snap@, snap@.subrange(0, i as int), amounts@, now),
        decreases n - i,
    {
        let mut part: Vec<ArbitrageOpportunity> = Vec::new();
        std::mem::swap(&mut part, &mut parts[i]);
        proof {
            lemma_flat_map_step(snap@, |p: PoolState| three_hop_for_pool(snap@, p, snap@, amounts@, now), i as int);
            lemma_views_concat(out@, part@);
        }
        out.append(&mut part);
        i = i + 1;
    }
    assert(snap@.subrange(0, n as int) =~= snap@);
    out
}

/// Membership in a flat map: `x` is in the concatenation exactly when it is in
/// the part of some element.
pub proof fn lemma_flat_map_contains<A, B>(s: Seq<A>, f: spec_fn(A) -> Seq<B>, x: B)
    ensures
        flat_map(s, f).contains(x) <==> exists|i: int| 0 <= i < s.len() && #[trigger] f(s[i]).contains(x),
    decreases s.len(),
{
    if s.len() > 0 {
        let init = s.drop_last();
        lemma_flat_map_contains(init, f, x);
        let a = flat_map(init, f);
        let b = f(s.last());
        assert(flat_map(s, f) == a + b);
        if (a + b).contains(x) {
            let k = choose|k: int| 0 <= k < (a + b).len() && (a + b)[k] == x;
            if k < a.len() {
                assert(a[k] == x);
                assert(a.contains(x));
                let i = choose|i: int| 0 <= i < init.len() && #[trigger] f(init[i]).contains(x);
                assert(s[i] == init[i]);
            } else {
                assert(b[k - a.len()] == x);
                assert(b.contains(x));
                assert(s[s.len() - 1] == s.last());
            }
        }
        if exists|i: int| 0 <= i < s.len() && #[trigger] f(s[i]).contains(x) {
            let i = choose|i: int| 0 <= i < s.len() && #[trigger] f(s[i]).contains(x);
            if i < s.len() - 1 {
                assert(init[i] == s[i]);
                assert(f(init[i]).contains(x));
                assert(a.contains(x));
                let k = choose|k: int| 0 <= k < a.len() && a[k] == x;
                assert((a + b)[k] == x);
            } else {
                assert(b.contains(x));
                let k = choose|k: int| 0 <= k < b.len() && b[k] == x;
                assert((a + b)[a.len() + k] == x);
            }
        }
    }
}

proof fn lemma_opt_seq_contains<A>(o: Option<A>, x: A)
    ensures
        opt_seq(o).contains(x) <==> o == Some(x),
{
    if o == Some(x) {
        assert(opt_seq(o)[0] == x);
    }
}

/// A 2-hop opportunity is in the scan of a snapshot exactly when it is the
/// opportunity of some pool of the snapshot and some candidate amount.
pub proof fn lemma_two_hop_member(snap: Seq<PoolState>, amounts: Seq<u64>, now: u64, o: OpportunityView)
    ensures
        two_hop_routes(snap, snap, amounts, now).contains(o) <==> exists|i: int, j: int|
            0 <= i < snap.len() && 0 <= j < amounts.len() && #[trigger] two_hop_at(snap, snap[i], amounts[j], now) == Some(o),
{
    let f = |p: PoolState| two_hop_for_pool(snap, p, amounts, now);
    lemma_flat_map_contains(snap, f, o);
    if two_hop_routes(snap, snap, amounts, now).contains(o) {
        let i = choose|i: int| 0 <= i < snap.len() && #[trigger] f(snap[i]).contains(o);
        let g = |a: u64| opt_seq(two_hop_at(snap, snap[i], a, now));
        lemma_flat_map_contains(amounts, g, o);
        let j = choose|j: int| 0 <= j < amounts.len() && #[trigger] g(amounts[j]).contains(o);
        lemma_opt_seq_contains(two_hop_at(snap, snap[i], amounts[j], now), o);
    }
    if exists|i: int, j: int| 0 <= i < snap.len() && 0 <= j < amounts.len()
        && #[trigger] two_hop_at(snap, snap[i], amounts[j], now) == Some(o) {
        let (i, j) = choose|i: int, j: int| 0 <= i < snap.len() && 0 <= j < amounts.len()
            && #[trigger] two_hop_at(snap, snap[i], amounts[j], now) == Some(o);
        let g = |a: u64| opt_seq(two_hop_at(snap, snap[i], a, now));
        lemma_opt_seq_contains(two_hop_at(snap, snap[i], amounts[j], now), o);
        assert(g(amounts[j]).contains(o));
        lemma_flat_map_contains(amounts, g, o);
        assert(f(snap[i]).contains(o));
    }
}

/// A 3-hop opportunity is in the scan of a snapshot exactly when it is the
/// opportunity of some ordered pair of pools of the snapshot and some
/// candidate amount.
pub proof fn lemma_three_hop_member(snap: Seq<PoolState>, amounts: Seq<u64>, now: u64, o: OpportunityView)
    ensures
        three_hop_routes(snap, snap, amounts, now).contains(o) <==> exists|i: int, k: int, j: int|
            0 <= i < snap.len() && 0 <= k < snap.len() && 0 <= j < amounts.len()
            && #[trigger] three_hop_at(snap, snap[i], snap[k], amounts[j], now) == Some(o),
{
    let f = |p: PoolState| three_hop_for_pool(snap, p, snap, amounts, now);
    lemma_flat_map_contains(snap, f, o);
    if three_hop_routes(snap, snap, amounts, now).contains(o) {
        let i = choose|i: int| 0 <= i < snap.len() && #[trigger] f(snap[i]).contains(o);
        let g = |pool2: PoolState| three_hop_for_pair(snap, snap[i], pool2, amounts, now);
        lemma_flat_map_contains(snap, g, o);
        let k = choose|k: int| 0 <= k < snap.len() && #[trigger] g(snap[k]).contains(o);
        let h = |a: u64| opt_seq(three_hop_at(snap, snap[i], snap[k], a, now));
        lemma_flat_map_contains(amounts, h, o);
        let j = choose|j: int| 0 <= j < amounts.len() && #[trigger] h(amounts[j]).contains(o);
        lemma_opt_seq_contains(three_hop_at(snap, snap[i], snap[k], amounts[j], now), o);
    }
    if exists|i: int, k: int, j: int| 0 <= i < snap.len() && 0 <= k < snap.len() && 0 <= j < amounts.len()
        && #[trigger] three_hop_at(snap, snap[i], snap[k], amounts[j], now) == Some(o) {
        let (i, k, j) = choose|i: int, k: int, j: int| 0 <= i < snap.len() && 0 <= k < snap.len() && 0 <= j < amounts.len()
            && #[trigger] three_hop_at(snap, snap[i], snap[k], amounts[j], now) == Some(o);
        let g = |pool2: PoolState| three_hop_for_pair(snap, snap[i], pool2, amounts, now);
        let h = |a: u64| opt_seq(three_hop_at(snap, snap[i], snap[k], a, now));
        lemma_opt_seq_contains(three_hop_at(snap, snap[i], snap[k], amounts[j], now), o);
        assert(h(amounts[j]).contains(o));
        lemma_flat_map_contains(amounts, h, o);
        assert(g(snap[k]).contains(o));
        lemma_flat_map_contains(snap, g, o);
        assert(f(snap[i]).contains(o));
    }
}

/// Some pool of the snapshot swaps `token_in` for `token_out`.
pub open spec fn has_pair(snap: Seq<PoolState>, token_in: Seq<char>, token_out: Seq<char>) -> bool {
    exists|k: int| 0 <= k < snap.len() && (#[trigger] snap[k]).token_a@ == token_in && snap[k].token_b@ == token_out
}

/// No two pools of the snapshot share a key.
pub open spec fn keys_distinct(snap: Seq<PoolState>) -> bool {
    forall|i: int, j: int| 0 <= i < j < snap.len() ==> snap[i].key() != snap[j].key()
}

/// Every snapshot that holds a pool for a pair holds a least one.
proof fn lemma_least_pair_exists(snap: Seq<PoolState>, token_in: Seq<char>, token_out: Seq<char>)
    requires
        has_pair(snap, token_in, token_out),
    ensures
        exists|p: PoolState| least_pair(snap, p, token_in, token_out),
    decreases snap.len(),
{
    let init = snap.drop_last();
    let x = snap.last();
    assert(snap =~= init.push(x));
    assert(snap.contains(x)) by { assert(snap[snap.len() - 1] == x); }
    assert forall|q: PoolState| #[trigger] snap.contains(q) implies q == x || init.contains(q) by {
        let l = choose|l: int| 0 <= l < snap.len() && snap[l] == q;
        if l < snap.len() - 1 {
            assert(init[l] == q);
        }
    }
    assert forall|q: PoolState| #[trigger] init.contains(q) implies snap.contains(q) by {
        let l = choose|l: int| 0 <= l < init.len() && init[l] == q;
        assert(snap[l] == q);
    }
    if has_pair(init, token_in, token_out) {
        lemma_least_pair_exists(init, token_in, token_out);
        let p = choose|p: PoolState| least_pair(init, p, token_in, token_out);
        if swaps_pair(x, token_in, token_out) && str_lt(x.dex@, p.dex@) {
            lemma_str_lt_irreflexive(x.dex@);
            assert forall|q: PoolState| #[trigger] snap.to_set().contains(q) && swaps_pair(q, token_in, token_out)
                implies !str_lt(q.dex@, x.dex@) by {
                if q != x {
                    assert(snap.contains(q));
                    assert(init.contains(q));
                    assert(init.to_set().contains(q));
                    if str_lt(q.dex@, x.dex@) {
                        lemma_str_lt_transitive(q.dex@, x.dex@, p.dex@);
                    }
                }
            }
            assert(snap.to_set().contains(x));
            assert(least_pair(snap, x, token_in, token_out));
        } else {
            assert(init.contains(p));
            assert(snap.contains(p));
            assert(snap.to_set().contains(p));
            assert forall|q: PoolState| #[trigger] snap.to_set().contains(q) && swaps_pair(q, token_in, token_out)
                implies !str_lt(q.dex@, p.dex@) by {
                if q != x {
                    assert(snap.contains(q));
                    assert(init.contains(q));
                    assert(init.to_set().contains(q));
                }
            }
            assert(least_pair(snap, p, token_in, token_out));
        }
    } else {
        let k = choose|k: int| 0 <= k < snap.len() && (#[trigger] snap[k]).token_a@ == token_in && snap[k].token_b@ == token_out;
        if k < snap.len() - 1 {
            assert(init[k] == snap[k]);
        }
        assert(swaps_pair(x, token_in, token_out));
        lemma_str_lt_irreflexive(x.dex@);
        assert forall|q: PoolState| #[trigger] snap.to_set().contains(q) && swaps_pair(q, token_in, token_out)
            implies !str_lt(q.dex@, x.dex@) by {
            if q != x {
                assert(snap.contains(q));
                assert(init.contains(q));
                let l = choose|l: int| 0 <= l < init.len() && init[l] == q;
                assert(init[l].token_a@ == token_in && init[l].token_b@ == token_out);
            }
        }
        assert(snap.to_set().contains(x));
        assert(least_pair(snap, x, token_in, token_out));
    }
}

/// The lookup of a pair finds a pool exactly when the snapshot holds one.
pub proof fn lemma_find_pair_some(snap: Seq<PoolState>, token_in: Seq<char>, token_out: Seq<char>)
    ensures
        find_pair(snap, token_in, token_out) is Some <==> has_pair(snap, token_in, token_out),
{
    if has_pair(snap, token_in, token_out) {
        lemma_least_pair_exists(snap, token_in, token_out);
    }
    if exists|p: PoolState| least_pair(snap, p, token_in, token_out) {
        let p = choose|p: PoolState| least_pair(snap, p, token_in, token_out);
        let l = choose|l: int| 0 <= l < snap.len() && snap[l] == p;
        assert(snap[l].token_a@ == token_in && snap[l].token_b@ == token_out);
    }
}

/// The record of a 2-hop route that starts in pool `pool1` with `amount`.
pub open spec fn starts_two_hop(o: OpportunityView, pool1: PoolState, amount: u64) -> bool {
    &&& o.dexes.len() == 2
    &&& o.dexes[0] == pool1.dex@
    &&& o.tokens == seq![pool1.token_a@, pool1.token_b@, pool1.token_a@]
    &&& o.input_amount == amount as int
}

/// The record of a 3-hop route that starts in pool `pool1` with `amount`.
pub open spec fn starts_three_hop(o: OpportunityView, pool1: PoolState, amount: u64) -> bool {
    &&& o.dexes.len() == 3
    &&& o.dexes[0] == pool1.dex@
    &&& o.tokens.len() == 4
    &&& o.tokens[0] == pool1.token_a@
    &&& o.tokens[1] == pool1.token_b@
    &&& o.tokens[3] == pool1.token_a@
    &&& o.input_amount == amount as int
}

/// A scan finds a 2-hop route for pool `pool1` and a candidate amount exactly when
/// the snapshot holds a pool for the reverse pair and the round trip is priced
/// and gains more than the 2-hop threshold; every 2-hop record carries the
/// 2-hop gas estimate and confidence.
pub proof fn lemma_two_hop_found_exactly_when(snap: Seq<PoolState>, amounts: Seq<u64>, now: u64, i: int, amount: u64)
    requires
        keys_distinct(snap),
        0 <= i < snap.len(),
        amounts.contains(amount),
    ensures
        (exists|o: OpportunityView| two_hop_routes(snap, snap, amounts, now).contains(o) && starts_two_hop(o, snap[i], amount))
            <==> (has_pair(snap, snap[i].token_b@, snap[i].token_a@)
                && two_hop_final(snap, snap[i], amount as int) is Some
                && gains_more_than(amount as int, two_hop_final(snap, snap[i], amount as int).unwrap(), TWO_HOP_MIN_PROFIT_BPS as int)),
        forall|o: OpportunityView| two_hop_routes(snap, snap, amounts, now).contains(o)
            ==> o.gas_estimate == TWO_HOP_GAS && o.confidence_bps == TWO_HOP_CONFIDENCE_BPS,
{
    let res = two_hop_routes(snap, snap, amounts, now);
    let pool1 = snap[i];
    lemma_find_pair_some(snap, pool1.token_b@, pool1.token_a@);
    if exists|o: OpportunityView| res.contains(o) && starts_two_hop(o, pool1, amount) {
        let o = choose|o: OpportunityView| res.contains(o) && starts_two_hop(o, pool1, amount);
        lemma_two_hop_member(snap, amounts, now, o);
        let (i2, j2) = choose|i2: int, j2: int| 0 <= i2 < snap.len() && 0 <= j2 < amounts.len()
            && #[trigger] two_hop_at(snap, snap[i2], amounts[j2], now) == Some(o);
        assert(o.tokens[0] == snap[i2].token_a@ && o.tokens[1] == snap[i2].token_b@);
        assert(snap[i2].key() == pool1.key());
        assert(i2 == i);
        assert(amounts[j2] == amount);
    }
    let fin = two_hop_final(snap, pool1, amount as int);
    if has_pair(snap, pool1.token_b@, pool1.token_a@) && fin is Some
        && gains_more_than(amount as int, fin.unwrap(), TWO_HOP_MIN_PROFIT_BPS as int) {
        let o = two_hop_at(snap, pool1, amount, now).unwrap();
        let j = choose|j: int| 0 <= j < amounts.len() && amounts[j] == amount;
        assert(two_hop_at(snap, snap[i], amounts[j], now) == Some(o));
        lemma_two_hop_member(snap, amounts, now, o);
        assert(res.contains(o) && starts_two_hop(o, pool1, amount));
    }
    assert forall|o: OpportunityView| res.contains(o) implies o.gas_estimate == TWO_HOP_GAS
        && o.confidence_bps == TWO_HOP_CONFIDENCE_BPS by {
        lemma_two_hop_member(snap, amounts, now, o);
    }
}

/// A scan finds a 3-hop route for pool `pool1` and a candidate amount exactly when
/// some pool of the snapshot continues from `pool1`'s token B, a closing pool back
/// to `pool1`'s token A exists, and the cycle is priced and gains more than the
/// 3-hop threshold; every 3-hop record carries the 3-hop gas estimate and
/// confidence.
#[verifier::rlimit(60)]
pub proof fn lemma_three_hop_found_exactly_when(snap: Seq<PoolState>, amounts: Seq<u64>, now: u64, i: int, amount: u64)
    requires
        keys_distinct(snap),
        0 <= i < snap.len(),
        amounts.contains(amount),
    ensures
        (exists|o: OpportunityView| three_hop_routes(snap, snap, amounts, now).contains(o) && starts_three_hop(o, snap[i], amount))
            <==> (exists|k: int| 0 <= k < snap.len()
                && (#[trigger] snap[k]).token_a@ == snap[i].token_b@
                && has_pair(snap, snap[k].token_b@, snap[i].token_a@)
                && three_hop_final(snap, snap[i], snap[k], amount as int) is Some
                && gains_more_than(amount as int, three_hop_final(snap, snap[i], snap[k], amount as int).unwrap(), THREE_HOP_MIN_PROFIT_BPS as int)),
        forall|o: OpportunityView| three_hop_routes(snap, snap, amounts, now).contains(o)
            ==> o.gas_estimate == THREE_HOP_GAS && o.confidence_bps == THREE_HOP_CONFIDENCE_BPS,
{
    let res = three_hop_routes(snap, snap, amounts, now);
    let pool1 = snap[i];
    if exists|o: OpportunityView| res.contains(o) && starts_three_hop(o, pool1, amount) {
        let o = choose|o: OpportunityView| res.contains(o) && starts_three_hop(o, pool1, amount);
        lemma_three_hop_member(snap, amounts, now, o);
        let (i2, k2, j2) = choose|i2: int, k2: int, j2: int| 0 <= i2 < snap.len() && 0 <= k2 < snap.len() && 0 <= j2 < amounts.len()
            && #[trigger] three_hop_at(snap, snap[i2], snap[k2], amounts[j2], now) == Some(o);
        assert(o.tokens[0] == snap[i2].token_a@ && o.tokens[1] == snap[i2].token_b@);
        assert(snap[i2].key() == pool1.key());
        assert(i2 == i);
        assert(amounts[j2] == amount);
        lemma_find_pair_some(snap, snap[k2].token_b@, pool1.token_a@);
        assert(snap[k2].token_a@ == snap[i].token_b@);
    }
    if exists|k: int| 0 <= k < snap.len()
        && (#[trigger] snap[k]).token_a@ == snap[i].token_b@
        && has_pair(snap, snap[k].token_b@, snap[i].token_a@)
        && three_hop_final(snap, snap[i], snap[k], amount as int) is Some
        && gains_more_than(amount as int, three_hop_final(snap, snap[i], snap[k], amount as int).unwrap(), THREE_HOP_MIN_PROFIT_BPS as int) {
        let k = choose|k: int| 0 <= k < snap.len()
            && (#[trigger] snap[k]).token_a@ == snap[i].token_b@
            && has_pair(snap, snap[k].token_b@, snap[i].token_a@)
            && three_hop_final(snap, snap[i], snap[k], amount as int) is Some
            && gains_more_than(amount as int, three_hop_final(snap, snap[i], snap[k], amount as int).unwrap(), THREE_HOP_MIN_PROFIT_BPS as int);
        let o = three_hop_at(snap, pool1, snap[k], amount, now).unwrap();
        let j = choose|j: int| 0 <= j < amounts.len() && amounts[j] == amount;
        assert(three_hop_at(snap, snap[i], snap[k], amounts[j], now) == Some(o));
        lemma_three_hop_member(snap, amounts, now, o);
        assert(res.contains(o) && starts_three_hop(o, pool1, amount));
    }
    assert forall|o: OpportunityView| res.contains(o) implies o.gas_estimate == THREE_HOP_GAS
        && o.confidence_bps == THREE_HOP_CONFIDENCE_BPS by {
        lemma_three_hop_member(snap, amounts, now, o);
    }
}

} // verus!
