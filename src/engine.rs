//! The engine: a pool registry and the scans over its snapshots.
use vstd::prelude::*;
use vstd::string::StringExecFns;
use crate::model::{ArbitrageOpportunity, OpportunityView, PoolState, key_view, make_pair_key, strings_view, opportunities_view, pair_key};
use crate::rank::{rank_by_profit, sorted_by_profit};
use crate::registry::{JoinedMap, PoolMap, joined_get, joined_insert, joined_map, joined_new, map_entries, map_get, map_insert, map_len, map_new, pool_map};
use crate::routes::{lemma_two_hop_member, lemma_three_hop_member, two_hop_at, three_hop_at, all_valid, keys_distinct, gains_more_than, has_pair, lemma_three_hop_found_exactly_when, lemma_two_hop_found_exactly_when, starts_three_hop, starts_two_hop, swaps_pair, three_hop_final, two_hop_final, TWO_HOP_MIN_PROFIT_BPS, THREE_HOP_MIN_PROFIT_BPS, pool_swap, scan_2hop_in, scan_3hop_in, three_hop_routes, two_hop_routes};
use crate::swap::{FEE_SCALE, compute_output, opt_amount, swap_output};

verus! {

/// Slippage is reported in millionths of a percent.
pub const SLIPPAGE_UNITS_PER_PERCENT: u64 = 1_000_000;

/// Every entry sits under its own key and has a valid fee; there are finitely many.
pub open spec fn registry_wf(m: Map<(Seq<char>, Seq<char>, Seq<char>), PoolState>) -> bool {
    &&& m.dom().finite()
    &&& forall|k: (Seq<char>, Seq<char>, Seq<char>)| #[trigger] m.contains_key(k) ==> m[k].key() == k && m[k].valid()
}

/// Each entry of the joined-key index sits under its pool's joined key and is
/// the pool that the registry holds under that pool's identity.
pub open spec fn joined_wf(j: Map<Seq<char>, PoolState>, m: Map<(Seq<char>, Seq<char>, Seq<char>), PoolState>) -> bool {
    forall|s: Seq<char>| #[trigger] j.contains_key(s) ==>
        j[s].joined() == s && m.contains_key(j[s].key()) && m[j[s].key()] == j[s]
}

/// `snap` lists the pools of `m`, each once, in some order.
pub open spec fn is_listing(snap: Seq<PoolState>, m: Map<(Seq<char>, Seq<char>, Seq<char>), PoolState>) -> bool {
    &&& snap.len() == m.len()
    &&& forall|i: int| #![trigger snap[i]] 0 <= i < snap.len() ==>
            m.contains_key(snap[i].key()) && m[snap[i].key()] == snap[i]
    &&& keys_distinct(snap)
    &&& forall|k: (Seq<char>, Seq<char>, Seq<char>)| #[trigger] m.contains_key(k) ==> exists|i: int| 0 <= i < snap.len() && snap[i].key() == k
}

/// The slippage of one hop from `expected` to `actual`, in millionths of a
/// percent of `expected`, rounded toward zero.
pub open spec fn hop_slippage(expected: int, actual: int) -> int {
    if actual <= expected {
        (expected - actual) * 100 * SLIPPAGE_UNITS_PER_PERCENT / expected
    } else {
        -((actual - expected) * 100 * SLIPPAGE_UNITS_PER_PERCENT / expected)
    }
}

/// The summed slippage along `route` from `amount`: each consecutive pair of
/// identifiers is joined by `_` and looked up in the joined-key index `m`; a
/// pair with no pool adds nothing and keeps the amount. `None` when a hop has
/// no usable price.
pub open spec fn route_slippage(m: Map<Seq<char>, PoolState>, route: Seq<Seq<char>>, amount: int) -> Option<int>
    decreases route.len(),
{
    if route.len() < 2 {
        Some(0)
    } else {
        let key = pair_key(route[0], route[1]);
        if !m.contains_key(key) {
            route_slippage(m, route.drop_first(), amount)
        } else if amount == 0 {
            None
        } else {
            match pool_swap(m[key], amount) {
                None => None,
                Some(actual) => match route_slippage(m, route.drop_first(), actual) {
                    None => None,
                    Some(rest) => Some(hop_slippage(amount, actual) + rest),
                },
            }
        }
    }
}

/// Decimal digits of `n`.
pub open spec fn decimal(n: nat) -> Seq<char>
    decreases n,
{
    if n < 10 {
        seq!["0123456789"@[n as int]]
    } else {
        decimal(n / 10) + seq!["0123456789"@[(n % 10) as int]]
    }
}

/// The text of the engine's statistics.
pub open spec fn stats_text(pools: nat, cores: nat) -> Seq<char> {
    "Pools: "@ + decimal(pools) + ", CPU Cores: "@ + decimal(cores)
}

/// Relies on `num_cpus::get`: the number of logical cores, always at least 1.
#[verifier::external_body]
fn cpu_count() -> (r: usize)
    ensures
        r >= 1,
{
    num_cpus::get()
}

/// Relies on `usize`'s `Display`, through `to_string`: its decimal digits.
#[verifier::external_body]
fn usize_text(n: usize) -> (r: String)
    ensures
        r@ == decimal(n as nat),
{
    n.to_string()
}

/// Relies on `rayon::join`: both closures run, possibly in parallel, and both
/// results come back; each is computed by a verified scan of the same snapshot.
#[verifier::external_body]
fn join_scans(snap: &Vec<PoolState>, amounts: &Vec<u64>, now: u64) -> (r: (Vec<ArbitrageOpportunity>, Vec<ArbitrageOpportunity>))
    requires
        all_valid(snap@),
        keys_distinct(snap@),
    ensures
        opportunities_view(r.0@) == two_hop_routes(snap@, snap@, amounts@, now),
        opportunities_view(r.1@) == three_hop_routes(snap@, snap@, amounts@, now),
{
    rayon::join(|| scan_2hop_in(snap, amounts, now), || scan_3hop_in(snap, amounts, now))
}

/// Upserting two pools under one key leaves the second in place of the first,
/// and the second upsert does not change the registry's size.
pub proof fn lemma_upsert_same_key_twice(m: Map<(Seq<char>, Seq<char>, Seq<char>), PoolState>, p: PoolState, q: PoolState)
    requires
        registry_wf(m),
        p.key() == q.key(),
    ensures
        m.insert(p.key(), p).insert(q.key(), q) == m.insert(q.key(), q),
        m.insert(p.key(), p).insert(q.key(), q)[q.key()] == q,
        m.insert(p.key(), p).insert(q.key(), q).len() == m.insert(p.key(), p).len(),
{
    let once = m.insert(p.key(), p);
    let twice = once.insert(q.key(), q);
    assert(twice =~= m.insert(q.key(), q));
    assert(twice.dom() =~= once.dom());
}

/// Scanning a snapshot of an empty registry finds no route of either length,
/// for any candidate amounts.
pub proof fn lemma_empty_registry_scans(m: Map<(Seq<char>, Seq<char>, Seq<char>), PoolState>, snap: Seq<PoolState>, amounts: Seq<u64>, now: u64)
    requires
        m == Map::<(Seq<char>, Seq<char>, Seq<char>), PoolState>::empty(),
        is_listing(snap, m),
    ensures
        two_hop_routes(snap, snap, amounts, now) == Seq::<OpportunityView>::empty(),
        three_hop_routes(snap, snap, amounts, now) == Seq::<OpportunityView>::empty(),
{
    assert(m.dom() =~= Set::<(Seq<char>, Seq<char>, Seq<char>)>::empty());
    assert(snap.len() == 0);
}

/// The registry holds a pool that swaps `token_in` for `token_out`.
pub open spec fn registry_has_pair(m: Map<(Seq<char>, Seq<char>, Seq<char>), PoolState>, token_in: Seq<char>, token_out: Seq<char>) -> bool {
    exists|k: (Seq<char>, Seq<char>, Seq<char>)| #[trigger] m.contains_key(k) && swaps_pair(m[k], token_in, token_out)
}

proof fn lemma_listing_has_pair(m: Map<(Seq<char>, Seq<char>, Seq<char>), PoolState>, snap: Seq<PoolState>, token_in: Seq<char>, token_out: Seq<char>)
    requires
        is_listing(snap, m),
    ensures
        has_pair(snap, token_in, token_out) <==> registry_has_pair(m, token_in, token_out),
{
    if has_pair(snap, token_in, token_out) {
        let i = choose|i: int| 0 <= i < snap.len() && (#[trigger] snap[i]).token_a@ == token_in && snap[i].token_b@ == token_out;
        assert(m.contains_key(snap[i].key()));
    }
    if registry_has_pair(m, token_in, token_out) {
        let k = choose|k: (Seq<char>, Seq<char>, Seq<char>)| #[trigger] m.contains_key(k) && swaps_pair(m[k], token_in, token_out);
        let i = choose|i: int| 0 <= i < snap.len() && snap[i].key() == k;
        assert(m[snap[i].key()] == snap[i]);
    }
}

/// For a pool of the registry and a candidate amount, a scan of any listing of
/// the registry finds a 2-hop route that starts in that pool exactly when the
/// registry holds a pool for the reverse pair and the round trip is priced and
/// gains more than the 2-hop threshold.
pub proof fn lemma_registry_two_hop(m: Map<(Seq<char>, Seq<char>, Seq<char>), PoolState>, snap: Seq<PoolState>, amounts: Seq<u64>, now: u64, k: (Seq<char>, Seq<char>, Seq<char>), amount: u64)
    requires
        registry_wf(m),
        is_listing(snap, m),
        m.contains_key(k),
        amounts.contains(amount),
    ensures
        (exists|o: OpportunityView| two_hop_routes(snap, snap, amounts, now).contains(o) && starts_two_hop(o, m[k], amount))
            <==> (registry_has_pair(m, m[k].token_b@, m[k].token_a@)
                && two_hop_final(snap, m[k], amount as int) is Some
                && gains_more_than(amount as int, two_hop_final(snap, m[k], amount as int).unwrap(), TWO_HOP_MIN_PROFIT_BPS as int)),
{
    let i = choose|i: int| 0 <= i < snap.len() && snap[i].key() == k;
    assert(snap[i] == m[k]);
    lemma_two_hop_found_exactly_when(snap, amounts, now, i, amount);
    lemma_listing_has_pair(m, snap, m[k].token_b@, m[k].token_a@);
}

/// For a pool of the registry and a candidate amount, a scan of any listing of
/// the registry finds a 3-hop route that starts in that pool exactly when the
/// registry holds a second pool that continues from its token B, a closing
/// pool back to its token A, and the cycle is priced and gains more than the
/// 3-hop threshold.
pub proof fn lemma_registry_three_hop(m: Map<(Seq<char>, Seq<char>, Seq<char>), PoolState>, snap: Seq<PoolState>, amounts: Seq<u64>, now: u64, k: (Seq<char>, Seq<char>, Seq<char>), amount: u64)
    requires
        registry_wf(m),
        is_listing(snap, m),
        m.contains_key(k),
        amounts.contains(amount),
    ensures
        (exists|o: OpportunityView| three_hop_routes(snap, snap, amounts, now).contains(o) && starts_three_hop(o, m[k], amount))
            <==> (exists|k2: (Seq<char>, Seq<char>, Seq<char>)| #[trigger] m.contains_key(k2)
                && m[k2].token_a@ == m[k].token_b@
                && registry_has_pair(m, m[k2].token_b@, m[k].token_a@)
                && three_hop_final(snap, m[k], m[k2], amount as int) is Some
                && gains_more_than(amount as int, three_hop_final(snap, m[k], m[k2], amount as int).unwrap(), THREE_HOP_MIN_PROFIT_BPS as int)),
{
    let i = choose|i: int| 0 <= i < snap.len() && snap[i].key() == k;
    assert(snap[i] == m[k]);
    lemma_three_hop_found_exactly_when(snap, amounts, now, i, amount);
    let pool1 = m[k];
    if exists|j: int| 0 <= j < snap.len()
        && (#[trigger] snap[j]).token_a@ == pool1.token_b@
        && has_pair(snap, snap[j].token_b@, pool1.token_a@)
        && three_hop_final(snap, pool1, snap[j], amount as int) is Some
        && gains_more_than(amount as int, three_hop_final(snap, pool1, snap[j], amount as int).unwrap(), THREE_HOP_MIN_PROFIT_BPS as int) {
        let j = choose|j: int| 0 <= j < snap.len()
            && (#[trigger] snap[j]).token_a@ == pool1.token_b@
            && has_pair(snap, snap[j].token_b@, pool1.token_a@)
            && three_hop_final(snap, pool1, snap[j], amount as int) is Some
            && gains_more_than(amount as int, three_hop_final(snap, pool1, snap[j], amount as int).unwrap(), THREE_HOP_MIN_PROFIT_BPS as int);
        lemma_listing_has_pair(m, snap, snap[j].token_b@, pool1.token_a@);
        assert(m.contains_key(snap[j].key()) && m[snap[j].key()] == snap[j]);
    }
    if exists|k2: (Seq<char>, Seq<char>, Seq<char>)| #[trigger] m.contains_key(k2)
        && m[k2].token_a@ == pool1.token_b@
        && registry_has_pair(m, m[k2].token_b@, pool1.token_a@)
        && three_hop_final(snap, pool1, m[k2], amount as int) is Some
        && gains_more_than(amount as int, three_hop_final(snap, pool1, m[k2], amount as int).unwrap(), THREE_HOP_MIN_PROFIT_BPS as int) {
        let k2 = choose|k2: (Seq<char>, Seq<char>, Seq<char>)| #[trigger] m.contains_key(k2)
            && m[k2].token_a@ == pool1.token_b@
            && registry_has_pair(m, m[k2].token_b@, pool1.token_a@)
            && three_hop_final(snap, pool1, m[k2], amount as int) is Some
            && gains_more_than(amount as int, three_hop_final(snap, pool1, m[k2], amount as int).unwrap(), THREE_HOP_MIN_PROFIT_BPS as int);
        let j = choose|j: int| 0 <= j < snap.len() && snap[j].key() == k2;
        assert(snap[j] == m[k2]);
        lemma_listing_has_pair(m, snap, m[k2].token_b@, pool1.token_a@);
        assert(snap[j].token_a@ == pool1.token_b@);
    }
}

proof fn lemma_listings_same_pools(m: Map<(Seq<char>, Seq<char>, Seq<char>), PoolState>, s1: Seq<PoolState>, s2: Seq<PoolState>)
    requires
        is_listing(s1, m),
        is_listing(s2, m),
    ensures
        s1.to_set() == s2.to_set(),
{
    assert forall|p: PoolState| #[trigger] s1.contains(p) implies s2.contains(p) by {
        let i = choose|i: int| 0 <= i < s1.len() && s1[i] == p;
        assert(m.contains_key(s1[i].key()));
        let j = choose|j: int| 0 <= j < s2.len() && s2[j].key() == p.key();
        assert(s2[j] == m[s2[j].key()]);
    }
    assert forall|p: PoolState| #[trigger] s2.contains(p) implies s1.contains(p) by {
        let i = choose|i: int| 0 <= i < s2.len() && s2[i] == p;
        assert(m.contains_key(s2[i].key()));
        let j = choose|j: int| 0 <= j < s1.len() && s1[j].key() == p.key();
        assert(s1[j] == m[s1[j].key()]);
    }
    assert(s1.to_set() =~= s2.to_set());
}

/// Whichever listing of the registry a scan works on, it finds the same 2-hop
/// and the same 3-hop opportunities (as sets of records): the pool chosen for
/// a pair does not depend on the listing's order.
pub proof fn lemma_scan_independent_of_listing(m: Map<(Seq<char>, Seq<char>, Seq<char>), PoolState>, s1: Seq<PoolState>, s2: Seq<PoolState>, amounts: Seq<u64>, now: u64, o: OpportunityView)
    requires
        is_listing(s1, m),
        is_listing(s2, m),
    ensures
        two_hop_routes(s1, s1, amounts, now).contains(o) <==> two_hop_routes(s2, s2, amounts, now).contains(o),
        three_hop_routes(s1, s1, amounts, now).contains(o) <==> three_hop_routes(s2, s2, amounts, now).contains(o),
{
    lemma_listings_same_pools(m, s1, s2);
    lemma_two_hop_member(s1, amounts, now, o);
    lemma_two_hop_member(s2, amounts, now, o);
    lemma_three_hop_member(s1, amounts, now, o);
    lemma_three_hop_member(s2, amounts, now, o);
    assert forall|p: PoolState, a: u64| #[trigger] two_hop_at(s1, p, a, now) == two_hop_at(s2, p, a, now) by {}
    assert forall|p: PoolState, q: PoolState, a: u64| #[trigger] three_hop_at(s1, p, q, a, now) == three_hop_at(s2, p, q, a, now) by {}
    assert forall|p: PoolState| #[trigger] s1.contains(p) <==> s2.contains(p) by {
        assert(s1.to_set().contains(p) == s2.to_set().contains(p));
    }
    if two_hop_routes(s1, s1, amounts, now).contains(o) {
        let (i, j) = choose|i: int, j: int| 0 <= i < s1.len() && 0 <= j < amounts.len()
            && #[trigger] two_hop_at(s1, s1[i], amounts[j], now) == Some(o);
        assert(s1.contains(s1[i]));
        let i2 = choose|i2: int| 0 <= i2 < s2.len() && s2[i2] == s1[i];
        assert(two_hop_at(s2, s2[i2], amounts[j], now) == Some(o));
    }
    if two_hop_routes(s2, s2, amounts, now).contains(o) {
        let (i, j) = choose|i: int, j: int| 0 <= i < s2.len() && 0 <= j < amounts.len()
            && #[trigger] two_hop_at(s2, s2[i], amounts[j], now) == Some(o);
        assert(s2.contains(s2[i]));
        let i2 = choose|i2: int| 0 <= i2 < s1.len() && s1[i2] == s2[i];
        assert(two_hop_at(s1, s1[i2], amounts[j], now) == Some(o));
    }
    if three_hop_routes(s1, s1, amounts, now).contains(o) {
        let (i, k, j) = choose|i: int, k: int, j: int| 0 <= i < s1.len() && 0 <= k < s1.len() && 0 <= j < amounts.len()
            && #[trigger] three_hop_at(s1, s1[i], s1[k], amounts[j], now) == Some(o);
        assert(s1.contains(s1[i]) && s1.contains(s1[k]));
        let i2 = choose|i2: int| 0 <= i2 < s2.len() && s2[i2] == s1[i];
        let k2 = choose|k2: int| 0 <= k2 < s2.len() && s2[k2] == s1[k];
        assert(three_hop_at(s2, s2[i2], s2[k2], amounts[j], now) == Some(o));
    }
    if three_hop_routes(s2, s2, amounts, now).contains(o) {
        let (i, k, j) = choose|i: int, k: int, j: int| 0 <= i < s2.len() && 0 <= k < s2.len() && 0 <= j < amounts.len()
            && #[trigger] three_hop_at(s2, s2[i], s2[k], amounts[j], now) == Some(o);
        assert(s2.contains(s2[i]) && s2.contains(s2[k]));
        let i2 = choose|i2: int| 0 <= i2 < s1.len() && s1[i2] == s2[i];
        let k2 = choose|k2: int| 0 <= k2 < s1.len() && s1[k2] == s2[k];
        assert(three_hop_at(s1, s1[i2], s1[k2], amounts[j], now) == Some(o));
    }
}

/// `hop_slippage` on machine amounts.
fn hop_slippage_exec(expected: u64, actual: u64) -> (r: i128)
    requires
        expected > 0,
    ensures
        r == hop_slippage(expected as int, actual as int),
        -1844674407370955161600000000 <= r <= 1844674407370955161600000000,
{
    let diff: u64 = if actual <= expected { expected - actual } else { actual - expected };
    assert((diff as int) * 100000000 <= 0x1_0000_0000_0000_0000 * 100000000) by (nonlinear_arith)
        requires diff <= 0xffff_ffff_ffff_ffff;
    let d: u128 = (diff as u128) * (100 * (SLIPPAGE_UNITS_PER_PERCENT as u128));
    assert(d == diff * 100 * SLIPPAGE_UNITS_PER_PERCENT);
    proof {
        vstd::arithmetic::div_mod::lemma_div_is_ordered_by_denominator(d as int, 1, expected as int);
        vstd::arithmetic::div_mod::lemma_div_pos_is_pos(d as int, expected as int);
    }
    let q: u128 = d / (expected as u128);
    if actual <= expected {
        q as i128
    } else {
        -(q as i128)
    }
}

/// The 2-hop and 3-hop opportunities of a snapshot, found in parallel,
/// ordered by profit, largest first. No lock is needed while it runs.
pub fn scan_snapshot(snap: &Vec<PoolState>, test_amounts: &Vec<u64>, now: u64) -> (r: Vec<ArbitrageOpportunity>)
    requires
        all_valid(snap@),
        keys_distinct(snap@),
    ensures
        sorted_by_profit(r@),
        exists|all: Seq<ArbitrageOpportunity>|
            opportunities_view(all) == two_hop_routes(snap@, snap@, test_amounts@, now)
                + three_hop_routes(snap@, snap@, test_amounts@, now)
            && r@.to_multiset() == all.to_multiset(),
{
    let (mut two_hop, mut three_hop) = join_scans(snap, test_amounts, now);
    let ghost two = two_hop@;
    let ghost three = three_hop@;
    let mut all: Vec<ArbitrageOpportunity> = Vec::new();
    all.append(&mut two_hop);
    all.append(&mut three_hop);
    proof {
        crate::routes::lemma_views_concat(two, three);
        assert(all@ =~= two + three);
    }
    rank_by_profit(all)
}

/// A registry of pool states and the arbitrage scans over it.
pub struct RustEngine {
    pools: PoolMap,
    /// The same pools under the joined form of their identity, where the
    /// latest upsert wins; only the slippage estimate reads it.
    by_joined: JoinedMap,
    cpu_cores: usize,
}

impl RustEngine {
    /// The pools of the registry, by key.
    pub closed spec fn pools(&self) -> Map<(Seq<char>, Seq<char>, Seq<char>), PoolState> {
        pool_map(self.pools)
    }

    /// The joined-key index that the slippage estimate reads.
    pub closed spec fn joined(&self) -> Map<Seq<char>, PoolState> {
        joined_map(self.by_joined)
    }

    /// The number of cores that scans may use.
    pub closed spec fn cores(&self) -> nat {
        self.cpu_cores as nat
    }

    pub open spec fn wf(&self) -> bool {
        registry_wf(self.pools()) && joined_wf(self.joined(), self.pools()) && self.cores() >= 1
    }

    /// An engine with an empty registry, sized to the machine's cores.
    pub fn new() -> (r: Self)
        ensures
            r.wf(),
            r.pools() == Map::<(Seq<char>, Seq<char>, Seq<char>), PoolState>::empty(),
    {
        let pools = map_new();
        let by_joined = joined_new();
        let cpu_cores = cpu_count();
        let r = RustEngine { pools, by_joined, cpu_cores };
        assert(r.pools() =~= Map::<(Seq<char>, Seq<char>, Seq<char>), PoolState>::empty());
        r
    }

    /// Inserts `pool` under its key, replacing any pool stored there.
    pub fn update_pool(&mut self, pool: PoolState)
        requires
            old(self).wf(),
            pool.valid(),
        ensures
            final(self).wf(),
            final(self).pools() == old(self).pools().insert(pool.key(), pool),
            final(self).joined() == old(self).joined().insert(pool.joined(), pool),
            final(self).cores() == old(self).cores(),
    {
        let key = pool.registry_key();
        let joined = pool.joined_key_string();
        let copy = pool.duplicate();
        map_insert(&mut self.pools, key, pool);
        joined_insert(&mut self.by_joined, joined, copy);
        proof {
            let m = self.pools();
            let j = self.joined();
            assert forall|s: Seq<char>| #[trigger] j.contains_key(s) implies
                j[s].joined() == s && m.contains_key(j[s].key()) && m[j[s].key()] == j[s] by {
                if s != copy.joined() {
                    assert(old(self).joined().contains_key(s));
                    assert(j[s].key() != copy.key());
                }
            }
        }
    }

    /// The pool stored under the key of `dex`, `token_a` and `token_b`.
    pub fn get(&self, dex: &String, token_a: &String, token_b: &String) -> (r: Option<PoolState>)
        ensures
            r == self.pools().get((dex@, token_a@, token_b@)),
    {
        let key = (dex.clone(), token_a.clone(), token_b.clone());
        map_get(&self.pools, &key)
    }

    /// The number of pools in the registry.
    pub fn size(&self) -> (r: usize)
        ensures
            r == self.pools().len(),
    {
        map_len(&self.pools)
    }

    /// A copy of every pool of the registry, each once, in an order that the
    /// registry's hashing decides.
    pub fn snapshot(&self) -> (r: Vec<PoolState>)
        requires
            self.wf(),
        ensures
            is_listing(r@, self.pools()),
            all_valid(r@),
    {
        let entries = map_entries(&self.pools);
        let mut out: Vec<PoolState> = Vec::new();
        let mut i: usize = 0;
        while i < entries.len()
            invariant
                self.wf(),
                i <= entries@.len(),
                out@.len() == i,
                entries@.len() == self.pools().len(),
                forall|k: int| #![trigger entries@[k]] 0 <= k < entries@.len() ==>
                    self.pools().contains_key(key_view(entries@[k].0)) && self.pools()[key_view(entries@[k].0)] == entries@[k].1,
                forall|k: int, l: int| 0 <= k < l < entries@.len() ==> key_view(entries@[k].0) != key_view(entries@[l].0),
                forall|k: (Seq<char>, Seq<char>, Seq<char>)| #[trigger] self.pools().contains_key(k) ==>
                    exists|l: int| 0 <= l < entries@.len() && key_view(entries@[l].0) == k,
                forall|k: int| 0 <= k < i ==> out@[k] == #[trigger] entries@[k].1,
            decreases entries@.len() - i,
        {
            out.push(entries[i].1.duplicate());
            i = i + 1;
        }
        assert forall|k: int| 0 <= k < out@.len() implies
            self.pools().contains_key(#[trigger] out@[k].key()) && self.pools()[out@[k].key()] == out@[k] by {
            assert(out@[k] == entries@[k].1);
            assert(self.pools().contains_key(key_view(entries@[k].0)));
        }
        assert forall|k: int, l: int| 0 <= k < l < out@.len() implies out@[k].key() != out@[l].key() by {
            assert(out@[k] == entries@[k].1);
            assert(out@[l] == entries@[l].1);
            assert(self.pools().contains_key(key_view(entries@[k].0)));
            assert(self.pools().contains_key(key_view(entries@[l].0)));
        }
        assert forall|k: (Seq<char>, Seq<char>, Seq<char>)| #[trigger] self.pools().contains_key(k) implies
            exists|l: int| 0 <= l < out@.len() && out@[l].key() == k by {
            let l = choose|l: int| 0 <= l < entries@.len() && key_view(entries@[l].0) == k;
            assert(out@[l] == entries@[l].1);
            assert(self.pools().contains_key(key_view(entries@[l].0)));
        }
        assert forall|k: int| 0 <= k < out@.len() implies (#[trigger] out@[k]).valid() by {
            assert(out@[k] == entries@[k].1);
            assert(self.pools().contains_key(key_view(entries@[k].0)));
        }
        out
    }

    /// Constant-product swap output; `None` when there is no usable price.
    pub fn calculate_output(&self, input: u64, reserve_in: u64, reserve_out: u64, fee: u32) -> (r: Option<u64>)
        requires
            fee < FEE_SCALE,
        ensures
            opt_amount(r) == swap_output(input as int, reserve_in as int, reserve_out as int, fee as int),
    {
        compute_output(input, reserve_in, reserve_out, fee)
    }

    /// Summed per-hop slippage along `route` starting from `amount`, in
    /// millionths of a percent. Each consecutive pair of identifiers is joined
    /// as `first_second` and looked up among the pools' joined identities
    /// `dex_tokenA_tokenB`, a looser scheme than the registry's own key; a pair
    /// with no pool adds nothing. `None` when a hop that was found has no usable price. Routes
    /// are bounded to `u32::MAX` identifiers so that the sum fits in an `i128`.
    pub fn calculate_multihop_slippage(&self, route: &Vec<String>, amount: u64) -> (r: Option<i128>)
        requires
            self.wf(),
            route@.len() <= u32::MAX,
        ensures
            match r {
                Some(v) => route_slippage(self.joined(), strings_view(route@), amount as int) == Some(v as int),
                None => route_slippage(self.joined(), strings_view(route@), amount as int) is None,
            },
    {
        let ghost m = self.joined();
        let ghost whole = strings_view(route@);
        let mut current: u64 = amount;
        let mut total: i128 = 0;
        let mut i: usize = 0;
        let n = route.len();
        assert(whole.subrange(0, n as int) =~= whole);
        let last: usize = if n == 0 { 0 } else { n - 1 };
        while i < last
            invariant
                self.wf(),
                m == self.joined(),
                n == route@.len(),
                n <= u32::MAX,
                whole == strings_view(route@),
                last == if n == 0 { 0 } else { n - 1 },
                i <= n,
                -(i as int) * 1844674407370955161600000000 <= total <= (i as int) * 1844674407370955161600000000,
                route_slippage(m, whole, amount as int) == match route_slippage(m, whole.subrange(i as int, n as int), current as int) {
                    Some(x) => Some(total + x),
                    None => None,
                },
            decreases n - i,
        {
            let ghost rest = whole.subrange(i as int, n as int);
            assert(rest.drop_first() =~= whole.subrange(i + 1, n as int));
            assert(rest[0] == route@[i as int]@ && rest[1] == route@[i + 1]@);
            let key = make_pair_key(&route[i], &route[i + 1]);
            match joined_get(&self.by_joined, &key) {
                None => {
                    assert(route_slippage(m, rest, current as int) == route_slippage(m, rest.drop_first(), current as int));
                },
                Some(pool) => {
                    assert(m.contains_key(key@));
                    if current == 0 {
                        return None;
                    }
                    let actual = match compute_output(current, pool.reserve_a, pool.reserve_b, pool.fee) {
                        Some(v) => v,
                        None => return None,
                    };
                    let hop = hop_slippage_exec(current, actual);
                    proof {
                        assert(i + 1 <= 0x1_0000_0000);
                        assert(pool == m[key@]);
                        assert(pool_swap(pool, current as int) == Some(actual as int));
                        assert(route_slippage(m, rest, current as int) == match route_slippage(m, rest.drop_first(), actual as int) {
                            Some(x) => Some(hop_slippage(current as int, actual as int) + x),
                            None => None,
                        });
                    }
                    total = total + hop;
                    current = actual;
                },
            }
            i = i + 1;
        }
        Some(total)
    }

    /// Every 2-hop opportunity of one snapshot of the registry, each stamped `now`.
    pub fn scan_2hop_routes(&self, test_amounts: &Vec<u64>, now: u64) -> (r: Vec<ArbitrageOpportunity>)
        requires
            self.wf(),
        ensures
            exists|snap: Seq<PoolState>| is_listing(snap, self.pools())
                && opportunities_view(r@) == two_hop_routes(snap, snap, test_amounts@, now),
    {
        let snap = self.snapshot();
        scan_2hop_in(&snap, test_amounts, now)
    }

    /// Every 3-hop opportunity of one snapshot of the registry, each stamped `now`.
    pub fn scan_3hop_routes(&self, test_amounts: &Vec<u64>, now: u64) -> (r: Vec<ArbitrageOpportunity>)
        requires
            self.wf(),
        ensures
            exists|snap: Seq<PoolState>| is_listing(snap, self.pools())
                && opportunities_view(r@) == three_hop_routes(snap, snap, test_amounts@, now),
    {
        let snap = self.snapshot();
        scan_3hop_in(&snap, test_amounts, now)
    }

    /// The 2-hop and 3-hop opportunities of one snapshot, found in parallel,
    /// ordered by profit, largest first.
    pub fn parallel_scan(&self, test_amounts: &Vec<u64>, now: u64) -> (r: Vec<ArbitrageOpportunity>)
        requires
            self.wf(),
        ensures
            sorted_by_profit(r@),
            exists|snap: Seq<PoolState>, all: Seq<ArbitrageOpportunity>|
                is_listing(snap, self.pools())
                && opportunities_view(all) == two_hop_routes(snap, snap, test_amounts@, now)
                    + three_hop_routes(snap, snap, test_amounts@, now)
                && r@.to_multiset() == all.to_multiset(),
    {
        let snap = self.snapshot();
        let r = scan_snapshot(&snap, test_amounts, now);
        assert(is_listing(snap@, self.pools()));
        r
    }

    /// The registry's pool count and the number of cores, as text.
    pub fn get_stats(&self) -> (r: String)
        ensures
            r@ == stats_text(self.pools().len(), self.cores()),
    {
        let pools = map_len(&self.pools);
        let mut text = String::from_str("Pools: ");
        text.append(usize_text(pools).as_str());
        text.append(", CPU Cores: ");
        text.append(usize_text(self.cpu_cores).as_str());
        text
    }
}

impl Default for RustEngine {
    fn default() -> (r: Self)
        ensures
            r.wf(),
            r.pools() == Map::<(Seq<char>, Seq<char>, Seq<char>), PoolState>::empty(),
    {
        Self::new()
    }
}

} // verus!
