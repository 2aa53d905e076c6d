use arb_scanner::engine::RustEngine;
use arb_scanner::model::{ArbitrageOpportunity, PoolState};
use arb_scanner::rank::rank_by_profit;
use arb_scanner::registry::PairIndex;
use arb_scanner::routes::{build_pair_index, scan_2hop_in, scan_3hop_in};
use arb_scanner::swap::compute_output;

fn pool(dex: &str, token_a: &str, token_b: &str, reserve_a: u64, reserve_b: u64, fee: u32) -> PoolState {
    PoolState {
        dex: dex.to_string(),
        token_a: token_a.to_string(),
        token_b: token_b.to_string(),
        reserve_a,
        reserve_b,
        fee,
    }
}

fn pool_a() -> PoolState {
    pool("X", "USDC", "USDT", 1_000_000, 1_000_000, 3000)
}

fn pool_b() -> PoolState {
    pool("Y", "USDT", "USDC", 1_000_000, 1_050_000, 3000)
}

fn strings(items: &[&str]) -> Vec<String> {
    items.iter().map(|s| s.to_string()).collect()
}

fn opportunity(route_id: &str, profit: i128) -> ArbitrageOpportunity {
    ArbitrageOpportunity {
        route_id: route_id.to_string(),
        tokens: strings(&["A", "B", "A"]),
        dexes: strings(&["d", "e"]),
        input_amount: 100,
        expected_output: (100 + profit) as u64,
        gas_estimate: 350000,
        profit,
        confidence_bps: 8500,
        timestamp: 0,
    }
}

#[test]
fn test_calculate_output() {
    let engine = RustEngine::new();
    let output = engine.calculate_output(1000, 100000, 50000, 3000).unwrap();
    assert!(output > 0);
    assert!(output < 500); // Should be less than half due to slippage
}

#[test]
fn test_pool_update() {
    let mut engine = RustEngine::new();
    let pool = PoolState {
        dex: "quickswap".to_string(),
        token_a: "USDC".to_string(),
        token_b: "USDT".to_string(),
        reserve_a: 1000000,
        reserve_b: 1000000,
        fee: 3000,
    };
    engine.update_pool(pool);
    assert_eq!(engine.size(), 1);
}

#[test]
fn swap_output_exact_values() {
    assert_eq!(compute_output(1000, 100000, 50000, 3000), Some(493));
    assert_eq!(compute_output(1000, 1_000_000, 1_000_000, 3000), Some(996));
    assert_eq!(compute_output(996, 1_000_000, 1_050_000, 3000), Some(1041));
}

#[test]
fn swap_of_zero_is_zero() {
    assert_eq!(compute_output(0, 1_000_000, 1_000_000, 3000), Some(0));
    assert_eq!(compute_output(0, 5, 7, 0), Some(0));
}

#[test]
fn swap_without_price_is_none() {
    assert_eq!(compute_output(0, 0, 1_000_000, 3000), None);
    assert_eq!(compute_output(1, 0, 1_000_000, 999_999), None);
}

#[test]
fn swap_output_grows_and_stays_below_reserve() {
    let mut last = 0;
    for input in [1u64, 10, 100, 1000, 10_000, 1_000_000, 1_000_000_000, u64::MAX] {
        let out = compute_output(input, 1_000_000, 2_000_000, 3000).unwrap();
        assert!(out >= last);
        assert!(out < 2_000_000);
        last = out;
    }
    assert!(compute_output(2000, 1_000_000, 2_000_000, 3000).unwrap()
        > compute_output(1000, 1_000_000, 2_000_000, 3000).unwrap());
}

#[test]
fn upsert_same_key_replaces_value() {
    let mut engine = RustEngine::new();
    engine.update_pool(pool_a());
    let mut newer = pool_a();
    newer.reserve_a = 42;
    engine.update_pool(newer.clone());
    assert_eq!(engine.size(), 1);
    let stored = engine
        .get(&"X".to_string(), &"USDC".to_string(), &"USDT".to_string())
        .unwrap();
    assert_eq!(stored, newer);
}

#[test]
fn reverse_pool_is_a_distinct_entry() {
    let mut engine = RustEngine::default();
    engine.update_pool(pool_a());
    engine.update_pool(pool("X", "USDT", "USDC", 1, 2, 0));
    assert_eq!(engine.size(), 2);
    assert_eq!(engine.get(&"X".to_string(), &"USDT".to_string(), &"USDC".to_string()).unwrap().reserve_b, 2);
    assert!(engine.get(&"Z".to_string(), &"USDT".to_string(), &"USDC".to_string()).is_none());
}

#[test]
fn two_hop_scenario_with_reverse_pool() {
    let mut engine = RustEngine::new();
    engine.update_pool(pool_a());
    engine.update_pool(pool_b());
    let found = engine.scan_2hop_routes(&vec![1000], 77);
    let from_a: Vec<&ArbitrageOpportunity> = found.iter().filter(|o| o.dexes[0] == "X").collect();
    assert_eq!(from_a.len(), 1);
    let o = from_a[0];
    assert_eq!(o.tokens, strings(&["USDC", "USDT", "USDC"]));
    assert_eq!(o.dexes, strings(&["X", "Y"]));
    assert_eq!(o.route_id, "X_2hop");
    assert_eq!(o.input_amount, 1000);
    assert_eq!(o.expected_output, 1041);
    assert_eq!(o.profit, 41);
    assert_eq!(o.gas_estimate, 350000);
    assert_eq!(o.confidence_bps, 8500);
    assert_eq!(o.timestamp, 77);
}

#[test]
fn two_hop_scenario_without_reverse_pool() {
    let mut engine = RustEngine::new();
    engine.update_pool(pool_a());
    assert!(engine.scan_2hop_routes(&vec![1000], 0).is_empty());
}

#[test]
fn two_hop_below_threshold_is_dropped() {
    let snap = vec![pool_a(), pool("Y", "USDT", "USDC", 1_000_000, 1_000_000, 3000)];
    assert!(scan_2hop_in(&snap, &vec![1000, 5000], 0).is_empty());
}

#[test]
fn three_hop_triangle() {
    let snap = vec![
        pool("X", "USDC", "USDT", 1_000_000, 1_000_000, 3000),
        pool("Y", "USDT", "DAI", 1_000_000, 1_000_000, 3000),
        pool("Z", "DAI", "USDC", 1_000_000, 1_100_000, 3000),
    ];
    let found = scan_3hop_in(&snap, &vec![1000], 5);
    assert_eq!(found.len(), 3);
    assert_eq!(found[0].route_id, "X_Y_3hop");
    assert_eq!(found[0].tokens, strings(&["USDC", "USDT", "DAI", "USDC"]));
    assert_eq!(found[0].dexes, strings(&["X", "Y", "Z"]));
    assert_eq!(found[0].expected_output, 1086);
    assert_eq!(found[0].profit, 86);
    for o in &found {
        assert_eq!(o.gas_estimate, 450000);
        assert_eq!(o.confidence_bps, 7500);
    }
    assert!(scan_2hop_in(&snap, &vec![1000], 5).is_empty());
}

#[test]
fn three_hop_needs_closing_pool() {
    let snap = vec![
        pool("X", "USDC", "USDT", 1_000_000, 1_000_000, 3000),
        pool("Y", "USDT", "DAI", 1_000_000, 1_000_000, 3000),
    ];
    assert!(scan_3hop_in(&snap, &vec![1000], 5).is_empty());
}

#[test]
fn empty_registry_scans_nothing() {
    let engine = RustEngine::new();
    let amounts = vec![0, 1, 1000, u64::MAX];
    assert!(engine.scan_2hop_routes(&amounts, 1).is_empty());
    assert!(engine.scan_3hop_routes(&amounts, 1).is_empty());
    assert!(engine.parallel_scan(&amounts, 1).is_empty());
}

#[test]
fn parallel_scan_sorts_by_profit() {
    let mut engine = RustEngine::new();
    engine.update_pool(pool_a());
    engine.update_pool(pool_b());
    let found = engine.parallel_scan(&vec![1000], 3);
    assert_eq!(found.len(), 2);
    assert_eq!(found[0].route_id, "X_2hop");
    assert_eq!(found[0].profit, 41);
    assert_eq!(found[1].route_id, "Y_2hop");
    assert_eq!(found[1].profit, 39);
}

#[test]
fn parallel_scan_triangle_order() {
    let mut engine = RustEngine::new();
    engine.update_pool(pool("X", "USDC", "USDT", 1_000_000, 1_000_000, 3000));
    engine.update_pool(pool("Y", "USDT", "DAI", 1_000_000, 1_000_000, 3000));
    engine.update_pool(pool("Z", "DAI", "USDC", 1_000_000, 1_100_000, 3000));
    let found = engine.parallel_scan(&vec![1000], 3);
    let ids: Vec<&str> = found.iter().map(|o| o.route_id.as_str()).collect();
    assert_eq!(ids, vec!["X_Y_3hop", "Y_Z_3hop", "Z_X_3hop"]);
    let profits: Vec<i128> = found.iter().map(|o| o.profit).collect();
    assert_eq!(profits, vec![86, 85, 83]);
}

#[test]
fn rank_keeps_items_and_orders_them() {
    let items = vec![
        opportunity("a", 5),
        opportunity("b", -3),
        opportunity("c", 9),
        opportunity("d", 5),
        opportunity("e", 0),
    ];
    let ranked = rank_by_profit(items);
    let ids: Vec<&str> = ranked.iter().map(|o| o.route_id.as_str()).collect();
    assert_eq!(ids, vec!["c", "a", "d", "e", "b"]);
    assert!(rank_by_profit(Vec::new()).is_empty());
}

fn lookup(index: &PairIndex, token_in: &str, token_out: &str) -> Option<usize> {
    index.get(&(token_in.to_string(), token_out.to_string())).map(|e| *e.value())
}

#[test]
fn pair_index_picks_least_exchange() {
    let snap = vec![pool_a(), pool_b(), pool("Z", "USDT", "USDC", 1, 1, 0)];
    let index = build_pair_index(&snap);
    assert_eq!(lookup(&index, "USDT", "USDC"), Some(1));
    assert_eq!(lookup(&index, "USDC", "USDT"), Some(0));
    let snap = vec![pool_a(), pool("Z", "USDT", "USDC", 1, 1, 0), pool("W", "USDT", "USDC", 1, 1, 0), pool_b()];
    let index = build_pair_index(&snap);
    assert_eq!(lookup(&index, "USDT", "USDC"), Some(2));
    assert_eq!(lookup(&index, "USDC", "DAI"), None);
    assert_eq!(index.len(), 2);
}

#[test]
fn reverse_pool_choice_ignores_snapshot_order() {
    let cheap = pool("A", "USDT", "USDC", 1_000_000, 1_000_000, 3000);
    let first = scan_2hop_in(&vec![pool_a(), pool_b(), cheap.clone()], &vec![1000], 0);
    let second = scan_2hop_in(&vec![cheap, pool_b(), pool_a()], &vec![1000], 0);
    let from_x = |v: &Vec<ArbitrageOpportunity>| v.iter().filter(|o| o.dexes[0] == "X").count();
    // the reverse pool on exchange "A" comes first by name and gains too little
    assert_eq!(from_x(&first), 0);
    assert_eq!(from_x(&second), 0);
}

#[test]
fn keys_with_underscores_stay_apart() {
    let mut engine = RustEngine::new();
    engine.update_pool(pool("a_b", "c", "d", 1, 1, 0));
    engine.update_pool(pool("a", "b_c", "d", 2, 2, 0));
    assert_eq!(engine.size(), 2);
    assert_eq!(engine.get(&"a_b".to_string(), &"c".to_string(), &"d".to_string()).unwrap().reserve_a, 1);
    assert_eq!(engine.get(&"a".to_string(), &"b_c".to_string(), &"d".to_string()).unwrap().reserve_a, 2);
}

#[test]
fn stats_for_empty_registry() {
    let engine = RustEngine::new();
    assert!(engine.get_stats().starts_with("Pools: 0, CPU Cores: "));
}

#[test]
fn slippage_uses_two_part_keys() {
    let mut engine = RustEngine::new();
    engine.update_pool(pool_a());
    // pools sit under three-part keys, so a plain token pair finds nothing
    assert_eq!(engine.calculate_multihop_slippage(&strings(&["USDC", "USDT"]), 1000), Some(0));
    // "X" then "USDC_USDT" joins to the key of pool A
    assert_eq!(engine.calculate_multihop_slippage(&strings(&["X", "USDC_USDT"]), 1000), Some(400000));
    assert_eq!(engine.calculate_multihop_slippage(&strings(&["X", "USDC_USDT"]), 0), None);
    assert_eq!(engine.calculate_multihop_slippage(&Vec::new(), 1000), Some(0));
}

#[test]
fn stats_report_pool_count() {
    let mut engine = RustEngine::new();
    engine.update_pool(pool_a());
    engine.update_pool(pool_b());
    let text = engine.get_stats();
    assert!(text.starts_with("Pools: 2, CPU Cores: "));
    let cores: usize = text["Pools: 2, CPU Cores: ".len()..].parse().unwrap();
    assert!(cores >= 1);
}
