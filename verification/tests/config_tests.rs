use metis::{
    algo_label, curve_token_indices, touched_paths, CurvePoolError, Edge, OptimizationAlgorithm,
    PathBudget, PoolFactory, RouteLeg, RoutingConstraints, SplitConfig,
};
use std::collections::HashMap;

fn strings(v: &[&str]) -> Vec<String> {
    v.iter().map(|s| s.to_string()).collect()
}

#[test]
fn split_config_defaults() {
    let c = SplitConfig::default();
    assert_eq!(c.min_precision_bps, 5);
    assert_eq!(c.max_splits, 128);
    assert!(c.adaptive);
}

#[test]
fn max_iterations_is_at_least_eight() {
    let mut c = SplitConfig::default();
    assert_eq!(c.max_iterations(), 128);
    c.max_splits = 3;
    assert_eq!(c.max_iterations(), 8);
    c.max_splits = 8;
    assert_eq!(c.max_iterations(), 8);
}

#[test]
fn routing_constraints_defaults() {
    let c = RoutingConstraints::default();
    assert_eq!(c.max_hops, 5);
    assert_eq!(c.max_paths, 4);
    assert_eq!(c.candidate_pool_size, 12);
    assert!(c.intermediate_token_whitelist.is_none());
    assert_eq!(c.optimization_algorithm, OptimizationAlgorithm::Waterfill);
    assert!(c.split_config.is_none());
    let n = RoutingConstraints::new();
    assert_eq!(n.max_hops, 5);
}

#[test]
fn whitelist_allows_endpoints_and_listed_tokens() {
    let mut c = RoutingConstraints::default();
    assert!(c.is_allowed_node("X", "A", "B"));
    c.intermediate_token_whitelist = Some(strings(&["Y"]));
    assert!(c.is_allowed_node("A", "A", "B"));
    assert!(c.is_allowed_node("B", "A", "B"));
    assert!(c.is_allowed_node("Y", "A", "B"));
    assert!(!c.is_allowed_node("X", "A", "B"));
}

#[test]
fn algorithm_labels() {
    assert_eq!(algo_label(OptimizationAlgorithm::Waterfill), "waterfill");
    assert_eq!(algo_label(OptimizationAlgorithm::GoldenSection), "golden_section");
    assert_eq!(algo_label(OptimizationAlgorithm::Brent), "brent");
    assert_eq!(algo_label(OptimizationAlgorithm::Hybrid), "hybrid");
}

#[test]
fn path_budget_caps_enabled_routes() {
    let mut b = PathBudget::new(2);
    assert!(b.grant(5));
    assert!(b.grant(7));
    assert!(b.grant(5));
    assert!(!b.grant(1));
    assert_eq!(b.len(), 2);
    assert!(b.contains(7));
    assert!(!b.contains(1));
    let mut none = PathBudget::new(0);
    assert!(!none.grant(0));
    assert_eq!(none.len(), 0);
}

#[test]
fn touched_paths_share_a_pool() {
    let e = |p: &str| Edge::new("A".into(), "B".into(), p.into(), p.into());
    let candidates = vec![vec![e("p1")], vec![e("p2"), e("p1")], vec![e("p3")], vec![]];
    assert_eq!(touched_paths(&candidates, 0), vec![0, 1]);
    assert_eq!(touched_paths(&candidates, 1), vec![0, 1]);
    assert_eq!(touched_paths(&candidates, 2), vec![2]);
    assert!(touched_paths(&candidates, 3).is_empty());
}

#[test]
fn route_leg_copies_the_edge() {
    let e = Edge::new("A".into(), "B".into(), "pool".into(), "AB".into());
    let mut meta = HashMap::new();
    meta.insert("k".to_string(), "v".to_string());
    let leg = RouteLeg::from_edge(&e, "CPMM".to_string(), meta.clone());
    assert_eq!(leg.src, "A");
    assert_eq!(leg.dst, "B");
    assert_eq!(leg.pool_id, "pool");
    assert_eq!(leg.edge_name, "AB");
    assert_eq!(leg.pool_kind, "CPMM");
    assert_eq!(leg.metadata, meta);
}

#[test]
fn curve_token_checks() {
    let two = strings(&["USDC", "USDT"]);
    let usdc = "USDC".to_string();
    let usdt = "USDT".to_string();
    let dai = "DAI".to_string();
    assert_eq!(curve_token_indices(&two, 2, true, &usdc, &usdt), Ok((0, 1)));
    assert_eq!(curve_token_indices(&two, 2, true, &usdt, &usdc), Ok((1, 0)));
    assert_eq!(
        curve_token_indices(&strings(&["USDC"]), 1, true, &usdc, &usdt),
        Err(CurvePoolError::TooFewTokens)
    );
    assert_eq!(curve_token_indices(&two, 3, true, &usdc, &usdt), Err(CurvePoolError::LengthMismatch));
    assert_eq!(
        curve_token_indices(&two, 2, false, &usdc, &usdt),
        Err(CurvePoolError::NonPositiveAmplification)
    );
    assert_eq!(curve_token_indices(&two, 2, true, &dai, &usdt), Err(CurvePoolError::TokenInNotFound));
    assert_eq!(curve_token_indices(&two, 2, true, &usdc, &dai), Err(CurvePoolError::TokenOutNotFound));
    assert_eq!(curve_token_indices(&two, 2, true, &usdc, &usdc), Err(CurvePoolError::SameToken));
}

#[test]
fn curve_tokens_default_to_first_two() {
    let toks = strings(&["USDC", "USDT", "DAI"]);
    assert_eq!(
        PoolFactory::curve_tokens(&toks, None, None),
        Ok(("USDC".to_string(), "USDT".to_string()))
    );
    assert_eq!(
        PoolFactory::curve_tokens(&toks, Some("DAI".to_string()), None),
        Ok(("DAI".to_string(), "USDT".to_string()))
    );
    assert_eq!(
        PoolFactory::curve_tokens(&Vec::new(), None, Some("X".to_string())),
        Err("Curve pool missing token_in".to_string())
    );
    assert_eq!(
        PoolFactory::curve_tokens(&strings(&["USDC"]), None, None),
        Err("Curve pool missing token_out".to_string())
    );
}

#[test]
fn candidate_limit_is_the_larger_bound() {
    let mut c = RoutingConstraints::default();
    assert_eq!(c.candidate_limit(), 12);
    c.max_paths = 20;
    assert_eq!(c.candidate_limit(), 20);
    c.max_paths = 0;
    c.candidate_pool_size = 0;
    assert_eq!(c.candidate_limit(), 0);
}
