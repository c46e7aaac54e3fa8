use metis::{
    dedupe_paths, generate_candidate_paths, route_extensions, yen_k_paths, Edge, RoutingConstraints,
    RoutingGraph,
};

fn demo_topology() -> RoutingGraph {
    let mut rg = RoutingGraph::new();
    rg.add_pool_edge("A", "B", "cpmm_big", "AB_big");
    rg.add_pool_edge("A", "B", "cpmm_small", "AB_small");
    rg.add_pool_edge("A", "X", "clmm_ax", "AX_clmm");
    rg.add_pool_edge("X", "B", "clob_xb", "XB_clob");
    rg
}

fn names(paths: &[Vec<Edge>]) -> Vec<Vec<String>> {
    paths.iter().map(|p| p.iter().map(|e| e.name.clone()).collect()).collect()
}

fn constraints(max_hops: usize, max_paths: usize, pool: usize) -> RoutingConstraints {
    let mut c = RoutingConstraints::default();
    c.max_hops = max_hops;
    c.max_paths = max_paths;
    c.candidate_pool_size = pool;
    c
}

fn edge(src: &str, dst: &str, pool: &str, name: &str) -> Edge {
    Edge::new(src.into(), dst.into(), pool.into(), name.into())
}

#[test]
fn dfs_paths_go_from_src_to_dst() {
    let rg = demo_topology();
    let paths = yen_k_paths(&rg, "A", "B", &constraints(3, 3, 6));
    assert!(!paths.is_empty());
    for p in &paths {
        assert_eq!(p.first().unwrap().src, "A");
        assert_eq!(p.last().unwrap().dst, "B");
        for w in p.windows(2) {
            assert_eq!(w[0].dst, w[1].src);
        }
    }
}

#[test]
fn dfs_keeps_one_path_per_token_sequence() {
    let rg = demo_topology();
    let paths = yen_k_paths(&rg, "A", "B", &constraints(3, 3, 6));
    // both direct pools give the token sequence A, B: only the first one found stays
    assert_eq!(names(&paths), vec![vec!["AX_clmm", "XB_clob"], vec!["AB_small"]]);
}

#[test]
fn dfs_follows_the_outgoing_order() {
    // each new edge goes to the front of its token's outgoing list
    let mut rg = RoutingGraph::new();
    rg.add_pool_edge("A", "C", "p1", "AC");
    rg.add_pool_edge("C", "B", "p2", "CB");
    rg.add_pool_edge("A", "B", "p3", "AB");
    let paths = yen_k_paths(&rg, "A", "B", &constraints(3, 3, 6));
    assert_eq!(names(&paths), vec![vec!["AB"], vec!["AC", "CB"]]);

    let mut rg = RoutingGraph::new();
    rg.add_pool_edge("A", "B", "p3", "AB");
    rg.add_pool_edge("C", "B", "p2", "CB");
    rg.add_pool_edge("A", "C", "p1", "AC");
    let paths = yen_k_paths(&rg, "A", "B", &constraints(3, 3, 6));
    assert_eq!(names(&paths), vec![vec!["AC", "CB"], vec!["AB"]]);
}

#[test]
fn dfs_stops_descending_once_the_pool_is_full() {
    // outgoing(A) = [AC, AB], outgoing(C) = [CB, CD]
    let mut rg = RoutingGraph::new();
    rg.add_pool_edge("A", "B", "p1", "AB");
    rg.add_pool_edge("C", "D", "p2", "CD");
    rg.add_pool_edge("D", "B", "p3", "DB");
    rg.add_pool_edge("C", "B", "p4", "CB");
    rg.add_pool_edge("A", "C", "p5", "AC");
    // with one slot, the frame at D is entered after a route was found: cut
    let paths = yen_k_paths(&rg, "A", "B", &constraints(3, 1, 1));
    assert_eq!(names(&paths), vec![vec!["AC", "CB"], vec!["AB"]]);
    // with two slots, it is entered before: the route through D is found too
    let paths = yen_k_paths(&rg, "A", "B", &constraints(3, 2, 2));
    assert_eq!(names(&paths), vec![vec!["AC", "CB"], vec!["AC", "CD", "DB"], vec!["AB"]]);
}

#[test]
fn dfs_respects_max_hops() {
    let rg = demo_topology();
    let paths = yen_k_paths(&rg, "A", "B", &constraints(1, 3, 6));
    assert_eq!(names(&paths), vec![vec!["AB_small"]]);
}

#[test]
fn dfs_respects_the_whitelist() {
    let rg = demo_topology();
    let mut c = constraints(3, 3, 8);
    c.intermediate_token_whitelist = Some(Vec::new());
    let paths = yen_k_paths(&rg, "A", "B", &c);
    assert_eq!(names(&paths), vec![vec!["AB_small"]]);
    for p in &paths {
        for e in p {
            assert_ne!(e.dst, "X");
        }
    }
    c.intermediate_token_whitelist = Some(vec!["X".to_string()]);
    let paths = yen_k_paths(&rg, "A", "B", &c);
    assert_eq!(paths.len(), 2);
}

#[test]
fn dfs_with_no_route_finds_nothing() {
    let rg = demo_topology();
    assert!(yen_k_paths(&rg, "B", "A", &constraints(3, 3, 6)).is_empty());
    assert!(yen_k_paths(&rg, "A", "Z", &constraints(3, 3, 6)).is_empty());
}

#[test]
fn dfs_result_may_pass_the_pool_size() {
    let rg = demo_topology();
    // the route through X fills the pool; the open frame at A still records A, B
    let paths = yen_k_paths(&rg, "A", "B", &constraints(3, 1, 1));
    assert_eq!(names(&paths), vec![vec!["AX_clmm", "XB_clob"], vec!["AB_small"]]);
    assert!(paths.len() <= 1 + 3);
    let none = yen_k_paths(&rg, "A", "B", &constraints(3, 0, 0));
    assert!(none.is_empty());
}

#[test]
fn dfs_from_a_token_to_itself_is_the_empty_route() {
    let rg = demo_topology();
    let paths = yen_k_paths(&rg, "A", "A", &constraints(3, 3, 6));
    assert_eq!(paths.len(), 1);
    assert!(paths[0].is_empty());
}

#[test]
fn dedupe_keeps_first_occurrence_of_each_key() {
    let ab = edge("A", "B", "p1", "AB");
    let ab_other_pool = edge("A", "B", "p2", "AB");
    let ax = edge("A", "X", "p3", "AX");
    let xb = edge("X", "B", "p4", "XB");
    let paths = vec![
        vec![ab.clone()],
        vec![ax.clone(), xb.clone()],
        vec![ab_other_pool.clone()],
        vec![ax.clone(), xb.clone()],
    ];
    let out = dedupe_paths(paths);
    assert_eq!(out, vec![vec![ab.clone()], vec![ax.clone(), xb.clone()]]);
    // idempotent
    assert_eq!(dedupe_paths(out.clone()), out);
    assert!(dedupe_paths(Vec::new()).is_empty());
}

#[test]
fn candidates_merge_direct_edges_and_search() {
    let rg = demo_topology();
    let c = constraints(3, 3, 8);
    let out = generate_candidate_paths(&rg, "A", "B", &c, Vec::new(), Vec::new());
    assert_eq!(
        names(&out),
        vec![vec!["AB_big"], vec!["AB_small"], vec!["AX_clmm", "XB_clob"]]
    );
}

#[test]
fn candidates_put_direct_edges_first() {
    let rg = demo_topology();
    let c = constraints(3, 3, 8);
    let streamed = vec![vec![edge("A", "X", "clmm_ax", "AX_clmm"), edge("X", "B", "clob_xb", "XB_clob")]];
    let baseline = vec![edge("A", "B", "cpmm_small", "AB_small")];
    let out = generate_candidate_paths(&rg, "A", "B", &c, streamed, baseline);
    assert_eq!(
        names(&out),
        vec![vec!["AB_big"], vec!["AB_small"], vec!["AX_clmm", "XB_clob"]]
    );
}

#[test]
fn candidates_keep_every_direct_edge_that_fits() {
    let rg = demo_topology();
    let c = constraints(3, 2, 2);
    let streamed = vec![
        vec![edge("A", "B", "cpmm_small", "AB_small")],
        vec![edge("A", "X", "clmm_ax", "AX_clmm"), edge("X", "B", "clob_xb", "XB_clob")],
    ];
    let out = generate_candidate_paths(&rg, "A", "B", &c, streamed, Vec::new());
    assert_eq!(names(&out), vec![vec!["AB_big"], vec!["AB_small"]]);
}

#[test]
fn candidates_drop_streamed_paths_that_are_not_routes() {
    let rg = demo_topology();
    let c = constraints(1, 3, 8);
    // two hops is over the limit of one
    let too_long = vec![edge("A", "X", "clmm_ax", "AX_clmm"), edge("X", "B", "clob_xb", "XB_clob")];
    // not an edge of the graph
    let unknown = vec![edge("A", "B", "nowhere", "AB_fake")];
    // does not reach the target
    let short = vec![edge("A", "X", "clmm_ax", "AX_clmm")];
    let out = generate_candidate_paths(&rg, "A", "B", &c, vec![too_long.clone(), unknown, short], too_long);
    assert_eq!(names(&out), vec![vec!["AB_big"], vec!["AB_small"]]);
}

#[test]
fn candidates_are_capped() {
    let rg = demo_topology();
    let c = constraints(3, 1, 1);
    let out = generate_candidate_paths(&rg, "A", "B", &c, Vec::new(), Vec::new());
    assert_eq!(names(&out), vec![vec!["AB_big"]]);
    let none = generate_candidate_paths(&rg, "A", "B", &constraints(3, 0, 0), Vec::new(), Vec::new());
    assert!(none.is_empty());
}

#[test]
fn candidates_with_tight_whitelist_keep_direct_edges() {
    let rg = demo_topology();
    let mut c = constraints(3, 3, 8);
    c.intermediate_token_whitelist = Some(Vec::new());
    let out = generate_candidate_paths(&rg, "A", "B", &c, Vec::new(), Vec::new());
    assert_eq!(names(&out), vec![vec!["AB_big"], vec!["AB_small"]]);
}

#[test]
fn extensions_filter_by_hops_whitelist_and_visits() {
    let rg = demo_topology();
    let mut c = constraints(3, 3, 8);
    let start = vec!["A".to_string()];
    let ext = |c: &RoutingConstraints, visited: &Vec<String>, hops: usize| -> Vec<String> {
        route_extensions(&rg, "A", visited, hops, c, "A", "B")
            .iter()
            .map(|e| e.name.clone())
            .collect()
    };
    assert_eq!(ext(&c, &start, 0), vec!["AX_clmm", "AB_small", "AB_big"]);
    assert!(ext(&c, &start, 3).is_empty());
    let seen_x = vec!["A".to_string(), "X".to_string()];
    assert_eq!(ext(&c, &seen_x, 1), vec!["AB_small", "AB_big"]);
    c.intermediate_token_whitelist = Some(Vec::new());
    assert_eq!(ext(&c, &start, 0), vec!["AB_small", "AB_big"]);
}
