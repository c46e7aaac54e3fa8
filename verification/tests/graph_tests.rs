use metis::{Edge, RoutingGraph};

fn demo_topology() -> RoutingGraph {
    let mut rg = RoutingGraph::new();
    rg.add_pool_edge("A", "B", "cpmm_big", "AB_big");
    rg.add_pool_edge("A", "B", "cpmm_small", "AB_small");
    rg.add_pool_edge("A", "X", "clmm_ax", "AX_clmm");
    rg.add_pool_edge("X", "B", "clob_xb", "XB_clob");
    rg
}

fn names(edges: &[Edge]) -> Vec<String> {
    edges.iter().map(|e| e.name.clone()).collect()
}

#[test]
fn nodes_are_listed_in_first_seen_order() {
    let rg = demo_topology();
    assert_eq!(rg.nodes(), vec!["A".to_string(), "B".to_string(), "X".to_string()]);
}

#[test]
fn get_node_index_finds_tokens() {
    let rg = demo_topology();
    assert_eq!(rg.get_node_index("A"), Some(0));
    assert_eq!(rg.get_node_index("B"), Some(1));
    assert_eq!(rg.get_node_index("X"), Some(2));
    assert_eq!(rg.get_node_index("Y"), None);
}

#[test]
fn outgoing_lists_newest_edge_first() {
    let rg = demo_topology();
    assert_eq!(names(&rg.outgoing("A")), vec!["AX_clmm", "AB_small", "AB_big"]);
    assert_eq!(names(&rg.outgoing("X")), vec!["XB_clob"]);
    assert!(rg.outgoing("B").is_empty());
    assert!(rg.outgoing("unknown").is_empty());
}

#[test]
fn outgoing_edges_carry_their_pool() {
    let rg = demo_topology();
    let out = rg.outgoing("X");
    assert_eq!(out[0], Edge::new("X".into(), "B".into(), "clob_xb".into(), "XB_clob".into()));
}

#[test]
fn added_edge_is_first_outgoing_edge() {
    let mut rg = demo_topology();
    rg.add_pool_edge("B", "A", "cpmm_back", "BA");
    let out = rg.outgoing("B");
    assert_eq!(out.len(), 1);
    assert_eq!(out[0].pool_id, "cpmm_back");
    // other tokens keep their edges
    assert_eq!(names(&rg.outgoing("A")), vec!["AX_clmm", "AB_small", "AB_big"]);
}

#[test]
fn re_adding_a_key_replaces_the_record() {
    let mut rg = demo_topology();
    rg.add_pool_edge("A", "B", "cpmm_new", "AB_big");
    // one record per key
    assert_eq!(rg.edges().len(), 4);
    assert_eq!(rg.edges()[0].pool_id, "cpmm_new");
    // the graph holds two links under that key; both resolve to the new record
    let out = rg.outgoing("A");
    assert_eq!(names(&out), vec!["AB_big", "AX_clmm", "AB_small", "AB_big"]);
    assert_eq!(out[0].pool_id, "cpmm_new");
    assert_eq!(out[3].pool_id, "cpmm_new");
}

#[test]
fn default_graph_is_empty() {
    let rg = RoutingGraph::default();
    assert!(rg.nodes().is_empty());
    assert!(rg.edges().is_empty());
}

#[test]
fn edge_new_keeps_fields() {
    let e = Edge::new("S".into(), "D".into(), "P".into(), "N".into());
    assert_eq!(e.src, "S");
    assert_eq!(e.dst, "D");
    assert_eq!(e.pool_id, "P");
    assert_eq!(e.name, "N");
    assert_eq!(e.clone(), e);
}

#[test]
fn counts_follow_additions() {
    let mut rg = RoutingGraph::new();
    assert_eq!(rg.node_count(), 0);
    assert_eq!(rg.link_count(), 0);
    rg.add_pool_edge("A", "B", "p1", "AB");
    assert_eq!(rg.node_count(), 2);
    assert_eq!(rg.link_count(), 1);
    rg.add_pool_edge("A", "B", "p1", "AB");
    rg.add_pool_edge("B", "B", "p2", "BB");
    assert_eq!(rg.node_count(), 2);
    assert_eq!(rg.link_count(), 3);
    assert_eq!(rg.edges().len(), 2);
}

#[test]
fn outgoing_edges_leave_their_token() {
    let rg = demo_topology();
    for t in rg.nodes() {
        for e in rg.outgoing(&t) {
            assert_eq!(e.src, t);
            assert!(rg.nodes().contains(&e.dst));
            assert!(rg.edges().contains(&e));
        }
    }
}

#[test]
fn self_loop_is_outgoing() {
    let mut rg = RoutingGraph::new();
    rg.add_pool_edge("A", "A", "p", "AA");
    assert_eq!(rg.nodes(), vec!["A".to_string()]);
    assert_eq!(names(&rg.outgoing("A")), vec!["AA"]);
}
