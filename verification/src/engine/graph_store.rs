//! The token graph is held in a `petgraph` directed graph. This module declares
//! that type to Verus and gives each graph operation the library uses a
//! trusted contract, stated over two names for the graph's contents.
use petgraph::graph::{DiGraph, EdgeIndex, NodeIndex};
use petgraph::Direction;
use vstd::prelude::*;

verus! {

/// petgraph's `Graph`, opaque to Verus; its contents are the two names below.
#[verifier::external_type_specification]
#[verifier::external_body]
#[verifier::reject_recursive_types(N)]
#[verifier::reject_recursive_types(E)]
#[verifier::reject_recursive_types(Ty)]
#[verifier::reject_recursive_types(Ix)]
pub struct ExGraph<N, E, Ty, Ix>(petgraph::graph::Graph<N, E, Ty, Ix>);

/// petgraph's `Directed` edge-type marker, which the graph type names.
#[verifier::external_type_specification]
#[verifier::external_body]
pub struct ExDirected(petgraph::Directed);

/// The view of an edge weight: the (source token, target token, edge name) key.
pub type KeyView = (Seq<char>, Seq<char>, Seq<char>);

/// The nodes of the graph, by index: each node's weight (its token) and its
/// outgoing adjacency list, in the order in which `first_edge` and `next_edge`
/// walk it (`Node::next[0]` followed through `Edge::next[0]`).
pub uninterp spec fn graph_nodes(g: DiGraph<String, (String, String, String)>) -> Seq<(Seq<char>, Seq<nat>)>;

/// The edges of the graph, by index: source node index, target node index and weight.
pub uninterp spec fn graph_edges(g: DiGraph<String, (String, String, String)>) -> Seq<(nat, nat, KeyView)>;

pub open spec fn key_view(k: (String, String, String)) -> KeyView {
    (k.0@, k.1@, k.2@)
}

/// `Graph::new`: an empty directed graph.
#[verifier::external_body]
pub(crate) fn graph_new() -> (g: DiGraph<String, (String, String, String)>)
    ensures
        graph_nodes(g) == Seq::<(Seq<char>, Seq<nat>)>::empty(),
        graph_edges(g) == Seq::<(nat, nat, KeyView)>::empty(),
{
    DiGraph::new()
}

/// `Graph::add_node`: appends a node with an empty adjacency list and returns
/// its index, the former node count. It panics when the new index would be
/// `u32::MAX`, which `requires` leaves out.
#[verifier::external_body]
pub(crate) fn graph_add_node(g: &mut DiGraph<String, (String, String, String)>, weight: String) -> (idx: usize)
    requires
        graph_nodes(*old(g)).len() < u32::MAX,
    ensures
        idx == graph_nodes(*old(g)).len(),
        graph_nodes(*final(g)) == graph_nodes(*old(g)).push((weight@, Seq::<nat>::empty())),
        graph_edges(*final(g)) == graph_edges(*old(g)),
{
    g.add_node(weight).index()
}

/// `Graph::add_edge`: appends the edge `a -> b` and puts its index in front of
/// `a`'s outgoing list; returns the index, the former edge count. It panics on
/// an out-of-range node or when the new index would be `u32::MAX`.
#[verifier::external_body]
pub(crate) fn graph_add_edge(
    g: &mut DiGraph<String, (String, String, String)>,
    a: usize,
    b: usize,
    weight: (String, String, String),
) -> (idx: usize)
    requires
        a < graph_nodes(*old(g)).len(),
        b < graph_nodes(*old(g)).len(),
        graph_edges(*old(g)).len() < u32::MAX,
    ensures
        idx == graph_edges(*old(g)).len(),
        graph_edges(*final(g)) == graph_edges(*old(g)).push((a as nat, b as nat, key_view(weight))),
        graph_nodes(*final(g)).len() == graph_nodes(*old(g)).len(),
        graph_nodes(*final(g))[a as int] == (
            graph_nodes(*old(g))[a as int].0,
            seq![idx as nat] + graph_nodes(*old(g))[a as int].1,
        ),
        forall|i: int|
            0 <= i < graph_nodes(*old(g)).len() && i != a ==> #[trigger] graph_nodes(*final(g))[i]
                == graph_nodes(*old(g))[i],
{
    g.add_edge(NodeIndex::new(a), NodeIndex::new(b), weight).index()
}

/// `Graph::node_count`.
#[verifier::external_body]
pub(crate) fn graph_node_count(g: &DiGraph<String, (String, String, String)>) -> (n: usize)
    ensures
        n == graph_nodes(*g).len(),
{
    g.node_count()
}

/// `Graph::edge_count`.
#[verifier::external_body]
pub(crate) fn graph_edge_count(g: &DiGraph<String, (String, String, String)>) -> (n: usize)
    ensures
        n == graph_edges(*g).len(),
{
    g.edge_count()
}

/// `Graph::node_weight`, cloned: the token of node `a`.
#[verifier::external_body]
pub(crate) fn graph_node_weight(g: &DiGraph<String, (String, String, String)>, a: usize) -> (w: Option<String>)
    requires
        a < graph_nodes(*g).len(),
    ensures
        w is Some && w->0@ == graph_nodes(*g)[a as int].0,
{
    g.node_weight(NodeIndex::new(a)).cloned()
}

/// `Graph::edge_weight`, cloned: the key of edge `e`.
#[verifier::external_body]
pub(crate) fn graph_edge_weight(g: &DiGraph<String, (String, String, String)>, e: usize) -> (w: Option<(String, String, String)>)
    requires
        e < graph_edges(*g).len(),
    ensures
        w is Some && key_view(w->0) == graph_edges(*g)[e as int].2,
{
    g.edge_weight(EdgeIndex::new(e)).cloned()
}

/// `Graph::first_edge` in the outgoing direction: the head of node `a`'s
/// outgoing list, `None` when the list is empty.
#[verifier::external_body]
pub(crate) fn graph_first_out_edge(g: &DiGraph<String, (String, String, String)>, a: usize) -> (e: Option<usize>)
    requires
        a < graph_nodes(*g).len(),
    ensures
        graph_nodes(*g)[a as int].1.len() == 0 ==> e is None,
        graph_nodes(*g)[a as int].1.len() > 0 ==> e == Some(graph_nodes(*g)[a as int].1[0] as usize),
{
    match g.first_edge(NodeIndex::new(a), Direction::Outgoing) {
        Some(x) => Some(x.index()),
        None => None,
    }
}

/// `Graph::next_edge` in the outgoing direction: the edge after `e` in the
/// outgoing list of `e`'s source, `None` when `e` is the last one.
#[verifier::external_body]
pub(crate) fn graph_next_out_edge(g: &DiGraph<String, (String, String, String)>, e: usize) -> (n: Option<usize>)
    requires
        e < graph_edges(*g).len(),
    ensures
        forall|k: int|
            0 <= k < graph_nodes(*g)[graph_edges(*g)[e as int].0 as int].1.len()
                && #[trigger] graph_nodes(*g)[graph_edges(*g)[e as int].0 as int].1[k] == e ==> {
                let list = graph_nodes(*g)[graph_edges(*g)[e as int].0 as int].1;
                if k + 1 < list.len() {
                    n == Some(list[k + 1] as usize)
                } else {
                    n is None
                }
            },
{
    match g.next_edge(EdgeIndex::new(e), Direction::Outgoing) {
        Some(x) => Some(x.index()),
        None => None,
    }
}

} // verus!
