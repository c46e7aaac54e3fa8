//! The token swap graph: tokens are nodes; each pool edge is a directed
//! petgraph edge whose weight is its (source, target, name) key, and the edge
//! record itself is kept once per key.
use crate::engine::graph_store::{
    graph_add_edge, graph_add_node, graph_edge_count, graph_edge_weight, graph_edges, graph_first_out_edge,
    graph_new, graph_next_out_edge, graph_node_count, graph_node_weight, graph_nodes, key_view, KeyView,
};
use crate::engine::pool::{Edge, EdgeView};
use petgraph::graph::DiGraph;
use vstd::hash_map::StringHashMap;
use vstd::prelude::*;

verus! {

/// What a [`RoutingGraph`] denotes.
#[verifier::ext_equal]
pub struct GraphView {
    /// The tokens, by node index.
    pub tokens: Seq<Seq<char>>,
    /// The edge records, one per (source, target, name) key, in first-insertion order.
    pub edges: Seq<EdgeView>,
    /// The graph's edges, by edge index: source index, target index, key.
    pub links: Seq<(nat, nat, KeyView)>,
}

/// The indices of the links leaving node `a`, newest first.
pub open spec fn out_ids(links: Seq<(nat, nat, KeyView)>, a: nat) -> Seq<nat>
    decreases links.len(),
{
    if links.len() == 0 {
        Seq::empty()
    } else {
        let last = (links.len() - 1) as nat;
        let rest = out_ids(links.drop_last(), a);
        if links[last as int].0 == a {
            seq![last] + rest
        } else {
            rest
        }
    }
}

/// The position of token `t` in `ts`, if it occurs.
pub open spec fn token_index(ts: Seq<Seq<char>>, t: Seq<char>) -> Option<nat> {
    if ts.contains(t) {
        Some(choose|i: nat| i < ts.len() && ts[i as int] == t)
    } else {
        None
    }
}

/// `ts` with `t` appended unless it is already there.
pub open spec fn with_token(ts: Seq<Seq<char>>, t: Seq<char>) -> Seq<Seq<char>> {
    if ts.contains(t) {
        ts
    } else {
        ts.push(t)
    }
}

/// The position of the record with key `k` in `es` (meaningful when there is one).
pub open spec fn key_index(es: Seq<EdgeView>, k: KeyView) -> int {
    choose|i: int| 0 <= i < es.len() && es[i].key() == k
}

pub open spec fn has_key(es: Seq<EdgeView>, k: KeyView) -> bool {
    exists|i: int| 0 <= i < es.len() && es[i].key() == k
}

/// `es` after storing `e` under its key: the record with that key is replaced
/// in place, or `e` is appended when there is none.
pub open spec fn store_edge(es: Seq<EdgeView>, e: EdgeView) -> Seq<EdgeView> {
    if has_key(es, e.key()) {
        es.update(key_index(es, e.key()), e)
    } else {
        es.push(e)
    }
}

pub open spec fn keys_unique(es: Seq<EdgeView>) -> bool {
    forall|i: int, j: int| 0 <= i < es.len() && 0 <= j < es.len() && i != j ==> es[i].key() != es[j].key()
}

pub open spec fn tokens_unique(ts: Seq<Seq<char>>) -> bool {
    forall|i: int, j: int| 0 <= i < ts.len() && 0 <= j < ts.len() && i != j ==> ts[i] != ts[j]
}

impl GraphView {
    /// Tokens are distinct, records have distinct keys and name existing
    /// tokens, and every link joins existing nodes under the key of a record.
    pub open spec fn wf(self) -> bool {
        &&& tokens_unique(self.tokens)
        &&& keys_unique(self.edges)
        &&& forall|e: int|
            0 <= e < self.links.len() ==> {
                &&& (#[trigger] self.links[e]).0 < self.tokens.len()
                &&& self.links[e].1 < self.tokens.len()
                &&& self.links[e].2.0 == self.tokens[self.links[e].0 as int]
                &&& self.links[e].2.1 == self.tokens[self.links[e].1 as int]
                &&& has_key(self.edges, self.links[e].2)
            }
        &&& forall|i: int| 0 <= i < self.edges.len() ==> {
            &&& self.tokens.contains((#[trigger] self.edges[i]).src)
            &&& self.tokens.contains(self.edges[i].dst)
        }
    }

    /// The node index of token `t`, if it is a node.
    pub open spec fn index_of(self, t: Seq<char>) -> Option<nat> {
        token_index(self.tokens, t)
    }

    /// The edge record stored under key `k`.
    pub open spec fn lookup(self, k: KeyView) -> EdgeView {
        self.edges[key_index(self.edges, k)]
    }

    /// The edges leaving token `t`, in the graph's adjacency order (newest first).
    pub open spec fn outgoing(self, t: Seq<char>) -> Seq<EdgeView> {
        match self.index_of(t) {
            None => Seq::empty(),
            Some(a) => out_ids(self.links, a).map_values(|e: nat| self.lookup(self.links[e as int].2)),
        }
    }

    /// The graph after `add_pool_edge(src, dst, pool_id, name)`.
    pub open spec fn after_add(self, e: EdgeView) -> GraphView {
        let tokens = with_token(with_token(self.tokens, e.src), e.dst);
        let post = GraphView { tokens, edges: store_edge(self.edges, e), links: self.links };
        GraphView {
            links: self.links.push(
                (post.index_of(e.src)->0, post.index_of(e.dst)->0, e.key()),
            ),
            ..post
        }
    }
}

pub open spec fn edge_views(v: Seq<Edge>) -> Seq<EdgeView> {
    v.map_values(|e: Edge| e@)
}

pub open spec fn string_views(v: Seq<String>) -> Seq<Seq<char>> {
    v.map_values(|s: String| s@)
}

/// The weights of `nodes`: the tokens, by node index.
pub open spec fn node_tokens(nodes: Seq<(Seq<char>, Seq<nat>)>) -> Seq<Seq<char>> {
    nodes.map_values(|n: (Seq<char>, Seq<nat>)| n.0)
}

/// The token swap graph.
pub struct RoutingGraph {
    g: DiGraph<String, (String, String, String)>,
    /// The edge records, one per (source, target, name) key. vstd gives hash
    /// maps a key model for integer keys and, through `StringHashMap`, for
    /// `String`, but not for tuples of strings, so the records are kept in a
    /// list whose keys are distinct.
    edges: Vec<Edge>,
    /// Each token's node index.
    node_map: StringHashMap<usize>,
}

impl View for RoutingGraph {
    type V = GraphView;

    closed spec fn view(&self) -> GraphView {
        GraphView {
            tokens: node_tokens(graph_nodes(self.g)),
            edges: edge_views(self.edges@),
            links: graph_edges(self.g),
        }
    }
}

proof fn lemma_out_ids(links: Seq<(nat, nat, KeyView)>, a: nat)
    ensures
        forall|k: int|
            0 <= k < out_ids(links, a).len() ==> #[trigger] out_ids(links, a)[k] < links.len()
                && links[out_ids(links, a)[k] as int].0 == a,
        forall|e: int| 0 <= e < links.len() && links[e].0 == a ==> out_ids(links, a).contains(e as nat),
    decreases links.len(),
{
    if links.len() > 0 {
        lemma_out_ids(links.drop_last(), a);
        let last = (links.len() - 1) as nat;
        let rest = out_ids(links.drop_last(), a);
        assert forall|e: int| 0 <= e < links.len() && links[e].0 == a implies out_ids(links, a).contains(e as nat) by {
            if e == last {
                assert(out_ids(links, a)[0] == last);
            } else {
                assert(links.drop_last()[e] == links[e]);
                let j = choose|j: int| 0 <= j < rest.len() && rest[j] == e as nat;
                if links[last as int].0 == a {
                    assert(out_ids(links, a)[j + 1] == e as nat);
                } else {
                    assert(out_ids(links, a)[j] == e as nat);
                }
            }
        }
    }
}

proof fn lemma_out_ids_push(links: Seq<(nat, nat, KeyView)>, x: (nat, nat, KeyView), c: nat)
    ensures
        out_ids(links.push(x), c) == (if x.0 == c {
            seq![links.len()] + out_ids(links, c)
        } else {
            out_ids(links, c)
        }),
{
    assert(links.push(x).drop_last() =~= links);
}

impl RoutingGraph {
    /// Well-formedness: the node map sends each token to its node index, the
    /// tokens have no repeats, each adjacency list is the newest-first list of
    /// the node's links, every link joins existing nodes under the key of a
    /// stored edge record, and records have distinct keys.
    pub closed spec fn wf(&self) -> bool {
        let nodes = graph_nodes(self.g);
        let links = graph_edges(self.g);
        let v = self@;
        &&& links.len() <= u32::MAX
        &&& nodes.len() == v.tokens.len()
        &&& forall|i: int| 0 <= i < nodes.len() ==> #[trigger] nodes[i].0 == v.tokens[i]
        &&& forall|a: int| 0 <= a < nodes.len() ==> #[trigger] nodes[a].1 == out_ids(links, a as nat)
        &&& forall|t: Seq<char>| #[trigger] self.node_map@.contains_key(t) <==> v.tokens.contains(t)
        &&& forall|t: Seq<char>|
            self.node_map@.contains_key(t) ==> #[trigger] self.node_map@[t] < v.tokens.len() && v.tokens[self.node_map@[t]
                as int] == t
        &&& v.wf()
    }

    /// A well-formed graph has a well-formed view.
    pub proof fn lemma_view_wf(&self)
        requires
            self.wf(),
        ensures
            self@.wf(),
    {
    }

    pub fn new() -> (rg: Self)
        ensures
            rg.wf(),
            rg@.wf(),
            rg@.tokens == Seq::<Seq<char>>::empty(),
            rg@.edges == Seq::<EdgeView>::empty(),
            rg@.links == Seq::<(nat, nat, KeyView)>::empty(),
    {
        let rg = RoutingGraph { g: graph_new(), edges: Vec::new(), node_map: StringHashMap::new() };
        assert(rg@.tokens =~= Seq::<Seq<char>>::empty());
        assert(rg@.edges =~= Seq::<EdgeView>::empty());
        rg
    }

    /// The node index of `token`, if it is a node.
    fn find_node(&self, token: &String) -> (r: Option<usize>)
        requires
            self.wf(),
        ensures
            r is Some <==> self@.index_of(token@) is Some,
            r is Some ==> r->0 == self@.index_of(token@)->0,
            r is Some ==> r->0 < self@.tokens.len() && self@.tokens[r->0 as int] == token@,
    {
        match self.node_map.get(token.as_str()) {
            Some(i) => {
                let idx: usize = *i;
                proof {
                    assert(self.node_map@.contains_key(token@));
                    lemma_index_of_unique(self@.tokens, idx as int);
                }
                Some(idx)
            },
            None => None,
        }
    }

    /// The position of the edge record with key `k`, if any.
    fn find_edge(&self, k: &(String, String, String)) -> (r: Option<usize>)
        requires
            self.wf(),
        ensures
            r is Some <==> has_key(self@.edges, key_view(*k)),
            r is Some ==> r->0 == key_index(self@.edges, key_view(*k)) && r->0 < self@.edges.len(),
    {
        let ghost kv = key_view(*k);
        let n = self.edges.len();
        let mut i: usize = 0;
        while i < n
            invariant
                self.wf(),
                n == self.edges@.len(),
                kv == key_view(*k),
                i <= n,
                forall|j: int| 0 <= j < i ==> self@.edges[j].key() != kv,
            decreases n - i,
        {
            let e = &self.edges[i];
            assert(self@.edges[i as int] == self.edges@[i as int]@);
            if e.src == k.0 && e.dst == k.1 && e.name == k.2 {
                proof {
                    assert(self@.edges[i as int].key() == kv);
                    let c = key_index(self@.edges, kv);
                    assert(self@.edges[c].key() == kv);
                }
                return Some(i);
            }
            i += 1;
        }
        None
    }
}

impl RoutingGraph {
    proof fn lemma_no_out_ids(links: Seq<(nat, nat, KeyView)>, a: nat)
        requires
            forall|e: int| 0 <= e < links.len() ==> links[e].0 != a,
        ensures
            out_ids(links, a) == Seq::<nat>::empty(),
    {
        lemma_out_ids(links, a);
        if out_ids(links, a).len() > 0 {
            assert(links[out_ids(links, a)[0] as int].0 == a);
        }
        assert(out_ids(links, a) =~= Seq::<nat>::empty());
    }

    /// The node index of `token`, adding it as a new node when it is not one yet.
    fn get_or_create_node(&mut self, token: &String) -> (idx: usize)
        requires
            old(self).wf(),
            with_token(old(self)@.tokens, token@).len() <= u32::MAX,
        ensures
            final(self).wf(),
            final(self)@.tokens == with_token(old(self)@.tokens, token@),
            final(self)@.edges == old(self)@.edges,
            final(self)@.links == old(self)@.links,
            idx < final(self)@.tokens.len(),
            final(self)@.tokens[idx as int] == token@,
    {
        match self.find_node(token) {
            Some(i) => i,
            None => {
                let ghost old_v = self@;
                let ghost links = graph_edges(self.g);
                let ghost old_map = self.node_map@;
                let idx = graph_add_node(&mut self.g, token.clone());
                self.node_map.insert(token.clone(), idx);
                proof {
                    assert(self@.tokens =~= old_v.tokens.push(token@));
                    assert(self.node_map@ == old_map.insert(token@, idx));
                    assert forall|t: Seq<char>| #[trigger] self.node_map@.contains_key(t) <==> self@.tokens.contains(t) by {
                        if t == token@ {
                            assert(self@.tokens[idx as int] == t);
                        } else if old_v.tokens.contains(t) {
                            let j = choose|j: int| 0 <= j < old_v.tokens.len() && old_v.tokens[j] == t;
                            assert(self@.tokens[j] == t);
                        } else if self@.tokens.contains(t) {
                            let j = choose|j: int| 0 <= j < self@.tokens.len() && self@.tokens[j] == t;
                            assert(old_v.tokens[j] == t);
                        }
                    }
                    assert forall|t: Seq<char>| self.node_map@.contains_key(t) implies #[trigger] self.node_map@[t]
                        < self@.tokens.len() && self@.tokens[self.node_map@[t] as int] == t by {
                        if t != token@ {
                            assert(old_map.contains_key(t));
                            assert(self@.tokens[old_map[t] as int] == old_v.tokens[old_map[t] as int]);
                        }
                    }
                    assert(self@.edges =~= old_v.edges);
                    assert forall|e: int| 0 <= e < links.len() implies links[e].0 != idx as nat by {
                        assert(old_v.links[e].0 < old_v.tokens.len());
                    }
                    Self::lemma_no_out_ids(links, idx as nat);
                    assert forall|e: int| 0 <= e < self@.links.len() implies {
                        &&& (#[trigger] self@.links[e]).0 < self@.tokens.len()
                        &&& self@.links[e].1 < self@.tokens.len()
                        &&& self@.links[e].2.0 == self@.tokens[self@.links[e].0 as int]
                        &&& self@.links[e].2.1 == self@.tokens[self@.links[e].1 as int]
                        &&& has_key(self@.edges, self@.links[e].2)
                    } by {
                        assert(old_v.links[e] == self@.links[e]);
                    }
                    assert forall|i: int, j: int|
                        0 <= i < self@.tokens.len() && 0 <= j < self@.tokens.len() && i != j implies self@.tokens[i]
                        != self@.tokens[j] by {
                        if i == idx as int {
                            assert(self@.tokens[j] == old_v.tokens[j]);
                            assert(old_v.tokens.contains(old_v.tokens[j]));
                        } else if j == idx as int {
                            assert(old_v.tokens[i] == self@.tokens[i]);
                            assert(old_v.tokens.contains(old_v.tokens[i]));
                        }
                    }
                    assert forall|i: int| 0 <= i < self@.edges.len() implies {
                        &&& self@.tokens.contains((#[trigger] self@.edges[i]).src)
                        &&& self@.tokens.contains(self@.edges[i].dst)
                    } by {
                        let a = choose|a: int| 0 <= a < old_v.tokens.len() && old_v.tokens[a] == old_v.edges[i].src;
                        let b = choose|b: int| 0 <= b < old_v.tokens.len() && old_v.tokens[b] == old_v.edges[i].dst;
                        assert(self@.tokens[a] == old_v.tokens[a]);
                        assert(self@.tokens[b] == old_v.tokens[b]);
                    }
                }
                idx
            },
        }
    }
}

proof fn lemma_index_of_unique(ts: Seq<Seq<char>>, i: int)
    requires
        tokens_unique(ts),
        0 <= i < ts.len(),
    ensures
        token_index(ts, ts[i]) == Some(i as nat),
{
    assert(ts.contains(ts[i]));
    let c = choose|c: nat| c < ts.len() && ts[c as int] == ts[i];
    assert(c == i);
}

proof fn lemma_with_token(ts: Seq<Seq<char>>, t: Seq<char>)
    requires
        tokens_unique(ts),
    ensures
        tokens_unique(with_token(ts, t)),
        with_token(ts, t).contains(t),
        ts.len() <= with_token(ts, t).len() <= ts.len() + 1,
        forall|i: int| 0 <= i < ts.len() ==> #[trigger] with_token(ts, t)[i] == ts[i],
        forall|x: Seq<char>| #[trigger] with_token(ts, t).contains(x) <==> ts.contains(x) || x == t,
{
    let w = with_token(ts, t);
    if !ts.contains(t) {
        assert(w[ts.len() as int] == t);
        assert forall|i: int, j: int| 0 <= i < w.len() && 0 <= j < w.len() && i != j implies w[i] != w[j] by {
            if i == ts.len() {
                assert(ts.contains(ts[j]));
            } else if j == ts.len() {
                assert(ts.contains(ts[i]));
            }
        }
        assert forall|x: Seq<char>| #[trigger] w.contains(x) <==> ts.contains(x) || x == t by {
            if w.contains(x) {
                let k = choose|k: int| 0 <= k < w.len() && w[k] == x;
                if k < ts.len() {
                    assert(ts[k] == x);
                }
            }
            if ts.contains(x) {
                let k = choose|k: int| 0 <= k < ts.len() && ts[k] == x;
                assert(w[k] == x);
            }
        }
    }
}

proof fn lemma_store_edge(es: Seq<EdgeView>, e: EdgeView)
    requires
        keys_unique(es),
    ensures
        keys_unique(store_edge(es, e)),
        has_key(store_edge(es, e), e.key()),
        store_edge(es, e)[key_index(store_edge(es, e), e.key())] == e,
        forall|k: KeyView|
            k != e.key() ==> (#[trigger] has_key(store_edge(es, e), k) <==> has_key(es, k)),
        forall|k: KeyView|
            k != e.key() && has_key(es, k) ==> #[trigger] key_index(store_edge(es, e), k) == key_index(es, k)
                && store_edge(es, e)[key_index(es, k)] == es[key_index(es, k)],
        forall|i: int|
            0 <= i < store_edge(es, e).len() ==> #[trigger] store_edge(es, e)[i] == e || es.contains(
                store_edge(es, e)[i],
            ),
{
    let st = store_edge(es, e);
    let p = if has_key(es, e.key()) { key_index(es, e.key()) } else { es.len() as int };
    assert(st[p] == e);
    assert forall|i: int| 0 <= i < st.len() && i != p implies #[trigger] st[i] == es[i] by {}
    assert forall|i: int, j: int| 0 <= i < st.len() && 0 <= j < st.len() && i != j implies st[i].key()
        != st[j].key() by {
        if i != p && j != p {
            assert(st[i] == es[i] && st[j] == es[j]);
        } else if i == p {
            if has_key(es, e.key()) {
                assert(st[j] == es[j]);
            } else {
                assert(st[j] == es[j]);
                assert(es[j].key() != e.key());
            }
        } else {
            if has_key(es, e.key()) {
                assert(st[i] == es[i]);
            } else {
                assert(st[i] == es[i]);
                assert(es[i].key() != e.key());
            }
        }
    }
    assert(has_key(st, e.key()));
    let c = key_index(st, e.key());
    assert(c == p);
    assert forall|k: KeyView| k != e.key() implies (#[trigger] has_key(st, k) <==> has_key(es, k)) by {
        if has_key(st, k) {
            let i = choose|i: int| 0 <= i < st.len() && st[i].key() == k;
            assert(i != p);
            assert(es[i].key() == k);
        }
        if has_key(es, k) {
            let i = choose|i: int| 0 <= i < es.len() && es[i].key() == k;
            assert(i != p);
            assert(st[i].key() == k);
        }
    }
    assert forall|k: KeyView| k != e.key() && has_key(es, k) implies #[trigger] key_index(st, k) == key_index(
        es,
        k,
    ) && st[key_index(es, k)] == es[key_index(es, k)] by {
        let i = key_index(es, k);
        assert(i != p);
        assert(st[i].key() == k);
        let j = key_index(st, k);
        assert(st[j].key() == k);
    }
    assert forall|i: int| 0 <= i < st.len() implies #[trigger] st[i] == e || es.contains(st[i]) by {
        if i != p {
            assert(es[i] == st[i]);
        }
    }
}

impl RoutingGraph {
    /// Adds the pool edge `src -> dst` named `name` through pool `pool_id`:
    /// both tokens become nodes (appended after the existing ones, which keep
    /// their indices, unless already there), the edge record is stored under
    /// its (source, target, name) key, replacing one stored under the same key
    /// and leaving every other record as it was, and a new graph edge carries
    /// that key, first among the edges leaving `src`.
    pub fn add_pool_edge(&mut self, src: &str, dst: &str, pool_id: &str, name: &str)
        requires
            old(self).wf(),
            with_token(with_token(old(self)@.tokens, src@), dst@).len() <= u32::MAX,
            old(self)@.links.len() < u32::MAX,
        ensures
            final(self).wf(),
            final(self)@.wf(),
            final(self)@ == old(self)@.after_add(
                EdgeView { src: src@, dst: dst@, pool_id: pool_id@, name: name@ },
            ),
            final(self)@.outgoing(src@)[0] == (EdgeView { src: src@, dst: dst@, pool_id: pool_id@, name: name@ }),
            forall|t: Seq<char>| t != src@ ==> #[trigger] final(self)@.outgoing(t) == old(self)@.outgoing(t),
            has_key(final(self)@.edges, (src@, dst@, name@)),
            final(self)@.lookup((src@, dst@, name@)) == (EdgeView {
                src: src@,
                dst: dst@,
                pool_id: pool_id@,
                name: name@,
            }),
            forall|k: KeyView|
                k != (src@, dst@, name@) ==> (#[trigger] has_key(final(self)@.edges, k) <==> has_key(
                    old(self)@.edges,
                    k,
                )),
            forall|k: KeyView|
                k != (src@, dst@, name@) && has_key(old(self)@.edges, k) ==> #[trigger] final(self)@.lookup(k)
                    == old(self)@.lookup(k),
            final(self)@.tokens.len() <= old(self)@.tokens.len() + 2,
            forall|i: int| 0 <= i < old(self)@.tokens.len() ==> #[trigger] final(self)@.tokens[i] == old(self)@.tokens[i],
            forall|x: Seq<char>|
                #[trigger] final(self)@.tokens.contains(x) <==> old(self)@.tokens.contains(x) || x == src@ || x
                    == dst@,
    {
        let ghost old_v = self@;
        let ghost ev = EdgeView { src: src@, dst: dst@, pool_id: pool_id@, name: name@ };
        let s: String = src.to_owned();
        let d: String = dst.to_owned();
        let n: String = name.to_owned();
        let edge = Edge::new(s.clone(), d.clone(), pool_id.to_owned(), n.clone());
        let key = (s.clone(), d.clone(), n);
        let src_idx = self.get_or_create_node(&s);
        let dst_idx = self.get_or_create_node(&d);
        let ghost mid_v = self@;
        match self.find_edge(&key) {
            Some(i) => {
                self.edges.set(i, edge);
            },
            None => {
                self.edges.push(edge);
            },
        }
        proof {
            assert(self@.edges =~= store_edge(old_v.edges, ev));
            assert(self@.tokens == mid_v.tokens);
            lemma_index_of_unique(self@.tokens, src_idx as int);
            lemma_index_of_unique(self@.tokens, dst_idx as int);
            assert(mid_v.tokens[src_idx as int] == src@);
        }
        let ghost links = graph_edges(self.g);
        graph_add_edge(&mut self.g, src_idx, dst_idx, key);
        proof {
            let x = (src_idx as nat, dst_idx as nat, ev.key());
            assert(graph_edges(self.g) == links.push(x));
            assert(self@.tokens =~= mid_v.tokens);
            assert forall|a: int| 0 <= a < graph_nodes(self.g).len() implies #[trigger] graph_nodes(self.g)[a].1
                == out_ids(graph_edges(self.g), a as nat) by {
                lemma_out_ids_push(links, x, a as nat);
            }
            assert forall|i: int| 0 <= i < self@.edges.len() && self@.edges[i].key() == ev.key() implies i
                == key_index(self@.edges, ev.key()) by {
                assert(self@.edges[key_index(self@.edges, ev.key())].key() == ev.key());
            }
            assert(has_key(self@.edges, ev.key())) by {
                if has_key(old_v.edges, ev.key()) {
                    assert(self@.edges[key_index(old_v.edges, ev.key())].key() == ev.key());
                } else {
                    assert(self@.edges[old_v.edges.len() as int].key() == ev.key());
                }
            }
            assert forall|e: int| 0 <= e < links.len() implies has_key(self@.edges, #[trigger] links[e].2) by {
                let j = choose|j: int| 0 <= j < old_v.edges.len() && old_v.edges[j].key() == links[e].2;
                assert(self@.edges[j].key() == links[e].2);
            }
            assert(self@ =~= old_v.after_add(ev));
            lemma_add_pool_edge(old_v, ev);
        }
    }
}

impl RoutingGraph {
    /// The edges leaving `node`, in the graph's adjacency order (the most
    /// recently added first); empty when `node` is not a token of the graph.
    pub fn outgoing(&self, node: &str) -> (r: Vec<Edge>)
        requires
            self.wf(),
        ensures
            edge_views(r@) == self@.outgoing(node@),
    {
        let token: String = node.to_owned();
        let mut result: Vec<Edge> = Vec::new();
        match self.find_node(&token) {
            None => {
                assert(edge_views(result@) =~= self@.outgoing(node@));
                result
            },
            Some(a) => {
                let ghost links = graph_edges(self.g);
                let ghost list = out_ids(links, a as nat);
                proof {
                    lemma_out_ids(links, a as nat);
                }
                let mut cur = graph_first_out_edge(&self.g, a);
                let ghost mut k: int = 0;
                while cur.is_some()
                    invariant
                        self.wf(),
                        links == graph_edges(self.g),
                        a < graph_nodes(self.g).len(),
                        list == out_ids(links, a as nat),
                        graph_nodes(self.g)[a as int].1 == list,
                        forall|j: int|
                            0 <= j < list.len() ==> #[trigger] list[j] < links.len() && links[list[j] as int].0
                                == a as nat,
                        0 <= k <= list.len(),
                        k < list.len() ==> cur == Some(list[k] as usize),
                        k == list.len() ==> cur is None,
                        edge_views(result@) == list.take(k).map_values(
                            |e: nat| self@.lookup(self@.links[e as int].2),
                        ),
                    decreases list.len() - k,
                {
                    let e = cur.unwrap();
                    let w = graph_edge_weight(&self.g, e);
                    let key = w.unwrap();
                    let ghost old_result = result@;
                    match self.find_edge(&key) {
                        Some(i) => {
                            result.push(self.edges[i].clone());
                            proof {
                                assert(self@.edges[i as int] == self.edges@[i as int]@);
                                assert(edge_views(result@) =~= edge_views(old_result).push(
                                    self@.lookup(self@.links[list[k] as int].2),
                                ));
                            }
                        },
                        None => {
                            assert(false);
                        },
                    }
                    proof {
                        assert(graph_nodes(self.g)[graph_edges(self.g)[e as int].0 as int].1[k] == e as nat);
                    }
                    cur = graph_next_out_edge(&self.g, e);
                    proof {
                        assert(list.take(k + 1) =~= list.take(k).push(list[k]));
                        k = k + 1;
                    }
                }
                proof {
                    assert(list.take(k) =~= list);
                    lemma_index_of_unique(self@.tokens, a as int);
                }
                result
            },
        }
    }

    /// The node index of `token`, if it is a node.
    pub fn get_node_index(&self, token: &str) -> (r: Option<usize>)
        requires
            self.wf(),
        ensures
            r is Some <==> self@.tokens.contains(token@),
            r is Some ==> r->0 < self@.tokens.len() && self@.tokens[r->0 as int] == token@,
            r is Some ==> forall|j: int| 0 <= j < self@.tokens.len() && self@.tokens[j] == token@ ==> j == r->0,
    {
        let t: String = token.to_owned();
        self.find_node(&t)
    }

    /// The tokens, by node index.
    pub fn nodes(&self) -> (r: Vec<String>)
        requires
            self.wf(),
        ensures
            string_views(r@) == self@.tokens,
    {
        let n = graph_node_count(&self.g);
        let mut out: Vec<String> = Vec::new();
        let mut i: usize = 0;
        while i < n
            invariant
                self.wf(),
                n == graph_nodes(self.g).len(),
                i <= n,
                string_views(out@) == self@.tokens.take(i as int),
            decreases n - i,
        {
            let w = graph_node_weight(&self.g, i).unwrap();
            let ghost before = out@;
            out.push(w);
            proof {
                assert(self@.tokens.take(i + 1) =~= self@.tokens.take(i as int).push(self@.tokens[i as int]));
                assert(string_views(out@) =~= string_views(before).push(w@));
            }
            i += 1;
        }
        proof {
            assert(self@.tokens.take(n as int) =~= self@.tokens);
        }
        out
    }

    /// The number of tokens.
    pub fn node_count(&self) -> (n: usize)
        requires
            self.wf(),
        ensures
            n == self@.tokens.len(),
    {
        graph_node_count(&self.g)
    }

    /// The number of graph edges (every `add_pool_edge` adds one).
    pub fn link_count(&self) -> (n: usize)
        ensures
            n == self@.links.len(),
    {
        graph_edge_count(&self.g)
    }

    /// The stored edge records, one per (source, target, name) key.
    pub fn edges(&self) -> (r: &Vec<Edge>)
        ensures
            edge_views(r@) == self@.edges,
    {
        &self.edges
    }
}

impl Default for RoutingGraph {
    fn default() -> (rg: Self)
        ensures
            rg.wf(),
            rg@.tokens == Seq::<Seq<char>>::empty(),
            rg@.edges == Seq::<EdgeView>::empty(),
            rg@.links == Seq::<(nat, nat, KeyView)>::empty(),
    {
        Self::new()
    }
}

proof fn lemma_token_index(ts: Seq<Seq<char>>, t: Seq<char>)
    ensures
        ts.contains(t) ==> token_index(ts, t) is Some && token_index(ts, t)->0 < ts.len() && ts[token_index(
            ts,
            t,
        )->0 as int] == t,
        !ts.contains(t) ==> token_index(ts, t) is None,
{
    if ts.contains(t) {
        let j = choose|j: int| 0 <= j < ts.len() && ts[j] == t;
        assert((j as nat) < ts.len() && ts[(j as nat) as int] == t);
    }
}

proof fn lemma_lookup_key(es: Seq<EdgeView>, k: KeyView)
    requires
        has_key(es, k),
    ensures
        0 <= key_index(es, k) < es.len(),
        es[key_index(es, k)].key() == k,
{
}

/// Law: adding a pool edge keeps the graph well formed, makes the new edge the
/// first edge leaving its source, turns every older edge leaving the source
/// with the same key into it, leaves the edges leaving every other token
/// unchanged, and adds exactly its two tokens to the token set, after the
/// tokens it had, which keep their node indices.
pub proof fn lemma_add_pool_edge(v: GraphView, e: EdgeView)
    requires
        v.wf(),
    ensures
        v.after_add(e).wf(),
        v.after_add(e).tokens.len() <= v.tokens.len() + 2,
        forall|i: int| 0 <= i < v.tokens.len() ==> #[trigger] v.after_add(e).tokens[i] == v.tokens[i],
        v.after_add(e).outgoing(e.src) == seq![e] + v.outgoing(e.src).map_values(
            |r: EdgeView| if r.key() == e.key() { e } else { r },
        ),
        forall|t: Seq<char>| t != e.src ==> #[trigger] v.after_add(e).outgoing(t) == v.outgoing(t),
        forall|x: Seq<char>|
            #[trigger] v.after_add(e).tokens.contains(x) <==> v.tokens.contains(x) || x == e.src || x == e.dst,
        v.after_add(e).lookup(e.key()) == e,
        has_key(v.after_add(e).edges, e.key()),
        forall|k: KeyView|
            k != e.key() ==> (#[trigger] has_key(v.after_add(e).edges, k) <==> has_key(v.edges, k)),
        forall|k: KeyView|
            k != e.key() && has_key(v.edges, k) ==> #[trigger] v.after_add(e).lookup(k) == v.lookup(k),
        v.after_add(e).links == v.links.push(
            (
                v.after_add(e).index_of(e.src)->0,
                v.after_add(e).index_of(e.dst)->0,
                e.key(),
            ),
        ),
{
    let post = v.after_add(e);
    let t1 = with_token(v.tokens, e.src);
    let t2 = with_token(t1, e.dst);
    lemma_with_token(v.tokens, e.src);
    lemma_with_token(t1, e.dst);
    lemma_store_edge(v.edges, e);
    lemma_token_index(t2, e.src);
    lemma_token_index(t2, e.dst);
    assert(t2 == post.tokens);
    let is = token_index(t2, e.src)->0;
    let id = token_index(t2, e.dst)->0;
    let x = (is, id, e.key());
    assert(post.links == v.links.push(x));
    let es2 = store_edge(v.edges, e);
    assert(post.edges == es2);
    // well-formedness
    assert forall|j: int| 0 <= j < post.links.len() implies {
        &&& (#[trigger] post.links[j]).0 < post.tokens.len()
        &&& post.links[j].1 < post.tokens.len()
        &&& post.links[j].2.0 == post.tokens[post.links[j].0 as int]
        &&& post.links[j].2.1 == post.tokens[post.links[j].1 as int]
        &&& has_key(post.edges, post.links[j].2)
    } by {
        if j < v.links.len() {
            assert(post.links[j] == v.links[j]);
            assert(v.links[j].0 < v.tokens.len());
            assert(t2[v.links[j].0 as int] == t1[v.links[j].0 as int]);
            assert(t2[v.links[j].1 as int] == t1[v.links[j].1 as int]);
            if v.links[j].2 != e.key() {
                assert(has_key(v.edges, v.links[j].2));
            }
        }
    }
    assert forall|i: int| 0 <= i < post.edges.len() implies {
        &&& post.tokens.contains((#[trigger] post.edges[i]).src)
        &&& post.tokens.contains(post.edges[i].dst)
    } by {
        if es2[i] != e {
            let j = choose|j: int| 0 <= j < v.edges.len() && v.edges[j] == es2[i];
            assert(v.tokens.contains(v.edges[j].src));
            assert(v.tokens.contains(v.edges[j].dst));
        }
    }
    assert(post.wf());
    // outgoing of every token
    assert forall|t: Seq<char>| true implies #[trigger] post.outgoing(t) == (if t == e.src {
        seq![e] + v.outgoing(e.src).map_values(|r: EdgeView| if r.key() == e.key() { e } else { r })
    } else {
        v.outgoing(t)
    }) by {
        lemma_token_index(v.tokens, t);
        lemma_token_index(t2, t);
        if t2.contains(t) {
            let a = token_index(t2, t)->0;
            lemma_out_ids_push(v.links, x, a);
            lemma_out_ids(v.links, a);
            let old_ids = out_ids(v.links, a);
            if v.tokens.contains(t) {
                let a0 = token_index(v.tokens, t)->0;
                assert(t2[a0 as int] == t);
                lemma_index_of_unique(t2, a0 as int);
                assert(a == a0);
            } else {
                // a new token: nothing left it before
                assert(a >= v.tokens.len()) by {
                    if a < v.tokens.len() {
                        assert(t2[a as int] == v.tokens[a as int]);
                    }
                }
                if old_ids.len() > 0 {
                    assert(v.links[old_ids[0] as int].0 < v.tokens.len());
                }
                assert(old_ids =~= Seq::<nat>::empty());
            }
            let f_old = |i: nat| v.lookup(v.links[i as int].2);
            let f_new = |i: nat| post.lookup(post.links[i as int].2);
            let g = |r: EdgeView| if r.key() == e.key() { e } else { r };
            assert forall|k: int| 0 <= k < old_ids.len() implies #[trigger] f_new(old_ids[k]) == g(
                f_old(old_ids[k]),
            ) by {
                let i = old_ids[k];
                assert(post.links[i as int] == v.links[i as int]);
                let key = v.links[i as int].2;
                lemma_lookup_key(v.edges, key);
                if key != e.key() {
                    assert(post.lookup(key) == v.lookup(key));
                }
            }
            if t == e.src {
                assert(a == is);
                assert(post.outgoing(t) =~= seq![e] + v.outgoing(e.src).map_values(g));
            } else {
                assert(a != is) by {
                    lemma_index_of_unique(t2, a as int);
                }
                assert forall|k: int| 0 <= k < old_ids.len() implies #[trigger] f_new(old_ids[k]) == f_old(
                    old_ids[k],
                ) by {
                    let i = old_ids[k];
                    let key = v.links[i as int].2;
                    assert(key.0 == v.tokens[a as int]);
                    assert(key.0 == t2[a as int]);
                    assert(key != e.key()) by {
                        if key == e.key() {
                            lemma_index_of_unique(t2, a as int);
                        }
                    }
                }
                if v.tokens.contains(t) {
                    assert(post.outgoing(t) =~= v.outgoing(t));
                } else {
                    assert(post.outgoing(t) =~= v.outgoing(t));
                }
            }
        } else {
            assert(!v.tokens.contains(t));
            if t == e.src {
                assert(false);
            }
        }
    }
    assert(post.lookup(e.key()) == e);
}

/// Law: every edge leaving a token starts at that token, ends at a token of
/// the graph, and is one of the stored edge records.
pub proof fn lemma_outgoing_leaves(v: GraphView, t: Seq<char>)
    requires
        v.wf(),
    ensures
        forall|i: int|
            0 <= i < v.outgoing(t).len() ==> (#[trigger] v.outgoing(t)[i]).src == t && v.tokens.contains(
                v.outgoing(t)[i].dst,
            ) && v.edges.contains(v.outgoing(t)[i]),
{
    lemma_token_index(v.tokens, t);
    if v.tokens.contains(t) {
        let a = token_index(v.tokens, t)->0;
        lemma_out_ids(v.links, a);
        let ids = out_ids(v.links, a);
        assert forall|i: int| 0 <= i < v.outgoing(t).len() implies (#[trigger] v.outgoing(t)[i]).src == t
            && v.tokens.contains(v.outgoing(t)[i].dst) && v.edges.contains(v.outgoing(t)[i]) by {
            let e = ids[i];
            let k = v.links[e as int].2;
            assert(v.links[e as int].0 == a);
            lemma_lookup_key(v.edges, k);
            assert(v.outgoing(t)[i] == v.lookup(k));
            assert(v.tokens.contains(v.tokens[v.links[e as int].1 as int]));
            assert(v.edges.contains(v.edges[key_index(v.edges, k)]));
        }
    }
}

} // verus!
