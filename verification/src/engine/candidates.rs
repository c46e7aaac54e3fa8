//! Candidate path generation: a depth-first search over the token graph,
//! duplicate removal, and the merge of every source of candidates.
use crate::engine::constraints::RoutingConstraints;
use crate::engine::graph::{
    edge_views, keys_unique, lemma_outgoing_leaves, string_views, tokens_unique, GraphView, RoutingGraph,
};
use crate::engine::graph_store::KeyView;
use crate::engine::pool::{Edge, EdgeView};
use vstd::prelude::*;

verus! {

/// The views of a list of paths.
pub open spec fn path_views(ps: Seq<Vec<Edge>>) -> Seq<Seq<EdgeView>> {
    ps.map_values(|p: Vec<Edge>| edge_views(p@))
}

/// The key of a path: the (source, target, name) key of each of its edges.
pub open spec fn path_key(p: Seq<EdgeView>) -> Seq<KeyView> {
    p.map_values(|e: EdgeView| e.key())
}

/// Whether some path of `ps` has the key of `p`.
pub open spec fn has_path_key(ps: Seq<Seq<EdgeView>>, p: Seq<EdgeView>) -> bool {
    exists|i: int| 0 <= i < ps.len() && path_key(ps[i]) == path_key(p)
}

/// `ps` with every path dropped whose key an earlier path already has.
pub open spec fn dedupe_spec(ps: Seq<Seq<EdgeView>>) -> Seq<Seq<EdgeView>>
    decreases ps.len(),
{
    if ps.len() == 0 {
        Seq::empty()
    } else {
        let r = dedupe_spec(ps.drop_last());
        if has_path_key(r, ps.last()) {
            r
        } else {
            r.push(ps.last())
        }
    }
}

/// No two paths of `ps` share a key.
pub open spec fn keys_distinct(ps: Seq<Seq<EdgeView>>) -> bool {
    forall|i: int, j: int| 0 <= i < ps.len() && 0 <= j < ps.len() && i != j ==> path_key(ps[i]) != path_key(ps[j])
}

fn clone_path(p: &Vec<Edge>) -> (r: Vec<Edge>)
    ensures
        r@ == p@,
{
    let mut r: Vec<Edge> = Vec::new();
    let n = p.len();
    let mut i: usize = 0;
    while i < n
        invariant
            n == p@.len(),
            i <= n,
            r@ == p@.take(i as int),
        decreases n - i,
    {
        r.push(p[i].clone());
        assert(p@.take(i + 1) =~= p@.take(i as int).push(p@[i as int]));
        i += 1;
    }
    assert(p@.take(n as int) =~= p@);
    r
}

fn same_path_key(a: &Vec<Edge>, b: &Vec<Edge>) -> (r: bool)
    ensures
        r == (path_key(edge_views(a@)) == path_key(edge_views(b@))),
{
    let ghost ka = path_key(edge_views(a@));
    let ghost kb = path_key(edge_views(b@));
    if a.len() != b.len() {
        assert(ka.len() != kb.len());
        return false;
    }
    let n = a.len();
    let mut i: usize = 0;
    while i < n
        invariant
            n == a@.len(),
            n == b@.len(),
            ka == path_key(edge_views(a@)),
            kb == path_key(edge_views(b@)),
            i <= n,
            forall|j: int| 0 <= j < i ==> ka[j] == kb[j],
        decreases n - i,
    {
        let x = &a[i];
        let y = &b[i];
        if !(x.src == y.src && x.dst == y.dst && x.name == y.name) {
            assert(ka[i as int] != kb[i as int]);
            return false;
        }
        i += 1;
    }
    assert(ka =~= kb);
    true
}

fn contains_path_key(ps: &Vec<Vec<Edge>>, p: &Vec<Edge>) -> (r: bool)
    ensures
        r == has_path_key(path_views(ps@), edge_views(p@)),
{
    let n = ps.len();
    let mut i: usize = 0;
    while i < n
        invariant
            n == ps@.len(),
            i <= n,
            forall|j: int| 0 <= j < i ==> path_key(path_views(ps@)[j]) != path_key(edge_views(p@)),
        decreases n - i,
    {
        if same_path_key(&ps[i], p) {
            assert(path_views(ps@)[i as int] == edge_views(ps@[i as int]@));
            return true;
        }
        i += 1;
    }
    false
}

/// Drops every path whose key (the sequence of its edges' (source, target,
/// name) keys) an earlier path already has; keeps the order of the rest.
pub fn dedupe_paths(paths: Vec<Vec<Edge>>) -> (r: Vec<Vec<Edge>>)
    ensures
        path_views(r@) == dedupe_spec(path_views(paths@)),
{
    let mut result: Vec<Vec<Edge>> = Vec::new();
    let n = paths.len();
    let mut i: usize = 0;
    while i < n
        invariant
            n == paths@.len(),
            i <= n,
            path_views(result@) == dedupe_spec(path_views(paths@).take(i as int)),
        decreases n - i,
    {
        let ghost pre = path_views(paths@).take(i as int);
        let ghost cur = path_views(paths@).take(i + 1);
        assert(cur.drop_last() =~= pre);
        assert(cur.last() == edge_views(paths@[i as int]@));
        if !contains_path_key(&result, &paths[i]) {
            let ghost before = result@;
            result.push(clone_path(&paths[i]));
            assert(path_views(result@) =~= path_views(before).push(edge_views(paths@[i as int]@)));
        }
        i += 1;
    }
    assert(path_views(paths@).take(n as int) =~= path_views(paths@));
    result
}

/// Law: duplicate removal keeps no two paths with the same key, keeps a path
/// for every key of its input, keeps only paths of its input, and is never
/// longer than its input.
pub proof fn lemma_dedupe(ps: Seq<Seq<EdgeView>>)
    ensures
        keys_distinct(dedupe_spec(ps)),
        forall|i: int| 0 <= i < ps.len() ==> has_path_key(dedupe_spec(ps), #[trigger] ps[i]),
        forall|q: Seq<EdgeView>| #[trigger] dedupe_spec(ps).contains(q) ==> ps.contains(q),
        dedupe_spec(ps).len() <= ps.len(),
    decreases ps.len(),
{
    if ps.len() > 0 {
        let init = ps.drop_last();
        lemma_dedupe(init);
        let r = dedupe_spec(init);
        let last = ps.last();
        let d = dedupe_spec(ps);
        if !has_path_key(r, last) {
            assert forall|i: int, j: int| 0 <= i < d.len() && 0 <= j < d.len() && i != j implies path_key(d[i])
                != path_key(d[j]) by {
                if i == r.len() {
                    assert(path_key(r[j]) != path_key(last));
                } else if j == r.len() {
                    assert(path_key(r[i]) != path_key(last));
                }
            }
        }
        assert forall|i: int| 0 <= i < ps.len() implies has_path_key(d, #[trigger] ps[i]) by {
            if i < init.len() {
                assert(init[i] == ps[i]);
                assert(has_path_key(r, init[i]));
                let k = choose|k: int| 0 <= k < r.len() && path_key(r[k]) == path_key(init[i]);
                assert(d[k] == r[k]);
            } else if !has_path_key(r, last) {
                assert(d[r.len() as int] == last);
            }
        }
        assert forall|q: Seq<EdgeView>| #[trigger] d.contains(q) implies ps.contains(q) by {
            let k = choose|k: int| 0 <= k < d.len() && d[k] == q;
            if k < r.len() {
                assert(r[k] == q);
                assert(r.contains(q));
                let m = choose|m: int| 0 <= m < init.len() && init[m] == q;
                assert(ps[m] == q);
            } else {
                assert(ps[ps.len() - 1] == q);
            }
        }
    }
}

/// Two paths differ in their edges' keys: in length, or in the key of some edge.
pub open spec fn edge_keys_differ(a: Seq<EdgeView>, b: Seq<EdgeView>) -> bool {
    a.len() != b.len() || exists|k: int| 0 <= k < a.len() && a[k].key() != b[k].key()
}

/// Law: a path's key lists the (source, target, name) key of each of its
/// edges, in order, so two paths have the same key exactly when their edges'
/// keys agree one by one.
pub proof fn lemma_path_key(a: Seq<EdgeView>, b: Seq<EdgeView>)
    ensures
        path_key(a).len() == a.len(),
        forall|i: int| 0 <= i < a.len() ==> #[trigger] path_key(a)[i] == a[i].key(),
        path_key(a) == path_key(b) <==> !edge_keys_differ(a, b),
{
    if path_key(a) == path_key(b) {
        assert(path_key(a).len() == path_key(b).len());
        if a.len() == b.len() {
            assert forall|k: int| 0 <= k < a.len() implies a[k].key() == b[k].key() by {
                assert(path_key(a)[k] == path_key(b)[k]);
            }
        }
    }
    if !edge_keys_differ(a, b) {
        assert(path_key(a) =~= path_key(b));
    }
}

/// Law: duplicate removal keeps a path whose edges' keys differ from those of
/// every path before it.
pub proof fn lemma_dedupe_keeps_new(ps: Seq<Seq<EdgeView>>, i: int)
    requires
        0 <= i < ps.len(),
        forall|j: int| 0 <= j < i ==> edge_keys_differ(#[trigger] ps[j], ps[i]),
    ensures
        dedupe_spec(ps).contains(ps[i]),
    decreases ps.len(),
{
    let init = ps.drop_last();
    let r = dedupe_spec(init);
    let d = dedupe_spec(ps);
    if i < init.len() {
        assert forall|j: int| 0 <= j < i implies edge_keys_differ(#[trigger] init[j], init[i]) by {
            assert(init[j] == ps[j]);
        }
        lemma_dedupe_keeps_new(init, i);
        assert(init[i] == ps[i]);
        let k = choose|k: int| 0 <= k < r.len() && r[k] == ps[i];
        assert(d[k] == r[k]);
    } else {
        if has_path_key(r, ps.last()) {
            let k = choose|k: int| 0 <= k < r.len() && path_key(r[k]) == path_key(ps.last());
            lemma_dedupe(init);
            assert(r.contains(r[k]));
            let j = choose|j: int| 0 <= j < init.len() && init[j] == r[k];
            assert(ps[j] == init[j]);
            lemma_path_key(ps[j], ps[i]);
            assert(false);
        }
        assert(d[r.len() as int] == ps[i]);
    }
}

/// Law: a list of paths with distinct keys is left as it is, so duplicate
/// removal is idempotent.
pub proof fn lemma_dedupe_idempotent(ps: Seq<Seq<EdgeView>>)
    ensures
        keys_distinct(ps) ==> dedupe_spec(ps) == ps,
        dedupe_spec(dedupe_spec(ps)) == dedupe_spec(ps),
{
    if keys_distinct(ps) {
        lemma_dedupe_idempotent_distinct(ps);
    }
    lemma_dedupe(ps);
    lemma_dedupe_idempotent_distinct(dedupe_spec(ps));
}

proof fn lemma_dedupe_idempotent_distinct(ps: Seq<Seq<EdgeView>>)
    requires
        keys_distinct(ps),
    ensures
        dedupe_spec(ps) == ps,
    decreases ps.len(),
{
    if ps.len() > 0 {
        let init = ps.drop_last();
        assert(keys_distinct(init)) by {
            assert forall|i: int, j: int| 0 <= i < init.len() && 0 <= j < init.len() && i != j implies path_key(init[i])
                != path_key(init[j]) by {
                assert(init[i] == ps[i] && init[j] == ps[j]);
            }
        }
        lemma_dedupe_idempotent_distinct(init);
        assert(!has_path_key(init, ps.last())) by {
            if has_path_key(init, ps.last()) {
                let k = choose|k: int| 0 <= k < init.len() && path_key(init[k]) == path_key(ps.last());
                assert(init[k] == ps[k]);
            }
        }
        assert(init.push(ps.last()) =~= ps);
    }
}

/// The tokens a path visits: its start, then the target of each edge.
pub open spec fn node_seq(src: Seq<char>, p: Seq<EdgeView>) -> Seq<Seq<char>> {
    seq![src] + p.map_values(|e: EdgeView| e.dst)
}

/// `p` is a route from `src` to `dst` under `c` in graph `g`: each edge leaves
/// the token the route has reached, the route ends at `dst`, has at most
/// `max_hops` edges, visits no token twice, and passes only through tokens
/// that `c` allows.
pub open spec fn is_route(
    g: GraphView,
    c: RoutingConstraints,
    src: Seq<char>,
    dst: Seq<char>,
    p: Seq<EdgeView>,
) -> bool {
    let ns = node_seq(src, p);
    &&& forall|k: int| 0 <= k < p.len() ==> g.outgoing(ns[k]).contains(#[trigger] p[k])
    &&& ns.last() == dst
    &&& p.len() <= c.max_hops
    &&& tokens_unique(ns)
    &&& forall|k: int| 1 <= k < ns.len() ==> c.allows(#[trigger] ns[k], src, dst)
}

/// Every path of `ps` is a route and no two of them visit the same token sequence.
pub open spec fn routes_distinct(
    g: GraphView,
    c: RoutingConstraints,
    src: Seq<char>,
    dst: Seq<char>,
    ps: Seq<Seq<EdgeView>>,
) -> bool {
    &&& forall|i: int| 0 <= i < ps.len() ==> is_route(g, c, src, dst, #[trigger] ps[i])
    &&& forall|i: int, j: int|
        0 <= i < ps.len() && 0 <= j < ps.len() && i != j ==> node_seq(src, ps[i]) != node_seq(src, ps[j])
}

pub open spec fn token_seqs(vs: Seq<Vec<String>>) -> Seq<Seq<Seq<char>>> {
    vs.map_values(|v: Vec<String>| string_views(v@))
}

fn contains_token(v: &Vec<String>, t: &String) -> (r: bool)
    ensures
        r == string_views(v@).contains(t@),
{
    let n = v.len();
    let mut i: usize = 0;
    while i < n
        invariant
            n == v@.len(),
            i <= n,
            forall|j: int| 0 <= j < i ==> v@[j]@ != t@,
        decreases n - i,
    {
        if v[i] == *t {
            assert(string_views(v@)[i as int] == t@);
            return true;
        }
        i += 1;
    }
    assert(!string_views(v@).contains(t@)) by {
        if string_views(v@).contains(t@) {
            let j = choose|j: int| 0 <= j < n && string_views(v@)[j] == t@;
            assert(v@[j]@ == t@);
        }
    }
    false
}

fn clone_strings(v: &Vec<String>) -> (r: Vec<String>)
    ensures
        r@ == v@,
{
    let mut r: Vec<String> = Vec::new();
    let n = v.len();
    let mut i: usize = 0;
    while i < n
        invariant
            n == v@.len(),
            i <= n,
            r@ == v@.take(i as int),
        decreases n - i,
    {
        r.push(v[i].clone());
        assert(v@.take(i + 1) =~= v@.take(i as int).push(v@[i as int]));
        i += 1;
    }
    assert(v@.take(n as int) =~= v@);
    r
}

fn same_tokens(a: &Vec<String>, b: &Vec<String>) -> (r: bool)
    ensures
        r == (string_views(a@) == string_views(b@)),
{
    if a.len() != b.len() {
        assert(string_views(a@).len() != string_views(b@).len());
        return false;
    }
    let n = a.len();
    let mut i: usize = 0;
    while i < n
        invariant
            n == a@.len(),
            n == b@.len(),
            i <= n,
            forall|j: int| 0 <= j < i ==> a@[j]@ == b@[j]@,
        decreases n - i,
    {
        if a[i] != b[i] {
            assert(string_views(a@)[i as int] != string_views(b@)[i as int]);
            return false;
        }
        i += 1;
    }
    assert(string_views(a@) =~= string_views(b@));
    true
}

fn contains_token_seq(vs: &Vec<Vec<String>>, t: &Vec<String>) -> (r: bool)
    ensures
        r == token_seqs(vs@).contains(string_views(t@)),
{
    let n = vs.len();
    let mut i: usize = 0;
    while i < n
        invariant
            n == vs@.len(),
            i <= n,
            forall|j: int| 0 <= j < i ==> string_views(vs@[j]@) != string_views(t@),
        decreases n - i,
    {
        if same_tokens(&vs[i], t) {
            assert(token_seqs(vs@)[i as int] == string_views(t@));
            return true;
        }
        i += 1;
    }
    assert(!token_seqs(vs@).contains(string_views(t@))) by {
        if token_seqs(vs@).contains(string_views(t@)) {
            let j = choose|j: int| 0 <= j < n && token_seqs(vs@)[j] == string_views(t@);
            assert(string_views(vs@[j]@) == string_views(t@));
        }
    }
    false
}

/// The paths found so far are distinct routes, and `found_nodes[i]` holds
/// the token sequence of `found[i]`.
pub open spec fn found_ok(
    g: GraphView,
    c: RoutingConstraints,
    src: Seq<char>,
    dst: Seq<char>,
    found: Seq<Seq<EdgeView>>,
    found_nodes: Seq<Seq<Seq<char>>>,
) -> bool {
    &&& found.len() == found_nodes.len()
    &&& routes_distinct(g, c, src, dst, found)
    &&& forall|i: int| 0 <= i < found.len() ==> #[trigger] found_nodes[i] == node_seq(src, found[i])
}

/// `path` is a partial route from `src`: it follows the graph, visits no token
/// twice, passes only through allowed tokens and has at most `max_hops` edges.
pub open spec fn partial_route(
    g: GraphView,
    c: RoutingConstraints,
    src: Seq<char>,
    dst: Seq<char>,
    p: Seq<EdgeView>,
) -> bool {
    let ns = node_seq(src, p);
    &&& forall|k: int| 0 <= k < p.len() ==> g.outgoing(ns[k]).contains(#[trigger] p[k])
    &&& p.len() <= c.max_hops
    &&& tokens_unique(ns)
    &&& forall|k: int| 1 <= k < ns.len() ==> c.allows(#[trigger] ns[k], src, dst)
}

proof fn lemma_extend_partial(
    g: GraphView,
    c: RoutingConstraints,
    src: Seq<char>,
    dst: Seq<char>,
    p0: Seq<EdgeView>,
    e: EdgeView,
)
    requires
        partial_route(g, c, src, dst, p0),
        p0.len() < c.max_hops,
        g.outgoing(node_seq(src, p0).last()).contains(e),
        !node_seq(src, p0).contains(e.dst),
        c.allows(e.dst, src, dst),
    ensures
        partial_route(g, c, src, dst, p0.push(e)),
        node_seq(src, p0.push(e)) == node_seq(src, p0).push(e.dst),
        node_seq(src, p0.push(e)).last() == e.dst,
{
    let ns = node_seq(src, p0);
    let p1 = p0.push(e);
    let ns1 = node_seq(src, p1);
    assert(ns1 =~= ns.push(e.dst));
    assert forall|k: int| 0 <= k < p1.len() implies g.outgoing(ns1[k]).contains(#[trigger] p1[k]) by {
        if k < p0.len() {
            assert(p1[k] == p0[k]);
            assert(ns1[k] == ns[k]);
        }
    }
    assert forall|a: int, b: int| 0 <= a < ns1.len() && 0 <= b < ns1.len() && a != b implies ns1[a] != ns1[b] by {
        if a == ns.len() {
            assert(ns.contains(ns[b]));
        } else if b == ns.len() {
            assert(ns.contains(ns[a]));
        }
    }
    assert forall|k: int| 1 <= k < ns1.len() implies c.allows(#[trigger] ns1[k], src, dst) by {
        if k < ns.len() {
            assert(ns1[k] == ns[k]);
        }
    }
}

/// `q` starts with `p`.
pub open spec fn extends(q: Seq<EdgeView>, p: Seq<EdgeView>) -> bool {
    q.len() >= p.len() && q.take(p.len() as int) == p
}

proof fn lemma_node_seq_prefix(src: Seq<char>, p: Seq<EdgeView>, q: Seq<EdgeView>)
    requires
        extends(q, p),
    ensures
        forall|k: int| 0 <= k <= p.len() ==> #[trigger] node_seq(src, q)[k] == node_seq(src, p)[k],
{
    assert forall|k: int| 0 <= k <= p.len() implies #[trigger] node_seq(src, q)[k] == node_seq(src, p)[k] by {
        if k > 0 {
            assert(q.take(p.len() as int)[k - 1] == p[k - 1]);
        }
    }
}

/// A route that starts with a partial route ending at `dst` is that partial route.
proof fn lemma_route_stops_at_dst(
    g: GraphView,
    c: RoutingConstraints,
    src: Seq<char>,
    dst: Seq<char>,
    p: Seq<EdgeView>,
    q: Seq<EdgeView>,
)
    requires
        extends(q, p),
        is_route(g, c, src, dst, q),
        node_seq(src, p).last() == dst,
    ensures
        q == p,
{
    lemma_node_seq_prefix(src, p, q);
    let nq = node_seq(src, q);
    if q.len() > p.len() {
        assert(nq[p.len() as int] == dst);
        assert(nq[nq.len() - 1] == dst);
        assert(false);
    }
    assert(q =~= q.take(p.len() as int));
}

/// A route that strictly extends a partial route continues it with an edge
/// leaving its end, to a token it has not visited and that is allowed.
proof fn lemma_route_next_edge(
    g: GraphView,
    c: RoutingConstraints,
    src: Seq<char>,
    dst: Seq<char>,
    p: Seq<EdgeView>,
    q: Seq<EdgeView>,
)
    requires
        extends(q, p),
        is_route(g, c, src, dst, q),
        q.len() > p.len(),
    ensures
        g.outgoing(node_seq(src, p).last()).contains(q[p.len() as int]),
        !node_seq(src, p).contains(q[p.len() as int].dst),
        c.allows(q[p.len() as int].dst, src, dst),
        extends(q, p.push(q[p.len() as int])),
{
    lemma_node_seq_prefix(src, p, q);
    let nq = node_seq(src, q);
    let ns = node_seq(src, p);
    let e = q[p.len() as int];
    assert(nq[p.len() as int] == ns.last());
    assert(nq[p.len() as int + 1] == e.dst);
    if ns.contains(e.dst) {
        let k = choose|k: int| 0 <= k < ns.len() && ns[k] == e.dst;
        assert(nq[k] == e.dst);
    }
    assert(q.take(p.len() as int + 1) =~= p.push(e)) by {
        assert forall|k: int| 0 <= k < p.len() implies q.take(p.len() as int + 1)[k] == p.push(e)[k] by {
            assert(q.take(p.len() as int)[k] == p[k]);
        }
    }
}

/// For each edge of `p`, `ix` gives its position in the outgoing list of the
/// token it leaves: the choices a depth-first walk makes to follow `p`.
pub open spec fn realizes(g: GraphView, src: Seq<char>, p: Seq<EdgeView>, ix: Seq<int>) -> bool {
    &&& ix.len() == p.len()
    &&& forall|k: int|
        0 <= k < p.len() ==> 0 <= #[trigger] ix[k] < g.outgoing(node_seq(src, p)[k]).len() && g.outgoing(
            node_seq(src, p)[k],
        )[ix[k]] == p[k]
}

/// `x` and `y` agree before position `k`, and there `x` is smaller.
pub open spec fn parts_below(x: Seq<int>, y: Seq<int>, k: int) -> bool {
    &&& 0 <= k < x.len()
    &&& k < y.len()
    &&& x.take(k) == y.take(k)
    &&& x[k] < y[k]
}

/// The walk `x` comes before the walk `y` in depth-first order: where they
/// part, `x` takes the earlier position.
pub open spec fn lex_before(x: Seq<int>, y: Seq<int>) -> bool {
    exists|k: int| #[trigger] parts_below(x, y, k)
}

/// `y` starts with `f`.
pub open spec fn index_extends(y: Seq<int>, f: Seq<int>) -> bool {
    y.len() >= f.len() && y.take(f.len() as int) == f
}

/// The walks of the first `m` results all come before the frame `f`.
pub open spec fn first_before(idx: Seq<Seq<int>>, f: Seq<int>, m: int) -> bool {
    &&& 0 <= m <= idx.len()
    &&& forall|j: int| 0 <= j < m ==> lex_before(#[trigger] idx[j], f)
}

/// Some frame above the walk `ix` was entered once `pool` results or more had
/// been found, so the search did not descend below it.
pub open spec fn cut_above(idx: Seq<Seq<int>>, pool: int, ix: Seq<int>) -> bool {
    exists|kk: int, m: int| 0 <= kk < ix.len() && pool <= m && #[trigger] first_before(idx, ix.take(kk), m)
}

/// Every frame above the walk `ix` was entered with fewer than `pool` results.
pub open spec fn frames_open(idx: Seq<Seq<int>>, pool: int, ix: Seq<int>) -> bool {
    forall|kk: int, m: int| 0 <= kk < ix.len() && #[trigger] first_before(idx, ix.take(kk), m) ==> m < pool
}

/// The results `ys` were found by the walks `idx`: each walk follows its
/// result, the walks come in depth-first order, and every frame above a
/// result was entered with fewer than `candidate_pool_size` results.
pub open spec fn walk_order(
    g: GraphView,
    c: RoutingConstraints,
    src: Seq<char>,
    ys: Seq<Seq<EdgeView>>,
    idx: Seq<Seq<int>>,
) -> bool {
    &&& idx.len() == ys.len()
    &&& forall|j: int| 0 <= j < ys.len() ==> realizes(g, src, ys[j], #[trigger] idx[j])
    &&& forall|a: int, b: int| 0 <= a < b < idx.len() ==> lex_before(#[trigger] idx[a], #[trigger] idx[b])
    &&& forall|j: int| 0 <= j < idx.len() ==> frames_open(idx, c.candidate_pool_size as int, #[trigger] idx[j])
}

/// Result `j` has the token sequence of `q` and was found no later than the walk `ix`.
pub open spec fn met_at(
    src: Seq<char>,
    ys: Seq<Seq<EdgeView>>,
    idx: Seq<Seq<int>>,
    q: Seq<EdgeView>,
    ix: Seq<int>,
    j: int,
) -> bool {
    &&& 0 <= j < ys.len()
    &&& node_seq(src, ys[j]) == node_seq(src, q)
    &&& !lex_before(ix, idx[j])
}

/// The walk `ix` of `q` is accounted for: `q`'s token sequence was found no
/// later than the walk, or the search was cut above it.
pub open spec fn settled(
    c: RoutingConstraints,
    src: Seq<char>,
    ys: Seq<Seq<EdgeView>>,
    idx: Seq<Seq<int>>,
    q: Seq<EdgeView>,
    ix: Seq<int>,
) -> bool {
    (exists|j: int| #[trigger] met_at(src, ys, idx, q, ix, j)) || cut_above(idx, c.candidate_pool_size as int, ix)
}

/// What the walks say of the search as a whole: they are in order, every walk
/// of a route is accounted for, and no route with a result's token sequence
/// is walked before that result.
pub open spec fn search_trace(
    g: GraphView,
    c: RoutingConstraints,
    src: Seq<char>,
    dst: Seq<char>,
    ys: Seq<Seq<EdgeView>>,
    idx: Seq<Seq<int>>,
) -> bool {
    &&& walk_order(g, c, src, ys, idx)
    &&& forall|q: Seq<EdgeView>, ix: Seq<int>|
        #[trigger] realizes(g, src, q, ix) && is_route(g, c, src, dst, q) ==> settled(c, src, ys, idx, q, ix)
    &&& forall|i: int, q: Seq<EdgeView>, ix: Seq<int>|
        #![trigger realizes(g, src, q, ix), ys[i]]
        0 <= i < ys.len() && realizes(g, src, q, ix) && is_route(g, c, src, dst, q) && lex_before(ix, idx[i])
            ==> node_seq(src, q) != node_seq(src, ys[i])
}

/// The walks of the results found before entering the frame `f` all come
/// before it, and the frames above it were entered with fewer than `pool` results.
pub open spec fn frame_entry(idx: Seq<Seq<int>>, pool: int, f: Seq<int>) -> bool {
    &&& forall|j: int| 0 <= j < idx.len() ==> lex_before(#[trigger] idx[j], f)
    &&& frames_open(idx, pool, f)
}

/// Every walk of a route that starts with `p0` and the walk `ix0` is accounted for.
spec fn complete_below(
    g: GraphView,
    c: RoutingConstraints,
    src: Seq<char>,
    dst: Seq<char>,
    ys: Seq<Seq<EdgeView>>,
    idx: Seq<Seq<int>>,
    p0: Seq<EdgeView>,
    ix0: Seq<int>,
) -> bool {
    forall|q: Seq<EdgeView>, ix: Seq<int>|
        #[trigger] realizes(g, src, q, ix) && is_route(g, c, src, dst, q) && extends(q, p0) && index_extends(ix, ix0)
            ==> settled(c, src, ys, idx, q, ix)
}

/// The state of a search frame at `p0`, walk `ix0`, entered with the results
/// walked by `idx0`, after its first `i` outgoing edges: the results so far
/// are in order, the frame's own ones continue `ix0` with a position below
/// `i`, and every walk of a route through those positions is accounted for.
spec fn frame_state(
    g: GraphView,
    c: RoutingConstraints,
    src: Seq<char>,
    dst: Seq<char>,
    p0: Seq<EdgeView>,
    ix0: Seq<int>,
    idx0: Seq<Seq<int>>,
    ys: Seq<Seq<EdgeView>>,
    idx: Seq<Seq<int>>,
    i: int,
) -> bool {
    &&& walk_order(g, c, src, ys, idx)
    &&& idx0.len() <= idx.len()
    &&& forall|j: int| 0 <= j < idx0.len() ==> #[trigger] idx[j] == idx0[j]
    &&& forall|j: int|
        idx0.len() <= j < idx.len() ==> index_extends(#[trigger] idx[j], ix0) && idx[j].len() > ix0.len()
            && idx[j][ix0.len() as int] < i
    &&& forall|q: Seq<EdgeView>, ix: Seq<int>|
        #[trigger] realizes(g, src, q, ix) && is_route(g, c, src, dst, q) && extends(q, p0) && index_extends(ix, ix0)
            && ix.len() > ix0.len() && ix[ix0.len() as int] < i ==> settled(c, src, ys, idx, q, ix)
}

proof fn lemma_lex_asym(x: Seq<int>, y: Seq<int>)
    requires
        lex_before(x, y),
    ensures
        !lex_before(y, x),
{
    let k1 = choose|k: int| parts_below(x, y, k);
    if lex_before(y, x) {
        let k2 = choose|k: int| parts_below(y, x, k);
        if k1 < k2 {
            assert(y.take(k2)[k1] == x.take(k2)[k1]);
        } else if k2 < k1 {
            assert(x.take(k1)[k2] == y.take(k1)[k2]);
        }
    }
}

proof fn lemma_lex_irrefl(x: Seq<int>)
    ensures
        !lex_before(x, x),
{
    if lex_before(x, x) {
        lemma_lex_asym(x, x);
    }
}

proof fn lemma_lex_trans(x: Seq<int>, y: Seq<int>, z: Seq<int>)
    requires
        lex_before(x, y),
        lex_before(y, z),
    ensures
        lex_before(x, z),
{
    let k1 = choose|k: int| parts_below(x, y, k);
    let k2 = choose|k: int| parts_below(y, z, k);
    if k1 < k2 {
        assert(z.take(k1) =~= z.take(k2).take(k1));
        assert(y.take(k1) =~= y.take(k2).take(k1));
        assert(z.take(k2)[k1] == y.take(k2)[k1]);
        assert(parts_below(x, z, k1));
    } else if k2 < k1 {
        assert(x.take(k2) =~= x.take(k1).take(k2));
        assert(y.take(k2) =~= y.take(k1).take(k2));
        assert(x.take(k1)[k2] == y.take(k1)[k2]);
        assert(parts_below(x, z, k2));
    } else {
        assert(parts_below(x, z, k1));
    }
}

/// What comes before a frame comes before every walk through it.
proof fn lemma_lex_lift(x: Seq<int>, f: Seq<int>, y: Seq<int>)
    requires
        lex_before(x, f),
        index_extends(y, f),
    ensures
        lex_before(x, y),
{
    let k = choose|k: int| parts_below(x, f, k);
    assert(y.take(k) =~= y.take(f.len() as int).take(k));
    assert(f.take(k) =~= y.take(f.len() as int).take(k));
    assert(y.take(f.len() as int)[k] == y[k]);
    assert(parts_below(x, y, k));
}

/// A walk does not come before a frame it passes through.
proof fn lemma_not_before_frame(y: Seq<int>, f: Seq<int>)
    requires
        index_extends(y, f),
    ensures
        !lex_before(y, f),
{
    if lex_before(y, f) {
        let k = choose|k: int| parts_below(y, f, k);
        assert(y.take(f.len() as int)[k] == y[k]);
    }
}

proof fn lemma_take_extends(y: Seq<int>, kk: int)
    requires
        0 <= kk <= y.len(),
    ensures
        index_extends(y, y.take(kk)),
{
}

proof fn lemma_extends_trans(y: Seq<int>, f: Seq<int>, kk: int)
    requires
        index_extends(y, f),
        0 <= kk <= f.len(),
    ensures
        index_extends(y, f.take(kk)),
{
    assert(y.take(kk) =~= y.take(f.len() as int).take(kk));
}

/// A settled walk stays settled when more results are appended.
proof fn lemma_settled_grow(
    c: RoutingConstraints,
    src: Seq<char>,
    ys: Seq<Seq<EdgeView>>,
    idx: Seq<Seq<int>>,
    ys2: Seq<Seq<EdgeView>>,
    idx2: Seq<Seq<int>>,
    q: Seq<EdgeView>,
    ix: Seq<int>,
)
    requires
        settled(c, src, ys, idx, q, ix),
        ys.len() == idx.len(),
        ys2.len() == idx2.len(),
        ys.len() <= ys2.len(),
        forall|j: int| 0 <= j < ys.len() ==> #[trigger] ys2[j] == ys[j] && idx2[j] == idx[j],
    ensures
        settled(c, src, ys2, idx2, q, ix),
{
    if exists|j: int| #[trigger] met_at(src, ys, idx, q, ix, j) {
        let j = choose|j: int| #[trigger] met_at(src, ys, idx, q, ix, j);
        assert(ys2[j] == ys[j]);
        assert(met_at(src, ys2, idx2, q, ix, j));
    } else {
        let (kk, m) = choose|kk: int, m: int|
            0 <= kk < ix.len() && c.candidate_pool_size as int <= m && #[trigger] first_before(idx, ix.take(kk), m);
        assert forall|j: int| 0 <= j < m implies lex_before(#[trigger] idx2[j], ix.take(kk)) by {
            assert(ys2[j] == ys[j]);
            assert(lex_before(idx[j], ix.take(kk)));
        }
        assert(first_before(idx2, ix.take(kk), m));
    }
}

/// Appending the result `p`, found by the walk `ix` that comes after every
/// earlier walk and whose frames were entered with fewer than `pool` results,
/// keeps the walks in order.
proof fn lemma_walk_push(
    g: GraphView,
    c: RoutingConstraints,
    src: Seq<char>,
    ys: Seq<Seq<EdgeView>>,
    idx: Seq<Seq<int>>,
    p: Seq<EdgeView>,
    ix: Seq<int>,
)
    requires
        walk_order(g, c, src, ys, idx),
        realizes(g, src, p, ix),
        frame_entry(idx, c.candidate_pool_size as int, ix),
    ensures
        walk_order(g, c, src, ys.push(p), idx.push(ix)),
{
    let pool = c.candidate_pool_size as int;
    let ys2 = ys.push(p);
    let idx2 = idx.push(ix);
    let n = idx.len() as int;
    assert forall|j: int| 0 <= j < ys2.len() implies realizes(g, src, ys2[j], #[trigger] idx2[j]) by {
        if j < n {
            assert(ys2[j] == ys[j] && idx2[j] == idx[j]);
        }
    }
    assert forall|a: int, b: int| 0 <= a < b < idx2.len() implies lex_before(#[trigger] idx2[a], #[trigger] idx2[b]) by {
        assert(idx2[a] == idx[a]);
        if b < n {
            assert(idx2[b] == idx[b]);
        }
    }
    assert forall|j: int| 0 <= j < idx2.len() implies frames_open(idx2, pool, #[trigger] idx2[j]) by {
        let y = idx2[j];
        assert forall|kk: int, m: int| 0 <= kk < y.len() && #[trigger] first_before(idx2, y.take(kk), m) implies m
            < pool by {
            lemma_take_extends(y, kk);
            if m == n + 1 {
                assert(lex_before(idx2[n], y.take(kk)));
                if j < n {
                    assert(y == idx[j]);
                    lemma_lex_lift(ix, y.take(kk), y);
                    lemma_lex_asym(idx[j], ix);
                } else {
                    lemma_not_before_frame(ix, ix.take(kk));
                }
            }
            assert forall|t: int| 0 <= t < m implies lex_before(#[trigger] idx[t], y.take(kk)) by {
                assert(idx2[t] == idx[t]);
            }
            assert(first_before(idx, y.take(kk), m));
            if j < n {
                assert(y == idx[j]);
            }
        }
    }
}

/// A route that starts with a partial route not ending at `dst` is longer than it.
proof fn lemma_route_longer(
    g: GraphView,
    c: RoutingConstraints,
    src: Seq<char>,
    dst: Seq<char>,
    p0: Seq<EdgeView>,
    q: Seq<EdgeView>,
)
    requires
        is_route(g, c, src, dst, q),
        extends(q, p0),
        node_seq(src, p0).last() != dst,
    ensures
        q.len() > p0.len(),
{
    if q.len() == p0.len() {
        assert(q =~= q.take(p0.len() as int));
    }
}

/// A walk of a route that continues `p0` at the position `i` of the edges
/// leaving its end continues `p0` with the edge at `i`.
proof fn lemma_walk_step(
    g: GraphView,
    src: Seq<char>,
    p0: Seq<EdgeView>,
    ix0: Seq<int>,
    out: Seq<EdgeView>,
    q: Seq<EdgeView>,
    ix: Seq<int>,
)
    requires
        realizes(g, src, q, ix),
        extends(q, p0),
        index_extends(ix, ix0),
        ix0.len() == p0.len(),
        ix.len() > ix0.len(),
        out == g.outgoing(node_seq(src, p0).last()),
    ensures
        0 <= ix[ix0.len() as int] < out.len(),
        q[p0.len() as int] == out[ix[ix0.len() as int]],
        extends(q, p0.push(out[ix[ix0.len() as int]])),
        index_extends(ix, ix0.push(ix[ix0.len() as int])),
{
    let k = p0.len() as int;
    lemma_node_seq_prefix(src, p0, q);
    assert(node_seq(src, q)[k] == node_seq(src, p0).last());
    assert(0 <= ix[k]);
    assert(q.take(k + 1) =~= p0.push(q[k])) by {
        assert forall|t: int| 0 <= t < k implies q.take(k + 1)[t] == p0.push(q[k])[t] by {
            assert(q.take(k)[t] == q[t]);
        }
    }
    assert(ix.take(k + 1) =~= ix0.push(ix[k])) by {
        assert forall|t: int| 0 <= t < k implies ix.take(k + 1)[t] == ix0.push(ix[k])[t] by {
            assert(ix.take(k)[t] == ix[t]);
        }
    }
}

proof fn lemma_frame_start(
    g: GraphView,
    c: RoutingConstraints,
    src: Seq<char>,
    dst: Seq<char>,
    p0: Seq<EdgeView>,
    ix0: Seq<int>,
    ys: Seq<Seq<EdgeView>>,
    idx0: Seq<Seq<int>>,
)
    requires
        walk_order(g, c, src, ys, idx0),
    ensures
        frame_state(g, c, src, dst, p0, ix0, idx0, ys, idx0, 0),
{
    assert forall|q: Seq<EdgeView>, ix: Seq<int>|
        #[trigger] realizes(g, src, q, ix) && is_route(g, c, src, dst, q) && extends(q, p0) && index_extends(ix, ix0)
            && ix.len() > ix0.len() && ix[ix0.len() as int] < 0 implies settled(c, src, ys, idx0, q, ix) by {
        assert(0 <= ix[ix0.len() as int]);
    }
}

/// The frame's walk and results entering the child at position `i` meet the
/// child's entry conditions.
proof fn lemma_child_entry(
    g: GraphView,
    c: RoutingConstraints,
    src: Seq<char>,
    dst: Seq<char>,
    p0: Seq<EdgeView>,
    ix0: Seq<int>,
    idx0: Seq<Seq<int>>,
    ys: Seq<Seq<EdgeView>>,
    idx: Seq<Seq<int>>,
    i: int,
    out: Seq<EdgeView>,
)
    requires
        frame_state(g, c, src, dst, p0, ix0, idx0, ys, idx, i),
        frame_entry(idx0, c.candidate_pool_size as int, ix0),
        idx0.len() < c.candidate_pool_size,
        realizes(g, src, p0, ix0),
        out == g.outgoing(node_seq(src, p0).last()),
        0 <= i < out.len(),
    ensures
        realizes(g, src, p0.push(out[i]), ix0.push(i)),
        frame_entry(idx, c.candidate_pool_size as int, ix0.push(i)),
{
    let pool = c.candidate_pool_size as int;
    let e = out[i];
    let p1 = p0.push(e);
    let ix1 = ix0.push(i);
    let l0 = idx0.len() as int;
    let k0 = ix0.len() as int;
    assert(node_seq(src, p1) =~= node_seq(src, p0).push(e.dst));
    assert forall|k: int| 0 <= k < p1.len() implies 0 <= #[trigger] ix1[k] < g.outgoing(node_seq(src, p1)[k]).len()
        && g.outgoing(node_seq(src, p1)[k])[ix1[k]] == p1[k] by {
        if k < p0.len() {
            assert(ix1[k] == ix0[k]);
            assert(p1[k] == p0[k]);
            assert(node_seq(src, p1)[k] == node_seq(src, p0)[k]);
        }
    }
    assert(realizes(g, src, p1, ix1));
    assert(ix1.take(k0) =~= ix0);
    assert forall|j: int| 0 <= j < idx.len() implies lex_before(#[trigger] idx[j], ix1) by {
        if j < l0 {
            assert(idx[j] == idx0[j]);
            lemma_lex_lift(idx0[j], ix0, ix1);
        } else {
            assert(idx[j].take(k0) == ix0);
            assert(parts_below(idx[j], ix1, k0));
        }
    }
    assert forall|kk: int, m: int| 0 <= kk < ix1.len() && #[trigger] first_before(idx, ix1.take(kk), m) implies m
        < pool by {
        assert(ix1.take(kk) =~= ix0.take(kk));
        if m > l0 {
            assert(lex_before(idx[l0], ix1.take(kk)));
            lemma_extends_trans(idx[l0], ix0, kk);
            lemma_not_before_frame(idx[l0], ix0.take(kk));
        }
        assert forall|t: int| 0 <= t < m implies lex_before(#[trigger] idx0[t], ix0.take(kk)) by {
            assert(idx[t] == idx0[t]);
        }
        assert(first_before(idx0, ix0.take(kk), m));
        if kk == k0 {
        }
    }
}

/// After the child at position `i` returns, the frame state holds for `i + 1`.
proof fn lemma_child_done(
    g: GraphView,
    c: RoutingConstraints,
    src: Seq<char>,
    dst: Seq<char>,
    p0: Seq<EdgeView>,
    ix0: Seq<int>,
    idx0: Seq<Seq<int>>,
    ys: Seq<Seq<EdgeView>>,
    idx: Seq<Seq<int>>,
    ys2: Seq<Seq<EdgeView>>,
    idx2: Seq<Seq<int>>,
    i: int,
    out: Seq<EdgeView>,
)
    requires
        frame_state(g, c, src, dst, p0, ix0, idx0, ys, idx, i),
        realizes(g, src, p0, ix0),
        out == g.outgoing(node_seq(src, p0).last()),
        0 <= i < out.len(),
        walk_order(g, c, src, ys2, idx2),
        ys.len() <= ys2.len(),
        forall|j: int| 0 <= j < ys.len() ==> #[trigger] ys2[j] == ys[j] && idx2[j] == idx[j],
        forall|j: int| ys.len() <= j < ys2.len() ==> index_extends(#[trigger] idx2[j], ix0.push(i)),
        complete_below(g, c, src, dst, ys2, idx2, p0.push(out[i]), ix0.push(i)),
    ensures
        frame_state(g, c, src, dst, p0, ix0, idx0, ys2, idx2, i + 1),
{
    let k0 = ix0.len() as int;
    let ix1 = ix0.push(i);
    assert(ix1.take(k0) =~= ix0);
    assert forall|j: int| 0 <= j < idx0.len() implies #[trigger] idx2[j] == idx0[j] by {
        assert(idx2[j] == idx[j]);
    }
    assert forall|j: int| idx0.len() <= j < idx2.len() implies index_extends(#[trigger] idx2[j], ix0)
        && idx2[j].len() > ix0.len() && idx2[j][ix0.len() as int] < i + 1 by {
        if j < ys.len() {
            assert(idx2[j] == idx[j]);
        } else {
            lemma_extends_trans(idx2[j], ix1, k0);
            assert(idx2[j].take(k0 + 1)[k0] == idx2[j][k0]);
        }
    }
    assert forall|q: Seq<EdgeView>, ix: Seq<int>|
        #[trigger] realizes(g, src, q, ix) && is_route(g, c, src, dst, q) && extends(q, p0) && index_extends(ix, ix0)
            && ix.len() > ix0.len() && ix[ix0.len() as int] < i + 1 implies settled(c, src, ys2, idx2, q, ix) by {
        if ix[k0] < i {
            lemma_settled_grow(c, src, ys, idx, ys2, idx2, q, ix);
        } else {
            lemma_walk_step(g, src, p0, ix0, out, q, ix);
        }
    }
}

/// Skipping the edge at position `i` (its target already on the path, or not
/// allowed) keeps the frame state: no route continues that way.
proof fn lemma_child_skipped(
    g: GraphView,
    c: RoutingConstraints,
    src: Seq<char>,
    dst: Seq<char>,
    p0: Seq<EdgeView>,
    ix0: Seq<int>,
    idx0: Seq<Seq<int>>,
    ys: Seq<Seq<EdgeView>>,
    idx: Seq<Seq<int>>,
    i: int,
    out: Seq<EdgeView>,
)
    requires
        frame_state(g, c, src, dst, p0, ix0, idx0, ys, idx, i),
        realizes(g, src, p0, ix0),
        out == g.outgoing(node_seq(src, p0).last()),
        0 <= i < out.len(),
        node_seq(src, p0).contains(out[i].dst) || !c.allows(out[i].dst, src, dst),
    ensures
        frame_state(g, c, src, dst, p0, ix0, idx0, ys, idx, i + 1),
{
    let k0 = ix0.len() as int;
    assert forall|q: Seq<EdgeView>, ix: Seq<int>|
        #[trigger] realizes(g, src, q, ix) && is_route(g, c, src, dst, q) && extends(q, p0) && index_extends(ix, ix0)
            && ix.len() > ix0.len() && ix[ix0.len() as int] < i + 1 implies settled(c, src, ys, idx, q, ix) by {
        if ix[k0] == i {
            lemma_walk_step(g, src, p0, ix0, out, q, ix);
            lemma_route_next_edge(g, c, src, dst, p0, q);
        }
    }
}

/// When the frame has tried every outgoing edge, every walk below it is accounted for.
proof fn lemma_frame_done(
    g: GraphView,
    c: RoutingConstraints,
    src: Seq<char>,
    dst: Seq<char>,
    p0: Seq<EdgeView>,
    ix0: Seq<int>,
    idx0: Seq<Seq<int>>,
    ys: Seq<Seq<EdgeView>>,
    idx: Seq<Seq<int>>,
    out: Seq<EdgeView>,
)
    requires
        frame_state(g, c, src, dst, p0, ix0, idx0, ys, idx, out.len() as int),
        realizes(g, src, p0, ix0),
        out == g.outgoing(node_seq(src, p0).last()),
        node_seq(src, p0).last() != dst,
    ensures
        complete_below(g, c, src, dst, ys, idx, p0, ix0),
{
    assert forall|q: Seq<EdgeView>, ix: Seq<int>|
        #[trigger] realizes(g, src, q, ix) && is_route(g, c, src, dst, q) && extends(q, p0) && index_extends(
            ix,
            ix0,
        ) implies settled(c, src, ys, idx, q, ix) by {
        lemma_route_longer(g, c, src, dst, p0, q);
        lemma_walk_step(g, src, p0, ix0, out, q, ix);
    }
}

/// A frame entered once `pool` results or more were found is cut: every walk
/// below it is accounted for by the cut.
proof fn lemma_frame_cut(
    g: GraphView,
    c: RoutingConstraints,
    src: Seq<char>,
    dst: Seq<char>,
    p0: Seq<EdgeView>,
    ix0: Seq<int>,
    ys: Seq<Seq<EdgeView>>,
    idx: Seq<Seq<int>>,
)
    requires
        frame_entry(idx, c.candidate_pool_size as int, ix0),
        idx.len() >= c.candidate_pool_size,
        ix0.len() == p0.len(),
        node_seq(src, p0).last() != dst,
    ensures
        complete_below(g, c, src, dst, ys, idx, p0, ix0),
{
    assert forall|q: Seq<EdgeView>, ix: Seq<int>|
        #[trigger] realizes(g, src, q, ix) && is_route(g, c, src, dst, q) && extends(q, p0) && index_extends(
            ix,
            ix0,
        ) implies settled(c, src, ys, idx, q, ix) by {
        lemma_route_longer(g, c, src, dst, p0, q);
        let k0 = ix0.len() as int;
        assert(ix.take(k0) == ix0);
        assert(first_before(idx, ix.take(k0), idx.len() as int));
    }
}

/// A frame that may take no more edges has no route below it.
proof fn lemma_frame_closed(
    g: GraphView,
    c: RoutingConstraints,
    src: Seq<char>,
    dst: Seq<char>,
    p0: Seq<EdgeView>,
    ix0: Seq<int>,
    ys: Seq<Seq<EdgeView>>,
    idx: Seq<Seq<int>>,
)
    requires
        p0.len() >= c.max_hops,
        node_seq(src, p0).last() != dst,
    ensures
        complete_below(g, c, src, dst, ys, idx, p0, ix0),
{
    assert forall|q: Seq<EdgeView>, ix: Seq<int>|
        #[trigger] realizes(g, src, q, ix) && is_route(g, c, src, dst, q) && extends(q, p0) && index_extends(
            ix,
            ix0,
        ) implies settled(c, src, ys, idx, q, ix) by {
        lemma_route_longer(g, c, src, dst, p0, q);
    }
}

/// At `dst`, the only route below the frame is its own path, whose token
/// sequence is recorded by a result found no later than the frame.
proof fn lemma_frame_dst(
    g: GraphView,
    c: RoutingConstraints,
    src: Seq<char>,
    dst: Seq<char>,
    p0: Seq<EdgeView>,
    ix0: Seq<int>,
    ys: Seq<Seq<EdgeView>>,
    idx: Seq<Seq<int>>,
    tseqs: Seq<Seq<Seq<char>>>,
)
    requires
        found_ok(g, c, src, dst, ys, tseqs),
        idx.len() == ys.len(),
        tseqs.contains(node_seq(src, p0)),
        node_seq(src, p0).last() == dst,
        ix0.len() == p0.len(),
        forall|j: int| 0 <= j < idx.len() ==> lex_before(#[trigger] idx[j], ix0) || idx[j] == ix0,
    ensures
        complete_below(g, c, src, dst, ys, idx, p0, ix0),
{
    assert forall|q: Seq<EdgeView>, ix: Seq<int>|
        #[trigger] realizes(g, src, q, ix) && is_route(g, c, src, dst, q) && extends(q, p0) && index_extends(
            ix,
            ix0,
        ) implies settled(c, src, ys, idx, q, ix) by {
        lemma_route_stops_at_dst(g, c, src, dst, p0, q);
        assert(ix =~= ix.take(ix0.len() as int));
        let j = choose|j: int| 0 <= j < tseqs.len() && tseqs[j] == node_seq(src, p0);
        if lex_before(idx[j], ix0) {
            lemma_lex_asym(idx[j], ix0);
        } else {
            lemma_lex_irrefl(ix0);
        }
        assert(met_at(src, ys, idx, q, ix, j));
    }
}

/// Depth-first search from `current`, the end of `path`, for routes to `dst`;
/// each route whose token sequence is new is recorded. `ix0` is the walk that
/// reached this frame and `idx0` the walks of the results found before it;
/// the walks of all results are returned.
fn dfs(
    rg: &RoutingGraph,
    current: &String,
    dst: &String,
    path: &mut Vec<Edge>,
    visited: &mut Vec<String>,
    paths: &mut Vec<Vec<Edge>>,
    visited_paths: &mut Vec<Vec<String>>,
    constraints: &RoutingConstraints,
    src: &String,
    Ghost(ix0): Ghost<Seq<int>>,
    Ghost(idx0): Ghost<Seq<Seq<int>>>,
) -> (idx1: Ghost<Seq<Seq<int>>>)
    requires
        rg.wf(),
        partial_route(rg@, *constraints, src@, dst@, edge_views(old(path)@)),
        string_views(old(visited)@) == node_seq(src@, edge_views(old(path)@)),
        current@ == node_seq(src@, edge_views(old(path)@)).last(),
        found_ok(rg@, *constraints, src@, dst@, path_views(old(paths)@), token_seqs(old(visited_paths)@)),
        realizes(rg@, src@, edge_views(old(path)@), ix0),
        walk_order(rg@, *constraints, src@, path_views(old(paths)@), idx0),
        frame_entry(idx0, constraints.candidate_pool_size as int, ix0),
    ensures
        final(path)@ == old(path)@,
        final(visited)@ == old(visited)@,
        found_ok(rg@, *constraints, src@, dst@, path_views(final(paths)@), token_seqs(final(visited_paths)@)),
        old(paths)@.len() <= final(paths)@.len(),
        forall|i: int| 0 <= i < old(paths)@.len() ==> #[trigger] final(paths)@[i] == old(paths)@[i],
        forall|i: int| 0 <= i < old(visited_paths)@.len() ==> #[trigger] final(visited_paths)@[i] == old(visited_paths)@[i],
        old(visited_paths)@.len() <= final(visited_paths)@.len(),
        current@ != dst@ && old(paths)@.len() >= constraints.candidate_pool_size ==> final(paths)@.len()
            == old(paths)@.len(),
        current@ != dst@ && old(paths)@.len() < constraints.candidate_pool_size ==> final(paths)@.len()
            <= constraints.candidate_pool_size + constraints.max_hops - old(path)@.len(),
        current@ == dst@ ==> final(paths)@.len() <= old(paths)@.len() + 1,
        current@ == dst@ ==> token_seqs(final(visited_paths)@).contains(
            node_seq(src@, edge_views(old(path)@)),
        ),
        current@ == dst@ && final(paths)@.len() > old(paths)@.len() ==> !token_seqs(
            old(visited_paths)@,
        ).contains(node_seq(src@, edge_views(old(path)@))),
        walk_order(rg@, *constraints, src@, path_views(final(paths)@), idx1@),
        forall|j: int| 0 <= j < old(paths)@.len() ==> #[trigger] idx1@[j] == idx0[j],
        forall|j: int| old(paths)@.len() <= j < final(paths)@.len() ==> index_extends(#[trigger] idx1@[j], ix0),
        complete_below(
            rg@,
            *constraints,
            src@,
            dst@,
            path_views(final(paths)@),
            idx1@,
            edge_views(old(path)@),
            ix0,
        ),
    decreases constraints.max_hops - old(path)@.len(),
{
    let ghost g = rg@;
    let ghost c = *constraints;
    let ghost p0 = edge_views(path@);
    let ghost ns = node_seq(src@, p0);
    let ghost l0 = idx0.len() as int;
    if *current == *dst {
        let np = clone_strings(visited);
        let ghost mut idx1 = idx0;
        if !contains_token_seq(visited_paths, &np) {
            let ghost before = path_views(paths@);
            let ghost before_nodes = token_seqs(visited_paths@);
            visited_paths.push(np);
            paths.push(clone_path(path));
            proof {
                assert(path_views(paths@) =~= before.push(p0));
                assert(token_seqs(visited_paths@) =~= before_nodes.push(ns));
                assert(token_seqs(visited_paths@)[before_nodes.len() as int] == ns);
                assert forall|i: int, j: int|
                    0 <= i < path_views(paths@).len() && 0 <= j < path_views(paths@).len() && i != j implies node_seq(
                    src@,
                    path_views(paths@)[i],
                ) != node_seq(src@, path_views(paths@)[j]) by {
                    if i == before.len() {
                        assert(before_nodes[j] == node_seq(src@, before[j]));
                    } else if j == before.len() {
                        assert(before_nodes[i] == node_seq(src@, before[i]));
                    }
                }
                lemma_walk_push(g, c, src@, before, idx0, p0, ix0);
                idx1 = idx0.push(ix0);
                assert(ix0.take(ix0.len() as int) =~= ix0);
            }
        }
        proof {
            assert(token_seqs(visited_paths@).contains(ns));
            assert forall|j: int| 0 <= j < idx1.len() implies lex_before(#[trigger] idx1[j], ix0) || idx1[j] == ix0 by {
                if j < l0 {
                    assert(idx1[j] == idx0[j]);
                }
            }
            lemma_frame_dst(g, c, src@, dst@, p0, ix0, path_views(paths@), idx1, token_seqs(visited_paths@));
        }
        return Ghost(idx1);
    }
    if path.len() >= constraints.max_hops {
        proof {
            lemma_frame_closed(g, c, src@, dst@, p0, ix0, path_views(paths@), idx0);
        }
        return Ghost(idx0);
    }
    if paths.len() >= constraints.candidate_pool_size {
        proof {
            lemma_frame_cut(g, c, src@, dst@, p0, ix0, path_views(paths@), idx0);
        }
        return Ghost(idx0);
    }
    let out = rg.outgoing(current.as_str());
    let n = out.len();
    let mut i: usize = 0;
    let ghost mut idx = idx0;
    proof {
        lemma_frame_start(g, c, src@, dst@, p0, ix0, path_views(paths@), idx0);
    }
    while i < n
        invariant
            frame_state(g, c, src@, dst@, p0, ix0, idx0, path_views(paths@), idx, i as int),
            realizes(g, src@, p0, ix0),
            frame_entry(idx0, c.candidate_pool_size as int, ix0),
            l0 == idx0.len(),
            l0 == old(paths)@.len(),
            rg.wf(),
            g == rg@,
            c == *constraints,
            n == out@.len(),
            edge_views(out@) == g.outgoing(current@),
            i <= n,
            p0 == edge_views(path@),
            ns == node_seq(src@, p0),
            string_views(visited@) == ns,
            current@ == ns.last(),
            partial_route(g, c, src@, dst@, p0),
            p0.len() < c.max_hops,
            found_ok(g, c, src@, dst@, path_views(paths@), token_seqs(visited_paths@)),
            old(paths)@.len() <= paths@.len(),
            forall|j: int| 0 <= j < old(paths)@.len() ==> #[trigger] paths@[j] == old(paths)@[j],
            path@ == old(path)@,
            visited@ == old(visited)@,
            forall|j: int| 0 <= j < old(visited_paths)@.len() ==> #[trigger] visited_paths@[j] == old(visited_paths)@[j],
            old(visited_paths)@.len() <= visited_paths@.len(),
            current@ != dst@,
            old(paths)@.len() < c.candidate_pool_size,
            paths@.len() <= c.candidate_pool_size + c.max_hops - p0.len() - 1 + (if token_seqs(
                visited_paths@,
            ).contains(ns.push(dst@)) {
                1int
            } else {
                0int
            }),
        decreases n - i,
    {
        let edge = &out[i];
        let ghost vp_before = visited_paths@;
        let ghost len_before = paths@.len();
        let ghost pv_before = path_views(paths@);
        let ghost idx_before = idx;
        let ghost paths_before = paths@;
        let ghost outv = edge_views(out@);
        assert(outv[i as int] == edge@);
        if !contains_token(visited, &edge.dst) && constraints.is_allowed(&edge.dst, src, dst) {
            let ghost p1 = p0.push(edge@);
            visited.push(edge.dst.clone());
            path.push(edge.clone());
            proof {
                assert(edge_views(path@) =~= p1);
                assert(string_views(visited@) =~= ns.push(edge.dst@));
                assert(g.outgoing(current@)[i as int] == edge@);
                lemma_extend_partial(g, c, src@, dst@, p0, edge@);
                lemma_child_entry(g, c, src@, dst@, p0, ix0, idx0, pv_before, idx, i as int, outv);
            }
            let Ghost(idx_child) = dfs(
                rg,
                &edge.dst,
                dst,
                path,
                visited,
                paths,
                visited_paths,
                constraints,
                src,
                Ghost(ix0.push(i as int)),
                Ghost(idx),
            );
            path.pop();
            visited.pop();
            proof {
                assert(path@ =~= old(path)@);
                assert(visited@ =~= old(visited)@);
                assert(node_seq(src@, p1) =~= ns.push(edge@.dst));
                lemma_cap_step(
                    c.candidate_pool_size + c.max_hops - p0.len(),
                    c.candidate_pool_size as int,
                    len_before as int,
                    paths@.len() as int,
                    token_seqs(vp_before),
                    token_seqs(visited_paths@),
                    ns.push(dst@),
                );
                assert forall|j: int| 0 <= j < pv_before.len() implies #[trigger] path_views(paths@)[j]
                    == pv_before[j] && idx_child[j] == idx_before[j] by {
                    assert(paths@[j] == paths_before[j]);
                }
                lemma_child_done(
                    g,
                    c,
                    src@,
                    dst@,
                    p0,
                    ix0,
                    idx0,
                    pv_before,
                    idx_before,
                    path_views(paths@),
                    idx_child,
                    i as int,
                    outv,
                );
                idx = idx_child;
            }
        } else {
            proof {
                lemma_cap_step(
                    c.candidate_pool_size + c.max_hops - p0.len(),
                    c.candidate_pool_size as int,
                    len_before as int,
                    paths@.len() as int,
                    token_seqs(vp_before),
                    token_seqs(visited_paths@),
                    ns.push(dst@),
                );
                lemma_child_skipped(g, c, src@, dst@, p0, ix0, idx0, pv_before, idx, i as int, outv);
            }
        }
        i += 1;
    }
    proof {
        lemma_frame_done(g, c, src@, dst@, p0, ix0, idx0, path_views(paths@), idx, edge_views(out@));
    }
    Ghost(idx)
}

/// One child of a search frame keeps the bound on the number of paths found:
/// `S - 1`, plus one once the frame's own route to `dst` is recorded.
proof fn lemma_cap_step(
    bound: int,
    size: int,
    before: int,
    after: int,
    tb: Seq<Seq<Seq<char>>>,
    ta: Seq<Seq<Seq<char>>>,
    t: Seq<Seq<char>>,
)
    requires
        tb.len() <= ta.len(),
        forall|m: int| 0 <= m < tb.len() ==> #[trigger] ta[m] == tb[m],
        before <= bound - 1 + (if tb.contains(t) {
            1int
        } else {
            0int
        }),
        after == before || (before < size && after <= bound - 1) || (after <= before + 1 && !tb.contains(t)
            && ta.contains(t)),
    ensures
        after <= bound - 1 + (if ta.contains(t) {
            1int
        } else {
            0int
        }),
{
    if tb.contains(t) {
        let m = choose|m: int| 0 <= m < tb.len() && tb[m] == t;
        assert(ta[m] == t);
    }
}

/// `p` is a non-empty chain of stored edge records from `src` to `dst`: the
/// first edge leaves `src`, each edge starts where the one before it ends,
/// and the last one arrives at `dst`.
pub open spec fn route_chain(g: GraphView, src: Seq<char>, dst: Seq<char>, p: Seq<EdgeView>) -> bool {
    &&& p.len() > 0
    &&& p[0].src == src
    &&& p.last().dst == dst
    &&& forall|k: int| 0 <= k < p.len() - 1 ==> #[trigger] p[k].dst == p[k + 1].src
    &&& forall|k: int| 0 <= k < p.len() ==> g.edges.contains(#[trigger] p[k])
}

/// Every route has a walk: each of its edges stands somewhere in the outgoing
/// list of the token it leaves.
proof fn lemma_route_walk(g: GraphView, c: RoutingConstraints, src: Seq<char>, dst: Seq<char>, q: Seq<EdgeView>)
    requires
        is_route(g, c, src, dst, q),
    ensures
        exists|ix: Seq<int>| realizes(g, src, q, ix),
{
    let ns = node_seq(src, q);
    let ix = Seq::new(
        q.len(),
        |k: int| choose|a: int| 0 <= a < g.outgoing(ns[k]).len() && g.outgoing(ns[k])[a] == q[k],
    );
    assert forall|k: int| 0 <= k < q.len() implies 0 <= #[trigger] ix[k] < g.outgoing(ns[k]).len() && g.outgoing(
        ns[k],
    )[ix[k]] == q[k] by {
        assert(g.outgoing(ns[k]).contains(q[k]));
    }
    assert(realizes(g, src, q, ix));
}

/// No route with the token sequence of a result is walked before it: such a
/// walk would have recorded that sequence first, or been cut at a frame whose
/// counterpart above the result was entered no earlier.
proof fn lemma_earliest(
    g: GraphView,
    c: RoutingConstraints,
    src: Seq<char>,
    dst: Seq<char>,
    ys: Seq<Seq<EdgeView>>,
    idx: Seq<Seq<int>>,
    i: int,
    q: Seq<EdgeView>,
    ix: Seq<int>,
)
    requires
        walk_order(g, c, src, ys, idx),
        routes_distinct(g, c, src, dst, ys),
        0 <= i < ys.len(),
        realizes(g, src, q, ix),
        settled(c, src, ys, idx, q, ix),
        lex_before(ix, idx[i]),
    ensures
        node_seq(src, q) != node_seq(src, ys[i]),
{
    let pool = c.candidate_pool_size as int;
    if node_seq(src, q) == node_seq(src, ys[i]) {
        assert(node_seq(src, q).len() == q.len() + 1);
        assert(node_seq(src, ys[i]).len() == ys[i].len() + 1);
        assert(realizes(g, src, ys[i], idx[i]));
        if exists|j: int| #[trigger] met_at(src, ys, idx, q, ix, j) {
            let j = choose|j: int| #[trigger] met_at(src, ys, idx, q, ix, j);
            assert(j == i);
        } else {
            let (kk, m) = choose|kk: int, m: int|
                0 <= kk < ix.len() && pool <= m && #[trigger] first_before(idx, ix.take(kk), m);
            let p = choose|k: int| parts_below(ix, idx[i], k);
            let y = idx[i];
            assert(frames_open(idx, pool, y));
            if kk <= p {
                assert(ix.take(kk) =~= ix.take(p).take(kk));
                assert(y.take(kk) =~= y.take(p).take(kk));
                assert(first_before(idx, y.take(kk), m));
            } else {
                let f = ix.take(kk);
                let h = y.take(kk);
                assert(f.take(p) =~= ix.take(p));
                assert(h.take(p) =~= y.take(p));
                assert(parts_below(f, h, p));
                assert forall|t: int| 0 <= t < m implies lex_before(#[trigger] idx[t], h) by {
                    assert(lex_before(idx[t], f));
                    lemma_lex_trans(idx[t], f, h);
                }
                assert(first_before(idx, h, m));
            }
        }
    }
}

proof fn lemma_search_done(
    g: GraphView,
    c: RoutingConstraints,
    src: Seq<char>,
    dst: Seq<char>,
    ps: Seq<Seq<EdgeView>>,
    tseqs: Seq<Seq<Seq<char>>>,
    idx: Seq<Seq<int>>,
)
    requires
        g.wf(),
        found_ok(g, c, src, dst, ps, tseqs),
        walk_order(g, c, src, ps, idx),
        complete_below(g, c, src, dst, ps, idx, Seq::<EdgeView>::empty(), Seq::<int>::empty()),
        src != dst && c.candidate_pool_size == 0 ==> ps.len() == 0,
        src != dst && c.candidate_pool_size > 0 ==> ps.len() <= c.candidate_pool_size + c.max_hops,
        src == dst ==> ps.len() <= 1,
        src == dst ==> tseqs.contains(node_seq(src, Seq::<EdgeView>::empty())),
    ensures
        search_result(g, c, src, dst, ps),
        src != dst ==> forall|i: int| 0 <= i < ps.len() ==> route_chain(g, src, dst, #[trigger] ps[i]),
{
    let empty = Seq::<EdgeView>::empty();
    let none = Seq::<int>::empty();
    assert forall|i: int| 0 <= i < ps.len() implies {
        &&& (ps[i].len() == 0 <==> src == dst)
        &&& (src != dst ==> route_chain(g, src, dst, #[trigger] ps[i]))
    } by {
        lemma_route_shape(g, c, src, dst, ps[i]);
    }
    if src == dst {
        assert(ps.len() == 1);
    }
    assert forall|q: Seq<EdgeView>, ix: Seq<int>|
        #[trigger] realizes(g, src, q, ix) && is_route(g, c, src, dst, q) implies settled(c, src, ps, idx, q, ix) by {
        assert(q.take(0) =~= empty);
        assert(ix.take(0) =~= none);
    }
    assert forall|i: int, q: Seq<EdgeView>, ix: Seq<int>|
        #![trigger realizes(g, src, q, ix), ps[i]]
        0 <= i < ps.len() && realizes(g, src, q, ix) && is_route(g, c, src, dst, q) && lex_before(ix, idx[i])
            implies node_seq(src, q) != node_seq(src, ps[i]) by {
        lemma_earliest(g, c, src, dst, ps, idx, i, q, ix);
    }
    assert(search_trace(g, c, src, dst, ps, idx));
    if ps.len() < c.candidate_pool_size {
        assert forall|q: Seq<EdgeView>| #[trigger] is_route(g, c, src, dst, q) implies exists|i: int|
            0 <= i < ps.len() && node_seq(src, ps[i]) == node_seq(src, q) by {
            lemma_route_walk(g, c, src, dst, q);
            let ix = choose|ix: Seq<int>| realizes(g, src, q, ix);
            assert(settled(c, src, ps, idx, q, ix));
            if exists|j: int| #[trigger] met_at(src, ps, idx, q, ix, j) {
                let j = choose|j: int| #[trigger] met_at(src, ps, idx, q, ix, j);
                assert(node_seq(src, ps[j]) == node_seq(src, q));
            } else {
                let (kk, m) = choose|kk: int, m: int|
                    0 <= kk < ix.len() && c.candidate_pool_size as int <= m && #[trigger] first_before(
                        idx,
                        ix.take(kk),
                        m,
                    );
                assert(false);
            }
        }
    }
}

/// Routes from `src` to `dst` found by a depth-first search over the graph's
/// adjacency order. Every path returned is a route (it follows the graph,
/// ends at `dst`, has at most `max_hops` edges, visits no token twice, and its
/// intermediate tokens are allowed), and no two visit the same token sequence.
/// They come in the order the search walks them, each token's outgoing edges
/// tried in the graph's adjacency order (`search_trace`, with the walk of each
/// result as positions in those lists).
/// A frame entered once `candidate_pool_size` paths are found does not
/// descend, so the search returns at most `candidate_pool_size + max_hops`
/// paths (the frames still open may each record their own route to `dst`).
/// Every walk of a route either meets a result with its token sequence no
/// later than itself, or lies below such a cut frame; so when fewer than
/// `candidate_pool_size` paths are found, every route is found, up to its
/// token sequence. Of routes with the same token sequence, the one returned is
/// the first the search walks. From `src` to itself it returns the empty route
/// alone.
pub fn yen_k_paths(rg: &RoutingGraph, src: &str, dst: &str, constraints: &RoutingConstraints) -> (r: Vec<
    Vec<Edge>,
>)
    requires
        rg.wf(),
    ensures
        search_result(rg@, *constraints, src@, dst@, path_views(r@)),
        src@ != dst@ ==> forall|i: int|
            0 <= i < r@.len() ==> route_chain(rg@, src@, dst@, #[trigger] path_views(r@)[i]),
{
    let s: String = src.to_owned();
    let d: String = dst.to_owned();
    let mut paths: Vec<Vec<Edge>> = Vec::new();
    let mut visited_paths: Vec<Vec<String>> = Vec::new();
    let mut visited: Vec<String> = Vec::new();
    visited.push(s.clone());
    let mut path: Vec<Edge> = Vec::new();
    proof {
        let p0 = edge_views(path@);
        assert(p0 =~= Seq::<EdgeView>::empty());
        assert(node_seq(src@, p0) =~= seq![src@]);
        assert(string_views(visited@) =~= seq![src@]);
        assert(path_views(paths@) =~= Seq::<Seq<EdgeView>>::empty());
        assert(token_seqs(visited_paths@) =~= Seq::<Seq<Seq<char>>>::empty());
    }
    let ghost empty = edge_views(path@);
    proof {
        assert(realizes(rg@, src@, empty, Seq::<int>::empty()));
        assert(walk_order(rg@, *constraints, src@, path_views(paths@), Seq::<Seq<int>>::empty()));
        assert(frame_entry(Seq::<Seq<int>>::empty(), constraints.candidate_pool_size as int, Seq::<int>::empty()));
    }
    let Ghost(idx) = dfs(
        rg,
        &s,
        &d,
        &mut path,
        &mut visited,
        &mut paths,
        &mut visited_paths,
        constraints,
        &s,
        Ghost(Seq::<int>::empty()),
        Ghost(Seq::<Seq<int>>::empty()),
    );
    proof {
        rg.lemma_view_wf();
        assert(empty =~= Seq::<EdgeView>::empty());
        lemma_search_done(rg@, *constraints, src@, dst@, path_views(paths@), token_seqs(visited_paths@), idx);
    }
    paths
}

/// The single-edge paths made of the records in `es` from `src` to `dst`, in order.
pub open spec fn direct_paths(es: Seq<EdgeView>, src: Seq<char>, dst: Seq<char>) -> Seq<Seq<EdgeView>>
    decreases es.len(),
{
    if es.len() == 0 {
        Seq::empty()
    } else {
        let r = direct_paths(es.drop_last(), src, dst);
        if es.last().src == src && es.last().dst == dst {
            r.push(seq![es.last()])
        } else {
            r
        }
    }
}

/// The first `n` elements of `s` (all of them when it is shorter).
pub open spec fn first_n<A>(s: Seq<A>, n: nat) -> Seq<A> {
    if s.len() <= n {
        s
    } else {
        s.take(n as int)
    }
}

/// The paths of `ps` that are routes, in order.
pub open spec fn route_filter(
    g: GraphView,
    c: RoutingConstraints,
    src: Seq<char>,
    dst: Seq<char>,
    ps: Seq<Seq<EdgeView>>,
) -> Seq<Seq<EdgeView>>
    decreases ps.len(),
{
    if ps.len() == 0 {
        Seq::empty()
    } else {
        let r = route_filter(g, c, src, dst, ps.drop_last());
        if is_route(g, c, src, dst, ps.last()) {
            r.push(ps.last())
        } else {
            r
        }
    }
}

/// The candidates before the search: every direct edge from `src` to `dst`,
/// then the streamed paths that are routes, then the baseline path when it is
/// a non-empty route.
pub open spec fn seed_candidates(
    g: GraphView,
    c: RoutingConstraints,
    src: Seq<char>,
    dst: Seq<char>,
    streaming: Seq<Seq<EdgeView>>,
    baseline: Seq<EdgeView>,
) -> Seq<Seq<EdgeView>> {
    direct_paths(g.edges, src, dst) + route_filter(g, c, src, dst, streaming) + (if baseline.len() > 0
        && is_route(g, c, src, dst, baseline) {
        seq![baseline]
    } else {
        Seq::empty()
    })
}

/// What the depth-first search may return: distinct routes, found by walks
/// that satisfy `search_trace`, every route up to its token sequence when
/// fewer than `candidate_pool_size`,
/// at most `candidate_pool_size + max_hops` of them, and the empty route alone
/// from a token to itself.
pub open spec fn search_result(
    g: GraphView,
    c: RoutingConstraints,
    src: Seq<char>,
    dst: Seq<char>,
    ys: Seq<Seq<EdgeView>>,
) -> bool {
    &&& routes_distinct(g, c, src, dst, ys)
    &&& exists|idx: Seq<Seq<int>>| #[trigger] search_trace(g, c, src, dst, ys, idx)
    &&& ys.len() < c.candidate_pool_size ==> forall|q: Seq<EdgeView>|
        #[trigger] is_route(g, c, src, dst, q) ==> exists|i: int|
            0 <= i < ys.len() && node_seq(src, ys[i]) == node_seq(src, q)
    &&& src != dst ==> ys.len() <= c.candidate_pool_size + c.max_hops
    &&& src == dst ==> ys.len() == 1 && ys[0].len() == 0
}

proof fn lemma_direct_paths(es: Seq<EdgeView>, src: Seq<char>, dst: Seq<char>)
    ensures
        forall|q: Seq<EdgeView>|
            #[trigger] direct_paths(es, src, dst).contains(q) ==> q.len() == 1 && es.contains(q[0]) && q[0].src
                == src && q[0].dst == dst,
    decreases es.len(),
{
    if es.len() > 0 {
        lemma_direct_paths(es.drop_last(), src, dst);
        let r = direct_paths(es.drop_last(), src, dst);
        assert forall|q: Seq<EdgeView>| #[trigger] direct_paths(es, src, dst).contains(q) implies q.len() == 1
            && es.contains(q[0]) && q[0].src == src && q[0].dst == dst by {
            let d = direct_paths(es, src, dst);
            let k = choose|k: int| 0 <= k < d.len() && d[k] == q;
            if k < r.len() {
                assert(r.contains(q));
                let m = choose|m: int| 0 <= m < es.drop_last().len() && es.drop_last()[m] == q[0];
                assert(es[m] == q[0]);
            } else {
                assert(q == seq![es.last()]);
                assert(es[es.len() - 1] == q[0]);
            }
        }
    }
}

proof fn lemma_direct_paths_distinct(es: Seq<EdgeView>, src: Seq<char>, dst: Seq<char>)
    requires
        keys_unique(es),
    ensures
        keys_distinct(direct_paths(es, src, dst)),
    decreases es.len(),
{
    if es.len() > 0 {
        let init = es.drop_last();
        assert(keys_unique(init)) by {
            assert forall|i: int, j: int| 0 <= i < init.len() && 0 <= j < init.len() && i != j implies init[i].key()
                != init[j].key() by {
                assert(init[i] == es[i] && init[j] == es[j]);
            }
        }
        lemma_direct_paths_distinct(init, src, dst);
        lemma_direct_paths(init, src, dst);
        let r = direct_paths(init, src, dst);
        let d = direct_paths(es, src, dst);
        if es.last().src == src && es.last().dst == dst {
            let x = seq![es.last()];
            assert forall|i: int, j: int| 0 <= i < d.len() && 0 <= j < d.len() && i != j implies path_key(d[i])
                != path_key(d[j]) by {
                if i == r.len() || j == r.len() {
                    let o = if i == r.len() { j } else { i };
                    assert(r.contains(r[o]));
                    let m = choose|m: int| 0 <= m < init.len() && init[m] == r[o][0];
                    assert(es[m] == init[m]);
                    assert(path_key(r[o])[0] == r[o][0].key());
                    assert(path_key(x)[0] == es.last().key());
                    assert(es[es.len() - 1].key() != es[m].key());
                }
            }
        }
    }
}

/// Law: filtering for routes keeps exactly the routes of its input: every
/// path kept is a path of the input and a route, every route of the input is
/// kept, and nothing more is kept than the input holds.
pub proof fn lemma_route_filter(
    g: GraphView,
    c: RoutingConstraints,
    src: Seq<char>,
    dst: Seq<char>,
    ps: Seq<Seq<EdgeView>>,
)
    ensures
        forall|q: Seq<EdgeView>|
            #[trigger] route_filter(g, c, src, dst, ps).contains(q) ==> is_route(g, c, src, dst, q) && ps.contains(q),
        forall|i: int|
            0 <= i < ps.len() && is_route(g, c, src, dst, ps[i]) ==> #[trigger] route_filter(g, c, src, dst, ps).contains(
                ps[i],
            ),
        route_filter(g, c, src, dst, ps).len() <= ps.len(),
    decreases ps.len(),
{
    if ps.len() > 0 {
        let init = ps.drop_last();
        lemma_route_filter(g, c, src, dst, init);
        let r = route_filter(g, c, src, dst, ps.drop_last());
        let f = route_filter(g, c, src, dst, ps);
        assert forall|i: int| 0 <= i < ps.len() && is_route(g, c, src, dst, ps[i]) implies #[trigger] f.contains(
            ps[i],
        ) by {
            if i < init.len() {
                assert(init[i] == ps[i]);
                assert(r.contains(init[i]));
                let k = choose|k: int| 0 <= k < r.len() && r[k] == init[i];
                assert(f[k] == r[k]);
            } else {
                assert(f[r.len() as int] == ps[i]);
            }
        }
        assert forall|q: Seq<EdgeView>| #[trigger] route_filter(g, c, src, dst, ps).contains(q) implies is_route(
            g,
            c,
            src,
            dst,
            q,
        ) && ps.contains(q) by {
            let k = choose|k: int| 0 <= k < f.len() && f[k] == q;
            if k < r.len() {
                assert(r[k] == q);
                assert(r.contains(q));
                let m = choose|m: int| 0 <= m < init.len() && init[m] == q;
                assert(ps[m] == q);
            } else {
                assert(ps[ps.len() - 1] == q);
            }
        }
    }
}

/// Duplicate removal on `a + b` begins with duplicate removal on `a`.
proof fn lemma_dedupe_prefix(a: Seq<Seq<EdgeView>>, b: Seq<Seq<EdgeView>>)
    ensures
        dedupe_spec(a).len() <= dedupe_spec(a + b).len(),
        forall|i: int| 0 <= i < dedupe_spec(a).len() ==> #[trigger] dedupe_spec(a + b)[i] == dedupe_spec(a)[i],
    decreases b.len(),
{
    if b.len() == 0 {
        assert(a + b =~= a);
    } else {
        let b0 = b.drop_last();
        lemma_dedupe_prefix(a, b0);
        assert((a + b).drop_last() =~= a + b0);
    }
}

#[verifier::spinoff_prover]
#[verifier::rlimit(40)]
proof fn lemma_candidates_shape(
    g: GraphView,
    c: RoutingConstraints,
    src: Seq<char>,
    dst: Seq<char>,
    sv: Seq<Seq<EdgeView>>,
    bv: Seq<EdgeView>,
    extra: Seq<Seq<EdgeView>>,
    mc: nat,
)
    requires
        g.wf(),
        routes_distinct(g, c, src, dst, extra),
    ensures
        ({
            let rv = first_n(dedupe_spec(seed_candidates(g, c, src, dst, sv, bv) + extra), mc);
            let direct = direct_paths(g.edges, src, dst);
            &&& rv.len() <= mc
            &&& keys_distinct(rv)
            &&& forall|q: Seq<EdgeView>|
                #[trigger] rv.contains(q) ==> is_route(g, c, src, dst, q) || (q.len() == 1 && g.edges.contains(
                    q[0],
                ) && q[0].src == src && q[0].dst == dst)
            &&& forall|i: int| 0 <= i < direct.len() && i < mc ==> #[trigger] rv[i] == direct[i]
        }),
{
    let direct = direct_paths(g.edges, src, dst);
    let rest = route_filter(g, c, src, dst, sv) + (if bv.len() > 0 && is_route(g, c, src, dst, bv) {
        seq![bv]
    } else {
        Seq::empty()
    });
    let seeds = seed_candidates(g, c, src, dst, sv, bv);
    let all = seeds + extra;
    assert(all =~= direct + (rest + extra));
    let dd = dedupe_spec(all);
    let rv = first_n(dd, mc);
    lemma_dedupe(all);
    lemma_direct_paths(g.edges, src, dst);
    lemma_route_filter(g, c, src, dst, sv);
    lemma_direct_paths_distinct(g.edges, src, dst);
    lemma_dedupe_idempotent_distinct(direct);
    lemma_dedupe_prefix(direct, rest + extra);
    assert forall|a: int, b: int| 0 <= a < rv.len() && 0 <= b < rv.len() && a != b implies path_key(rv[a]) != path_key(
        rv[b],
    ) by {
        assert(rv[a] == dd[a] && rv[b] == dd[b]);
    }
    assert forall|q: Seq<EdgeView>| #[trigger] rv.contains(q) implies is_route(g, c, src, dst, q) || (q.len() == 1
        && g.edges.contains(q[0]) && q[0].src == src && q[0].dst == dst) by {
        let a = choose|a: int| 0 <= a < rv.len() && rv[a] == q;
        assert(dd[a] == q);
        assert(dd.contains(q));
        assert(all.contains(q));
        let m = choose|m: int| 0 <= m < all.len() && all[m] == q;
        let rf = route_filter(g, c, src, dst, sv);
        if m < direct.len() {
            assert(direct[m] == q);
            assert(direct.contains(q));
        } else if m < direct.len() + rf.len() {
            assert(rf[m - direct.len()] == q);
            assert(rf.contains(q));
        } else if m < seeds.len() {
        } else {
            assert(extra[m - seeds.len()] == q);
        }
    }
    assert forall|i: int| 0 <= i < direct.len() && i < mc implies #[trigger] rv[i] == direct[i] by {
        assert(dd[i] == direct[i]);
    }
}

fn same_edge(a: &Edge, b: &Edge) -> (r: bool)
    ensures
        r == (a@ == b@),
{
    a.src == b.src && a.dst == b.dst && a.pool_id == b.pool_id && a.name == b.name
}

fn contains_edge(es: &Vec<Edge>, e: &Edge) -> (r: bool)
    ensures
        r == edge_views(es@).contains(e@),
{
    let n = es.len();
    let mut i: usize = 0;
    while i < n
        invariant
            n == es@.len(),
            i <= n,
            forall|j: int| 0 <= j < i ==> es@[j]@ != e@,
        decreases n - i,
    {
        if same_edge(&es[i], e) {
            assert(edge_views(es@)[i as int] == e@);
            return true;
        }
        i += 1;
    }
    assert(!edge_views(es@).contains(e@)) by {
        if edge_views(es@).contains(e@) {
            let j = choose|j: int| 0 <= j < n && edge_views(es@)[j] == e@;
            assert(es@[j]@ == e@);
        }
    }
    false
}

proof fn lemma_node_seq_take(src: Seq<char>, p: Seq<EdgeView>, k: int)
    requires
        0 <= k <= p.len(),
    ensures
        node_seq(src, p.take(k)).len() == k + 1,
        forall|j: int| 0 <= j <= k ==> #[trigger] node_seq(src, p.take(k))[j] == node_seq(src, p)[j],
{
    assert forall|j: int| 0 <= j <= k implies #[trigger] node_seq(src, p.take(k))[j] == node_seq(src, p)[j] by {
        if j > 0 {
            assert(p.take(k)[j - 1] == p[j - 1]);
        }
    }
}

/// Whether `p` is a route from `src` to `dst` under `constraints`.
#[verifier::spinoff_prover]
#[verifier::rlimit(40)]
pub fn check_route(
    rg: &RoutingGraph,
    p: &Vec<Edge>,
    src: &String,
    dst: &String,
    constraints: &RoutingConstraints,
) -> (b: bool)
    requires
        rg.wf(),
    ensures
        b == is_route(rg@, *constraints, src@, dst@, edge_views(p@)),
{
    let ghost g = rg@;
    let ghost c = *constraints;
    let ghost pv = edge_views(p@);
    let ghost ns = node_seq(src@, pv);
    let n = p.len();
    if n > constraints.max_hops {
        return false;
    }
    let mut visited: Vec<String> = Vec::new();
    visited.push(src.clone());
    let mut cur: String = src.clone();
    let mut k: usize = 0;
    proof {
        assert(string_views(visited@) =~= seq![src@]);
        lemma_node_seq_take(src@, pv, 0);
        assert(node_seq(src@, pv.take(0)) =~= seq![src@]);
    }
    while k < n
        invariant
            rg.wf(),
            g == rg@,
            c == *constraints,
            n == p@.len(),
            pv == edge_views(p@),
            ns == node_seq(src@, pv),
            k <= n,
            string_views(visited@) == ns.take(k + 1),
            cur@ == ns[k as int],
            forall|j: int| 0 <= j < k ==> g.outgoing(ns[j]).contains(#[trigger] pv[j]),
            tokens_unique(ns.take(k + 1)),
            forall|j: int| 1 <= j <= k ==> c.allows(#[trigger] ns[j], src@, dst@),
        decreases n - k,
    {
        let e = &p[k];
        assert(pv[k as int] == e@);
        assert(ns[k + 1] == e@.dst);
        let out = rg.outgoing(cur.as_str());
        if !contains_edge(&out, e) {
            return false;
        }
        if contains_token(&visited, &e.dst) {
            proof {
                let j = choose|j: int| 0 <= j < k + 1 && string_views(visited@)[j] == e.dst@;
                assert(ns[j] == ns[k + 1]);
            }
            return false;
        }
        if !constraints.is_allowed(&e.dst, src, dst) {
            return false;
        }
        let ghost vis_before = string_views(visited@);
        visited.push(e.dst.clone());
        cur = e.dst.clone();
        proof {
            assert(string_views(visited@) =~= vis_before.push(e.dst@));
            assert(ns.take(k + 2) =~= ns.take(k + 1).push(ns[k + 1]));
            let t = ns.take(k + 2);
            assert forall|a: int, b: int| 0 <= a < t.len() && 0 <= b < t.len() && a != b implies t[a] != t[b] by {
                if a == k + 1 {
                    assert(vis_before.contains(vis_before[b]));
                } else if b == k + 1 {
                    assert(vis_before.contains(vis_before[a]));
                } else {
                    assert(ns.take(k + 1)[a] == t[a] && ns.take(k + 1)[b] == t[b]);
                }
            }
        }
        k += 1;
    }
    proof {
        assert(ns.take(n + 1) =~= ns);
    }
    cur == *dst
}

/// The single-edge paths of the stored edge records from `src` to `dst`.
fn direct_edge_paths(rg: &RoutingGraph, s: &String, d: &String) -> (r: Vec<Vec<Edge>>)
    ensures
        path_views(r@) == direct_paths(rg@.edges, s@, d@),
{
    let mut merged: Vec<Vec<Edge>> = Vec::new();
    let edges = rg.edges();
    let n = edges.len();
    let mut i: usize = 0;
    while i < n
        invariant
            n == edges@.len(),
            edge_views(edges@) == rg@.edges,
            i <= n,
            path_views(merged@) == direct_paths(rg@.edges.take(i as int), s@, d@),
        decreases n - i,
    {
        let e = &edges[i];
        let ghost es = rg@.edges.take(i + 1);
        assert(es.drop_last() =~= rg@.edges.take(i as int));
        assert(es.last() == e@);
        if e.src == *s && e.dst == *d {
            let ghost before = path_views(merged@);
            let mut single: Vec<Edge> = Vec::new();
            single.push(e.clone());
            merged.push(single);
            assert(edge_views(single@) =~= seq![e@]);
            assert(path_views(merged@) =~= before.push(seq![e@]));
        }
        i += 1;
    }
    assert(rg@.edges.take(n as int) =~= rg@.edges);
    merged
}

/// The paths of `ps` that are routes from `s` to `d`, in order.
fn filter_routes(rg: &RoutingGraph, ps: &Vec<Vec<Edge>>, s: &String, d: &String, constraints: &RoutingConstraints) -> (r:
    Vec<Vec<Edge>>)
    requires
        rg.wf(),
    ensures
        path_views(r@) == route_filter(rg@, *constraints, s@, d@, path_views(ps@)),
{
    let ghost sv = path_views(ps@);
    let mut out: Vec<Vec<Edge>> = Vec::new();
    let m = ps.len();
    let mut j: usize = 0;
    while j < m
        invariant
            rg.wf(),
            m == ps@.len(),
            sv == path_views(ps@),
            j <= m,
            path_views(out@) == route_filter(rg@, *constraints, s@, d@, sv.take(j as int)),
        decreases m - j,
    {
        let ghost st = sv.take(j + 1);
        assert(st.drop_last() =~= sv.take(j as int));
        assert(st.last() == edge_views(ps@[j as int]@));
        if check_route(rg, &ps[j], s, d, constraints) {
            let ghost before = path_views(out@);
            out.push(clone_path(&ps[j]));
            assert(path_views(out@) =~= before.push(edge_views(ps@[j as int]@)));
        }
        j += 1;
    }
    assert(sv.take(m as int) =~= sv);
    out
}

/// `r` is the merge of the seeds with the search's paths `extra`: the search
/// runs, and `extra` is what it may return, exactly when the seeds are fewer
/// than the limit; then duplicates by key are dropped and the first `limit`
/// paths kept.
pub open spec fn merged_from(
    g: GraphView,
    c: RoutingConstraints,
    src: Seq<char>,
    dst: Seq<char>,
    sv: Seq<Seq<EdgeView>>,
    bv: Seq<EdgeView>,
    extra: Seq<Seq<EdgeView>>,
    r: Seq<Seq<EdgeView>>,
) -> bool {
    let seeds = seed_candidates(g, c, src, dst, sv, bv);
    &&& seeds.len() >= c.max_candidates() ==> extra.len() == 0
    &&& seeds.len() < c.max_candidates() ==> search_result(g, c, src, dst, extra)
    &&& r == first_n(dedupe_spec(seeds + extra), c.max_candidates())
}

/// Copies of the first `limit` paths of `ps` (all of them when fewer).
fn first_paths(ps: &Vec<Vec<Edge>>, limit: usize) -> (r: Vec<Vec<Edge>>)
    ensures
        path_views(r@) == first_n(path_views(ps@), limit as nat),
{
    let n = if ps.len() <= limit {
        ps.len()
    } else {
        limit
    };
    let mut result: Vec<Vec<Edge>> = Vec::new();
    let mut k: usize = 0;
    while k < n
        invariant
            n <= ps@.len(),
            n == (if ps@.len() <= limit { ps@.len() } else { limit as nat }),
            k <= n,
            path_views(result@) == path_views(ps@).take(k as int),
        decreases n - k,
    {
        let ghost before = path_views(result@);
        result.push(clone_path(&ps[k]));
        assert(path_views(ps@).take(k + 1) =~= path_views(ps@).take(k as int).push(path_views(ps@)[k as int]));
        assert(path_views(result@) =~= before.push(path_views(ps@)[k as int]));
        k += 1;
    }
    assert(path_views(ps@).take(ps@.len() as int) =~= path_views(ps@));
    result
}

/// Appends copies of the paths of `more` to `ps`.
fn append_paths(ps: &mut Vec<Vec<Edge>>, more: &Vec<Vec<Edge>>)
    ensures
        path_views(final(ps)@) == path_views(old(ps)@) + path_views(more@),
{
    let ghost start = path_views(ps@);
    let m = more.len();
    let mut k: usize = 0;
    while k < m
        invariant
            m == more@.len(),
            k <= m,
            path_views(ps@) == start + path_views(more@).take(k as int),
        decreases m - k,
    {
        let ghost before = path_views(ps@);
        ps.push(clone_path(&more[k]));
        assert(path_views(more@).take(k + 1) =~= path_views(more@).take(k as int).push(path_views(more@)[k as int]));
        assert(path_views(ps@) =~= before.push(path_views(more@)[k as int]));
        k += 1;
    }
    assert(path_views(more@).take(m as int) =~= path_views(more@));
}

/// Merges the candidate paths from every source, given the paths the streaming
/// builder produced and the baseline path: each direct edge from `src` to
/// `dst` first, then the streamed paths that are routes, then the baseline
/// when it is a non-empty route, and, when these are fewer than the limit
/// `max(max_paths, candidate_pool_size)`, the paths of [`yen_k_paths`];
/// duplicates by key are dropped and the first `limit` kept. So every direct
/// edge is kept when they fit in the limit, and every other path is a route.
pub fn generate_candidate_paths(
    rg: &RoutingGraph,
    src: &str,
    dst: &str,
    constraints: &RoutingConstraints,
    streaming: Vec<Vec<Edge>>,
    baseline: Vec<Edge>,
) -> (r: Vec<Vec<Edge>>)
    requires
        rg.wf(),
    ensures
        constraints.max_candidates() == 0 ==> r@.len() == 0,
        constraints.max_candidates() > 0 ==> exists|extra: Seq<Seq<EdgeView>>|
            #[trigger] merged_from(
                rg@,
                *constraints,
                src@,
                dst@,
                path_views(streaming@),
                edge_views(baseline@),
                extra,
                path_views(r@),
            ),
        r@.len() <= constraints.max_candidates(),
        keys_distinct(path_views(r@)),
        forall|q: Seq<EdgeView>|
            #[trigger] path_views(r@).contains(q) ==> is_route(rg@, *constraints, src@, dst@, q) || (q.len() == 1
                && rg@.edges.contains(q[0]) && q[0].src == src@ && q[0].dst == dst@),
        forall|i: int|
            0 <= i < direct_paths(rg@.edges, src@, dst@).len() && i < constraints.max_candidates() ==> #[trigger] path_views(
                r@,
            )[i] == direct_paths(rg@.edges, src@, dst@)[i],
{
    let max_candidates = constraints.candidate_limit();
    if max_candidates == 0 {
        return Vec::new();
    }
    let ghost sv = path_views(streaming@);
    let ghost bv = edge_views(baseline@);
    let ghost g = rg@;
    let ghost c = *constraints;
    let s: String = src.to_owned();
    let d: String = dst.to_owned();
    let mut merged = direct_edge_paths(rg, &s, &d);
    let ghost direct = path_views(merged@);
    let routes = filter_routes(rg, &streaming, &s, &d, constraints);
    let ghost rf = path_views(routes@);
    append_paths(&mut merged, &routes);
    assert(path_views(merged@) =~= direct + rf);
    let ghost head = path_views(merged@);
    if baseline.len() > 0 && check_route(rg, &baseline, &s, &d, constraints) {
        merged.push(baseline);
        assert(path_views(merged@) =~= head.push(bv));
    }
    let ghost seeds = path_views(merged@);
    assert(seeds =~= seed_candidates(g, c, src@, dst@, sv, bv));
    let ghost mut extra: Seq<Seq<EdgeView>> = Seq::empty();
    if merged.len() < max_candidates {
        let found = yen_k_paths(rg, src, dst, constraints);
        proof {
            extra = path_views(found@);
        }
        append_paths(&mut merged, &found);
        assert(search_result(g, c, src@, dst@, extra));
    } else {
        assert(path_views(merged@) =~= seeds + extra);
        assert(routes_distinct(g, c, src@, dst@, extra));
    }
    let ghost all = seeds + extra;
    assert(path_views(merged@) == all);
    let deduped = dedupe_paths(merged);
    let result = first_paths(&deduped, max_candidates);
    proof {
        assert(path_views(result@) =~= first_n(dedupe_spec(seeds + extra), max_candidates as nat));
        rg.lemma_view_wf();
        lemma_candidates_shape(g, c, src@, dst@, sv, bv, extra, max_candidates as nat);
        assert(seeds.len() >= c.max_candidates() ==> extra.len() == 0);
        assert(seeds.len() < c.max_candidates() ==> search_result(g, c, src@, dst@, extra));
        assert(merged_from(g, c, src@, dst@, sv, bv, extra, path_views(result@)));
    }
    result
}

/// Law: a route is a chain of edges of the graph from `src` to `dst`: the
/// first edge leaves `src`, each edge starts where the one before it ends, the
/// last one arrives at `dst`, and every edge is a stored edge record; the
/// empty route is the route from a token to itself.
pub proof fn lemma_route_shape(
    g: GraphView,
    c: RoutingConstraints,
    src: Seq<char>,
    dst: Seq<char>,
    p: Seq<EdgeView>,
)
    requires
        g.wf(),
        is_route(g, c, src, dst, p),
    ensures
        p.len() == 0 <==> src == dst,
        p.len() > 0 ==> p[0].src == src && p.last().dst == dst,
        forall|k: int| 0 <= k < p.len() - 1 ==> #[trigger] p[k].dst == p[k + 1].src,
        forall|k: int| 0 <= k < p.len() ==> g.edges.contains(#[trigger] p[k]),
{
    let ns = node_seq(src, p);
    assert forall|k: int| 0 <= k < p.len() implies #[trigger] p[k].src == ns[k] && g.edges.contains(p[k]) by {
        lemma_outgoing_leaves(g, ns[k]);
        let j = choose|j: int| 0 <= j < g.outgoing(ns[k]).len() && g.outgoing(ns[k])[j] == p[k];
        assert(g.outgoing(ns[k])[j].src == ns[k]);
    }
    assert forall|k: int| 0 <= k < p.len() - 1 implies #[trigger] p[k].dst == p[k + 1].src by {
        assert(ns[k + 1] == p[k].dst);
        assert(p[k + 1].src == ns[k + 1]);
    }
    if p.len() > 0 {
        assert(p[0].src == ns[0]);
        assert(ns[ns.len() - 1] == p[p.len() - 1].dst);
        assert(ns[0] != ns[ns.len() - 1]);
    }
}

/// The edges of `es` whose target `c` allows on a route from `src` to `dst`
/// and that `visited` does not hold, in order.
pub open spec fn admissible(
    es: Seq<EdgeView>,
    visited: Seq<Seq<char>>,
    c: RoutingConstraints,
    src: Seq<char>,
    dst: Seq<char>,
) -> Seq<EdgeView>
    decreases es.len(),
{
    if es.len() == 0 {
        Seq::empty()
    } else {
        let r = admissible(es.drop_last(), visited, c, src, dst);
        if c.allows(es.last().dst, src, dst) && !visited.contains(es.last().dst) {
            r.push(es.last())
        } else {
            r
        }
    }
}

/// The edges that extend a partial route ending at `current` after `hops`
/// edges and visiting `visited`: none once `max_hops` edges are used, else the
/// edges leaving `current`, in adjacency order, whose target is allowed and
/// not yet visited.
pub fn route_extensions(
    rg: &RoutingGraph,
    current: &str,
    visited: &Vec<String>,
    hops: usize,
    constraints: &RoutingConstraints,
    src: &str,
    dst: &str,
) -> (r: Vec<Edge>)
    requires
        rg.wf(),
    ensures
        hops >= constraints.max_hops ==> r@.len() == 0,
        hops < constraints.max_hops ==> edge_views(r@) == admissible(
            rg@.outgoing(current@),
            string_views(visited@),
            *constraints,
            src@,
            dst@,
        ),
{
    let mut result: Vec<Edge> = Vec::new();
    if hops >= constraints.max_hops {
        return result;
    }
    let s: String = src.to_owned();
    let d: String = dst.to_owned();
    let out = rg.outgoing(current);
    let ghost ov = edge_views(out@);
    let n = out.len();
    let mut i: usize = 0;
    while i < n
        invariant
            n == out@.len(),
            ov == edge_views(out@),
            s@ == src@,
            d@ == dst@,
            i <= n,
            edge_views(result@) == admissible(ov.take(i as int), string_views(visited@), *constraints, src@, dst@),
        decreases n - i,
    {
        let e = &out[i];
        assert(ov.take(i + 1).drop_last() =~= ov.take(i as int));
        assert(ov.take(i + 1).last() == e@);
        if constraints.is_allowed(&e.dst, &s, &d) && !contains_token(visited, &e.dst) {
            let ghost before = edge_views(result@);
            result.push(e.clone());
            assert(edge_views(result@) =~= before.push(e@));
        }
        i += 1;
    }
    assert(ov.take(n as int) =~= ov);
    result
}

/// Law: filtering for routes is vstd's `Seq::filter` with `is_route` as the
/// predicate: the routes of the input, each once per occurrence, in input order.
pub proof fn lemma_route_filter_in_order(
    g: GraphView,
    c: RoutingConstraints,
    src: Seq<char>,
    dst: Seq<char>,
    ps: Seq<Seq<EdgeView>>,
)
    ensures
        route_filter(g, c, src, dst, ps) == ps.filter(|q: Seq<EdgeView>| is_route(g, c, src, dst, q)),
    decreases ps.len(),
{
    reveal(Seq::filter);
    if ps.len() > 0 {
        lemma_route_filter_in_order(g, c, src, dst, ps.drop_last());
    }
}

/// Law: the extensions offered are vstd's `Seq::filter` of the outgoing edges
/// by the target being allowed and not yet visited: all such edges, each once
/// per occurrence, in adjacency order.
pub proof fn lemma_admissible_in_order(
    es: Seq<EdgeView>,
    visited: Seq<Seq<char>>,
    c: RoutingConstraints,
    src: Seq<char>,
    dst: Seq<char>,
)
    ensures
        admissible(es, visited, c, src, dst) == es.filter(
            |e: EdgeView| c.allows(e.dst, src, dst) && !visited.contains(e.dst),
        ),
    decreases es.len(),
{
    reveal(Seq::filter);
    if es.len() > 0 {
        lemma_admissible_in_order(es.drop_last(), visited, c, src, dst);
    }
}

/// Law: the extensions offered are exactly the outgoing edges to a token that
/// is allowed and not yet visited: each one offered is such an edge, and each
/// such edge is offered, parallel edges to the same token included.
pub proof fn lemma_admissible(
    es: Seq<EdgeView>,
    visited: Seq<Seq<char>>,
    c: RoutingConstraints,
    src: Seq<char>,
    dst: Seq<char>,
)
    ensures
        forall|x: EdgeView|
            #[trigger] admissible(es, visited, c, src, dst).contains(x) ==> es.contains(x) && c.allows(
                x.dst,
                src,
                dst,
            ) && !visited.contains(x.dst),
        forall|x: EdgeView|
            es.contains(x) && c.allows(x.dst, src, dst) && !visited.contains(x.dst) ==> #[trigger] admissible(
                es,
                visited,
                c,
                src,
                dst,
            ).contains(x),
        admissible(es, visited, c, src, dst).len() <= es.len(),
    decreases es.len(),
{
    if es.len() > 0 {
        let init = es.drop_last();
        lemma_admissible(init, visited, c, src, dst);
        let r = admissible(init, visited, c, src, dst);
        let a = admissible(es, visited, c, src, dst);
        assert forall|x: EdgeView|
            es.contains(x) && c.allows(x.dst, src, dst) && !visited.contains(x.dst) implies #[trigger] a.contains(x) by {
            let m = choose|m: int| 0 <= m < es.len() && es[m] == x;
            if m < init.len() {
                assert(init[m] == x);
                assert(init.contains(x));
                assert(r.contains(x));
                let k = choose|k: int| 0 <= k < r.len() && r[k] == x;
                assert(a[k] == r[k]);
            } else {
                assert(a[r.len() as int] == x);
            }
        }
        assert forall|x: EdgeView| #[trigger] admissible(es, visited, c, src, dst).contains(x) implies es.contains(x)
            && c.allows(x.dst, src, dst) && !visited.contains(x.dst) by {
            let a = admissible(es, visited, c, src, dst);
            let k = choose|k: int| 0 <= k < a.len() && a[k] == x;
            if k < r.len() {
                assert(r.contains(x));
                let m = choose|m: int| 0 <= m < init.len() && init[m] == x;
                assert(es[m] == x);
            } else {
                assert(es[es.len() - 1] == x);
            }
        }
    }
}

/// Law: extending a partial route by any edge that `route_extensions` offers
/// gives a partial route again.
pub proof fn lemma_extensions_extend_routes(
    g: GraphView,
    c: RoutingConstraints,
    src: Seq<char>,
    dst: Seq<char>,
    p: Seq<EdgeView>,
    e: EdgeView,
)
    requires
        partial_route(g, c, src, dst, p),
        p.len() < c.max_hops,
        admissible(g.outgoing(node_seq(src, p).last()), node_seq(src, p), c, src, dst).contains(e),
    ensures
        partial_route(g, c, src, dst, p.push(e)),
        node_seq(src, p.push(e)).last() == e.dst,
{
    lemma_admissible(g.outgoing(node_seq(src, p).last()), node_seq(src, p), c, src, dst);
    lemma_extend_partial(g, c, src, dst, p, e);
}

} // verus!
