//! The integer decisions of capital allocation: the label of each algorithm,
//! which routes a fill disturbs, and the cap on how many routes get capital.
use crate::engine::candidates::path_views;
use crate::engine::constraints::OptimizationAlgorithm;
use crate::engine::pool::{Edge, EdgeView};
use vstd::prelude::*;

verus! {

/// The name of an allocation algorithm, as plan metadata records it.
pub open spec fn algo_name(algo: OptimizationAlgorithm) -> Seq<char> {
    match algo {
        OptimizationAlgorithm::Waterfill => "waterfill"@,
        OptimizationAlgorithm::GoldenSection => "golden_section"@,
        OptimizationAlgorithm::Brent => "brent"@,
        OptimizationAlgorithm::Hybrid => "hybrid"@,
    }
}

pub fn algo_label(algo: OptimizationAlgorithm) -> (s: &'static str)
    ensures
        s@ == algo_name(algo),
{
    match algo {
        OptimizationAlgorithm::Waterfill => {
            proof {
                reveal_strlit("waterfill");
            }
            "waterfill"
        },
        OptimizationAlgorithm::GoldenSection => {
            proof {
                reveal_strlit("golden_section");
            }
            "golden_section"
        },
        OptimizationAlgorithm::Brent => {
            proof {
                reveal_strlit("brent");
            }
            "brent"
        },
        OptimizationAlgorithm::Hybrid => {
            proof {
                reveal_strlit("hybrid");
            }
            "hybrid"
        },
    }
}

/// Whether two paths go through a common pool.
pub open spec fn shares_pool(a: Seq<EdgeView>, b: Seq<EdgeView>) -> bool {
    exists|x: int, y: int| 0 <= x < a.len() && 0 <= y < b.len() && a[x].pool_id == b[y].pool_id
}

/// Law: two paths share a pool exactly when some edge of one and some edge of
/// the other go through the same pool, wherever those edges stand; so sharing
/// is symmetric, and two paths with an edge in common share a pool.
pub proof fn lemma_shares_pool(a: Seq<EdgeView>, b: Seq<EdgeView>)
    ensures
        shares_pool(a, b) <==> exists|x: int, y: int|
            0 <= x < a.len() && 0 <= y < b.len() && #[trigger] a[x].pool_id == #[trigger] b[y].pool_id,
        shares_pool(a, b) == shares_pool(b, a),
        forall|x: int, y: int| 0 <= x < a.len() && 0 <= y < b.len() && #[trigger] a[x] == #[trigger] b[y] ==> shares_pool(a, b),
{
    if shares_pool(b, a) {
        let (y, x) = choose|y: int, x: int| 0 <= y < b.len() && 0 <= x < a.len() && b[y].pool_id == a[x].pool_id;
        assert(a[x].pool_id == b[y].pool_id);
    }
    if shares_pool(a, b) {
        let (x, y) = choose|x: int, y: int| 0 <= x < a.len() && 0 <= y < b.len() && a[x].pool_id == b[y].pool_id;
        assert(b[y].pool_id == a[x].pool_id);
    }
    assert forall|x: int, y: int| 0 <= x < a.len() && 0 <= y < b.len() && #[trigger] a[x] == #[trigger] b[y] implies shares_pool(a, b) by {
        assert(a[x].pool_id == b[y].pool_id);
    }
}

fn path_uses_pool(p: &Vec<Edge>, pool_id: &String) -> (r: bool)
    ensures
        r == exists|y: int| 0 <= y < p@.len() && p@[y].pool_id@ == pool_id@,
{
    let n = p.len();
    let mut i: usize = 0;
    while i < n
        invariant
            n == p@.len(),
            i <= n,
            forall|y: int| 0 <= y < i ==> p@[y].pool_id@ != pool_id@,
        decreases n - i,
    {
        if p[i].pool_id == *pool_id {
            return true;
        }
        i += 1;
    }
    false
}

fn paths_share_pool(a: &Vec<Edge>, b: &Vec<Edge>) -> (r: bool)
    ensures
        r == shares_pool(crate::engine::graph::edge_views(a@), crate::engine::graph::edge_views(b@)),
{
    let ghost av = crate::engine::graph::edge_views(a@);
    let ghost bv = crate::engine::graph::edge_views(b@);
    let n = a.len();
    let mut i: usize = 0;
    while i < n
        invariant
            n == a@.len(),
            av == crate::engine::graph::edge_views(a@),
            bv == crate::engine::graph::edge_views(b@),
            i <= n,
            forall|x: int, y: int| 0 <= x < i && 0 <= y < bv.len() ==> av[x].pool_id != bv[y].pool_id,
        decreases n - i,
    {
        if path_uses_pool(b, &a[i].pool_id) {
            proof {
                let y = choose|y: int| 0 <= y < b@.len() && b@[y].pool_id@ == a@[i as int].pool_id@;
                assert(av[i as int].pool_id == bv[y].pool_id);
            }
            return true;
        }
        i += 1;
    }
    false
}

/// The indices, ascending, of the candidate paths that share a pool with
/// path `i`: those whose marginal rate a fill along path `i` changes.
pub fn touched_paths(candidates: &Vec<Vec<Edge>>, i: usize) -> (r: Vec<usize>)
    requires
        i < candidates@.len(),
    ensures
        forall|a: int, b: int| 0 <= a < b < r@.len() ==> r@[a] < r@[b],
        forall|j: usize|
            #[trigger] r@.contains(j) <==> j < candidates@.len() && shares_pool(
                path_views(candidates@)[i as int],
                path_views(candidates@)[j as int],
            ),
{
    let n = candidates.len();
    let mut out: Vec<usize> = Vec::new();
    let mut j: usize = 0;
    while j < n
        invariant
            n == candidates@.len(),
            i < n,
            j <= n,
            forall|a: int, b: int| 0 <= a < b < out@.len() ==> out@[a] < out@[b],
            forall|a: int| 0 <= a < out@.len() ==> out@[a] < j,
            forall|k: usize|
                #[trigger] out@.contains(k) <==> k < j && shares_pool(
                    path_views(candidates@)[i as int],
                    path_views(candidates@)[k as int],
                ),
        decreases n - j,
    {
        let touched = paths_share_pool(&candidates[i], &candidates[j]);
        let ghost before = out@;
        if touched {
            out.push(j);
        }
        proof {
            assert(path_views(candidates@)[i as int] == crate::engine::graph::edge_views(candidates@[i as int]@));
            assert(path_views(candidates@)[j as int] == crate::engine::graph::edge_views(candidates@[j as int]@));
            assert forall|k: usize|
                #[trigger] out@.contains(k) <==> k < j + 1 && shares_pool(
                    path_views(candidates@)[i as int],
                    path_views(candidates@)[k as int],
                ) by {
                if k < j {
                    if out@.contains(k) {
                        let a = choose|a: int| 0 <= a < out@.len() && out@[a] == k;
                        assert(a < before.len());
                        assert(before[a] == k);
                    }
                    if before.contains(k) {
                        let a = choose|a: int| 0 <= a < before.len() && before[a] == k;
                        assert(out@[a] == k);
                    }
                } else if k == j {
                    if touched {
                        assert(out@[out@.len() - 1] == j);
                    } else {
                        assert(out@ == before);
                    }
                } else {
                    if out@.contains(k) {
                        let a = choose|a: int| 0 <= a < out@.len() && out@[a] == k;
                        if a < before.len() {
                            assert(before[a] < j);
                        }
                    }
                }
            }
        }
        j += 1;
    }
    out
}

/// The routes that have received capital, at most `max_paths` of them.
pub struct PathBudget {
    enabled: Vec<usize>,
    max_paths: usize,
}

impl PathBudget {
    /// The routes enabled so far, in the order they were enabled.
    pub closed spec fn enabled(&self) -> Seq<usize> {
        self.enabled@
    }

    pub closed spec fn limit(&self) -> nat {
        self.max_paths as nat
    }

    /// At most `limit` routes are enabled, each once.
    pub closed spec fn wf(&self) -> bool {
        &&& self.enabled@.len() <= self.max_paths
        &&& self.enabled@.no_duplicates()
    }

    pub fn new(max_paths: usize) -> (b: Self)
        ensures
            b.wf(),
            b.enabled() == Seq::<usize>::empty(),
            b.limit() == max_paths,
    {
        PathBudget { enabled: Vec::new(), max_paths }
    }

    /// The number of enabled routes.
    pub fn len(&self) -> (n: usize)
        ensures
            n == self.enabled().len(),
    {
        self.enabled.len()
    }

    pub fn contains(&self, i: usize) -> (r: bool)
        ensures
            r == self.enabled().contains(i),
    {
        let n = self.enabled.len();
        let mut k: usize = 0;
        while k < n
            invariant
                n == self.enabled@.len(),
                k <= n,
                forall|a: int| 0 <= a < k ==> self.enabled@[a] != i,
            decreases n - k,
        {
            if self.enabled[k] == i {
                return true;
            }
            k += 1;
        }
        false
    }

    /// Asks to give capital to route `i`: granted when `i` already has some or
    /// fewer than `max_paths` routes do, and then `i` is enabled; refused
    /// otherwise, leaving the budget as it was.
    pub fn grant(&mut self, i: usize) -> (granted: bool)
        requires
            old(self).wf(),
        ensures
            final(self).wf(),
            final(self).limit() == old(self).limit(),
            granted == (old(self).enabled().contains(i) || old(self).enabled().len() < old(self).limit()),
            granted && !old(self).enabled().contains(i) ==> final(self).enabled() == old(self).enabled().push(i),
            !(granted && !old(self).enabled().contains(i)) ==> final(self).enabled() == old(self).enabled(),
            final(self).enabled().len() <= final(self).limit(),
    {
        if self.contains(i) {
            return true;
        }
        if self.enabled.len() < self.max_paths {
            let ghost before = self.enabled@;
            self.enabled.push(i);
            proof {
                assert forall|a: int, b: int| 0 <= a < b < self.enabled@.len() implies self.enabled@[a]
                    != self.enabled@[b] by {
                    if b == before.len() {
                        assert(before.contains(before[a]));
                    } else {
                        assert(before[a] != before[b]);
                    }
                }
            }
            return true;
        }
        false
    }
}

} // verus!
