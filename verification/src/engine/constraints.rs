//! Tunables that shape candidate generation and capital allocation.
use vstd::prelude::*;

verus! {

/// Split configuration: allocation precision for the optimization algorithms.
#[derive(Debug, Clone, Copy)]
pub struct SplitConfig {
    pub min_precision_bps: u16,
    pub max_splits: usize,
    pub adaptive: bool,
}

impl SplitConfig {
    /// The number of coordinate-descent rounds allowed: `max_splits`, and at least 8.
    pub fn max_iterations(&self) -> (n: usize)
        ensures
            n == if self.max_splits >= 8 { self.max_splits } else { 8 },
    {
        if self.max_splits >= 8 {
            self.max_splits
        } else {
            8
        }
    }
}

impl Default for SplitConfig {
    /// 5 bps (0.05%) precision, at most 128 splits, adaptive.
    fn default() -> (c: Self)
        ensures
            c.min_precision_bps == 5,
            c.max_splits == 128,
            c.adaptive,
    {
        SplitConfig { min_precision_bps: 5, max_splits: 128, adaptive: true }
    }
}

/// Available optimization algorithms for capital allocation across routes.
#[derive(Debug, Clone, Copy, PartialEq, Eq, Structural)]
pub enum OptimizationAlgorithm {
    Waterfill,
    GoldenSection,
    Brent,
    Hybrid,
}

/// The limits on candidate generation and the choice of allocator.
///
/// The intermediate token whitelist is a list of tokens; `None` allows every
/// token. It is a list rather than vstd's `StringHashSet`, which implements
/// neither `Clone` nor `Debug`, both of which these constraints derive.
#[derive(Debug, Clone)]
pub struct RoutingConstraints {
    pub max_hops: usize,
    pub max_paths: usize,
    pub candidate_pool_size: usize,
    pub intermediate_token_whitelist: Option<Vec<String>>,
    pub optimization_algorithm: OptimizationAlgorithm,
    pub split_config: Option<SplitConfig>,
}

pub open spec fn str_views(v: Seq<String>) -> Seq<Seq<char>> {
    v.map_values(|s: String| s@)
}

impl RoutingConstraints {
    /// Whether a route from `src` to `dst` may pass through `node`: the two
    /// endpoints always may, any other token only when there is no whitelist
    /// or the whitelist names it.
    pub open spec fn allows(self, node: Seq<char>, src: Seq<char>, dst: Seq<char>) -> bool {
        node == src || node == dst || match self.intermediate_token_whitelist {
            None => true,
            Some(w) => str_views(w@).contains(node),
        }
    }

    /// Law: a route may always pass through its own endpoints, and through
    /// any other token exactly when there is no whitelist or some entry of the
    /// whitelist, wherever it stands, names that token.
    pub proof fn lemma_allows(self, node: Seq<char>, src: Seq<char>, dst: Seq<char>)
        ensures
            self.allows(node, src, dst) <==> (node == src || node == dst || self.intermediate_token_whitelist is None
                || exists|i: int|
                0 <= i < self.intermediate_token_whitelist->0@.len()
                    && #[trigger] self.intermediate_token_whitelist->0@[i]@ == node),
    {
        match self.intermediate_token_whitelist {
            None => {},
            Some(w) => {
                if str_views(w@).contains(node) {
                    let i = choose|i: int| 0 <= i < str_views(w@).len() && str_views(w@)[i] == node;
                    assert(w@[i]@ == node);
                }
                if exists|i: int| 0 <= i < w@.len() && #[trigger] w@[i]@ == node {
                    let i = choose|i: int| 0 <= i < w@.len() && #[trigger] w@[i]@ == node;
                    assert(str_views(w@)[i] == node);
                }
            },
        }
    }

    /// The number of candidate paths that generation keeps.
    pub open spec fn max_candidates(self) -> nat {
        if self.max_paths >= self.candidate_pool_size {
            self.max_paths as nat
        } else {
            self.candidate_pool_size as nat
        }
    }

    /// How many candidate paths generation keeps: `max(max_paths, candidate_pool_size)`.
    pub fn candidate_limit(&self) -> (n: usize)
        ensures
            n == self.max_candidates(),
    {
        if self.max_paths >= self.candidate_pool_size {
            self.max_paths
        } else {
            self.candidate_pool_size
        }
    }

    pub fn new() -> (c: Self)
        ensures
            c.max_hops == 5,
            c.max_paths == 4,
            c.candidate_pool_size == 12,
            c.intermediate_token_whitelist is None,
            c.optimization_algorithm == OptimizationAlgorithm::Waterfill,
            c.split_config is None,
    {
        RoutingConstraints {
            max_hops: 5,
            max_paths: 4,
            candidate_pool_size: 12,
            intermediate_token_whitelist: None,
            optimization_algorithm: OptimizationAlgorithm::Waterfill,
            split_config: None,
        }
    }

    pub fn is_allowed_node(&self, node: &str, src: &str, dst: &str) -> (r: bool)
        ensures
            r == self.allows(node@, src@, dst@),
    {
        let n: String = node.to_owned();
        let s: String = src.to_owned();
        let d: String = dst.to_owned();
        self.is_allowed(&n, &s, &d)
    }

    /// [`RoutingConstraints::is_allowed_node`] on owned strings.
    pub fn is_allowed(&self, node: &String, src: &String, dst: &String) -> (r: bool)
        ensures
            r == self.allows(node@, src@, dst@),
    {
        if *node == *src || *node == *dst {
            return true;
        }
        match &self.intermediate_token_whitelist {
            None => true,
            Some(whitelist) => {
                let n = whitelist.len();
                let mut i: usize = 0;
                while i < n
                    invariant
                        n == whitelist@.len(),
                        self.intermediate_token_whitelist == Some(*whitelist),
                        i <= n,
                        forall|j: int| 0 <= j < i ==> whitelist@[j]@ != node@,
                    decreases n - i,
                {
                    if whitelist[i] == *node {
                        assert(str_views(whitelist@)[i as int] == node@);
                        assert(str_views(whitelist@).contains(node@));
                        return true;
                    }
                    i += 1;
                }
                assert(!str_views(whitelist@).contains(node@)) by {
                    if str_views(whitelist@).contains(node@) {
                        let j = choose|j: int| 0 <= j < n && str_views(whitelist@)[j] == node@;
                        assert(whitelist@[j]@ == node@);
                    }
                }
                false
            },
        }
    }
}

impl Default for RoutingConstraints {
    /// At most 5 hops and 4 paths, 12 candidates, no whitelist, waterfill.
    fn default() -> (c: Self)
        ensures
            c.max_hops == 5,
            c.max_paths == 4,
            c.candidate_pool_size == 12,
            c.intermediate_token_whitelist is None,
            c.optimization_algorithm == OptimizationAlgorithm::Waterfill,
            c.split_config is None,
    {
        Self::new()
    }
}

} // verus!
