use vstd::prelude::*;

verus! {

/// What an [`Edge`] denotes: source token, target token, pool id, edge name.
pub struct EdgeView {
    pub src: Seq<char>,
    pub dst: Seq<char>,
    pub pool_id: Seq<char>,
    pub name: Seq<char>,
}

/// A directed connection between two tokens through a pool.
#[derive(Debug, PartialEq, Eq, Hash)]
pub struct Edge {
    pub src: String,
    pub dst: String,
    pub pool_id: String,
    pub name: String,
}

impl View for Edge {
    type V = EdgeView;

    open spec fn view(&self) -> EdgeView {
        EdgeView { src: self.src@, dst: self.dst@, pool_id: self.pool_id@, name: self.name@ }
    }
}

impl EdgeView {
    /// The key by which the graph stores an edge: (source, target, name).
    pub open spec fn key(self) -> (Seq<char>, Seq<char>, Seq<char>) {
        (self.src, self.dst, self.name)
    }
}

impl Clone for Edge {
    fn clone(&self) -> (e: Self)
        ensures
            e == *self,
    {
        Edge {
            src: self.src.clone(),
            dst: self.dst.clone(),
            pool_id: self.pool_id.clone(),
            name: self.name.clone(),
        }
    }
}

impl Edge {
    pub fn new(src: String, dst: String, pool_id: String, name: String) -> (e: Self)
        ensures
            e.src == src,
            e.dst == dst,
            e.pool_id == pool_id,
            e.name == name,
    {
        Edge { src, dst, pool_id, name }
    }
}

} // verus!
