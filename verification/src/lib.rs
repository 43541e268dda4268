//! A minimal directed-graph container: nodes and edges live in two
//! append-only arenas, adjacency is threaded through the edge arena as
//! linked lists of edge indices, and a breadth-first search answers
//! single-pair shortest-path (hop count) queries.
//!
//! [`data_graph::Graph`] carries a caller-chosen payload per node; the
//! root [`Graph`] is the payload-free variant built on top of it.

use vstd::prelude::*;

pub mod data_graph;

pub use data_graph::GraphError;

verus! {

/// A directed graph without node payloads.
pub struct Graph {
    inner: data_graph::Graph<()>,
}

/// A cursor over the outgoing-edge targets of one node of a payload-free
/// graph. Pulling from it never mutates the store.
pub struct Successors<'graph> {
    inner: data_graph::Successors<'graph, ()>,
}

impl Graph {
    /// Number of nodes inserted so far; valid node indices are exactly
    /// `0 .. node_count()`.
    pub closed spec fn node_count(self) -> nat {
        self.inner.node_count()
    }

    /// Number of edges inserted so far.
    pub closed spec fn edge_count(self) -> nat {
        self.inner.edge_count()
    }

    /// Structural invariant of the arenas.
    pub closed spec fn wf(self) -> bool {
        self.inner.wf()
    }

    /// The targets of the outgoing edges of node `v`, most recently
    /// added first.
    pub closed spec fn succs(self, v: int) -> Seq<usize> {
        self.inner.succs(v)
    }

    /// There is an edge from `a` to `b`.
    pub open spec fn has_edge(self, a: usize, b: usize) -> bool {
        a < self.node_count() && self.succs(a as int).contains(b)
    }

    /// `p` is a directed path: it is non-empty and consecutive entries
    /// are joined by edges.
    pub open spec fn is_path(self, p: Seq<usize>) -> bool {
        &&& p.len() >= 1
        &&& forall|i: int| 0 <= i < p.len() - 1 ==> #[trigger] self.has_edge(p[i], p[i + 1])
    }

    /// `p` is a path leading from `s` to `t`.
    pub open spec fn connects(self, p: Seq<usize>, s: usize, t: usize) -> bool {
        &&& self.is_path(p)
        &&& p.first() == s
        &&& p.last() == t
    }

    /// Some path of at most `k` edges leads from `s` to `t`.
    pub open spec fn dist_le(self, s: usize, t: usize, k: nat) -> bool {
        exists|p: Seq<usize>| #[trigger] self.connects(p, s, t) && p.len() <= k + 1
    }

    /// What `shortest_path` promises: an out-of-bounds endpoint is
    /// rejected; otherwise `Some(d)` is returned exactly when `d` is the
    /// least number of edges on a path from `source` to `target`, and
    /// `None` exactly when no path of any length exists.
    pub open spec fn shortest_path_post(
        self,
        source: usize,
        target: usize,
        r: Result<Option<usize>, GraphError>,
    ) -> bool {
        match r {
            Err(e) => {
                &&& source >= self.node_count() || target >= self.node_count()
                &&& e == GraphError::OutOfBounds
            },
            Ok(opt) => {
                &&& source < self.node_count()
                &&& target < self.node_count()
                &&& match opt {
                    Some(d) => self.dist_le(source, target, d as nat)
                        && forall|k: nat| k < d ==> !self.dist_le(source, target, k),
                    None => forall|k: nat| !self.dist_le(source, target, k),
                }
            },
        }
    }

    /// The payload-free graph and its payload-carrying core agree on
    /// which paths of a bounded length exist.
    proof fn lemma_dist_le_agrees(self, s: usize, t: usize, k: nat)
        ensures
            self.dist_le(s, t, k) == self.inner.dist_le(s, t, k),
    {
        if self.dist_le(s, t, k) {
            let p = choose|p: Seq<usize>| #[trigger] self.connects(p, s, t) && p.len() <= k + 1;
            assert forall|i: int| 0 <= i < p.len() - 1
                implies #[trigger] self.inner.has_edge(p[i], p[i + 1]) by {
                assert(self.has_edge(p[i], p[i + 1]));
            }
            assert(self.inner.connects(p, s, t) && p.len() <= k + 1);
        }
        if self.inner.dist_le(s, t, k) {
            let p = choose|p: Seq<usize>| #[trigger] self.inner.connects(p, s, t) && p.len() <= k
                + 1;
            assert forall|i: int| 0 <= i < p.len() - 1
                implies #[trigger] self.has_edge(p[i], p[i + 1]) by {
                assert(self.inner.has_edge(p[i], p[i + 1]));
            }
            assert(self.connects(p, s, t) && p.len() <= k + 1);
        }
    }

    /// Creates an empty graph.
    pub fn new() -> (g: Graph)
        ensures
            g.wf(),
            g.node_count() == 0,
            g.edge_count() == 0,
    {
        Graph { inner: data_graph::Graph::new() }
    }

    /// Appends a node with no outgoing edges and returns its index.
    /// Indices are handed out densely: the first node gets 0, the next 1,
    /// and so on; no index is ever reused.
    pub fn add_node(&mut self) -> (idx: usize)
        requires
            old(self).wf(),
        ensures
            final(self).wf(),
            idx == old(self).node_count(),
            final(self).node_count() == old(self).node_count() + 1,
            final(self).edge_count() == old(self).edge_count(),
            final(self).succs(idx as int) == Seq::<usize>::empty(),
            forall|v: int| 0 <= v < old(self).node_count()
                ==> final(self).succs(v) == old(self).succs(v),
    {
        self.inner.add_node(())
    }

    /// Appends an edge from `source` to `target` at the head of
    /// `source`'s adjacency list, so that the newest edge is traversed
    /// first. Both endpoints are validated eagerly: an out-of-range
    /// `source` or `target` is rejected and the graph is left unchanged,
    /// so no edge ever dangles.
    pub fn add_edge(&mut self, source: usize, target: usize) -> (r: Result<(), GraphError>)
        requires
            old(self).wf(),
        ensures
            final(self).wf(),
            r is Ok <==> source < old(self).node_count() && target < old(self).node_count(),
            r is Err ==> r == Err::<(), GraphError>(GraphError::OutOfBounds)
                && *final(self) == *old(self),
            r is Ok ==> {
                &&& final(self).node_count() == old(self).node_count()
                &&& final(self).edge_count() == old(self).edge_count() + 1
                &&& final(self).succs(source as int)
                    == seq![target] + old(self).succs(source as int)
                &&& forall|v: int| 0 <= v < old(self).node_count() && v != source
                    ==> final(self).succs(v) == old(self).succs(v)
            },
    {
        self.inner.add_edge(source, target)
    }

    /// Computes the least number of edges on a path from `source` to
    /// `target`: `Ok(Some(d))` when a path exists and `d` is its hop
    /// count, `Ok(None)` when `target` is unreachable from `source`, and
    /// `Err(GraphError::OutOfBounds)` when either endpoint is not a valid
    /// node index.
    pub fn shortest_path(&self, source: usize, target: usize) -> (r: Result<
        Option<usize>,
        GraphError,
    >)
        requires
            self.wf(),
        ensures
            self.shortest_path_post(source, target, r),
    {
        let r = self.inner.shortest_path(source, target);
        proof {
            match r {
                Err(_) => {},
                Ok(opt) => match opt {
                    Some(d) => {
                        self.lemma_dist_le_agrees(source, target, d as nat);
                        assert forall|k: nat| k < d implies !self.dist_le(source, target, k) by {
                            self.lemma_dist_le_agrees(source, target, k);
                        }
                    },
                    None => {
                        assert forall|k: nat| !self.dist_le(source, target, k) by {
                            self.lemma_dist_le_agrees(source, target, k);
                        }
                    },
                },
            }
        }
        r
    }

    /// Returns a fresh cursor over the targets of `source`'s outgoing
    /// edges, most recently added first, or an error if `source` is not
    /// a valid node index. The cursor reads the store and never mutates
    /// it, so repeated calls yield the same sequence.
    pub fn successors(&self, source: usize) -> (r: Result<Successors, GraphError>)
        requires
            self.wf(),
        ensures
            r is Ok <==> source < self.node_count(),
            r matches Ok(it) ==> {
                &&& it.wf()
                &&& it.remaining() == self.succs(source as int)
            },
            r is Err ==> r == Err::<Successors, GraphError>(GraphError::OutOfBounds),
    {
        match self.inner.successors(source) {
            Ok(it) => Ok(Successors { inner: it }),
            Err(e) => Err(e),
        }
    }
}

/// Searching from a valid node to itself always reports distance zero.
pub proof fn lemma_shortest_path_self(g: Graph, x: usize, r: Result<Option<usize>, GraphError>)
    requires
        x < g.node_count(),
        g.shortest_path_post(x, x, r),
    ensures
        r == Ok::<Option<usize>, GraphError>(Some(0usize)),
{
    let p = seq![x];
    assert(g.is_path(p));
    assert(g.connects(p, x, x) && p.len() <= 0 + 1);
    match r {
        Err(_) => {},
        Ok(opt) => match opt {
            None => {
                assert(g.dist_le(x, x, 0));
            },
            Some(d) => {
                if d > 0 {
                    assert(g.dist_le(x, x, 0));
                    assert(!g.dist_le(x, x, 0));
                }
            },
        },
    }
}

/// With valid endpoints, the search reports `None` exactly when no path
/// of any length leads from `s` to `t`: unreachability is never conflated
/// with a failure, and a reported distance always comes with a path.
pub proof fn lemma_none_iff_unreachable(
    g: Graph,
    s: usize,
    t: usize,
    r: Result<Option<usize>, GraphError>,
)
    requires
        s < g.node_count(),
        t < g.node_count(),
        g.shortest_path_post(s, t, r),
    ensures
        r == Ok::<Option<usize>, GraphError>(None::<usize>)
            <==> (forall|k: nat| !g.dist_le(s, t, k)),
{
    match r {
        Err(_) => {},
        Ok(opt) => match opt {
            None => {},
            Some(d) => {
                assert(g.dist_le(s, t, d as nat));
            },
        },
    }
}

impl<'graph> Successors<'graph> {
    /// The cursor points into a well-formed store, at an existing edge
    /// if at any.
    pub closed spec fn wf(self) -> bool {
        self.inner.wf()
    }

    /// The targets the cursor has yet to yield.
    pub closed spec fn remaining(self) -> Seq<usize> {
        self.inner.remaining()
    }

    /// Yields the next edge target, or `None` once the adjacency list is
    /// exhausted.
    pub fn next(&mut self) -> (r: Option<usize>)
        requires
            old(self).wf(),
        ensures
            final(self).wf(),
            match r {
                Some(t) => old(self).remaining() == seq![t] + final(self).remaining(),
                None => old(self).remaining() == Seq::<usize>::empty()
                    && final(self).remaining() == Seq::<usize>::empty(),
            },
    {
        self.inner.next()
    }
}

} // verus!
