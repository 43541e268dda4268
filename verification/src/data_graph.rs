//! The arena-based graph store, carrying one caller-chosen payload per
//! node, and the breadth-first shortest-path search over it.
//!
//! Nodes and edges are appended to two flat arenas and identified by
//! their integer position alone. Each node records the index of its
//! first outgoing edge; each edge records its target and the index of
//! the next outgoing edge of the same source. A node's adjacency list is
//! therefore a singly linked list threaded through the edge arena, with
//! new edges inserted at its head, so traversal visits targets in
//! reverse insertion order.

use vstd::prelude::*;

verus! {

/// The failure of an operation that was handed a node index at or
/// beyond the current node count. Distinct from an unreachable target,
/// which the search reports as a successful `None`.
#[derive(Clone, Copy, Debug, PartialEq, Eq, Structural)]
pub enum GraphError {
    OutOfBounds,
}

/// One slot of the edge arena: the target node index and the next
/// outgoing edge of the same source, if any.
pub struct EdgeData {
    target: usize,
    next_outgoing_edge: Option<usize>,
}

/// One slot of the node arena: the head of the node's adjacency list,
/// if any, and the payload attached at insertion.
pub struct NodeData<A> {
    first_outgoing_edge: Option<usize>,
    data: A,
}

/// The sequence of edge targets reached by following `next_outgoing_edge`
/// links through `edges`, starting at `cur`. Each link must point to an
/// earlier arena slot (which insertion at the head guarantees); a link
/// that does not ends the walk.
pub closed spec fn chain_from(edges: Seq<EdgeData>, cur: Option<usize>) -> Seq<usize>
    decreases (match cur {
        Some(e) => e + 1,
        None => 0int,
    }),
{
    match cur {
        None => Seq::empty(),
        Some(e) => {
            if e < edges.len() && (edges[e as int].next_outgoing_edge matches Some(j) ==> j < e) {
                seq![edges[e as int].target] + chain_from(edges, edges[e as int].next_outgoing_edge)
            } else {
                Seq::empty()
            }
        },
    }
}

/// Every edge targets an existing node and links only to an
/// earlier-inserted edge.
pub closed spec fn edges_wf(edges: Seq<EdgeData>, node_count: nat) -> bool {
    forall|i: int| 0 <= i < edges.len() ==> {
        &&& (#[trigger] edges[i]).target < node_count
        &&& (edges[i].next_outgoing_edge matches Some(j) ==> j < i)
    }
}

/// A directed graph whose nodes each carry a payload of type `A`.
pub struct Graph<A> {
    nodes: Vec<NodeData<A>>,
    edges: Vec<EdgeData>,
}

impl<A> Graph<A> {
    /// Number of nodes inserted so far; valid node indices are exactly
    /// `0 .. node_count()`.
    pub closed spec fn node_count(self) -> nat {
        self.nodes@.len()
    }

    /// Number of edges inserted so far.
    pub closed spec fn edge_count(self) -> nat {
        self.edges@.len()
    }

    /// The payload of node `v`.
    pub closed spec fn data_at(self, v: int) -> A {
        self.nodes@[v].data
    }

    /// The head of node `v`'s adjacency list.
    pub closed spec fn first_edge(self, v: int) -> Option<usize> {
        self.nodes@[v].first_outgoing_edge
    }

    /// Structural invariant: every adjacency-list head names an existing
    /// edge, and every edge targets an existing node and links only to an
    /// earlier-inserted edge.
    pub closed spec fn wf(self) -> bool {
        &&& forall|v: int| 0 <= v < self.nodes@.len()
            ==> ((#[trigger] self.nodes@[v].first_outgoing_edge) matches Some(e)
                ==> e < self.edges@.len())
        &&& edges_wf(self.edges@, self.nodes@.len())
    }

    /// The targets of the outgoing edges of node `v`, most recently
    /// added first.
    pub closed spec fn succs(self, v: int) -> Seq<usize> {
        chain_from(self.edges@, self.nodes@[v].first_outgoing_edge)
    }

    /// There is an edge from `a` to `b`.
    pub open spec fn has_edge(self, a: usize, b: usize) -> bool {
        a < self.node_count() && self.succs(a as int).contains(b)
    }

    /// `p` is a directed path: it is non-empty and consecutive entries
    /// are joined by edges.
    pub open spec fn is_path(self, p: Seq<usize>) -> bool {
        &&& p.len() >= 1
        &&& forall|i: int| 0 <= i < p.len() - 1 ==> #[trigger] self.has_edge(p[i], p[i + 1])
    }

    /// `p` is a path leading from `s` to `t`.
    pub open spec fn connects(self, p: Seq<usize>, s: usize, t: usize) -> bool {
        &&& self.is_path(p)
        &&& p.first() == s
        &&& p.last() == t
    }

    /// Some path of at most `k` edges leads from `s` to `t`.
    pub open spec fn dist_le(self, s: usize, t: usize, k: nat) -> bool {
        exists|p: Seq<usize>| #[trigger] self.connects(p, s, t) && p.len() <= k + 1
    }

    /// What `shortest_path` promises: an out-of-bounds endpoint is
    /// rejected; otherwise `Some(d)` is returned exactly when `d` is the
    /// least number of edges on a path from `source` to `target`, and
    /// `None` exactly when no path of any length exists.
    pub open spec fn shortest_path_post(
        self,
        source: usize,
        target: usize,
        r: Result<Option<usize>, GraphError>,
    ) -> bool {
        match r {
            Err(e) => {
                &&& source >= self.node_count() || target >= self.node_count()
                &&& e == GraphError::OutOfBounds
            },
            Ok(opt) => {
                &&& source < self.node_count()
                &&& target < self.node_count()
                &&& match opt {
                    Some(d) => self.dist_le(source, target, d as nat)
                        && forall|k: nat| k < d ==> !self.dist_le(source, target, k),
                    None => forall|k: nat| !self.dist_le(source, target, k),
                }
            },
        }
    }

    /// Creates an empty graph.
    pub fn new() -> (g: Graph<A>)
        ensures
            g.wf(),
            g.node_count() == 0,
            g.edge_count() == 0,
    {
        Graph { nodes: Vec::new(), edges: Vec::new() }
    }

    /// Appends a node holding `data`, with no outgoing edges, and returns
    /// its index. Indices are handed out densely: the first node gets 0,
    /// the next 1, and so on; no index is ever reused.
    pub fn add_node(&mut self, data: A) -> (idx: usize)
        requires
            old(self).wf(),
        ensures
            final(self).wf(),
            idx == old(self).node_count(),
            final(self).node_count() == old(self).node_count() + 1,
            final(self).edge_count() == old(self).edge_count(),
            final(self).first_edge(idx as int) is None,
            final(self).data_at(idx as int) == data,
            final(self).succs(idx as int) == Seq::<usize>::empty(),
            forall|v: int| 0 <= v < old(self).node_count() ==> {
                &&& final(self).first_edge(v) == old(self).first_edge(v)
                &&& final(self).data_at(v) == old(self).data_at(v)
                &&& final(self).succs(v) == old(self).succs(v)
            },
    {
        let index = self.nodes.len();
        self.nodes.push(NodeData { first_outgoing_edge: None, data });
        index
    }

    /// Returns the payload attached to `source` at insertion, or `None`
    /// if `source` is not a valid node index.
    pub fn get(&self, source: usize) -> (r: Option<&A>)
        ensures
            match r {
                Some(a) => source < self.node_count() && *a == self.data_at(source as int),
                None => source >= self.node_count(),
            },
    {
        if source < self.nodes.len() {
            Some(&self.nodes[source].data)
        } else {
            None
        }
    }

    /// Appends an edge from `source` to `target` at the head of
    /// `source`'s adjacency list, so that the newest edge is traversed
    /// first. Both endpoints are validated eagerly: an out-of-range
    /// `source` or `target` is rejected and the graph is left unchanged,
    /// so no edge ever dangles.
    pub fn add_edge(&mut self, source: usize, target: usize) -> (r: Result<(), GraphError>)
        requires
            old(self).wf(),
        ensures
            final(self).wf(),
            r is Ok <==> source < old(self).node_count() && target < old(self).node_count(),
            r is Err ==> r == Err::<(), GraphError>(GraphError::OutOfBounds)
                && *final(self) == *old(self),
            r is Ok ==> {
                &&& final(self).node_count() == old(self).node_count()
                &&& final(self).edge_count() == old(self).edge_count() + 1
                &&& final(self).succs(source as int)
                    == seq![target] + old(self).succs(source as int)
                &&& forall|v: int| 0 <= v < old(self).node_count() && v != source
                    ==> final(self).succs(v) == old(self).succs(v)
                &&& forall|v: int| 0 <= v < old(self).node_count()
                    ==> final(self).data_at(v) == old(self).data_at(v)
            },
    {
        if source >= self.nodes.len() || target >= self.nodes.len() {
            return Err(GraphError::OutOfBounds);
        }
        let edge_index = self.edges.len();
        let head = self.nodes[source].first_outgoing_edge;
        self.edges.push(EdgeData { target, next_outgoing_edge: head });
        let node = &mut self.nodes[source];
        node.first_outgoing_edge = Some(edge_index);
        proof {
            lemma_chain_push(
                old(self).edges@,
                EdgeData { target, next_outgoing_edge: head },
                head,
            );
            assert forall|v: int| 0 <= v < old(self).node_count() && v != source
                implies self.succs(v) == old(self).succs(v) by {
                lemma_chain_push(
                    old(self).edges@,
                    EdgeData { target, next_outgoing_edge: head },
                    old(self).nodes@[v].first_outgoing_edge,
                );
            }
        }
        Ok(())
    }

    /// Computes the least number of edges on a path from `source` to
    /// `target` by breadth-first search over the adjacency lists:
    /// `Ok(Some(d))` when a path exists and `d` is its hop count,
    /// `Ok(None)` when `target` is unreachable from `source`, and
    /// `Err(GraphError::OutOfBounds)` when either endpoint is not a valid
    /// node index. Unit edge weights make level-by-level expansion
    /// equivalent to a lowest-cost-first search.
    pub fn shortest_path(&self, source: usize, target: usize) -> (r: Result<
        Option<usize>,
        GraphError,
    >)
        requires
            self.wf(),
        ensures
            self.shortest_path_post(source, target, r),
    {
        let n = self.nodes.len();
        if source >= n || target >= n {
            return Err(GraphError::OutOfBounds);
        }
        // best-known distance per node; None stands for "not reached yet"
        let mut dist: Vec<Option<usize>> = Vec::new();
        let mut i: usize = 0;
        while i < n
            invariant
                i <= n,
                dist@.len() == i,
                forall|v: int| 0 <= v < i ==> (#[trigger] dist@[v]) is None,
                count_none(dist@) == i,
            decreases n - i,
        {
            proof {
                lemma_count_none_push(dist@, None);
            }
            dist.push(None);
            i = i + 1;
        }
        proof {
            lemma_count_none_update(dist@, source as int, 0);
        }
        dist[source] = Some(0);
        let mut frontier: Vec<usize> = Vec::new();
        frontier.push(source);
        let mut level: usize = 0;
        proof {
            self.lemma_dist_le_refl(source, 0);
            assert(frontier@[0] == source);
            assert(frontier@.contains(source));
            assert forall|v: usize, k: nat|
                v < dist@.len() && k <= 0 && #[trigger] self.dist_le(source, v, k)
                implies dist@[v as int] is Some && dist@[v as int]->0 <= k by {
                self.lemma_dist_le_zero(source, v);
            }
        }
        while frontier.len() > 0
            invariant
                self.wf(),
                n == self.node_count(),
                dist@.len() == n,
                source < n,
                target < n,
                dist@[source as int] == Some(0usize),
                dist_exact(*self, source, dist@, level as nat),
                dist_complete(*self, source, dist@, level as nat),
                dist_relaxed_below(*self, dist@, level as nat),
                frontier_exact(dist@, frontier@, level),
                level + count_none(dist@) + frontier@.len() <= n,
            decreases count_none(dist@) + frontier@.len(),
        {
            let ghost dist0 = dist@;
            let ghost cn0 = count_none(dist@);
            let mut next_frontier: Vec<usize> = Vec::new();
            let mut fi: usize = 0;
            while fi < frontier.len()
                invariant
                    self.wf(),
                    n == self.node_count(),
                    dist@.len() == n,
                    source < n,
                    target < n,
                    dist@[source as int] == Some(0usize),
                    fi <= frontier@.len(),
                    1 <= frontier@.len(),
                    level < n,
                    dist0.len() == n,
                    cn0 == count_none(dist0),
                    level + cn0 + frontier@.len() <= n,
                    frontier_exact(dist0, frontier@, level),
                    forall|v: usize| v < n && (#[trigger] dist0[v as int]) is Some
                        ==> dist0[v as int]->0 <= level,
                    forall|v: usize| v < n && (#[trigger] dist0[v as int]) is Some
                        ==> dist@[v as int] == dist0[v as int],
                    forall|v: usize| v < n && dist0[v as int] is None
                        && (#[trigger] dist@[v as int]) is Some
                        ==> dist@[v as int] == Some((level + 1) as usize)
                            && next_frontier@.contains(v),
                    forall|j: int| 0 <= j < next_frontier@.len()
                        ==> (#[trigger] next_frontier@[j]) < n
                            && dist0[next_frontier@[j] as int] is None
                            && dist@[next_frontier@[j] as int] == Some((level + 1) as usize),
                    count_none(dist@) + next_frontier@.len() == cn0,
                    dist_exact(*self, source, dist@, (level + 1) as nat),
                    dist_complete(*self, source, dist@, level as nat),
                    dist_relaxed_below(*self, dist@, level as nat),
                    forall|j2: int, j: int|
                        #![trigger neighbor_recorded(*self, dist@, frontier@[j2], j)]
                        0 <= j2 < fi && 0 <= j < self.succs(frontier@[j2] as int).len()
                            ==> neighbor_recorded(*self, dist@, frontier@[j2], j),
                decreases frontier@.len() - fi,
            {
                let pos = frontier[fi];
                let ghost succs_v = self.succs(pos as int);
                let ghost mut seen: Seq<usize> = Seq::empty();
                let mut cur = self.nodes[pos].first_outgoing_edge;
                while cur.is_some()
                    invariant
                        self.wf(),
                        n == self.node_count(),
                        dist@.len() == n,
                        source < n,
                        target < n,
                        dist@[source as int] == Some(0usize),
                        fi < frontier@.len(),
                        level < n,
                        dist0.len() == n,
                        cn0 == count_none(dist0),
                        level + cn0 + frontier@.len() <= n,
                        frontier_exact(dist0, frontier@, level),
                        forall|v: usize| v < n && (#[trigger] dist0[v as int]) is Some
                            ==> dist0[v as int]->0 <= level,
                        forall|v: usize| v < n && (#[trigger] dist0[v as int]) is Some
                            ==> dist@[v as int] == dist0[v as int],
                        forall|v: usize| v < n && dist0[v as int] is None
                            && (#[trigger] dist@[v as int]) is Some
                            ==> dist@[v as int] == Some((level + 1) as usize)
                                && next_frontier@.contains(v),
                        forall|j: int| 0 <= j < next_frontier@.len()
                            ==> (#[trigger] next_frontier@[j]) < n
                                && dist0[next_frontier@[j] as int] is None
                                && dist@[next_frontier@[j] as int] == Some((level + 1) as usize),
                        count_none(dist@) + next_frontier@.len() == cn0,
                        dist_exact(*self, source, dist@, (level + 1) as nat),
                        dist_complete(*self, source, dist@, level as nat),
                        dist_relaxed_below(*self, dist@, level as nat),
                        forall|j2: int, j: int|
                            #![trigger neighbor_recorded(*self, dist@, frontier@[j2], j)]
                            0 <= j2 < fi && 0 <= j < self.succs(frontier@[j2] as int).len()
                                ==> neighbor_recorded(*self, dist@, frontier@[j2], j),
                        pos == frontier@[fi as int],
                        pos < n,
                        dist@[pos as int] == Some(level),
                        succs_v == self.succs(pos as int),
                        cur matches Some(e) ==> e < self.edges@.len(),
                        succs_v == seen + chain_from(self.edges@, cur),
                        forall|j: int| 0 <= j < seen.len() ==> (#[trigger] seen[j]) < n
                            && dist@[seen[j] as int] is Some
                            && dist@[seen[j] as int]->0 <= level + 1,
                    decreases (match cur {
                        Some(e) => e + 1,
                        None => 0int,
                    }),
                {
                    let e: usize = cur.unwrap();
                    let nb: usize = self.edges[e].target;
                    let next = self.edges[e].next_outgoing_edge;
                    proof {
                        assert(self.edges@[e as int].target < n
                            && (self.edges@[e as int].next_outgoing_edge matches Some(j) ==> j
                            < e));
                        assert(chain_from(self.edges@, cur) == seq![nb] + chain_from(
                            self.edges@,
                            next,
                        ));
                    }
                    cur = next;
                    if dist[nb].is_none() {
                        let newd = level + 1;
                        let ghost dist_before = dist@;
                        let ghost nf_before = next_frontier@;
                        proof {
                            lemma_count_none_update(dist@, nb as int, newd);
                            assert(self.dist_le(source, pos, level as nat));
                            assert(succs_v[seen.len() as int] == nb);
                            assert(self.succs(pos as int).contains(nb));
                            self.lemma_dist_le_step(source, pos, nb, level as nat);
                        }
                        dist[nb] = Some(newd);
                        next_frontier.push(nb);
                        proof {
                            assert(dist@ == dist_before.update(nb as int, Some(newd)));
                            assert(next_frontier@ == nf_before.push(nb));
                            assert(next_frontier@[nf_before.len() as int] == nb);
                            assert(next_frontier@.contains(nb));
                            assert forall|k: nat| k < newd implies !self.dist_le(
                                source,
                                nb,
                                k,
                            ) by {
                                if self.dist_le(source, nb, k) {
                                    assert(dist_before[nb as int] is Some);
                                }
                            }
                            assert forall|v: usize|
                                v < n && (#[trigger] dist0[v as int]) is Some
                                implies dist@[v as int] == dist0[v as int] by {
                                assert(dist_before[v as int] == dist0[v as int]);
                            }
                            assert forall|v: usize|
                                v < n && dist0[v as int] is None
                                    && (#[trigger] dist@[v as int]) is Some
                                implies dist@[v as int] == Some((level + 1) as usize)
                                    && next_frontier@.contains(v) by {
                                if v != nb {
                                    assert(dist@[v as int] == dist_before[v as int]);
                                    let idx = choose|idx: int|
                                        0 <= idx < nf_before.len() && nf_before[idx] == v;
                                    assert(next_frontier@[idx] == v);
                                }
                            }
                            assert forall|j: int| 0 <= j < next_frontier@.len()
                                implies (#[trigger] next_frontier@[j]) < n
                                    && dist0[next_frontier@[j] as int] is None
                                    && dist@[next_frontier@[j] as int] == Some(
                                    (level + 1) as usize,
                                ) by {
                                if j < nf_before.len() {
                                    assert(next_frontier@[j] == nf_before[j]);
                                    assert(dist_before[nf_before[j] as int] is Some);
                                }
                            }
                            assert forall|v: usize|
                                v < n && (#[trigger] dist@[v as int]) is Some
                                implies dist@[v as int]->0 <= level + 1 && self.dist_le(
                                    source,
                                    v,
                                    dist@[v as int]->0 as nat,
                                ) by {
                                if v != nb {
                                    assert(dist@[v as int] == dist_before[v as int]);
                                }
                            }
                            assert forall|v: usize, k: nat|
                                v < n && dist@[v as int] is Some && k < dist@[v as int]->0
                                implies !(#[trigger] self.dist_le(source, v, k)) by {
                                if v != nb {
                                    assert(dist@[v as int] == dist_before[v as int]);
                                }
                            }
                            assert forall|v: usize, k: nat|
                                v < n && k <= level && #[trigger] self.dist_le(source, v, k)
                                implies dist@[v as int] is Some && dist@[v as int]->0 <= k by {
                                assert(dist_before[v as int] is Some
                                    && dist_before[v as int]->0 <= k);
                            }
                            assert forall|m: usize, j: int|
                                #![trigger dist@[m as int], self.succs(m as int)[j]]
                                m < n && dist@[m as int] is Some && dist@[m as int]->0 < level
                                    && 0 <= j < self.succs(m as int).len()
                                implies neighbor_recorded(*self, dist@, m, j) by {
                                if m != nb {
                                    assert(dist_before[m as int] == dist@[m as int]);
                                    assert(neighbor_recorded(*self, dist_before, m, j));
                                    let b = self.succs(m as int)[j];
                                    assert(dist_before[b as int] is Some);
                                }
                            }
                            assert forall|j2: int, j: int|
                                0 <= j2 < fi && 0 <= j < self.succs(frontier@[j2] as int).len()
                                implies neighbor_recorded(*self, dist@, frontier@[j2], j) by {
                                assert(neighbor_recorded(*self, dist_before, frontier@[j2], j));
                                let m = frontier@[j2];
                                assert(dist_before[m as int] is Some);
                                let b = self.succs(m as int)[j];
                                assert(dist_before[b as int] is Some);
                            }
                            assert forall|j: int| 0 <= j < seen.len()
                                implies (#[trigger] seen[j]) < n
                                    && dist@[seen[j] as int] is Some
                                    && dist@[seen[j] as int]->0 <= level + 1 by {
                                assert(dist_before[seen[j] as int] is Some);
                            }
                        }
                    } else {
                        proof {
                            assert(dist@[nb as int] is Some);
                            assert(dist@[nb as int]->0 <= level + 1);
                        }
                    }
                    proof {
                        seen = seen.push(nb);
                        assert(succs_v =~= seen + chain_from(self.edges@, cur));
                    }
                }
                proof {
                    assert(succs_v =~= seen);
                    assert forall|j: int| 0 <= j < self.succs(pos as int).len()
                        implies neighbor_recorded(*self, dist@, pos, j) by {
                        assert(seen[j] < n && dist@[seen[j] as int] is Some
                            && dist@[seen[j] as int]->0 <= level + 1);
                    }
                }
                fi = fi + 1;
                proof {
                    assert forall|j2: int, j: int|
                        0 <= j2 < fi && 0 <= j < self.succs(frontier@[j2] as int).len()
                        implies neighbor_recorded(*self, dist@, frontier@[j2], j) by {
                        if j2 == fi - 1 {
                            assert(frontier@[j2] == pos);
                            assert(neighbor_recorded(*self, dist@, pos, j));
                        }
                    }
                }
            }
            // the whole layer at this level has been expanded; move on
            proof {
                assert forall|m: usize, j: int|
                    #![trigger dist@[m as int], self.succs(m as int)[j]]
                    m < n && dist@[m as int] is Some && dist@[m as int]->0 < level + 1 && 0 <= j
                        < self.succs(m as int).len()
                    implies neighbor_recorded(*self, dist@, m, j) by {
                    if dist@[m as int]->0 < level {
                        assert(neighbor_recorded(*self, dist@, m, j));
                    } else {
                        assert(dist@[m as int] == Some(level));
                        assert(dist0[m as int] == Some(level)) by {
                            if dist0[m as int] is None {
                                assert(dist@[m as int] == Some((level + 1) as usize));
                            }
                        }
                        assert(frontier@.contains(m));
                        let j2 = choose|j2: int|
                            0 <= j2 < frontier@.len() && frontier@[j2] == m;
                        assert(neighbor_recorded(*self, dist@, frontier@[j2], j));
                    }
                }
                assert forall|v: usize, k: nat|
                    v < n && k <= level + 1 && #[trigger] self.dist_le(source, v, k)
                    implies dist@[v as int] is Some && dist@[v as int]->0 <= k by {
                    if k <= level {
                        assert(dist@[v as int] is Some && dist@[v as int]->0 <= k);
                    } else if v == source {
                        assert(dist@[v as int]->0 == 0);
                    } else {
                        self.lemma_dist_le_decompose(source, v, k);
                        let m = choose|m: usize| #[trigger] self.has_edge(m, v)
                            && self.dist_le(source, m, (k - 1) as nat);
                        assert(dist@[m as int] is Some && dist@[m as int]->0 <= level);
                        let j = choose|j: int|
                            0 <= j < self.succs(m as int).len() && self.succs(m as int)[j] == v;
                        assert(neighbor_recorded(*self, dist@, m, j));
                    }
                }
                assert forall|v: usize|
                    v < n && (#[trigger] dist@[v as int]) == Some(((level + 1) as usize))
                    implies next_frontier@.contains(v) by {
                    if dist0[v as int] is Some {
                        assert(dist0[v as int]->0 <= level);
                    }
                }
            }
            frontier = next_frontier;
            level = level + 1;
        }
        // the search has flooded every reachable node
        proof {
            assert forall|v: usize| v < n && (#[trigger] dist@[v as int]) is Some
                implies dist@[v as int]->0 < level by {
                if dist@[v as int]->0 == level {
                    assert(dist@[v as int] == Some(level));
                    assert(frontier@.contains(v));
                }
            }
        }
        let found = dist[target];
        proof {
            match found {
                Some(d) => {
                    assert(self.dist_le(source, target, d as nat));
                    assert forall|k: nat| k < d implies !self.dist_le(source, target, k) by {
                        if self.dist_le(source, target, k) {
                            assert(false);
                        }
                    }
                },
                None => {
                    assert forall|k: nat| !self.dist_le(source, target, k) by {
                        if self.dist_le(source, target, k) {
                            lemma_bfs_complete(*self, source, dist@, level as nat, target, k);
                        }
                    }
                },
            }
        }
        Ok(found)
    }

    /// Returns a fresh cursor over the targets of `source`'s outgoing
    /// edges, most recently added first, or an error if `source` is not
    /// a valid node index. The cursor reads the store and never mutates
    /// it, so repeated calls yield the same sequence.
    pub fn successors(&self, source: usize) -> (r: Result<Successors<A>, GraphError>)
        requires
            self.wf(),
        ensures
            r is Ok <==> source < self.node_count(),
            r matches Ok(it) ==> {
                &&& it.wf()
                &&& it.graph() == *self
                &&& it.remaining() == self.succs(source as int)
            },
            r is Err ==> r == Err::<Successors<A>, GraphError>(GraphError::OutOfBounds),
    {
        if source >= self.nodes.len() {
            return Err(GraphError::OutOfBounds);
        }
        let first_outgoing_edge = self.nodes[source].first_outgoing_edge;
        Ok(Successors { graph: self, current_edge_index: first_outgoing_edge })
    }
}

/// A cursor over the outgoing-edge targets of one node: a borrow of the
/// store plus the index of the next edge to visit. Pulling from it never
/// mutates the store.
pub struct Successors<'graph, A> {
    graph: &'graph Graph<A>,
    current_edge_index: Option<usize>,
}

impl<'graph, A> Successors<'graph, A> {
    /// The store this cursor reads.
    pub closed spec fn graph(self) -> Graph<A> {
        *self.graph
    }

    /// The cursor points into a well-formed store, at an existing edge
    /// if at any.
    pub closed spec fn wf(self) -> bool {
        &&& self.graph.wf()
        &&& (self.current_edge_index matches Some(e) ==> e < self.graph.edges@.len())
    }

    /// The targets the cursor has yet to yield.
    pub closed spec fn remaining(self) -> Seq<usize> {
        chain_from(self.graph.edges@, self.current_edge_index)
    }

    /// Yields the next edge target, or `None` once the adjacency list is
    /// exhausted.
    pub fn next(&mut self) -> (r: Option<usize>)
        requires
            old(self).wf(),
        ensures
            final(self).wf(),
            final(self).graph() == old(self).graph(),
            match r {
                Some(t) => old(self).remaining() == seq![t] + final(self).remaining()
                    && t < old(self).graph().node_count(),
                None => old(self).remaining() == Seq::<usize>::empty()
                    && final(self).remaining() == Seq::<usize>::empty(),
            },
    {
        match self.current_edge_index {
            None => None,
            Some(edge_num) => {
                let edge = &self.graph.edges[edge_num];
                self.current_edge_index = edge.next_outgoing_edge;
                Some(edge.target)
            },
        }
    }
}

/// Appending a fresh slot to the edge arena does not change any chain
/// that starts at an existing slot, because links only ever point to
/// earlier slots.
proof fn lemma_chain_push(edges: Seq<EdgeData>, e: EdgeData, cur: Option<usize>)
    requires
        cur matches Some(c) ==> c < edges.len(),
        forall|i: int| 0 <= i < edges.len()
            ==> ((#[trigger] edges[i]).next_outgoing_edge matches Some(j) ==> j < i),
    ensures
        chain_from(edges.push(e), cur) == chain_from(edges, cur),
    decreases (match cur {
        Some(c) => c + 1,
        None => 0int,
    }),
{
    match cur {
        None => {},
        Some(c) => {
            assert(edges.push(e)[c as int] == edges[c as int]);
            lemma_chain_push(edges, e, edges[c as int].next_outgoing_edge);
        },
    }
}

impl<A> Graph<A> {
    /// The one-node path shows that every node reaches itself in zero
    /// edges.
    proof fn lemma_dist_le_refl(self, x: usize, k: nat)
        ensures
            self.dist_le(x, x, k),
    {
        let p = seq![x];
        assert(self.connects(p, x, x) && p.len() <= k + 1);
    }

    /// A path of zero edges joins a node only to itself.
    proof fn lemma_dist_le_zero(self, s: usize, t: usize)
        requires
            self.dist_le(s, t, 0),
        ensures
            s == t,
    {
        let p = choose|p: Seq<usize>| #[trigger] self.connects(p, s, t) && p.len() <= 0 + 1;
        assert(p.len() == 1);
    }

    /// Extending a path by one edge at its target end.
    proof fn lemma_dist_le_step(self, s: usize, m: usize, t: usize, k: nat)
        requires
            self.dist_le(s, m, k),
            self.has_edge(m, t),
        ensures
            self.dist_le(s, t, k + 1),
    {
        let p = choose|p: Seq<usize>| #[trigger] self.connects(p, s, m) && p.len() <= k + 1;
        let q = p.push(t);
        assert forall|i: int| 0 <= i < q.len() - 1 implies #[trigger] self.has_edge(q[i], q[i + 1]) by {
            if i < p.len() - 1 {
                assert(self.has_edge(p[i], p[i + 1]));
            } else {
                assert(q[i] == m && q[i + 1] == t);
            }
        }
        assert(self.connects(q, s, t) && q.len() <= (k + 1) + 1);
    }

    /// Splitting the last edge off a path: a path of at most `k` edges
    /// ending at `t != s` enters `t` from some node reached in at most
    /// `k - 1` edges.
    proof fn lemma_dist_le_decompose(self, s: usize, t: usize, k: nat)
        requires
            self.dist_le(s, t, k),
            s != t,
        ensures
            k > 0,
            exists|m: usize| #[trigger] self.has_edge(m, t) && self.dist_le(s, m, (k - 1) as nat),
    {
        let p = choose|p: Seq<usize>| #[trigger] self.connects(p, s, t) && p.len() <= k + 1;
        assert(p.len() >= 2);
        let m = p[p.len() - 2];
        let q = p.drop_last();
        assert forall|i: int| 0 <= i < q.len() - 1 implies #[trigger] self.has_edge(q[i], q[i + 1]) by {
            assert(self.has_edge(p[i], p[i + 1]));
        }
        let last_hop = p.len() - 2;
        assert(self.has_edge(p[last_hop], p[last_hop + 1]));
        assert(self.connects(q, s, m) && q.len() <= ((k - 1) as nat) + 1);
        assert(self.has_edge(m, t) && self.dist_le(s, m, (k - 1) as nat));
    }
}

/// Every set entry of the distance table is a true distance from
/// `source`: the node is reachable within the recorded number of edges
/// and within nothing smaller, and no record exceeds `bound`.
spec fn dist_exact<A>(g: Graph<A>, source: usize, dist: Seq<Option<usize>>, bound: nat) -> bool {
    &&& forall|v: usize| v < dist.len() && (#[trigger] dist[v as int]) is Some
        ==> dist[v as int]->0 <= bound
            && g.dist_le(source, v, dist[v as int]->0 as nat)
    &&& forall|v: usize, k: nat| v < dist.len() && dist[v as int] is Some
        && k < dist[v as int]->0 ==> !(#[trigger] g.dist_le(source, v, k))
}

/// Every node reachable from `source` within `bound` edges is recorded,
/// with a value no larger than the length of the path that shows it.
spec fn dist_complete<A>(g: Graph<A>, source: usize, dist: Seq<Option<usize>>, bound: nat) -> bool {
    forall|v: usize, k: nat| v < dist.len() && k <= bound && #[trigger] g.dist_le(source, v, k)
        ==> dist[v as int] is Some && dist[v as int]->0 <= k
}

/// Neighbor `j` of node `m` is recorded, at most one step beyond `m`.
spec fn neighbor_recorded<A>(g: Graph<A>, dist: Seq<Option<usize>>, m: usize, j: int) -> bool {
    let b = g.succs(m as int)[j];
    &&& b < dist.len()
    &&& dist[b as int] is Some
    &&& dist[b as int]->0 <= dist[m as int]->0 + 1
}

/// Every node recorded below `bound` has had all its outgoing edges
/// relaxed.
spec fn dist_relaxed_below<A>(g: Graph<A>, dist: Seq<Option<usize>>, bound: nat) -> bool {
    forall|m: usize, j: int|
        #![trigger dist[m as int], g.succs(m as int)[j]]
        m < dist.len() && dist[m as int] is Some && dist[m as int]->0 < bound
            && 0 <= j < g.succs(m as int).len()
            ==> neighbor_recorded(g, dist, m, j)
}

/// `frontier` holds exactly the nodes recorded at distance `level`.
spec fn frontier_exact(dist: Seq<Option<usize>>, frontier: Seq<usize>, level: usize) -> bool {
    &&& forall|j: int| 0 <= j < frontier.len() ==> (#[trigger] frontier[j]) < dist.len()
        && dist[frontier[j] as int] == Some(level)
    &&& forall|v: usize| v < dist.len() && (#[trigger] dist[v as int]) == Some(level)
        ==> frontier.contains(v)
}

/// Once every recorded node has been fully relaxed, every reachable node
/// is recorded: induction over the length of the witnessing path.
proof fn lemma_bfs_complete<A>(
    g: Graph<A>,
    source: usize,
    dist: Seq<Option<usize>>,
    bound: nat,
    v: usize,
    k: nat,
)
    requires
        g.wf(),
        source < g.node_count(),
        dist.len() == g.node_count(),
        dist[source as int] == Some(0usize),
        forall|w: usize| w < dist.len() && (#[trigger] dist[w as int]) is Some
            ==> dist[w as int]->0 < bound,
        dist_relaxed_below(g, dist, bound),
        v < dist.len(),
        g.dist_le(source, v, k),
    ensures
        dist[v as int] is Some && dist[v as int]->0 <= k,
    decreases k,
{
    if v != source {
        g.lemma_dist_le_decompose(source, v, k);
        let m = choose|m: usize| #[trigger] g.has_edge(m, v) && g.dist_le(source, m, (k - 1) as nat);
        lemma_bfs_complete(g, source, dist, bound, m, (k - 1) as nat);
        let j = choose|j: int| 0 <= j < g.succs(m as int).len() && g.succs(m as int)[j] == v;
        assert(neighbor_recorded(g, dist, m, j));
    }
}

/// Most-recently-added edge first: when an edge to `t1` and then an
/// edge to `t2` are appended at `s` (the premises are what `add_edge`
/// ensures for the two calls), the adjacency sequence of `s` lists `t2`
/// before `t1`.
pub proof fn lemma_most_recent_edge_first<A>(
    g0: Graph<A>,
    g1: Graph<A>,
    g2: Graph<A>,
    s: usize,
    t1: usize,
    t2: usize,
)
    requires
        g1.succs(s as int) == seq![t1] + g0.succs(s as int),
        g2.succs(s as int) == seq![t2] + g1.succs(s as int),
    ensures
        g2.succs(s as int).len() >= 2,
        g2.succs(s as int)[0] == t2,
        g2.succs(s as int)[1] == t1,
{
}

/// A node whose adjacency list is empty has no successors.
pub proof fn lemma_no_edges_no_successors<A>(g: Graph<A>, v: usize)
    requires
        v < g.node_count(),
        g.first_edge(v as int) is None,
    ensures
        g.succs(v as int) == Seq::<usize>::empty(),
{
}

/// The successor sequence is a function of the graph and the node alone:
/// two traversals of the same node of the same graph see the same
/// targets.
pub proof fn lemma_successors_repeatable<A>(g: Graph<A>, s: usize, r1: Seq<usize>, r2: Seq<usize>)
    requires
        r1 == g.succs(s as int),
        r2 == g.succs(s as int),
    ensures
        r1 == r2,
{
}

/// Searching from a valid node to itself always reports distance zero.
pub proof fn lemma_shortest_path_self<A>(
    g: Graph<A>,
    x: usize,
    r: Result<Option<usize>, GraphError>,
)
    requires
        x < g.node_count(),
        g.shortest_path_post(x, x, r),
    ensures
        r == Ok::<Option<usize>, GraphError>(Some(0usize)),
{
    g.lemma_dist_le_refl(x, 0);
    match r {
        Err(_) => {},
        Ok(opt) => match opt {
            None => {},
            Some(d) => {
                if d > 0 {
                    assert(!g.dist_le(x, x, 0));
                }
            },
        },
    }
}

/// With valid endpoints, the search reports `None` exactly when no path
/// of any length leads from `s` to `t`: unreachability is never conflated
/// with a failure, and a reported distance always comes with a path.
pub proof fn lemma_none_iff_unreachable<A>(
    g: Graph<A>,
    s: usize,
    t: usize,
    r: Result<Option<usize>, GraphError>,
)
    requires
        s < g.node_count(),
        t < g.node_count(),
        g.shortest_path_post(s, t, r),
    ensures
        r == Ok::<Option<usize>, GraphError>(None::<usize>)
            <==> (forall|k: nat| !g.dist_le(s, t, k)),
{
    match r {
        Err(_) => {},
        Ok(opt) => match opt {
            None => {},
            Some(d) => {
                assert(g.dist_le(s, t, d as nat));
            },
        },
    }
}

/// How many entries of a distance table are still unset.
spec fn count_none(s: Seq<Option<usize>>) -> nat
    decreases s.len(),
{
    if s.len() == 0 {
        0
    } else {
        count_none(s.drop_last()) + (if s.last() is None { 1nat } else { 0nat })
    }
}

/// Appending an entry adds one unset slot exactly when it is `None`.
proof fn lemma_count_none_push(s: Seq<Option<usize>>, x: Option<usize>)
    ensures
        count_none(s.push(x)) == count_none(s) + (if x is None { 1nat } else { 0nat }),
{
    assert(s.push(x).drop_last() =~= s);
    assert(s.push(x).last() == x);
}

/// Filling one unset slot lowers the unset count by exactly one.
proof fn lemma_count_none_update(s: Seq<Option<usize>>, i: int, d: usize)
    requires
        0 <= i < s.len(),
        s[i] is None,
    ensures
        count_none(s.update(i, Some(d))) + 1 == count_none(s),
    decreases s.len(),
{
    let upd = s.update(i, Some(d));
    if i == s.len() - 1 {
        assert(upd.drop_last() =~= s.drop_last());
        assert(upd.last() == Some(d));
    } else {
        assert(upd.drop_last() =~= s.drop_last().update(i, Some(d)));
        assert(upd.last() == s.last());
        lemma_count_none_update(s.drop_last(), i, d);
    }
}

} // verus!
