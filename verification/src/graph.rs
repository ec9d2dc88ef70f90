//! Adjacency-list storage for a directed, weighted graph.

use vstd::prelude::*;

verus! {

/// A directed edge: destination node and weight.
///
/// Weights may be negative; nothing is rejected at insertion time. The
/// solvers' optimality is only meaningful for non-negative weights (see
/// `crate::algorithms`).
#[derive(Clone, Copy, Debug)]
pub struct Edge {
    pub to: u32,
    pub weight: i64,
}

/// A directed weighted graph. Nodes are dense `u32` indices; a node
/// exists exactly when its index is below `node_count()`. The table only
/// ever grows.
#[derive(Clone, Debug)]
pub struct Graph {
    adjacency: Vec<Vec<Edge>>,
}

impl View for Graph {
    type V = Seq<Seq<Edge>>;

    closed spec fn view(&self) -> Seq<Seq<Edge>> {
        self.adjacency@.map_values(|row: Vec<Edge>| row@)
    }
}

/// Every edge's destination is a registered node, and the table never
/// outgrows the `u32` index space.
pub open spec fn adjacency_wf(adj: Seq<Seq<Edge>>) -> bool {
    &&& adj.len() <= u32::MAX + 1
    &&& forall|u: int, j: int|
        0 <= u < adj.len() && 0 <= j < adj[u].len() ==> (#[trigger] adj[u][j]).to < adj.len()
}

impl Graph {
    /// The structural invariant every `Graph` satisfies: all stored edge
    /// endpoints lie in `[0, node_count())`.
    pub open spec fn wf(&self) -> bool {
        adjacency_wf(self@)
    }

    /// An empty graph with no nodes and no edges.
    pub fn new() -> (g: Graph)
        ensures
            g@ == Seq::<Seq<Edge>>::empty(),
            g.wf(),
    {
        let g = Graph { adjacency: Vec::new() };
        proof {
            assert(g@ =~= Seq::<Seq<Edge>>::empty());
        }
        g
    }

    /// Grows the table so that `node` is a valid index; a no-op if it
    /// already is. Newly created nodes have no outgoing edges.
    pub fn ensure_node(&mut self, node: u32)
        requires
            old(self).wf(),
        ensures
            final(self).wf(),
            final(self)@.len() == vstd::math::max(old(self)@.len() as int, node as int + 1),
            forall|i: int| 0 <= i < old(self)@.len() ==> final(self)@[i] == old(self)@[i],
            forall|i: int|
                old(self)@.len() <= i < final(self)@.len() ==> final(self)@[i]
                    == Seq::<Edge>::empty(),
    {
        while self.adjacency.len() <= node as usize
            invariant
                self.wf(),
                self@.len() >= old(self)@.len(),
                self@.len() <= vstd::math::max(old(self)@.len() as int, node as int + 1),
                forall|i: int| 0 <= i < old(self)@.len() ==> self@[i] == old(self)@[i],
                forall|i: int|
                    old(self)@.len() <= i < self@.len() ==> self@[i] == Seq::<Edge>::empty(),
            decreases node as int + 1 - self@.len(),
        {
            let ghost prev = self@;
            self.adjacency.push(Vec::new());
            proof {
                assert(self@ =~= prev.push(Seq::<Edge>::empty()));
            }
        }
    }

    /// Appends the directed edge `from -> to` with the given weight,
    /// first registering both endpoints. Parallel edges are kept; no
    /// weight is rejected.
    pub fn add_edge(&mut self, from: u32, to: u32, weight: i64)
        requires
            old(self).wf(),
        ensures
            final(self).wf(),
            final(self)@.len() == vstd::math::max(
                old(self)@.len() as int,
                vstd::math::max(from as int + 1, to as int + 1),
            ),
            final(self)@[from as int] == (if (from as int) < old(self)@.len() {
                old(self)@[from as int]
            } else {
                Seq::<Edge>::empty()
            }).push(Edge { to, weight }),
            forall|i: int|
                0 <= i < final(self)@.len() && i != from as int ==> final(self)@[i] == (if i
                    < old(self)@.len() {
                    old(self)@[i]
                } else {
                    Seq::<Edge>::empty()
                }),
    {
        self.ensure_node(from);
        self.ensure_node(to);
        let ghost grown = self@;
        let row: &mut Vec<Edge> = &mut self.adjacency[from as usize];
        row.push(Edge { to, weight });
        proof {
            assert(self@ =~= grown.update(
                from as int,
                grown[from as int].push(Edge { to, weight }),
            ));
        }
    }

    /// The current number of registered nodes.
    pub fn node_count(&self) -> (n: usize)
        ensures
            n == self@.len(),
    {
        self.adjacency.len()
    }

    /// The outgoing edges of `node`, possibly empty. Callers must check
    /// the index against `node_count()` first.
    pub fn neighbors(&self, node: u32) -> (r: &Vec<Edge>)
        requires
            (node as int) < self@.len(),
        ensures
            r@ == self@[node as int],
    {
        &self.adjacency[node as usize]
    }

    /// Estimate of the remaining cost from `node` to `target`, used by
    /// the heuristic-guided solver. The current policy is the constant
    /// zero: admissible for every graph, so the guided search behaves
    /// like uniform-cost search.
    pub fn heuristic(&self, node: u32, target: u32) -> (h: i64)
        ensures
            h == 0,
    {
        let _ = node;
        let _ = target;
        0
    }
}

} // verus!
