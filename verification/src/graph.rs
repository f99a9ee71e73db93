//! A directed graph as an adjacency list of cost-carrying edges.

use vstd::pervasive::VecAdditionalExecFns;
use vstd::prelude::*;

verus! {

/// One outgoing edge.
#[derive(Clone, Copy, PartialEq, Eq, Debug)]
pub struct Edge<Cost> {
    pub to: usize,
    pub cost: Cost,
}

/// Adjacency-list graph: slot `p` holds the edges leaving vertex `p`.
pub struct Graph<Cost> {
    adj: Vec<Vec<Edge<Cost>>>,
}

impl<Cost: Copy> Graph<Cost> {
    /// The adjacency lists.
    pub closed spec fn view_adj(&self) -> Seq<Seq<Edge<Cost>>> {
        Seq::new(self.adj@.len(), |i: int| self.adj@[i]@)
    }

    /// A graph on `n` vertices with no edges.
    pub fn new(n: usize) -> (r: Graph<Cost>)
        ensures
            r.view_adj().len() == n,
            forall|i: int| 0 <= i < n ==> (#[trigger] r.view_adj()[i]).len() == 0,
    {
        let mut adj: Vec<Vec<Edge<Cost>>> = Vec::new();
        while adj.len() < n
            invariant
                adj@.len() <= n,
                forall|i: int| 0 <= i < adj@.len() ==> (#[trigger] adj@[i])@.len() == 0,
            decreases n - adj.len(),
        {
            adj.push(Vec::new());
        }
        Graph { adj }
    }

    /// The number of vertices.
    pub fn len(&self) -> (r: usize)
        ensures
            r == self.view_adj().len(),
    {
        self.adj.len()
    }

    /// Adds the directed edge `from -> to_` with cost `cost_`.
    pub fn add_edge(&mut self, from: usize, to_: usize, cost_: Cost)
        requires
            from < old(self).view_adj().len(),
        ensures
            final(self).view_adj().len() == old(self).view_adj().len(),
            final(self).view_adj()[from as int] == old(self).view_adj()[from as int].push(
                Edge { to: to_, cost: cost_ },
            ),
            forall|i: int|
                0 <= i < old(self).view_adj().len() && i != from ==> (#[trigger] final(self).view_adj()[i]) == old(self).view_adj()[i],
    {
        let mut row: Vec<Edge<Cost>> = Vec::new();
        self.adj.set_and_swap(from, &mut row);
        row.push(Edge { to: to_, cost: cost_ });
        self.adj.set_and_swap(from, &mut row);
        proof {
            assert forall|i: int|
                0 <= i < old(self).view_adj().len() && i != from implies #[trigger] self.view_adj()[i]
                == old(self).view_adj()[i] by {
                assert(self.adj@[i] == old(self).adj@[i]);
            }
        }
    }

    /// Adds the edge in both directions.
    pub fn add_uedge(&mut self, from: usize, to_: usize, cost_: Cost)
        requires
            from < old(self).view_adj().len(),
            to_ < old(self).view_adj().len(),
        ensures
            final(self).view_adj().len() == old(self).view_adj().len(),
            final(self).view_adj()[from as int] == (if from == to_ {
                old(self).view_adj()[from as int].push(Edge { to: to_, cost: cost_ }).push(
                    Edge { to: from, cost: cost_ },
                )
            } else {
                old(self).view_adj()[from as int].push(Edge { to: to_, cost: cost_ })
            }),
            from != to_ ==> final(self).view_adj()[to_ as int] == old(self).view_adj()[to_
                as int].push(Edge { to: from, cost: cost_ }),
            forall|i: int|
                0 <= i < old(self).view_adj().len() && i != from && i != to_ ==> (#[trigger] final(self).view_adj()[i]) == old(self).view_adj()[i],
    {
        self.add_edge(from, to_, cost_);
        self.add_edge(to_, from, cost_);
    }

    /// The edges leaving `p`.
    pub fn get(&self, p: usize) -> (r: &Vec<Edge<Cost>>)
        requires
            p < self.view_adj().len(),
        ensures
            r@ == self.view_adj()[p as int],
    {
        &self.adj[p]
    }
}

/// An edge of the graph is tight for a distance labelling when following it
/// loses nothing: the label of its head plus its cost meets the label of its
/// tail exactly.
pub open spec fn tight_pred(dist: Seq<i64>, u: int) -> spec_fn(Edge<i64>) -> bool {
    |e: Edge<i64>| dist[u] + e.cost == dist[e.to as int]
}

impl Graph<i64> {
    /// The subgraph of edges that are tight for the distance labelling
    /// `dist` — for shortest-path distances, exactly the edges some
    /// shortest path uses.
    pub fn get_shortest_path_graph(&self, _from: usize, dist: &Vec<i64>) -> (res: Graph<i64>)
        requires
            dist@.len() == self.view_adj().len(),
            forall|u: int, k: int|
                0 <= u < self.view_adj().len() && 0 <= k < self.view_adj()[u].len() ==> (
                #[trigger] self.view_adj()[u][k]).to < self.view_adj().len()
                    && -0x2000_0000_0000_0000 <= self.view_adj()[u][k].cost
                    <= 0x2000_0000_0000_0000,
            forall|u: int|
                0 <= u < dist@.len() ==> -0x2000_0000_0000_0000 <= #[trigger] dist@[u]
                    <= 0x2000_0000_0000_0000,
        ensures
            res.view_adj().len() == self.view_adj().len(),
            forall|u: int|
                0 <= u < self.view_adj().len() ==> #[trigger] res.view_adj()[u]
                    == self.view_adj()[u].filter(tight_pred(dist@, u)),
    {
        let n = self.len();
        let mut res: Graph<i64> = Graph::new(n);
        let mut u: usize = 0;
        while u < n
            invariant
                n == self.view_adj().len() == dist@.len(),
                u <= n,
                res.view_adj().len() == n,
                forall|p: int, k: int|
                    0 <= p < n && 0 <= k < self.view_adj()[p].len() ==> (
                    #[trigger] self.view_adj()[p][k]).to < n && -0x2000_0000_0000_0000
                        <= self.view_adj()[p][k].cost <= 0x2000_0000_0000_0000,
                forall|p: int|
                    0 <= p < dist@.len() ==> -0x2000_0000_0000_0000 <= #[trigger] dist@[p]
                        <= 0x2000_0000_0000_0000,
                forall|p: int|
                    0 <= p < u ==> #[trigger] res.view_adj()[p] == self.view_adj()[p].filter(
                        tight_pred(dist@, p),
                    ),
                forall|p: int| u <= p < n ==> (#[trigger] res.view_adj()[p]).len() == 0,
            decreases n - u,
        {
            let row_len = self.get(u).len();
            let mut k: usize = 0;
            proof {
                assert(self.view_adj()[u as int].subrange(0, 0) =~= Seq::<Edge<i64>>::empty());
                reveal(Seq::filter);
            }
            while k < row_len
                invariant
                    n == self.view_adj().len() == dist@.len(),
                    u < n,
                    row_len == self.view_adj()[u as int].len(),
                    k <= row_len,
                    res.view_adj().len() == n,
                    forall|p: int, kk: int|
                        0 <= p < n && 0 <= kk < self.view_adj()[p].len() ==> (
                        #[trigger] self.view_adj()[p][kk]).to < n && -0x2000_0000_0000_0000
                            <= self.view_adj()[p][kk].cost <= 0x2000_0000_0000_0000,
                    forall|p: int|
                        0 <= p < dist@.len() ==> -0x2000_0000_0000_0000 <= #[trigger] dist@[p]
                            <= 0x2000_0000_0000_0000,
                    forall|p: int|
                        0 <= p < u ==> #[trigger] res.view_adj()[p] == self.view_adj()[p].filter(
                            tight_pred(dist@, p),
                        ),
                    forall|p: int| u < p < n ==> (#[trigger] res.view_adj()[p]).len() == 0,
                    res.view_adj()[u as int] == self.view_adj()[u as int].subrange(
                        0,
                        k as int,
                    ).filter(tight_pred(dist@, u as int)),
                decreases row_len - k,
            {
                let e = self.get(u)[k];
                let ghost prefix = self.view_adj()[u as int].subrange(0, k as int);
                let ghost prefix2 = self.view_adj()[u as int].subrange(0, k as int + 1);
                if dist[u] + e.cost == dist[e.to] {
                    res.add_edge(u, e.to, e.cost);
                }
                proof {
                    reveal(Seq::filter);
                    assert(prefix2.drop_last() =~= prefix);
                    assert(prefix2.last() == e);
                    assert(res.view_adj()[u as int] == prefix2.filter(
                        tight_pred(dist@, u as int),
                    ));
                }
                k = k + 1;
            }
            proof {
                assert(self.view_adj()[u as int].subrange(0, row_len as int) =~= self.view_adj()[u
                    as int]);
            }
            u = u + 1;
        }
        res
    }
}

} // verus!
