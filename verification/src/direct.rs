//! The direct strategy: a label-setting single-source search is run from
//! every node over the raw adjacency representation, and each reachable
//! destination yields one result entry.

use vstd::prelude::*;

use crate::graph::Graph;
use crate::model::ShortestPathLength;
use crate::model::connected;
use crate::model::is_min_dist;
use crate::model::lemma_connected_endpoints;
use crate::model::pairs_distinct;
use crate::model::results_complete;

verus! {

/// The `(neighbor, cost)` pairs of the arcs leaving `*src`; empty when the
/// index lies outside the graph.
#[verifier::loop_isolation(false)]
pub fn successors(src: &usize, graph: &Graph) -> (r: Vec<(usize, usize)>)
    ensures
        (*src as int) < graph.adj@.len() ==> r@ == graph.adj@[*src as int]@,
        (*src as int) >= graph.adj@.len() ==> r@ == Seq::<(usize, usize)>::empty(),
{
    let u = *src;
    if u < graph.adj.len() {
        let row = &graph.adj[u];
        let mut r: Vec<(usize, usize)> = Vec::new();
        let n = row.len();
        for j in 0..n
            invariant
                r@ == row@.take(j as int),
        {
            r.push(row[j]);
            proof {
                assert(row@.take(j as int + 1) =~= row@.take(j as int).push(row@[j as int]));
            }
        }
        proof {
            assert(row@.take(n as int) =~= row@);
        }
        r
    } else {
        Vec::new()
    }
}

/// Relies on pathfinding::prelude::dijkstra_all with `successors` as the
/// successor function: the result maps every node reachable from the start,
/// the start itself excluded, to an optimal parent and the minimum cost of
/// reaching it, one entry per node. The graph's well-formedness keeps every
/// arc in range and bounds the summed arc costs, so the search's cost
/// additions cannot wrap.
#[verifier::external_body]
fn dijkstra_from(graph: &Graph, src: usize) -> (r: Vec<(usize, usize)>)
    requires
        graph.wf(),
        (src as int) < graph.node_count_spec(),
    ensures
        forall|i: int| 0 <= i < r@.len()
            ==> (#[trigger] r@[i]).0 != src
                && is_min_dist(graph.arc_seq(), src as int, r@[i].0 as int, r@[i].1 as int),
        forall|v: int| v != src && #[trigger] connected(graph.arc_seq(), src as int, v)
            ==> exists|i: int| 0 <= i < r@.len() && (#[trigger] r@[i]).0 == v,
        forall|i: int, j: int| 0 <= i < j < r@.len()
            ==> (#[trigger] r@[i]).0 != (#[trigger] r@[j]).0,
{
    let reached = pathfinding::prelude::dijkstra_all(&src, |n: &usize| successors(n, graph));
    reached.into_iter().map(|(dst, (_parent, cost))| (dst, cost)).collect()
}

impl Graph {
    /// The shortest distance from `src` to every other reachable node, as
    /// `(destination, length)` pairs in no particular order. The underlying
    /// search also determines an optimal parent per node; that component is
    /// dropped here, as no caller needs the paths themselves.
    pub fn all_paths_for_node(&self, src: usize) -> (r: Vec<(usize, usize)>)
        requires
            self.wf(),
            (src as int) < self.node_count_spec(),
        ensures
            forall|i: int| 0 <= i < r@.len()
                ==> (#[trigger] r@[i]).0 != src
                    && is_min_dist(self.arc_seq(), src as int, r@[i].0 as int, r@[i].1 as int),
            forall|v: int| v != src && #[trigger] connected(self.arc_seq(), src as int, v)
                ==> exists|i: int| 0 <= i < r@.len() && (#[trigger] r@[i]).0 == v,
            forall|i: int, j: int| 0 <= i < j < r@.len()
                ==> (#[trigger] r@[i]).0 != (#[trigger] r@[j]).0,
    {
        dijkstra_from(self, src)
    }
}

/// Runs the label-setting search from every node and collects one entry per
/// ordered pair of distinct connected nodes, carrying its exact shortest
/// distance.
#[verifier::loop_isolation(false)]
pub fn all_pairs_path_length_pathfinder(graph: &Graph) -> (r: Vec<ShortestPathLength>)
    requires
        graph.wf(),
    ensures
        results_complete(graph.arc_seq(), r@),
{
    let n = graph.node_count();
    let mut res: Vec<ShortestPathLength> = match n.checked_mul(n) {
        Some(cap) => Vec::with_capacity(cap),
        None => Vec::new(),
    };
    for src in 0..n
        invariant
            forall|i: int| 0 <= i < res@.len()
                ==> (#[trigger] res@[i]).src < src && res@[i].src != res@[i].dst
                    && is_min_dist(
                        graph.arc_seq(),
                        res@[i].src as int,
                        res@[i].dst as int,
                        res@[i].length as int,
                    ),
            forall|a: int, b: int| 0 <= a < src && a != b
                && #[trigger] connected(graph.arc_seq(), a, b)
                ==> exists|i: int| 0 <= i < res@.len()
                    && (#[trigger] res@[i]).src == a && res@[i].dst == b,
            pairs_distinct(res@),
    {
        let pairs = dijkstra_from(graph, src);
        let np = pairs.len();
        let ghost len0 = res@.len() as int;
        for k in 0..np
            invariant
                res@.len() == len0 + k,
                forall|i: int| 0 <= i < len0
                    ==> (#[trigger] res@[i]).src < src && res@[i].src != res@[i].dst
                        && is_min_dist(
                            graph.arc_seq(),
                            res@[i].src as int,
                            res@[i].dst as int,
                            res@[i].length as int,
                        ),
                forall|i: int| len0 <= i < res@.len()
                    ==> (#[trigger] res@[i]).src == src
                        && res@[i].dst == pairs@[i - len0].0
                        && res@[i].length == pairs@[i - len0].1,
                forall|a: int, b: int| 0 <= a < src && a != b
                    && #[trigger] connected(graph.arc_seq(), a, b)
                    ==> exists|i: int| 0 <= i < res@.len()
                        && (#[trigger] res@[i]).src == a && res@[i].dst == b,
                pairs_distinct(res@),
        {
            let p = pairs[k];
            let ghost res0 = res@;
            res.push(ShortestPathLength { src, dst: p.0, length: p.1 });
            proof {
                assert(res@.len() == res0.len() + 1);
                assert forall|i: int| 0 <= i < res0.len() implies res@[i] == res0[i] by {}
            }
        }
        proof {
            assert forall|a: int, b: int| 0 <= a < src + 1 && a != b
                && #[trigger] connected(graph.arc_seq(), a, b)
                implies exists|i: int| 0 <= i < res@.len()
                    && (#[trigger] res@[i]).src == a && res@[i].dst == b by {
                if a == src {
                    let t = choose|t: int| 0 <= t < pairs@.len() && (#[trigger] pairs@[t]).0 == b;
                    assert(res@[len0 + t].src == a && res@[len0 + t].dst == b);
                }
            }
            assert forall|i: int| 0 <= i < res@.len()
                implies (#[trigger] res@[i]).src < src + 1 && res@[i].src != res@[i].dst
                    && is_min_dist(
                        graph.arc_seq(),
                        res@[i].src as int,
                        res@[i].dst as int,
                        res@[i].length as int,
                    ) by {}
        }
    }
    proof {
        assert forall|a: int, b: int| a != b && #[trigger] connected(graph.arc_seq(), a, b)
            implies exists|i: int| 0 <= i < res@.len()
                && (#[trigger] res@[i]).src == a && res@[i].dst == b by {
            lemma_connected_endpoints(graph.arc_seq(), a, b);
            let t = choose|t: (usize, usize, usize)| #[trigger] graph.arc_seq().contains(t) && t.0 == a;
            assert(0 <= a < n);
        }
    }
    res
}

} // verus!
