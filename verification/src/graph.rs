//! The graph builder: an edge list over sparse `u64` node identifiers is
//! turned into a frozen adjacency representation over dense indices. Every
//! edge is treated as bidirectional, so it contributes two directed arcs of
//! the same integer cost. Edge lists whose total cost would overflow the
//! search arithmetic are rejected.

use vstd::prelude::*;

use crate::model::arc_cost_total;
use crate::model::arcs_symmetric;

verus! {

/// One input edge: two sparse node identifiers and a non-negative integer
/// cost (the truncated weight).
#[derive(Clone, Copy, Debug, PartialEq, Eq, Structural)]
pub struct WeightedEdge {
    pub src: u64,
    pub dst: u64,
    pub cost: u64,
}

#[derive(Clone, Copy, Debug, PartialEq, Eq, Structural)]
pub enum GraphError {
    /// The summed cost of all arcs would exceed the range the searches can
    /// add within.
    CostOverflow,
}

/// A frozen undirected graph over the dense node indices `0 .. ids.len()`.
pub struct Graph {
    /// Every directed arc `(from, to, cost)`; each edge contributes two.
    pub arcs: Vec<(usize, usize, usize)>,
    /// `adj[u]` lists the `(neighbor, cost)` pairs of the arcs leaving `u`.
    pub adj: Vec<Vec<(usize, usize)>>,
    /// The sparse identifier each dense index stands for, in first-use order.
    pub ids: Vec<u64>,
}

/// `ids` with `x` appended unless already present.
pub open spec fn ids_insert(ids: Seq<u64>, x: u64) -> Seq<u64> {
    if ids.contains(x) {
        ids
    } else {
        ids.push(x)
    }
}

/// The dense identifier table an edge list builds: every endpoint in
/// first-use order, source before destination.
pub open spec fn build_ids(edges: Seq<WeightedEdge>) -> Seq<u64>
    decreases edges.len(),
{
    if edges.len() == 0 {
        Seq::empty()
    } else {
        ids_insert(ids_insert(build_ids(edges.drop_last()), edges.last().src), edges.last().dst)
    }
}

/// The summed cost of the two arcs of every edge.
pub open spec fn edges_cost_total(edges: Seq<WeightedEdge>) -> int
    decreases edges.len(),
{
    if edges.len() == 0 {
        0
    } else {
        edges_cost_total(edges.drop_last()) + 2 * edges.last().cost
    }
}

proof fn lemma_push_contains<T>(s: Seq<T>, x: T, y: T)
    ensures
        s.push(x).contains(y) <==> (s.contains(y) || y == x),
{
    if s.push(x).contains(y) {
        let i = choose|i: int| 0 <= i < s.push(x).len() && s.push(x)[i] == y;
        if i < s.len() {
            assert(s[i] == y);
        }
    }
    if s.contains(y) {
        let i = choose|i: int| 0 <= i < s.len() && s[i] == y;
        assert(s.push(x)[i] == y);
    }
    if y == x {
        assert(s.push(x)[s.len() as int] == y);
    }
}

proof fn lemma_edges_cost_prefix(edges: Seq<WeightedEdge>, k: int)
    requires
        0 <= k <= edges.len(),
    ensures
        edges_cost_total(edges.take(k)) <= edges_cost_total(edges),
    decreases edges.len() - k,
{
    if k == edges.len() {
        assert(edges.take(k) =~= edges);
    } else {
        lemma_edges_cost_prefix(edges, k + 1);
        assert(edges.take(k + 1).drop_last() =~= edges.take(k));
        assert(edges.take(k + 1).last() == edges[k]);
        assert(edges_cost_total(edges.take(k + 1))
            == edges_cost_total(edges.take(k)) + 2 * edges[k].cost);
    }
}

impl Graph {
    /// The directed arcs of the graph.
    pub open spec fn arc_seq(self) -> Seq<(usize, usize, usize)> {
        self.arcs@
    }

    /// The number of dense node indices.
    pub open spec fn node_count_spec(self) -> int {
        self.ids@.len() as int
    }

    /// The graph is frozen and internally consistent: the identifier table is
    /// duplicate-free, every arc stays inside the dense index space and has
    /// its mirror arc, the adjacency rows list exactly the arcs, and the total
    /// cost leaves room for the searches' additions.
    pub open spec fn wf(self) -> bool {
        &&& self.adj@.len() == self.ids@.len()
        &&& forall|i: int, j: int| 0 <= i < j < self.ids@.len()
            ==> self.ids@[i] != self.ids@[j]
        &&& forall|t: (usize, usize, usize)| #[trigger] self.arc_seq().contains(t)
            ==> t.0 < self.ids@.len() && t.1 < self.ids@.len()
        &&& forall|u: usize, v: usize, c: usize| (u as int) < self.adj@.len()
            ==> ((#[trigger] self.adj@[u as int]@.contains((v, c)))
                <==> self.arc_seq().contains((u, v, c)))
        &&& arcs_symmetric(self.arc_seq())
        &&& arc_cost_total(self.arc_seq()) <= usize::MAX / 2
    }

    /// A graph of `num_nodes` isolated nodes, identified by `0 .. num_nodes`.
    pub fn empty(num_nodes: usize) -> (g: Graph)
        ensures
            g.wf(),
            g.arc_seq() == Seq::<(usize, usize, usize)>::empty(),
            g.node_count_spec() == num_nodes as int,
    {
        let mut ids: Vec<u64> = Vec::new();
        let mut adj: Vec<Vec<(usize, usize)>> = Vec::new();
        for i in 0..num_nodes
            invariant
                ids@.len() == i as int,
                adj@.len() == i as int,
                forall|j: int| 0 <= j < i ==> ids@[j] == j as u64,
                forall|j: int| 0 <= j < i ==> (#[trigger] adj@[j])@ =~= Seq::<(usize, usize)>::empty(),
        {
            ids.push(i as u64);
            adj.push(Vec::new());
        }
        let g = Graph { arcs: Vec::new(), adj, ids };
        proof {
            assert(g.arc_seq() =~= Seq::<(usize, usize, usize)>::empty());
            assert forall|t: (usize, usize, usize)| !(#[trigger] g.arc_seq().contains(t)) by {}
        }
        g
    }

    /// The number of nodes of the graph.
    pub fn node_count(&self) -> (n: usize)
        ensures
            n as int == self.node_count_spec(),
    {
        self.ids.len()
    }

    /// The sparse identifier behind a dense node index.
    pub fn node_id(&self, index: usize) -> (id: u64)
        requires
            (index as int) < self.node_count_spec(),
        ensures
            id == self.ids@[index as int],
    {
        self.ids[index]
    }

    /// The dense index a sparse identifier was mapped to, if any.
    pub fn index_of_id(&self, id: u64) -> (r: Option<usize>)
        ensures
            r matches Some(i) ==> (i as int) < self.ids@.len() && self.ids@[i as int] == id,
            r is Some <==> self.ids@.contains(id),
    {
        let n = self.ids.len();
        for j in 0..n
            invariant
                n == self.ids@.len(),
                forall|jj: int| 0 <= jj < j ==> self.ids@[jj] != id,
        {
            if self.ids[j] == id {
                return Some(j);
            }
        }
        proof {
            if self.ids@.contains(id) {
                let jj = choose|jj: int| 0 <= jj < self.ids@.len() && self.ids@[jj] == id;
                assert(false);
            }
        }
        None
    }
}

/// Appends `x` to the identifier table unless present, and returns its dense
/// index.
fn intern_id(ids: &mut Vec<u64>, x: u64) -> (i: usize)
    ensures
        final(ids)@ == ids_insert(old(ids)@, x),
        (i as int) < final(ids)@.len(),
        final(ids)@[i as int] == x,
        forall|j: int| 0 <= j < old(ids)@.len() ==> final(ids)@[j] == old(ids)@[j],
        old(ids)@.len() <= final(ids)@.len(),
{
    let n = ids.len();
    for j in 0..n
        invariant
            n == ids@.len(),
            ids@ == old(ids)@,
            forall|jj: int| 0 <= jj < j ==> ids@[jj] != x,
    {
        if ids[j] == x {
            proof {
                assert(old(ids)@.contains(x));
            }
            return j;
        }
    }
    proof {
        if old(ids)@.contains(x) {
            let jj = choose|jj: int| 0 <= jj < old(ids)@.len() && old(ids)@[jj] == x;
            assert(false);
        }
    }
    ids.push(x);
    ids.len() - 1
}

impl Graph {
    /// Builds the graph of an edge list: endpoints are interned into the
    /// dense index space in order of first use and every edge contributes its
    /// two directed arcs. Fails exactly when the summed cost of all arcs
    /// would exceed half the machine-word range, which the searches need as
    /// headroom for their additions.
    pub fn from_edges(edges: &Vec<WeightedEdge>) -> (r: Result<Graph, GraphError>)
        ensures
            r matches Ok(g) ==> g.wf(),
            r matches Ok(g) ==> g.ids@ == build_ids(edges@),
            r matches Ok(g) ==> g.arc_seq().len() == 2 * edges@.len(),
            r matches Ok(g) ==> forall|k: int| 0 <= k < edges@.len()
                ==> g.ids@[g.arc_seq()[2 * k].0 as int] == (#[trigger] edges@[k]).src
                    && g.ids@[g.arc_seq()[2 * k].1 as int] == edges@[k].dst
                    && g.arc_seq()[2 * k].2 == edges@[k].cost
                    && g.arc_seq()[2 * k + 1]
                        == ((g.arc_seq()[2 * k].1, g.arc_seq()[2 * k].0, g.arc_seq()[2 * k].2)),
            r is Ok <==> edges_cost_total(edges@) <= usize::MAX / 2,
    {
        let mut ids: Vec<u64> = Vec::new();
        let mut arcs: Vec<(usize, usize, usize)> = Vec::new();
        let mut total: usize = 0;
        let m = usize::MAX / 2;
        let n_edges = edges.len();
        for k in 0..n_edges
            invariant
                n_edges == edges@.len(),
                ids@ == build_ids(edges@.take(k as int)),
                forall|i: int, j: int| 0 <= i < j < ids@.len() ==> ids@[i] != ids@[j],
                total == arc_cost_total(arcs@),
                total <= m,
                m == usize::MAX / 2,
                arc_cost_total(arcs@) == edges_cost_total(edges@.take(k as int)),
                arcs@.len() == 2 * k,
                forall|kk: int| 0 <= kk < k
                    ==> ids@[arcs@[2 * kk].0 as int] == (#[trigger] edges@[kk]).src
                        && ids@[arcs@[2 * kk].1 as int] == edges@[kk].dst
                        && arcs@[2 * kk].2 == edges@[kk].cost
                        && arcs@[2 * kk + 1]
                            == ((arcs@[2 * kk].1, arcs@[2 * kk].0, arcs@[2 * kk].2)),
                forall|j: int| 0 <= j < arcs@.len()
                    ==> (#[trigger] arcs@[j]).0 < ids@.len() && arcs@[j].1 < ids@.len(),
        {
            let e = edges[k];
            let ghost old_ids = ids@;
            let si = intern_id(&mut ids, e.src);
            let ghost mid_ids = ids@;
            let di = intern_id(&mut ids, e.dst);
            proof {
                assert(edges@.take(k as int + 1).drop_last() =~= edges@.take(k as int));
                assert(edges@.take(k as int + 1).last() == edges@[k as int]);
                assert(ids@ == build_ids(edges@.take(k as int + 1)));
                if !old_ids.contains(e.src) {
                    lemma_push_contains(old_ids, e.src, e.src);
                }
                if !mid_ids.contains(e.dst) {
                    lemma_push_contains(mid_ids, e.dst, e.dst);
                }
                assert forall|i: int, j: int| 0 <= i < j < ids@.len()
                    implies ids@[i] != ids@[j] by {}
            }
            if e.cost > m as u64 {
                proof {
                    lemma_edges_cost_prefix(edges@, k as int + 1);
                    assert(edges_cost_total(edges@.take(k as int + 1))
                        == edges_cost_total(edges@.take(k as int)) + 2 * e.cost);
                }
                return Err(GraphError::CostOverflow);
            }
            let c = e.cost as usize;
            let twice = 2 * c;
            if twice > m || total > m - twice {
                proof {
                    lemma_edges_cost_prefix(edges@, k as int + 1);
                    assert(edges_cost_total(edges@.take(k as int + 1))
                        == edges_cost_total(edges@.take(k as int)) + 2 * e.cost);
                }
                return Err(GraphError::CostOverflow);
            }
            total = total + twice;
            let ghost arcs0 = arcs@;
            arcs.push((si, di, c));
            arcs.push((di, si, c));
            proof {
                assert(arcs@.drop_last() =~= arcs0.push((si, di, c)));
                assert(arcs0.push((si, di, c)).drop_last() =~= arcs0);
                assert(arcs0.push((si, di, c)).last() == ((si, di, c)));
                assert(arc_cost_total(arcs0.push((si, di, c))) == arc_cost_total(arcs0) + c);
                assert(arcs@.last() == ((di, si, c)));
                assert(arc_cost_total(arcs@) == arc_cost_total(arcs0.push((si, di, c))) + c);
                assert(arc_cost_total(arcs@) == arc_cost_total(arcs0) + 2 * c);
                assert(arcs@[2 * k as int] == ((si, di, c)));
                assert(arcs@[2 * k as int + 1] == ((di, si, c)));
                assert forall|j: int| 0 <= j < arcs0.len()
                    implies arcs@[j] == arcs0[j] by {}
            }
        }
        proof {
            assert(edges@.take(n_edges as int) =~= edges@);
        }
        let n = ids.len();
        let mut adj: Vec<Vec<(usize, usize)>> = Vec::new();
        for u in 0..n
            invariant
                n == ids@.len(),
                adj@.len() == u as int,
                forall|uu: usize, v: usize, c: usize| (uu as int) < u as int
                    ==> ((#[trigger] adj@[uu as int]@.contains((v, c)))
                        <==> arcs@.contains((uu, v, c))),
        {
            let mut row: Vec<(usize, usize)> = Vec::new();
            let n_arcs = arcs.len();
            for j in 0..n_arcs
                invariant
                    n_arcs == arcs@.len(),
                    forall|v: usize, c: usize| (#[trigger] row@.contains((v, c)))
                        <==> exists|jj: int| 0 <= jj < j && arcs@[jj] == ((u, v, c)),
            {
                let t = arcs[j];
                let ghost row0 = row@;
                if t.0 == u {
                    row.push((t.1, t.2));
                }
                proof {
                    assert forall|v: usize, c: usize| (#[trigger] row@.contains((v, c)))
                        <==> exists|jj: int| 0 <= jj < j + 1 && arcs@[jj] == ((u, v, c)) by {
                        if t.0 == u {
                            lemma_push_contains(row0, (t.1, t.2), (v, c));
                        }
                        if row@.contains((v, c)) {
                        } else {
                            if exists|jj: int| 0 <= jj < j + 1 && arcs@[jj] == ((u, v, c)) {
                                let jj = choose|jj: int| 0 <= jj < j + 1 && arcs@[jj] == ((u, v, c));
                                assert(jj == j);
                                assert(false);
                            }
                        }
                    }
                }
            }
            adj.push(row);
            proof {
                assert forall|v: usize, c: usize| (#[trigger] adj@[u as int]@.contains((v, c)))
                    <==> arcs@.contains((u, v, c)) by {
                    if adj@[u as int]@.contains((v, c)) {
                        let jj = choose|jj: int| 0 <= jj < arcs@.len() && arcs@[jj] == ((u, v, c));
                    }
                    if arcs@.contains((u, v, c)) {
                        let jj = choose|jj: int| 0 <= jj < arcs@.len() && arcs@[jj] == ((u, v, c));
                    }
                }
            }
        }
        let g = Graph { arcs, adj, ids };
        proof {
            assert forall|t: (usize, usize, usize)| #[trigger] g.arc_seq().contains(t)
                implies t.0 < g.ids@.len() && t.1 < g.ids@.len() by {
                let j = choose|j: int| 0 <= j < g.arc_seq().len() && g.arc_seq()[j] == t;
            }
            assert forall|u: usize, v: usize, c: usize|
                #[trigger] g.arc_seq().contains((u, v, c))
                implies g.arc_seq().contains((v, u, c)) by {
                let j = choose|j: int| 0 <= j < g.arc_seq().len() && g.arc_seq()[j] == ((u, v, c));
                let kk = j / 2;
                assert(j == 2 * kk + j % 2) by (nonlinear_arith)
                    requires kk == j / 2;
                assert(0 <= kk < edges@.len()) by (nonlinear_arith)
                    requires 0 <= j < 2 * edges@.len() && kk == j / 2;
                assert(g.ids@[g.arc_seq()[2 * kk].0 as int] == (edges@[kk]).src);
                if j % 2 == 0 {
                    assert(g.arc_seq()[j] == g.arc_seq()[2 * kk]);
                    assert(g.arc_seq()[2 * kk + 1] == ((v, u, c)));
                } else {
                    assert(g.arc_seq()[j] == g.arc_seq()[2 * kk + 1]);
                    assert(g.arc_seq()[2 * kk] == ((v, u, c)));
                }
            }
        }
        Ok(g)
    }
}

} // verus!
