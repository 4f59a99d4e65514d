//! The prepared strategy: the graph's arcs are handed to a contraction
//! hierarchy built once, and every ordered pair is then answered by a
//! bidirectional point-to-point query through one reused calculator. The
//! index retains only arcs between distinct nodes with positive cost, so the
//! contracts here are stated over those retained arcs.

use vstd::prelude::*;

use crate::graph::Graph;
use crate::model::ShortestPathLength;
use crate::model::arc_bound;
use crate::model::arc_cost_total;
use crate::model::connected;
use crate::model::is_min_dist;
use crate::model::keep_arc;
use crate::model::kept_arcs;
use crate::model::lemma_arc_bound;
use crate::model::lemma_connected_endpoints;
use crate::model::lemma_kept_arcs_cost;
use crate::model::pairs_distinct;
use crate::model::results_complete;

verus! {

#[verifier::external_type_specification]
#[verifier::external_body]
pub struct ExInputGraph(fast_paths::InputGraph);

#[verifier::external_type_specification]
#[verifier::external_body]
pub struct ExFastGraph(fast_paths::FastGraph);

#[verifier::external_type_specification]
#[verifier::external_body]
pub struct ExPathCalculator(fast_paths::PathCalculator);

/// The arcs recorded in an input graph so far, as `(from, to, cost)`
/// triples; arcs the crate skips when they are added (self-loops and
/// zero-cost arcs) are not among them.
pub uninterp spec fn ig_arcs(g: fast_paths::InputGraph) -> Seq<(usize, usize, usize)>;

/// Whether the input graph has been frozen.
pub uninterp spec fn ig_frozen(g: fast_paths::InputGraph) -> bool;

/// A cheapest arc list realizing exactly the connectivity, the shortest
/// distances, and the node bound that a prepared index answers queries for.
pub uninterp spec fn fg_arcs(g: fast_paths::FastGraph) -> Seq<(usize, usize, usize)>;

/// The node count a query calculator was allocated for.
pub uninterp spec fn calc_bound(c: fast_paths::PathCalculator) -> int;

/// Relies on fast_paths::InputGraph::new: a fresh, empty, unfrozen graph.
#[verifier::external_body]
fn input_graph_new() -> (r: fast_paths::InputGraph)
    ensures
        ig_arcs(r) == Seq::<(usize, usize, usize)>::empty(),
        !ig_frozen(r),
{
    fast_paths::InputGraph::new()
}

/// Relies on fast_paths::InputGraph::add_edge: the directed arc is recorded
/// unless it is a self-loop or costs less than one unit, which the crate
/// skips with a warning; the crate's node count grows to one past the larger
/// endpoint of every recorded arc, so both endpoints must stay below the
/// machine-word maximum.
#[verifier::external_body]
fn input_graph_add_edge(g: &mut fast_paths::InputGraph, from: usize, to: usize, weight: usize)
    requires
        !ig_frozen(*old(g)),
        from < usize::MAX,
        to < usize::MAX,
    ensures
        !ig_frozen(*final(g)),
        ig_arcs(*final(g)) == (if keep_arc((from, to, weight)) {
            ig_arcs(*old(g)).push((from, to, weight))
        } else {
            ig_arcs(*old(g))
        }),
{
    let _ = g.add_edge(from, to, weight);
}

/// Relies on fast_paths::InputGraph::freeze: it sorts the edge list and
/// keeps only the cheapest of each group of parallel arcs. Reordering and
/// dropping dominated parallel arcs changes no connectivity and no shortest
/// distance, keeps the node bound (at least one arc per endpoint pair
/// stays), and can only lower the summed cost.
#[verifier::external_body]
fn input_graph_freeze(g: &mut fast_paths::InputGraph)
    requires
        !ig_frozen(*old(g)),
    ensures
        ig_frozen(*final(g)),
        forall|a: int, b: int|
            #![trigger connected(ig_arcs(*final(g)), a, b)]
            #![trigger connected(ig_arcs(*old(g)), a, b)]
            connected(ig_arcs(*final(g)), a, b) <==> connected(ig_arcs(*old(g)), a, b),
        forall|a: int, b: int, d: int|
            #![trigger is_min_dist(ig_arcs(*final(g)), a, b, d)]
            #![trigger is_min_dist(ig_arcs(*old(g)), a, b, d)]
            is_min_dist(ig_arcs(*final(g)), a, b, d) <==> is_min_dist(ig_arcs(*old(g)), a, b, d),
        arc_bound(ig_arcs(*final(g))) == arc_bound(ig_arcs(*old(g))),
        arc_cost_total(ig_arcs(*final(g))) <= arc_cost_total(ig_arcs(*old(g))),
{
    g.freeze();
}

/// Relies on fast_paths::prepare: the contraction hierarchy built over a
/// frozen input graph answers queries for exactly the input's connectivity
/// and shortest distances, with the input's node bound. `fg_arcs` names a
/// cheapest arc list realizing that structure, so its summed cost does not
/// exceed the input's. The contraction adds pairs of arc weights before any
/// comparison, so the summed cost must leave half the machine word as
/// headroom or those additions could wrap.
#[verifier::external_body]
fn prepare_index(g: &fast_paths::InputGraph) -> (r: fast_paths::FastGraph)
    requires
        ig_frozen(*g),
        arc_cost_total(ig_arcs(*g)) <= usize::MAX / 2,
    ensures
        forall|a: int, b: int|
            #![trigger connected(fg_arcs(r), a, b)]
            #![trigger connected(ig_arcs(*g), a, b)]
            connected(fg_arcs(r), a, b) <==> connected(ig_arcs(*g), a, b),
        forall|a: int, b: int, d: int|
            #![trigger is_min_dist(fg_arcs(r), a, b, d)]
            #![trigger is_min_dist(ig_arcs(*g), a, b, d)]
            is_min_dist(fg_arcs(r), a, b, d) <==> is_min_dist(ig_arcs(*g), a, b, d),
        arc_bound(fg_arcs(r)) == arc_bound(ig_arcs(*g)),
        arc_cost_total(fg_arcs(r)) <= arc_cost_total(ig_arcs(*g)),
{
    fast_paths::prepare(g)
}

/// Relies on fast_paths::FastGraph::get_num_nodes, which the preparation
/// sets to one past the largest endpoint of the recorded arcs (zero when
/// there are none) — the node bound that `fg_arcs` realizes.
#[verifier::external_body]
fn fast_graph_num_nodes(g: &fast_paths::FastGraph) -> (n: usize)
    ensures
        n as int == arc_bound(fg_arcs(*g)),
{
    g.get_num_nodes()
}

/// Relies on fast_paths::create_calculator: the calculator is allocated for
/// exactly the prepared graph's node count.
#[verifier::external_body]
fn new_calculator(g: &fast_paths::FastGraph) -> (r: fast_paths::PathCalculator)
    ensures
        calc_bound(r) == arc_bound(fg_arcs(*g)),
{
    fast_paths::create_calculator(g)
}

/// Relies on fast_paths::PathCalculator::calc_path and
/// fast_paths::ShortestPath::get_weight: for two distinct in-range nodes the
/// bidirectional search returns the exact shortest-path weight over the
/// prepared arcs, and nothing exactly when the target is unreachable. The
/// calculator must have been allocated for the same node count, or the call
/// panics; the bounded summed arc cost keeps the search's additions from
/// wrapping.
#[verifier::external_body]
fn calc_dist(
    calc: &mut fast_paths::PathCalculator,
    g: &fast_paths::FastGraph,
    src: usize,
    dst: usize,
) -> (r: Option<usize>)
    requires
        calc_bound(*old(calc)) == arc_bound(fg_arcs(*g)),
        (src as int) < arc_bound(fg_arcs(*g)),
        (dst as int) < arc_bound(fg_arcs(*g)),
        src != dst,
        arc_cost_total(fg_arcs(*g)) <= usize::MAX / 2,
    ensures
        calc_bound(*final(calc)) == calc_bound(*old(calc)),
        r is Some <==> connected(fg_arcs(*g), src as int, dst as int),
        r matches Some(d) ==> is_min_dist(fg_arcs(*g), src as int, dst as int, d as int),
{
    calc.calc_path(g, src, dst).map(|p| p.get_weight())
}

/// Hands every arc of the graph to a fresh input graph and freezes it; what
/// is recorded before the freeze are exactly the retained arcs, and the
/// freeze preserves their connectivity, distances and node bound.
#[verifier::loop_isolation(false)]
fn to_input_graph(graph: &Graph) -> (r: fast_paths::InputGraph)
    requires
        graph.wf(),
    ensures
        ig_frozen(r),
        forall|a: int, b: int|
            #![trigger connected(ig_arcs(r), a, b)]
            #![trigger connected(kept_arcs(graph.arc_seq()), a, b)]
            connected(ig_arcs(r), a, b) <==> connected(kept_arcs(graph.arc_seq()), a, b),
        forall|a: int, b: int, d: int|
            #![trigger is_min_dist(ig_arcs(r), a, b, d)]
            #![trigger is_min_dist(kept_arcs(graph.arc_seq()), a, b, d)]
            is_min_dist(ig_arcs(r), a, b, d)
                <==> is_min_dist(kept_arcs(graph.arc_seq()), a, b, d),
        arc_bound(ig_arcs(r)) == arc_bound(kept_arcs(graph.arc_seq())),
        arc_cost_total(ig_arcs(r)) <= arc_cost_total(kept_arcs(graph.arc_seq())),
{
    let mut ig = input_graph_new();
    let id_count = graph.ids.len();
    let n_arcs = graph.arcs.len();
    proof {
        assert(kept_arcs(graph.arc_seq().take(0)) =~= Seq::<(usize, usize, usize)>::empty());
    }
    for k in 0..n_arcs
        invariant
            !ig_frozen(ig),
            ig_arcs(ig) == kept_arcs(graph.arc_seq().take(k as int)),
    {
        let t = graph.arcs[k];
        proof {
            assert(graph.arc_seq().contains(t));
            assert(t.0 < id_count && t.1 < id_count);
        }
        input_graph_add_edge(&mut ig, t.0, t.1, t.2);
        proof {
            assert(graph.arc_seq().take(k as int + 1).drop_last() =~= graph.arc_seq().take(k as int));
            assert(graph.arc_seq().take(k as int + 1).last() == t);
        }
    }
    proof {
        assert(graph.arc_seq().take(n_arcs as int) =~= graph.arc_seq());
    }
    let ghost pre_arcs = ig_arcs(ig);
    proof {
        assert(pre_arcs == kept_arcs(graph.arc_seq()));
    }
    input_graph_freeze(&mut ig);
    proof {
        assert forall|a: int, b: int|
            #![trigger connected(ig_arcs(ig), a, b)]
            #![trigger connected(kept_arcs(graph.arc_seq()), a, b)]
            connected(ig_arcs(ig), a, b) <==> connected(kept_arcs(graph.arc_seq()), a, b) by {
            assert(connected(ig_arcs(ig), a, b) <==> connected(pre_arcs, a, b));
        }
        assert forall|a: int, b: int, d: int|
            #![trigger is_min_dist(ig_arcs(ig), a, b, d)]
            #![trigger is_min_dist(kept_arcs(graph.arc_seq()), a, b, d)]
            is_min_dist(ig_arcs(ig), a, b, d)
                <==> is_min_dist(kept_arcs(graph.arc_seq()), a, b, d) by {
            assert(is_min_dist(ig_arcs(ig), a, b, d) <==> is_min_dist(pre_arcs, a, b, d));
        }
        assert(arc_bound(ig_arcs(ig)) == arc_bound(kept_arcs(graph.arc_seq())));
        assert(arc_cost_total(ig_arcs(ig)) <= arc_cost_total(kept_arcs(graph.arc_seq())));
    }
    ig
}

/// Builds the contraction-hierarchy index once, then queries every ordered
/// pair of distinct nodes through one reused calculator, collecting one
/// entry per connected pair with its exact shortest distance over the
/// retained arcs.
#[verifier::loop_isolation(false)]
pub fn all_pairs_path_length(graph: &Graph) -> (r: Vec<ShortestPathLength>)
    requires
        graph.wf(),
    ensures
        results_complete(kept_arcs(graph.arc_seq()), r@),
{
    let ghost es = kept_arcs(graph.arc_seq());
    let ig = to_input_graph(graph);
    proof {
        lemma_kept_arcs_cost(graph.arc_seq());
        assert(arc_cost_total(ig_arcs(ig)) <= usize::MAX / 2);
    }
    let fg = prepare_index(&ig);
    let n = fast_graph_num_nodes(&fg);
    let mut calc = new_calculator(&fg);
    proof {
        assert forall|a: int, b: int|
            #![trigger connected(fg_arcs(fg), a, b)]
            #![trigger connected(es, a, b)]
            connected(fg_arcs(fg), a, b) <==> connected(es, a, b) by {
            assert(connected(fg_arcs(fg), a, b) <==> connected(ig_arcs(ig), a, b));
            assert(connected(ig_arcs(ig), a, b) <==> connected(es, a, b));
        }
        assert forall|a: int, b: int, d: int|
            #![trigger is_min_dist(fg_arcs(fg), a, b, d)]
            #![trigger is_min_dist(es, a, b, d)]
            is_min_dist(fg_arcs(fg), a, b, d) <==> is_min_dist(es, a, b, d) by {
            assert(is_min_dist(fg_arcs(fg), a, b, d) <==> is_min_dist(ig_arcs(ig), a, b, d));
            assert(is_min_dist(ig_arcs(ig), a, b, d) <==> is_min_dist(es, a, b, d));
        }
        assert(arc_bound(fg_arcs(fg)) == arc_bound(es));
        assert(arc_cost_total(fg_arcs(fg)) <= usize::MAX / 2);
    }
    let mut res: Vec<ShortestPathLength> = match n.checked_mul(n) {
        Some(cap) => Vec::with_capacity(cap),
        None => Vec::new(),
    };
    for src in 0..n
        invariant
            calc_bound(calc) == arc_bound(fg_arcs(fg)),
            forall|i: int| 0 <= i < res@.len()
                ==> (#[trigger] res@[i]).src < src && res@[i].src != res@[i].dst
                    && is_min_dist(es, res@[i].src as int, res@[i].dst as int, res@[i].length as int),
            forall|a: int, b: int| 0 <= a < src && 0 <= b < n && a != b
                && #[trigger] connected(es, a, b)
                ==> exists|i: int| 0 <= i < res@.len()
                    && (#[trigger] res@[i]).src == a && res@[i].dst == b,
            pairs_distinct(res@),
    {
        for dst in 0..n
            invariant
                calc_bound(calc) == arc_bound(fg_arcs(fg)),
                forall|i: int| 0 <= i < res@.len()
                    ==> ((#[trigger] res@[i]).src < src
                        || (res@[i].src == src && res@[i].dst < dst))
                        && res@[i].src != res@[i].dst
                        && is_min_dist(
                            es,
                            res@[i].src as int,
                            res@[i].dst as int,
                            res@[i].length as int,
                        ),
                forall|a: int, b: int| 0 <= a && 0 <= b < n && a != b
                    && (a < src || (a == src && b < dst))
                    && #[trigger] connected(es, a, b)
                    ==> exists|i: int| 0 <= i < res@.len()
                        && (#[trigger] res@[i]).src == a && res@[i].dst == b,
                pairs_distinct(res@),
        {
            if src != dst {
                let found = calc_dist(&mut calc, &fg, src, dst);
                proof {
                    assert(found is Some <==> connected(es, src as int, dst as int));
                }
                match found {
                    Some(d) => {
                        let ghost res0 = res@;
                        res.push(ShortestPathLength { src, dst, length: d });
                        proof {
                            assert(is_min_dist(es, src as int, dst as int, d as int));
                            assert(res@.len() == res0.len() + 1);
                            assert forall|i: int| 0 <= i < res0.len() implies res@[i] == res0[i] by {}
                            assert(res@[res0.len() as int].src == src
                                && res@[res0.len() as int].dst == dst
                                && res@[res0.len() as int].length == d);
                        }
                    },
                    None => {},
                }
            }
        }
    }
    proof {
        assert forall|a: int, b: int| a != b && #[trigger] connected(es, a, b)
            implies exists|i: int| 0 <= i < res@.len()
                && (#[trigger] res@[i]).src == a && res@[i].dst == b by {
            lemma_connected_endpoints(es, a, b);
            lemma_arc_bound(es);
            let t1 = choose|t: (usize, usize, usize)| #[trigger] es.contains(t) && t.0 == a;
            let t2 = choose|t: (usize, usize, usize)| #[trigger] es.contains(t) && t.1 == b;
            assert(0 <= a < n && 0 <= b < n);
        }
    }
    res
}

} // verus!
