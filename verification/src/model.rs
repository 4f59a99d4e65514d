//! The mathematical model of the shortest-path engine: a graph is a sequence
//! of directed arcs `(from, to, cost)` over dense node indices, a walk is a
//! node sequence together with the cost paid for each step, and a shortest
//! distance is the least cost of any walk between two nodes. The contracts of
//! both search strategies are stated over this model.

use vstd::prelude::*;

verus! {

/// One entry of the all-pairs output: the shortest-path length from the dense
/// node index `src` to the dense node index `dst`.
#[derive(Clone, Copy, Debug, PartialEq, Eq, Structural)]
pub struct ShortestPathLength {
    pub src: usize,
    pub dst: usize,
    pub length: usize,
}

/// A walk through the arcs `es`: `ns` lists the visited nodes in order and
/// `cs[i]` is the cost of the arc taken from `ns[i]` to `ns[i + 1]`.
pub open spec fn is_walk(es: Seq<(usize, usize, usize)>, ns: Seq<usize>, cs: Seq<usize>) -> bool {
    &&& ns.len() == cs.len() + 1
    &&& forall|i: int| 0 <= i < cs.len() ==> es.contains((ns[i], ns[i + 1], #[trigger] cs[i]))
}

pub open spec fn sum_costs(cs: Seq<usize>) -> int
    decreases cs.len(),
{
    if cs.len() == 0 {
        0
    } else {
        sum_costs(cs.drop_last()) + cs.last()
    }
}

/// Some walk through `es` leads from node `a` to node `b`.
pub open spec fn connected(es: Seq<(usize, usize, usize)>, a: int, b: int) -> bool {
    exists|ns: Seq<usize>, cs: Seq<usize>|
        is_walk(es, ns, cs) && ns.first() == a && ns.last() == b
}

/// `d` is the cost of a cheapest walk from `a` to `b` through `es`.
pub open spec fn is_min_dist(es: Seq<(usize, usize, usize)>, a: int, b: int, d: int) -> bool {
    &&& exists|ns: Seq<usize>, cs: Seq<usize>|
        is_walk(es, ns, cs) && ns.first() == a && ns.last() == b && sum_costs(cs) == d
    &&& forall|ns: Seq<usize>, cs: Seq<usize>|
        #[trigger] is_walk(es, ns, cs) && ns.first() == a && ns.last() == b
            ==> sum_costs(cs) >= d
}

/// Every arc has its mirror image: the graph is undirected.
pub open spec fn arcs_symmetric(es: Seq<(usize, usize, usize)>) -> bool {
    forall|u: usize, v: usize, c: usize| #[trigger] es.contains((u, v, c)) ==> es.contains((v, u, c))
}

/// Every arc between two distinct nodes costs at least one unit.
pub open spec fn positive_costs(es: Seq<(usize, usize, usize)>) -> bool {
    forall|t: (usize, usize, usize)| #[trigger] es.contains(t) && t.0 != t.1 ==> t.2 >= 1
}

/// An arc that the contraction-hierarchy index retains: it joins two distinct
/// nodes and costs at least one unit.
pub open spec fn keep_arc(t: (usize, usize, usize)) -> bool {
    t.0 != t.1 && t.2 >= 1
}

/// The subsequence of arcs that the contraction-hierarchy index retains.
pub open spec fn kept_arcs(es: Seq<(usize, usize, usize)>) -> Seq<(usize, usize, usize)>
    decreases es.len(),
{
    if es.len() == 0 {
        Seq::empty()
    } else if keep_arc(es.last()) {
        kept_arcs(es.drop_last()).push(es.last())
    } else {
        kept_arcs(es.drop_last())
    }
}

/// One more than the largest node index occurring in `es` (zero if none).
pub open spec fn arc_bound(es: Seq<(usize, usize, usize)>) -> int
    decreases es.len(),
{
    if es.len() == 0 {
        0
    } else {
        let t = es.last();
        let m: int = if t.0 >= t.1 { t.0 + 1 } else { t.1 + 1 };
        if arc_bound(es.drop_last()) >= m { arc_bound(es.drop_last()) } else { m }
    }
}

/// The sum of the costs of all arcs in `es`.
pub open spec fn arc_cost_total(es: Seq<(usize, usize, usize)>) -> int
    decreases es.len(),
{
    if es.len() == 0 {
        0
    } else {
        arc_cost_total(es.drop_last()) + es.last().2
    }
}

/// Every entry pairs two distinct nodes and carries their exact shortest
/// distance through `es`.
pub open spec fn results_sound(es: Seq<(usize, usize, usize)>, rs: Seq<ShortestPathLength>) -> bool {
    forall|i: int| 0 <= i < rs.len()
        ==> (#[trigger] rs[i]).src != rs[i].dst
            && is_min_dist(es, rs[i].src as int, rs[i].dst as int, rs[i].length as int)
}

/// Every ordered pair of distinct connected nodes has an entry.
pub open spec fn results_cover(es: Seq<(usize, usize, usize)>, rs: Seq<ShortestPathLength>) -> bool {
    forall|a: int, b: int| a != b && #[trigger] connected(es, a, b)
        ==> exists|i: int| 0 <= i < rs.len() && (#[trigger] rs[i]).src == a && rs[i].dst == b
}

/// No ordered pair appears twice.
pub open spec fn pairs_distinct(rs: Seq<ShortestPathLength>) -> bool {
    forall|i: int, j: int| 0 <= i < j < rs.len()
        ==> (#[trigger] rs[i]).src != (#[trigger] rs[j]).src || rs[i].dst != rs[j].dst
}

/// The all-pairs result for the arcs `es`: exactly one entry per ordered pair
/// of distinct connected nodes, carrying the exact shortest distance.
pub open spec fn results_complete(es: Seq<(usize, usize, usize)>, rs: Seq<ShortestPathLength>) -> bool {
    results_sound(es, rs) && results_cover(es, rs) && pairs_distinct(rs)
}

/// The entries of a result list, as a set of `(src, dst, length)` triples.
pub open spec fn result_triples(rs: Seq<ShortestPathLength>) -> Set<(usize, usize, usize)> {
    Set::new(|t: (usize, usize, usize)|
        exists|i: int| 0 <= i < rs.len()
            && (#[trigger] rs[i]).src == t.0 && rs[i].dst == t.1 && rs[i].length == t.2)
}

/// A sequence's membership splits into its last element and the rest.
proof fn lemma_contains_split(es: Seq<(usize, usize, usize)>, t: (usize, usize, usize))
    requires
        es.len() > 0,
    ensures
        es.contains(t) <==> (es.drop_last().contains(t) || t == es.last()),
{
    if es.contains(t) {
        let i = choose|i: int| 0 <= i < es.len() && es[i] == t;
        if i < es.len() - 1 {
            assert(es.drop_last()[i] == t);
        }
    }
    if es.drop_last().contains(t) {
        let i = choose|i: int| 0 <= i < es.drop_last().len() && es.drop_last()[i] == t;
        assert(es[i] == t);
    }
    if t == es.last() {
        assert(es[es.len() - 1] == t);
    }
}

proof fn lemma_sum_costs_drop_first(cs: Seq<usize>)
    requires
        cs.len() > 0,
    ensures
        sum_costs(cs) == cs.first() + sum_costs(cs.drop_first()),
    decreases cs.len(),
{
    if cs.len() == 1 {
        assert(cs.drop_first().len() == 0);
        assert(cs.drop_last().len() == 0);
        assert(sum_costs(cs.drop_first()) == 0);
        assert(sum_costs(cs.drop_last()) == 0);
        assert(sum_costs(cs) == sum_costs(cs.drop_last()) + cs.last());
        assert(cs.first() == cs.last());
    } else {
        lemma_sum_costs_drop_first(cs.drop_last());
        assert(cs.drop_last().first() == cs.first());
        assert(cs.drop_first().drop_last() =~= cs.drop_last().drop_first());
        assert(cs.drop_first().last() == cs.last());
        assert(cs.drop_first().len() > 0);
        assert(sum_costs(cs.drop_first())
            == sum_costs(cs.drop_first().drop_last()) + cs.drop_first().last());
        assert(sum_costs(cs) == sum_costs(cs.drop_last()) + cs.last());
    }
}

proof fn lemma_sum_costs_reverse(cs: Seq<usize>)
    ensures
        sum_costs(cs.reverse()) == sum_costs(cs),
    decreases cs.len(),
{
    if cs.len() == 0 {
        assert(cs.reverse() =~= cs);
    } else {
        lemma_sum_costs_reverse(cs.drop_last());
        assert(cs.reverse().first() == cs.last());
        assert(cs.reverse().drop_first() =~= cs.drop_last().reverse());
        lemma_sum_costs_drop_first(cs.reverse());
        assert(cs.drop_last().len() == cs.len() - 1);
        assert(sum_costs(cs) == sum_costs(cs.drop_last()) + cs.last());
    }
}

/// In an undirected graph every walk can be walked backwards at the same cost.
pub proof fn lemma_walk_reverse(es: Seq<(usize, usize, usize)>, ns: Seq<usize>, cs: Seq<usize>)
    requires
        arcs_symmetric(es),
        is_walk(es, ns, cs),
    ensures
        is_walk(es, ns.reverse(), cs.reverse()),
        ns.reverse().first() == ns.last(),
        ns.reverse().last() == ns.first(),
        sum_costs(cs.reverse()) == sum_costs(cs),
{
    let k = cs.len() as int;
    assert forall|i: int| 0 <= i < cs.reverse().len()
        implies es.contains((ns.reverse()[i], ns.reverse()[i + 1], #[trigger] cs.reverse()[i])) by {
        let j = k - 1 - i;
        assert(es.contains((ns[j], ns[j + 1], cs[j])));
        assert(ns.reverse()[i] == ns[j + 1]);
        assert(ns.reverse()[i + 1] == ns[j]);
        assert(cs.reverse()[i] == cs[j]);
    }
    lemma_sum_costs_reverse(cs);
}

/// Two shortest distances between the same pair agree.
pub proof fn lemma_min_dist_unique(es: Seq<(usize, usize, usize)>, a: int, b: int, d1: int, d2: int)
    requires
        is_min_dist(es, a, b, d1),
        is_min_dist(es, a, b, d2),
    ensures
        d1 == d2,
{
    let (ns1, cs1) = choose|ns: Seq<usize>, cs: Seq<usize>|
        is_walk(es, ns, cs) && ns.first() == a && ns.last() == b && sum_costs(cs) == d1;
    let (ns2, cs2) = choose|ns: Seq<usize>, cs: Seq<usize>|
        is_walk(es, ns, cs) && ns.first() == a && ns.last() == b && sum_costs(cs) == d2;
    assert(sum_costs(cs1) >= d2);
    assert(sum_costs(cs2) >= d1);
}

/// In an undirected graph the shortest distance is symmetric.
pub proof fn lemma_min_dist_symmetric(es: Seq<(usize, usize, usize)>, a: int, b: int, d: int)
    requires
        arcs_symmetric(es),
        is_min_dist(es, a, b, d),
    ensures
        is_min_dist(es, b, a, d),
{
    let (ns1, cs1) = choose|ns: Seq<usize>, cs: Seq<usize>|
        is_walk(es, ns, cs) && ns.first() == a && ns.last() == b && sum_costs(cs) == d;
    lemma_walk_reverse(es, ns1, cs1);
    assert(is_walk(es, ns1.reverse(), cs1.reverse()) && ns1.reverse().first() == b
        && ns1.reverse().last() == a && sum_costs(cs1.reverse()) == d);
    assert forall|ns: Seq<usize>, cs: Seq<usize>|
        #[trigger] is_walk(es, ns, cs) && ns.first() == b && ns.last() == a
        implies sum_costs(cs) >= d by {
        lemma_walk_reverse(es, ns, cs);
        assert(is_walk(es, ns.reverse(), cs.reverse()) && ns.reverse().first() == a
            && ns.reverse().last() == b);
    }
}

/// A pair of distinct connected nodes shows up at the ends of arcs.
pub proof fn lemma_connected_endpoints(es: Seq<(usize, usize, usize)>, a: int, b: int)
    requires
        connected(es, a, b),
        a != b,
    ensures
        exists|t: (usize, usize, usize)| #[trigger] es.contains(t) && t.0 == a,
        exists|t: (usize, usize, usize)| #[trigger] es.contains(t) && t.1 == b,
{
    let (ns, cs) = choose|ns: Seq<usize>, cs: Seq<usize>|
        is_walk(es, ns, cs) && ns.first() == a && ns.last() == b;
    assert(cs.len() >= 1);
    let k = cs.len() as int;
    assert(es.contains((ns[0], ns[1], cs[0])));
    assert(es.contains((ns[k - 1], ns[k], cs[k - 1])));
}

/// Every arc's endpoints lie below `arc_bound`.
pub proof fn lemma_arc_bound(es: Seq<(usize, usize, usize)>)
    ensures
        forall|t: (usize, usize, usize)| #[trigger] es.contains(t)
            ==> t.0 < arc_bound(es) && t.1 < arc_bound(es),
    decreases es.len(),
{
    if es.len() > 0 {
        lemma_arc_bound(es.drop_last());
        assert forall|t: (usize, usize, usize)| #[trigger] es.contains(t)
            implies t.0 < arc_bound(es) && t.1 < arc_bound(es) by {
            lemma_contains_split(es, t);
        }
    }
}

/// An arc is retained exactly when it joins two distinct nodes at a cost of at
/// least one unit.
pub proof fn lemma_kept_arcs_membership(es: Seq<(usize, usize, usize)>)
    ensures
        forall|t: (usize, usize, usize)|
            #[trigger] kept_arcs(es).contains(t) <==> es.contains(t) && keep_arc(t),
    decreases es.len(),
{
    if es.len() == 0 {
        assert forall|t: (usize, usize, usize)| !(#[trigger] kept_arcs(es).contains(t)) by {}
    } else {
        lemma_kept_arcs_membership(es.drop_last());
        assert forall|t: (usize, usize, usize)|
            #[trigger] kept_arcs(es).contains(t) <==> es.contains(t) && keep_arc(t) by {
            lemma_contains_split(es, t);
            if keep_arc(es.last()) {
                lemma_contains_split(kept_arcs(es.drop_last()).push(es.last()), t);
                assert(kept_arcs(es.drop_last()).push(es.last()).drop_last()
                    =~= kept_arcs(es.drop_last()));
            }
        }
    }
}

/// Retaining arcs never raises the total cost.
pub proof fn lemma_kept_arcs_cost(es: Seq<(usize, usize, usize)>)
    ensures
        arc_cost_total(kept_arcs(es)) <= arc_cost_total(es),
    decreases es.len(),
{
    if es.len() > 0 {
        lemma_kept_arcs_cost(es.drop_last());
        if keep_arc(es.last()) {
            let p = kept_arcs(es.drop_last()).push(es.last());
            assert(p.drop_last() =~= kept_arcs(es.drop_last()));
            assert(p.last() == es.last());
        }
    }
}

proof fn lemma_sum_costs_remove(cs: Seq<usize>, i: int)
    requires
        0 <= i < cs.len(),
    ensures
        sum_costs(cs.remove(i)) == sum_costs(cs) - cs[i],
    decreases cs.len(),
{
    if i == cs.len() - 1 {
        assert(cs.remove(i) =~= cs.drop_last());
    } else {
        lemma_sum_costs_remove(cs.drop_last(), i);
        assert(cs.remove(i).drop_last() =~= cs.drop_last().remove(i));
        assert(cs.remove(i).last() == cs.last());
    }
}

/// A walk survives the retention of arcs: self-loop steps can be cut out, and
/// when every arc between distinct nodes costs at least one unit, what remains
/// is a walk over the retained arcs that is no more expensive.
pub proof fn lemma_walk_drop_loops(es: Seq<(usize, usize, usize)>, ns: Seq<usize>, cs: Seq<usize>)
    requires
        positive_costs(es),
        is_walk(es, ns, cs),
    ensures
        exists|ns2: Seq<usize>, cs2: Seq<usize>|
            is_walk(kept_arcs(es), ns2, cs2) && ns2.first() == ns.first()
                && ns2.last() == ns.last() && sum_costs(cs2) <= sum_costs(cs),
    decreases cs.len(),
{
    lemma_kept_arcs_membership(es);
    if exists|i: int| 0 <= i < cs.len() && #[trigger] ns[i] == ns[i + 1] {
        let i = choose|i: int| 0 <= i < cs.len() && #[trigger] ns[i] == ns[i + 1];
        let ns2 = ns.remove(i + 1);
        let cs2 = cs.remove(i);
        assert forall|j: int| 0 <= j < cs2.len()
            implies es.contains((ns2[j], ns2[j + 1], #[trigger] cs2[j])) by {
            if j < i {
                assert(es.contains((ns[j], ns[j + 1], cs[j])));
            } else if j == i {
                assert(es.contains((ns[i + 1], ns[i + 2], cs[i + 1])));
                assert(ns2[j] == ns[i] && ns2[j + 1] == ns[i + 2] && cs2[j] == cs[i + 1]);
            } else {
                assert(es.contains((ns[j + 1], ns[j + 2], cs[j + 1])));
            }
        }
        assert(ns2.first() == ns.first());
        if i + 1 == ns.len() - 1 {
            assert(ns2.last() == ns[i] && ns[i] == ns[i + 1]);
        } else {
            assert(ns2.last() == ns.last());
        }
        lemma_sum_costs_remove(cs, i);
        lemma_walk_drop_loops(es, ns2, cs2);
    } else {
        assert forall|j: int| 0 <= j < cs.len()
            implies kept_arcs(es).contains((ns[j], ns[j + 1], #[trigger] cs[j])) by {
            assert(es.contains((ns[j], ns[j + 1], cs[j])));
            assert(ns[j] != ns[j + 1]);
        }
        assert(is_walk(kept_arcs(es), ns, cs));
    }
}

/// A walk over the retained arcs is a walk over all arcs.
pub proof fn lemma_walk_from_kept(es: Seq<(usize, usize, usize)>, ns: Seq<usize>, cs: Seq<usize>)
    requires
        is_walk(kept_arcs(es), ns, cs),
    ensures
        is_walk(es, ns, cs),
{
    lemma_kept_arcs_membership(es);
    assert forall|i: int| 0 <= i < cs.len()
        implies es.contains((ns[i], ns[i + 1], #[trigger] cs[i])) by {
        assert(kept_arcs(es).contains((ns[i], ns[i + 1], cs[i])));
    }
}

/// When every arc between distinct nodes costs at least one unit, retaining
/// arcs changes neither connectivity nor any shortest distance.
pub proof fn lemma_connected_kept(es: Seq<(usize, usize, usize)>, a: int, b: int)
    requires
        positive_costs(es),
    ensures
        connected(kept_arcs(es), a, b) <==> connected(es, a, b),
{
    if connected(kept_arcs(es), a, b) {
        let (ns, cs) = choose|ns: Seq<usize>, cs: Seq<usize>|
            is_walk(kept_arcs(es), ns, cs) && ns.first() == a && ns.last() == b;
        lemma_walk_from_kept(es, ns, cs);
        assert(is_walk(es, ns, cs) && ns.first() == a && ns.last() == b);
    }
    if connected(es, a, b) {
        let (ns, cs) = choose|ns: Seq<usize>, cs: Seq<usize>|
            is_walk(es, ns, cs) && ns.first() == a && ns.last() == b;
        lemma_walk_drop_loops(es, ns, cs);
    }
}

/// See `lemma_connected_kept`: shortest distances survive arc retention.
pub proof fn lemma_min_dist_kept(es: Seq<(usize, usize, usize)>, a: int, b: int, d: int)
    requires
        positive_costs(es),
    ensures
        is_min_dist(kept_arcs(es), a, b, d) <==> is_min_dist(es, a, b, d),
{
    if is_min_dist(kept_arcs(es), a, b, d) {
        let (ns, cs) = choose|ns: Seq<usize>, cs: Seq<usize>|
            is_walk(kept_arcs(es), ns, cs) && ns.first() == a && ns.last() == b
                && sum_costs(cs) == d;
        lemma_walk_from_kept(es, ns, cs);
        assert(is_walk(es, ns, cs) && ns.first() == a && ns.last() == b && sum_costs(cs) == d);
        assert forall|ns3: Seq<usize>, cs3: Seq<usize>|
            #[trigger] is_walk(es, ns3, cs3) && ns3.first() == a && ns3.last() == b
            implies sum_costs(cs3) >= d by {
            lemma_walk_drop_loops(es, ns3, cs3);
            let (ns4, cs4) = choose|ns4: Seq<usize>, cs4: Seq<usize>|
                is_walk(kept_arcs(es), ns4, cs4) && ns4.first() == ns3.first()
                    && ns4.last() == ns3.last() && sum_costs(cs4) <= sum_costs(cs3);
            assert(sum_costs(cs4) >= d);
        }
    }
    if is_min_dist(es, a, b, d) {
        let (ns, cs) = choose|ns: Seq<usize>, cs: Seq<usize>|
            is_walk(es, ns, cs) && ns.first() == a && ns.last() == b && sum_costs(cs) == d;
        lemma_walk_drop_loops(es, ns, cs);
        let (ns2, cs2) = choose|ns2: Seq<usize>, cs2: Seq<usize>|
            is_walk(kept_arcs(es), ns2, cs2) && ns2.first() == a && ns2.last() == b
                && sum_costs(cs2) <= sum_costs(cs);
        lemma_walk_from_kept(es, ns2, cs2);
        assert(sum_costs(cs2) >= d);
        assert(is_walk(kept_arcs(es), ns2, cs2) && ns2.first() == a && ns2.last() == b
            && sum_costs(cs2) == d);
        assert forall|ns3: Seq<usize>, cs3: Seq<usize>|
            #[trigger] is_walk(kept_arcs(es), ns3, cs3) && ns3.first() == a && ns3.last() == b
            implies sum_costs(cs3) >= d by {
            lemma_walk_from_kept(es, ns3, cs3);
        }
    }
}

/// A walk cannot leave a set of nodes that is closed under the arcs.
pub proof fn lemma_walk_same_side(
    es: Seq<(usize, usize, usize)>,
    ns: Seq<usize>,
    cs: Seq<usize>,
    side: Set<int>,
)
    requires
        is_walk(es, ns, cs),
        forall|t: (usize, usize, usize)| #[trigger] es.contains(t)
            ==> (side.contains(t.0 as int) <==> side.contains(t.1 as int)),
    ensures
        side.contains(ns.first() as int) <==> side.contains(ns.last() as int),
    decreases cs.len(),
{
    if cs.len() > 0 {
        let k = cs.len() as int;
        assert(is_walk(es, ns.drop_last(), cs.drop_last()));
        lemma_walk_same_side(es, ns.drop_last(), cs.drop_last(), side);
        assert(es.contains((ns[k - 1], ns[k], cs[k - 1])));
        assert(ns.drop_last().first() == ns.first());
        assert(ns.drop_last().last() == ns[k - 1]);
    }
}

} // verus!
