//! Laws relating the two strategies and their outputs. Each proof function
//! states a property of any result list that satisfies the drivers'
//! contracts, so it holds of whatever the drivers actually return.

use vstd::prelude::*;

use crate::model::ShortestPathLength;
use crate::model::arcs_symmetric;
use crate::model::connected;
use crate::model::is_min_dist;
use crate::model::is_walk;
use crate::model::kept_arcs;
use crate::model::lemma_connected_endpoints;
use crate::model::lemma_connected_kept;
use crate::model::lemma_min_dist_kept;
use crate::model::lemma_min_dist_symmetric;
use crate::model::lemma_min_dist_unique;
use crate::model::lemma_walk_same_side;
use crate::model::positive_costs;
use crate::model::result_triples;
use crate::model::results_complete;
use crate::model::sum_costs;

verus! {

proof fn lemma_entry_transfer(
    es: Seq<(usize, usize, usize)>,
    r1: Seq<ShortestPathLength>,
    r2: Seq<ShortestPathLength>,
    t: (usize, usize, usize),
)
    requires
        results_complete(es, r1),
        results_complete(es, r2),
        result_triples(r1).contains(t),
    ensures
        result_triples(r2).contains(t),
{
    let i = choose|i: int| 0 <= i < r1.len()
        && (#[trigger] r1[i]).src == t.0 && r1[i].dst == t.1 && r1[i].length == t.2;
    assert(is_min_dist(es, t.0 as int, t.1 as int, t.2 as int));
    let (ns, cs) = choose|ns: Seq<usize>, cs: Seq<usize>|
        is_walk(es, ns, cs) && ns.first() == t.0 as int && ns.last() == t.1 as int
            && sum_costs(cs) == t.2 as int;
    assert(connected(es, t.0 as int, t.1 as int));
    let j = choose|j: int| 0 <= j < r2.len()
        && (#[trigger] r2[j]).src == t.0 as int && r2[j].dst == t.1 as int;
    assert(is_min_dist(es, t.0 as int, t.1 as int, r2[j].length as int));
    lemma_min_dist_unique(es, t.0 as int, t.1 as int, t.2 as int, r2[j].length as int);
}

/// Idempotence: for one set of arcs the complete result is determined up to
/// ordering, so two runs over the same input with the same strategy hold the
/// same `(src, dst, length)` entries.
pub proof fn lemma_rerun_agreement(
    es: Seq<(usize, usize, usize)>,
    r1: Seq<ShortestPathLength>,
    r2: Seq<ShortestPathLength>,
)
    requires
        results_complete(es, r1),
        results_complete(es, r2),
    ensures
        result_triples(r1) =~= result_triples(r2),
{
    assert forall|t: (usize, usize, usize)| result_triples(r1).contains(t)
        implies result_triples(r2).contains(t) by {
        lemma_entry_transfer(es, r1, r2, t);
    }
    assert forall|t: (usize, usize, usize)| result_triples(r2).contains(t)
        implies result_triples(r1).contains(t) by {
        lemma_entry_transfer(es, r2, r1, t);
    }
}

/// Strategy equivalence: a complete result over all arcs and a complete
/// result over the retained arcs hold the same entries, provided every arc
/// between distinct nodes costs at least one unit.
pub proof fn lemma_strategy_equivalence(
    es: Seq<(usize, usize, usize)>,
    r1: Seq<ShortestPathLength>,
    r2: Seq<ShortestPathLength>,
)
    requires
        positive_costs(es),
        results_complete(es, r1),
        results_complete(kept_arcs(es), r2),
    ensures
        result_triples(r1) =~= result_triples(r2),
{
    assert forall|i: int| 0 <= i < r2.len()
        implies (#[trigger] r2[i]).src != r2[i].dst
            && is_min_dist(es, r2[i].src as int, r2[i].dst as int, r2[i].length as int) by {
        lemma_min_dist_kept(es, r2[i].src as int, r2[i].dst as int, r2[i].length as int);
    }
    assert forall|a: int, b: int| a != b && #[trigger] connected(es, a, b)
        implies exists|i: int| 0 <= i < r2.len()
            && (#[trigger] r2[i]).src == a && r2[i].dst == b by {
        lemma_connected_kept(es, a, b);
        assert(connected(kept_arcs(es), a, b));
    }
    assert(results_complete(es, r2));
    lemma_rerun_agreement(es, r1, r2);
}

/// Symmetry: in an undirected graph every entry of a complete result has its
/// mirror entry, with the same length.
pub proof fn lemma_result_symmetry(
    es: Seq<(usize, usize, usize)>,
    rs: Seq<ShortestPathLength>,
    i: int,
)
    requires
        arcs_symmetric(es),
        results_complete(es, rs),
        0 <= i < rs.len(),
    ensures
        exists|j: int| 0 <= j < rs.len()
            && (#[trigger] rs[j]).src == rs[i].dst && rs[j].dst == rs[i].src
            && rs[j].length == rs[i].length,
{
    let a = rs[i].src as int;
    let b = rs[i].dst as int;
    let d = rs[i].length as int;
    assert(is_min_dist(es, a, b, d));
    lemma_min_dist_symmetric(es, a, b, d);
    let (ns, cs) = choose|ns: Seq<usize>, cs: Seq<usize>|
        is_walk(es, ns, cs) && ns.first() == b && ns.last() == a && sum_costs(cs) == d;
    assert(connected(es, b, a));
    let j = choose|j: int| 0 <= j < rs.len() && (#[trigger] rs[j]).src == b && rs[j].dst == a;
    assert(is_min_dist(es, b, a, rs[j].length as int));
    lemma_min_dist_unique(es, b, a, d, rs[j].length as int);
}

/// Disjoint components stay disjoint: when no arc joins the two sides of a
/// partition, no entry of a complete result crosses it.
pub proof fn lemma_component_separation(
    es: Seq<(usize, usize, usize)>,
    rs: Seq<ShortestPathLength>,
    side: Set<int>,
    i: int,
)
    requires
        results_complete(es, rs),
        forall|t: (usize, usize, usize)| #[trigger] es.contains(t)
            ==> (side.contains(t.0 as int) <==> side.contains(t.1 as int)),
        0 <= i < rs.len(),
    ensures
        side.contains(rs[i].src as int) <==> side.contains(rs[i].dst as int),
{
    assert(is_min_dist(es, rs[i].src as int, rs[i].dst as int, rs[i].length as int));
    let (ns, cs) = choose|ns: Seq<usize>, cs: Seq<usize>|
        is_walk(es, ns, cs) && ns.first() == rs[i].src as int && ns.last() == rs[i].dst as int
            && sum_costs(cs) == rs[i].length as int;
    lemma_walk_same_side(es, ns, cs, side);
}

/// A graph without arcs — a single isolated node, say — yields no entries.
pub proof fn lemma_no_arcs_no_results(rs: Seq<ShortestPathLength>)
    requires
        results_complete(Seq::<(usize, usize, usize)>::empty(), rs),
    ensures
        rs.len() == 0,
{
    let es = Seq::<(usize, usize, usize)>::empty();
    if rs.len() > 0 {
        assert(rs[0].src != rs[0].dst);
        assert(is_min_dist(es, rs[0].src as int, rs[0].dst as int, rs[0].length as int));
        let (ns, cs) = choose|ns: Seq<usize>, cs: Seq<usize>|
            is_walk(es, ns, cs) && ns.first() == rs[0].src as int
                && ns.last() == rs[0].dst as int && sum_costs(cs) == rs[0].length as int;
        if cs.len() == 0 {
            assert(ns.first() == ns.last());
        } else {
            assert(es.contains((ns[0], ns[1], cs[0])));
        }
    }
}


/// The number of members of `side` among `0 .. k`.
pub open spec fn side_count(side: Set<int>, k: int) -> int
    decreases k,
{
    if k <= 0 {
        0
    } else {
        side_count(side, k - 1) + if side.contains(k - 1) { 1int } else { 0int }
    }
}

/// The members of `side` among `0 .. k`.
pub open spec fn side_members(side: Set<int>, k: int) -> Set<int> {
    Set::new(|x: int| 0 <= x < k && side.contains(x))
}

/// The non-members of `side` among `0 .. k`.
pub open spec fn other_members(side: Set<int>, k: int) -> Set<int> {
    Set::new(|x: int| 0 <= x < k && !side.contains(x))
}

/// The ordered pairs of distinct nodes below `k` lying on the same side.
pub open spec fn same_side_pairs(side: Set<int>, k: int) -> Set<(int, int)> {
    Set::new(|p: (int, int)|
        0 <= p.0 < k && 0 <= p.1 < k && p.0 != p.1
            && (side.contains(p.0) <==> side.contains(p.1)))
}

proof fn lemma_disjoint_union_len<A>(s1: Set<A>, s2: Set<A>)
    requires
        s1.finite(),
        s2.finite(),
        forall|x: A| !(#[trigger] s1.contains(x) && s2.contains(x)),
    ensures
        s1.union(s2).finite(),
        s1.union(s2).len() == s1.len() + s2.len(),
    decreases s1.len(),
{
    broadcast use vstd::set::group_set_axioms;

    if s1.is_empty() {
        assert(s1.union(s2) =~= s2);
    } else {
        let a = s1.choose();
        assert(s1.contains(a));
        lemma_disjoint_union_len(s1.remove(a), s2);
        assert(s1.remove(a).union(s2).insert(a) =~= s1.union(s2));
        assert(!s1.remove(a).union(s2).contains(a));
    }
}

proof fn lemma_side_members_count(side: Set<int>, k: int)
    requires
        k >= 0,
    ensures
        side_members(side, k).finite(),
        side_members(side, k).len() == side_count(side, k),
        other_members(side, k).finite(),
        other_members(side, k).len() == k - side_count(side, k),
    decreases k,
{
    broadcast use vstd::set::group_set_axioms;

    if k == 0 {
        assert(side_members(side, 0) =~= Set::<int>::empty());
        assert(other_members(side, 0) =~= Set::<int>::empty());
    } else {
        lemma_side_members_count(side, k - 1);
        if side.contains(k - 1) {
            assert(side_members(side, k) =~= side_members(side, k - 1).insert(k - 1));
            assert(!side_members(side, k - 1).contains(k - 1));
            assert(other_members(side, k) =~= other_members(side, k - 1));
        } else {
            assert(other_members(side, k) =~= other_members(side, k - 1).insert(k - 1));
            assert(!other_members(side, k - 1).contains(k - 1));
            assert(side_members(side, k) =~= side_members(side, k - 1));
        }
    }
}

proof fn lemma_fixed_first_count(v: int, x: Set<int>)
    requires
        x.finite(),
    ensures
        (Set::new(|p: (int, int)| p.0 == v && x.contains(p.1))).finite(),
        (Set::new(|p: (int, int)| p.0 == v && x.contains(p.1))).len() == x.len(),
    decreases x.len(),
{
    broadcast use vstd::set::group_set_axioms;

    let s = Set::new(|p: (int, int)| p.0 == v && x.contains(p.1));
    if x.is_empty() {
        assert(s =~= Set::<(int, int)>::empty());
    } else {
        let e = x.choose();
        assert(x.contains(e));
        lemma_fixed_first_count(v, x.remove(e));
        let s0 = Set::new(|p: (int, int)| p.0 == v && x.remove(e).contains(p.1));
        assert(s =~= s0.insert((v, e)));
        assert(!s0.contains((v, e)));
    }
}

proof fn lemma_fixed_second_count(v: int, x: Set<int>)
    requires
        x.finite(),
    ensures
        (Set::new(|p: (int, int)| p.1 == v && x.contains(p.0))).finite(),
        (Set::new(|p: (int, int)| p.1 == v && x.contains(p.0))).len() == x.len(),
    decreases x.len(),
{
    broadcast use vstd::set::group_set_axioms;

    let s = Set::new(|p: (int, int)| p.1 == v && x.contains(p.0));
    if x.is_empty() {
        assert(s =~= Set::<(int, int)>::empty());
    } else {
        let e = x.choose();
        assert(x.contains(e));
        lemma_fixed_second_count(v, x.remove(e));
        let s0 = Set::new(|p: (int, int)| p.1 == v && x.remove(e).contains(p.0));
        assert(s =~= s0.insert((e, v)));
        assert(!s0.contains((e, v)));
    }
}

proof fn lemma_same_side_pairs_count(side: Set<int>, k: int)
    requires
        k >= 0,
    ensures
        same_side_pairs(side, k).finite(),
        same_side_pairs(side, k).len() == side_count(side, k) * (side_count(side, k) - 1)
            + (k - side_count(side, k)) * (k - side_count(side, k) - 1),
    decreases k,
{
    broadcast use vstd::set::group_set_axioms;

    if k == 0 {
        assert(same_side_pairs(side, 0) =~= Set::<(int, int)>::empty());
    } else {
        lemma_same_side_pairs_count(side, k - 1);
        lemma_side_members_count(side, k - 1);
        let v = k - 1;
        let c = side_count(side, k - 1);
        let d = (k - 1) - c;
        let x = if side.contains(v) { side_members(side, k - 1) } else { other_members(side, k - 1) };
        let a1 = Set::new(|p: (int, int)| p.0 == v && x.contains(p.1));
        let a2 = Set::new(|p: (int, int)| p.1 == v && x.contains(p.0));
        lemma_fixed_first_count(v, x);
        lemma_fixed_second_count(v, x);
        assert(!x.contains(v));
        lemma_disjoint_union_len(a1, a2);
        lemma_disjoint_union_len(same_side_pairs(side, k - 1), a1.union(a2));
        assert(same_side_pairs(side, k) =~= same_side_pairs(side, k - 1).union(a1.union(a2)));
        if side.contains(v) {
            assert(side_count(side, k) == c + 1);
            assert(same_side_pairs(side, k).len() == c * (c - 1) + d * (d - 1) + 2 * c);
            assert(c * (c - 1) + 2 * c == (c + 1) * c) by (nonlinear_arith);
        } else {
            assert(side_count(side, k) == c);
            assert(same_side_pairs(side, k).len() == c * (c - 1) + d * (d - 1) + 2 * d);
            assert(d * (d - 1) + 2 * d == (d + 1) * d) by (nonlinear_arith);
            assert(k - side_count(side, k) == d + 1);
        }
    }
}

/// Disconnected-component count: when the nodes below `total` split into two
/// sides that no arc joins and each side is internally connected, a complete
/// result holds exactly `m * (m - 1) + n * (n - 1)` entries, `m` and `n`
/// being the sizes of the two sides.
pub proof fn lemma_component_count(
    es: Seq<(usize, usize, usize)>,
    rs: Seq<ShortestPathLength>,
    side: Set<int>,
    total: int,
)
    requires
        results_complete(es, rs),
        total >= 0,
        forall|t: (usize, usize, usize)| #[trigger] es.contains(t)
            ==> t.0 < total && t.1 < total,
        forall|t: (usize, usize, usize)| #[trigger] es.contains(t)
            ==> (side.contains(t.0 as int) <==> side.contains(t.1 as int)),
        forall|a: int, b: int| 0 <= a < total && 0 <= b < total && a != b
            && ((side.contains(a) <==> side.contains(b)))
            ==> #[trigger] connected(es, a, b),
    ensures
        rs.len() == side_count(side, total) * (side_count(side, total) - 1)
            + (total - side_count(side, total)) * (total - side_count(side, total) - 1),
{
    let ps = Seq::new(rs.len(), |i: int| (rs[i].src as int, rs[i].dst as int));
    assert(ps.no_duplicates()) by {
        assert forall|i: int, j: int|
            0 <= i < ps.len() && 0 <= j < ps.len() && i != j implies ps[i] != ps[j] by {
            if i < j {
                assert(rs[i].src != rs[j].src || rs[i].dst != rs[j].dst);
            } else {
                assert(rs[j].src != rs[i].src || rs[j].dst != rs[i].dst);
            }
        }
    }
    ps.unique_seq_to_set();
    assert(ps.to_set() =~= same_side_pairs(side, total)) by {
        assert forall|p: (int, int)| ps.to_set().contains(p)
            implies same_side_pairs(side, total).contains(p) by {
            let i = choose|i: int| 0 <= i < ps.len() && ps[i] == p;
            let a = rs[i].src as int;
            let b = rs[i].dst as int;
            assert(is_min_dist(es, a, b, rs[i].length as int));
            let (ns, cs) = choose|ns: Seq<usize>, cs: Seq<usize>|
                is_walk(es, ns, cs) && ns.first() == a && ns.last() == b
                    && sum_costs(cs) == rs[i].length as int;
            assert(connected(es, a, b));
            lemma_connected_endpoints(es, a, b);
            let t1 = choose|t: (usize, usize, usize)| #[trigger] es.contains(t) && t.0 == a;
            let t2 = choose|t: (usize, usize, usize)| #[trigger] es.contains(t) && t.1 == b;
            lemma_walk_same_side(es, ns, cs, side);
        }
        assert forall|p: (int, int)| same_side_pairs(side, total).contains(p)
            implies ps.to_set().contains(p) by {
            assert(connected(es, p.0, p.1));
            let i = choose|i: int| 0 <= i < rs.len()
                && (#[trigger] rs[i]).src == p.0 && rs[i].dst == p.1;
            assert(ps[i] == p);
            assert(ps.contains(p));
        }
    }
    lemma_same_side_pairs_count(side, total);
}

} // verus!
