use allpairs::all_pairs_path_length;
use allpairs::all_pairs_path_length_pathfinder;
use allpairs::successors;
use allpairs::Graph;
use allpairs::GraphError;
use allpairs::ShortestPathLength;
use allpairs::WeightedEdge;

fn edge(src: u64, dst: u64, cost: u64) -> WeightedEdge {
    WeightedEdge { src, dst, cost }
}

fn triples(mut rs: Vec<ShortestPathLength>) -> Vec<(usize, usize, usize)> {
    let mut out: Vec<(usize, usize, usize)> = rs.drain(..).map(|p| (p.src, p.dst, p.length)).collect();
    out.sort();
    out
}

#[test]
fn cheaper_two_hop_path_wins() {
    let g = Graph::from_edges(&vec![edge(0, 1, 1), edge(1, 2, 2), edge(0, 2, 5)]).unwrap();
    let expected = vec![(0, 1, 1), (0, 2, 3), (1, 0, 1), (1, 2, 2), (2, 0, 3), (2, 1, 2)];
    assert_eq!(triples(all_pairs_path_length_pathfinder(&g)), expected);
    assert_eq!(triples(all_pairs_path_length(&g)), expected);
}

#[test]
fn parallel_edges_keep_the_cheaper() {
    let g = Graph::from_edges(&vec![edge(0, 1, 5), edge(0, 1, 2)]).unwrap();
    let expected = vec![(0, 1, 2), (1, 0, 2)];
    assert_eq!(triples(all_pairs_path_length_pathfinder(&g)), expected);
    assert_eq!(triples(all_pairs_path_length(&g)), expected);
}

#[test]
fn single_node_yields_nothing() {
    let g = Graph::empty(1);
    assert_eq!(g.node_count(), 1);
    assert!(all_pairs_path_length_pathfinder(&g).is_empty());
    assert!(all_pairs_path_length(&g).is_empty());
}

#[test]
fn no_edges_yield_nothing() {
    let g = Graph::from_edges(&vec![]).unwrap();
    assert_eq!(g.node_count(), 0);
    assert!(all_pairs_path_length_pathfinder(&g).is_empty());
    assert!(all_pairs_path_length(&g).is_empty());
}

#[test]
fn disconnected_components_stay_apart() {
    // components {0, 1} and {2, 3, 4}: 2 * 1 + 3 * 2 = 8 ordered pairs
    let g = Graph::from_edges(&vec![edge(0, 1, 3), edge(2, 3, 1), edge(3, 4, 1)]).unwrap();
    for rs in [all_pairs_path_length_pathfinder(&g), all_pairs_path_length(&g)] {
        assert_eq!(rs.len(), 8);
        for p in &rs {
            assert_eq!(p.src < 2, p.dst < 2, "entry crosses components");
        }
    }
}

#[test]
fn results_are_symmetric() {
    let g = Graph::from_edges(&vec![
        edge(0, 1, 4),
        edge(1, 2, 1),
        edge(2, 3, 7),
        edge(0, 3, 20),
        edge(1, 3, 9),
    ])
    .unwrap();
    for rs in [all_pairs_path_length_pathfinder(&g), all_pairs_path_length(&g)] {
        let ts = triples(rs);
        for &(a, b, d) in &ts {
            assert!(ts.binary_search(&(b, a, d)).is_ok(), "no mirror of ({a}, {b}, {d})");
        }
    }
}

#[test]
fn strategies_agree() {
    let g = Graph::from_edges(&vec![
        edge(0, 1, 2),
        edge(1, 2, 2),
        edge(2, 3, 2),
        edge(3, 0, 2),
        edge(0, 2, 5),
        edge(4, 5, 1),
    ])
    .unwrap();
    assert_eq!(
        triples(all_pairs_path_length_pathfinder(&g)),
        triples(all_pairs_path_length(&g))
    );
}

#[test]
fn runs_are_idempotent() {
    let edges = vec![edge(0, 1, 1), edge(1, 2, 3), edge(3, 4, 2), edge(2, 0, 2)];
    let g1 = Graph::from_edges(&edges).unwrap();
    let g2 = Graph::from_edges(&edges).unwrap();
    assert_eq!(
        triples(all_pairs_path_length_pathfinder(&g1)),
        triples(all_pairs_path_length_pathfinder(&g2))
    );
    assert_eq!(triples(all_pairs_path_length(&g1)), triples(all_pairs_path_length(&g2)));
}

#[test]
fn sparse_identifiers_are_remapped() {
    let g = Graph::from_edges(&vec![edge(1000, 7, 2)]).unwrap();
    assert_eq!(g.node_count(), 2);
    assert_eq!(g.node_id(0), 1000);
    assert_eq!(g.node_id(1), 7);
    assert_eq!(g.index_of_id(1000), Some(0));
    assert_eq!(g.index_of_id(7), Some(1));
    assert_eq!(g.index_of_id(5), None);
    let expected = vec![(0, 1, 2), (1, 0, 2)];
    assert_eq!(triples(all_pairs_path_length_pathfinder(&g)), expected);
    assert_eq!(triples(all_pairs_path_length(&g)), expected);
}

#[test]
fn oversized_total_cost_is_rejected() {
    let r = Graph::from_edges(&vec![edge(0, 1, u64::MAX)]);
    assert!(matches!(r, Err(GraphError::CostOverflow)));
}

#[test]
fn zero_cost_edges_reach_the_direct_strategy() {
    // a zero-cost edge still connects its endpoints for the direct strategy
    let g = Graph::from_edges(&vec![edge(0, 1, 0), edge(1, 2, 4)]).unwrap();
    let expected = vec![(0, 1, 0), (0, 2, 4), (1, 0, 0), (1, 2, 4), (2, 0, 4), (2, 1, 4)];
    assert_eq!(triples(all_pairs_path_length_pathfinder(&g)), expected);
}

#[test]
fn successors_list_the_adjacent_arcs() {
    let g = Graph::from_edges(&vec![edge(0, 1, 1), edge(1, 2, 2), edge(0, 2, 5)]).unwrap();
    assert_eq!(successors(&0, &g), vec![(1, 1), (2, 5)]);
    assert_eq!(successors(&1, &g), vec![(0, 1), (2, 2)]);
    assert_eq!(successors(&9, &g), vec![]);
}

#[test]
fn single_source_search_reaches_everything() {
    let g = Graph::from_edges(&vec![edge(0, 1, 1), edge(1, 2, 2), edge(0, 2, 5)]).unwrap();
    let mut from_zero = g.all_paths_for_node(0);
    from_zero.sort();
    assert_eq!(from_zero, vec![(1, 1), (2, 3)]);
}
