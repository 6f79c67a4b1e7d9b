use exs::fill_graph;
use exs::graph::GraphInputError;
use exs::tsp::solution_value;
use exs::tsp::Solution;
use exs::Edge;
use exs::Graph;
use exs::GraphMat;

fn triangle() -> GraphMat {
    let mut g = GraphMat::default();
    exs::add_nodes(&mut g, 3);
    g.add_edge(0, 1, 1);
    g.add_edge(1, 2, 1);
    g.add_edge(2, 0, 1);
    g
}

fn square() -> GraphMat {
    // a complete 4-node graph with distinct weights
    let mut g = GraphMat::default();
    exs::add_nodes(&mut g, 4);
    g.add_edge(0, 1, 1);
    g.add_edge(0, 2, 5);
    g.add_edge(0, 3, 2);
    g.add_edge(1, 2, 2);
    g.add_edge(1, 3, 5);
    g.add_edge(2, 3, 1);
    g
}

#[test]
fn graph_starts_empty() {
    let g = GraphMat::default();
    assert_eq!(g.node_count(), 0);
}

#[test]
fn add_node_keeps_old_weights() {
    let mut g = GraphMat::default();
    g.add_node();
    g.add_node();
    g.add_edge(0, 1, 7);
    let new_node = g.add_node();
    assert_eq!(new_node, 2);
    assert_eq!(g.node_count(), 3);
    assert_eq!(g.get_edge_weight(0, 1), Some(7));
    assert_eq!(g.get_edge_weight(1, 0), Some(7));
    assert_eq!(g.get_edge_weight(0, 2), None);
    assert_eq!(g.get_edge_weight(2, 1), None);
}

#[test]
fn add_edge_is_symmetric_zero_is_absent() {
    let mut g = GraphMat::default();
    exs::add_nodes(&mut g, 2);
    assert_eq!(g.get_edge_weight(0, 1), None);
    g.add_edge(0, 1, 9);
    assert_eq!(g.get_edge_weight(0, 1), Some(9));
    assert_eq!(g.get_edge_weight(1, 0), Some(9));
    g.add_edge(0, 1, 0);
    assert_eq!(g.get_edge_weight(0, 1), None);
}

#[test]
fn set_edge_weight_is_directed() {
    let mut g = GraphMat::default();
    exs::add_nodes(&mut g, 2);
    g.set_edge_weight(0, 1, 4);
    assert_eq!(g.get_edge_weight(0, 1), Some(4));
    assert_eq!(g.get_edge_weight(1, 0), None);
}

#[test]
fn edges_lists_every_present_pair() {
    let mut g = GraphMat::default();
    exs::add_nodes(&mut g, 3);
    g.add_edge(0, 1, 2);
    let edges = g.edges();
    assert_eq!(edges.len(), 2);
    let mut pairs: Vec<(u32, u32, u64)> = edges.iter().map(|e| (e.0, e.1, e.2)).collect();
    pairs.sort();
    assert_eq!(pairs, vec![(0, 1, 2), (1, 0, 2)]);
}

#[test]
fn get_node_edges_lists_one_row() {
    let g = square();
    let row = g.get_node_edges(0);
    let mut pairs: Vec<(u32, u64)> = row.iter().map(|e| (e.1, e.2)).collect();
    pairs.sort();
    assert_eq!(pairs, vec![(1, 1), (2, 5), (3, 2)]);
    for e in row.iter() {
        assert_eq!(e.0, 0);
    }
}

#[test]
fn as_edge_normalizes_pairs() {
    let a = Edge(1, 2, 9).as_edge();
    let b = Edge(2, 1, 9).as_edge();
    assert_eq!(a, (2, 1));
    assert_eq!(a, b);
}

#[test]
fn fill_graph_builds_from_rows() {
    let rows: Vec<Vec<u32>> = vec![vec![3, 2], vec![1, 2, 5], vec![2, 3, 7]];
    let mut g = GraphMat::default();
    fill_graph(&rows, &mut g).unwrap();
    assert_eq!(g.node_count(), 3);
    assert_eq!(g.get_edge_weight(0, 1), Some(5));
    assert_eq!(g.get_edge_weight(1, 0), Some(5));
    assert_eq!(g.get_edge_weight(1, 2), Some(7));
    assert_eq!(g.get_edge_weight(0, 2), None);
}

#[test]
fn fill_graph_rejects_bad_input() {
    let mut g = GraphMat::default();
    assert_eq!(fill_graph(&vec![], &mut g), Err(GraphInputError::Empty));
    let mut g = GraphMat::default();
    assert_eq!(fill_graph(&vec![vec![3]], &mut g), Err(GraphInputError::BadHeader));
    let mut g = GraphMat::default();
    assert_eq!(fill_graph(&vec![vec![40000, 0]], &mut g), Err(GraphInputError::TooManyNodes));
    let mut g = GraphMat::default();
    assert_eq!(fill_graph(&vec![vec![2, 1]], &mut g), Err(GraphInputError::MissingEdges));
    let mut g = GraphMat::default();
    assert_eq!(
        fill_graph(&vec![vec![2, 1], vec![1, 3, 5]], &mut g),
        Err(GraphInputError::BadEdge)
    );
    let mut g = GraphMat::default();
    assert_eq!(
        fill_graph(&vec![vec![2, 1], vec![1, 2]], &mut g),
        Err(GraphInputError::BadEdge)
    );
}

#[test]
fn triangle_every_tour_is_three() {
    // the concrete scenario: a unit triangle, every permutation has length 3
    let g = triangle();
    assert_eq!(solution_value(&vec![0, 1, 2], &g), 3);
    assert_eq!(solution_value(&vec![0, 2, 1], &g), 3);
    assert_eq!(solution_value(&vec![1, 0, 2], &g), 3);
    assert_eq!(solution_value(&vec![1, 2, 0], &g), 3);
    assert_eq!(solution_value(&vec![2, 0, 1], &g), 3);
    assert_eq!(solution_value(&vec![2, 1, 0], &g), 3);
}

#[test]
fn square_tour_value_is_exact() {
    let g = square();
    // 0-1 (1) + 1-2 (2) + 2-3 (1) + closing 3-0 (2)
    assert_eq!(solution_value(&vec![0, 1, 2, 3], &g), 6);
    // 0-2 (5) + 2-1 (2) + 1-3 (5) + closing 3-0 (2)
    assert_eq!(solution_value(&vec![0, 2, 1, 3], &g), 14);
}

#[test]
fn sequential_is_identity_tour() {
    let g = square();
    let s = Solution::sequential(&g);
    assert_eq!(s.nodes, vec![0, 1, 2, 3]);
    assert_eq!(s.value, 6);
}

#[test]
fn random_tour_is_permutation() {
    // also exercises the shuffle wrapper: losing or duplicating entries
    // would break this
    let g = square();
    for _ in 0..20 {
        let s = Solution::random(&g);
        let mut nodes = s.nodes.clone();
        nodes.sort();
        assert_eq!(nodes, vec![0, 1, 2, 3]);
    }
}

#[test]
fn swap_exchanges_exactly_two_positions() {
    let g = square();
    let s = Solution::sequential(&g);
    let t = s.swap(1, 3, &g);
    assert_eq!(t.nodes, vec![0, 3, 2, 1]);
    assert_eq!(s.nodes, vec![0, 1, 2, 3]);
    // the reported value equals a from-scratch evaluation
    assert_eq!(t.value as u64, solution_value(&t.nodes, &g));
}

#[test]
fn random_neighbour_swaps_two_distinct() {
    let g = square();
    let s = Solution::sequential(&g);
    for _ in 0..20 {
        let t = s.random_neighbour(&g);
        let differing = s.nodes.iter().zip(t.nodes.iter()).filter(|(a, b)| a != b).count();
        assert_eq!(differing, 2);
        let mut nodes = t.nodes.clone();
        nodes.sort();
        assert_eq!(nodes, vec![0, 1, 2, 3]);
    }
}
