use perfect_hash::graph::Graph;

fn met(n: usize, labels: &[usize], edges: &[(usize, usize, usize)]) -> bool {
    edges
        .iter()
        .all(|&(a, b, w)| (labels[a] + labels[b]) % n == w % n)
}

fn graph(n: usize, edges: &[(usize, usize, usize)]) -> Graph {
    let mut g = Graph::new(n);
    for &(a, b, w) in edges {
        g.connect(a, b, w);
    }
    g
}

#[test]
fn triangle_with_inconsistent_weights_has_no_assignment() {
    let g = graph(3, &[(0, 1, 1), (1, 2, 1), (2, 0, 1)]);
    assert_eq!(g.assign_vertex_values(), None);
}

#[test]
fn triangle_with_consistent_weights_has_no_assignment_either() {
    // The labels 0, 1, 2 would meet every edge, but a cycle is refused.
    let g = graph(3, &[(0, 1, 1), (1, 2, 0), (2, 0, 2)]);
    assert_eq!(g.assign_vertex_values(), None);
}

#[test]
fn self_loop_has_no_assignment() {
    assert_eq!(graph(2, &[(1, 1, 0)]).assign_vertex_values(), None);
    assert_eq!(graph(1, &[(0, 0, 0)]).assign_vertex_values(), None);
    assert_eq!(graph(3, &[(0, 1, 1), (2, 2, 1)]).assign_vertex_values(), None);
}

#[test]
fn parallel_edges_have_no_assignment() {
    assert_eq!(graph(2, &[(0, 1, 1), (0, 1, 1)]).assign_vertex_values(), None);
    assert_eq!(graph(2, &[(0, 1, 1), (1, 0, 0)]).assign_vertex_values(), None);
    assert_eq!(graph(4, &[(2, 3, 1), (0, 1, 0), (3, 2, 1)]).assign_vertex_values(), None);
}

#[test]
fn longer_cycle_behind_a_tail_has_no_assignment() {
    let g = graph(6, &[(0, 1, 0), (1, 2, 1), (2, 3, 2), (3, 4, 3), (4, 2, 4)]);
    assert_eq!(g.assign_vertex_values(), None);
}

#[test]
fn cycle_in_a_later_component_has_no_assignment() {
    let g = graph(7, &[(0, 1, 0), (3, 4, 1), (4, 5, 2), (5, 6, 3), (6, 3, 4)]);
    assert_eq!(g.assign_vertex_values(), None);
}

#[test]
fn isolated_vertices_are_all_labelled_zero() {
    assert_eq!(Graph::new(4).assign_vertex_values(), Some(vec![0, 0, 0, 0]));
    assert_eq!(Graph::new(1).assign_vertex_values(), Some(vec![0]));
}

#[test]
fn graph_without_vertices_has_the_empty_assignment() {
    assert_eq!(Graph::new(0).assign_vertex_values(), Some(Vec::new()));
}

#[test]
fn path_is_labelled_from_its_least_vertex() {
    // 0 gets 0, then 1 gets (4 + 3 - 0) % 4 = 3, then 2 gets (4 + 1 - 3) % 4 = 2.
    let g = graph(4, &[(0, 1, 3), (1, 2, 1)]);
    assert_eq!(g.assign_vertex_values(), Some(vec![0, 3, 2, 0]));
}

#[test]
fn labels_do_not_depend_on_the_order_of_the_edges() {
    let a = graph(4, &[(0, 1, 3), (1, 2, 1)]);
    let b = graph(4, &[(2, 1, 1), (1, 0, 3)]);
    assert_eq!(a.assign_vertex_values(), b.assign_vertex_values());
}

#[test]
fn star_is_labelled_from_its_centre() {
    let g = graph(5, &[(0, 1, 1), (0, 2, 2), (0, 3, 3), (0, 4, 4)]);
    assert_eq!(g.assign_vertex_values(), Some(vec![0, 1, 2, 3, 4]));
}

#[test]
fn star_is_labelled_from_a_leaf_when_the_leaf_comes_first() {
    // 0 gets 0, the centre 4 gets 1, and a leaf on an edge of weight w
    // gets (5 + w - 1) % 5.
    let g = graph(5, &[(4, 0, 1), (4, 1, 2), (4, 2, 3), (4, 3, 0)]);
    assert_eq!(g.assign_vertex_values(), Some(vec![0, 1, 2, 4, 1]));
}

#[test]
fn every_component_starts_at_zero() {
    let edges = [(1, 3, 2), (2, 5, 4), (5, 4, 1)];
    let labels = graph(6, &edges).assign_vertex_values().unwrap();
    assert_eq!(labels[0], 0);
    assert_eq!(labels[1], 0);
    assert_eq!(labels[2], 0);
    assert_eq!(labels[3], 2);
    assert_eq!(labels[5], 4);
    assert_eq!(labels[4], 3);
    assert!(met(6, &labels, &edges));
}

#[test]
fn weights_at_or_above_the_vertex_count_are_met_modulo_it() {
    let edges = [(0, 1, 7), (1, 2, 3), (2, 3, usize::MAX)];
    let labels = graph(4, &edges).assign_vertex_values().unwrap();
    assert_eq!(labels[0], 0);
    assert_eq!(labels[1], 3);
    assert_eq!(labels[2], 0);
    assert_eq!(labels[3], usize::MAX % 4);
    assert!(labels.iter().all(|&v| v < 4));
}

#[test]
fn deep_path_is_labelled_without_recursion() {
    let n = 50_000;
    let edges: Vec<(usize, usize, usize)> = (0..n - 1).map(|v| (v, v + 1, v % 7)).collect();
    let labels = graph(n, &edges).assign_vertex_values().unwrap();
    assert_eq!(labels.len(), n);
    assert_eq!(labels[0], 0);
    assert!(labels.iter().all(|&v| v < n));
    assert!(met(n, &labels, &edges));
}

#[test]
fn branching_tree_meets_every_edge() {
    let edges = [
        (0, 5, 3),
        (5, 2, 8),
        (5, 7, 1),
        (7, 1, 0),
        (2, 3, 6),
        (3, 8, 2),
        (4, 6, 5),
    ];
    let labels = graph(9, &edges).assign_vertex_values().unwrap();
    assert_eq!(labels.len(), 9);
    assert!(labels.iter().all(|&v| v < 9));
    assert!(met(9, &labels, &edges));
    assert_eq!(labels[0], 0);
    assert_eq!(labels[4], 0);
}

#[test]
fn forest_with_as_many_edges_as_vertices_does_not_exist() {
    // Three edges on three vertices always close a cycle.
    assert_eq!(graph(3, &[(0, 1, 0), (1, 2, 0), (0, 2, 0)]).assign_vertex_values(), None);
}
