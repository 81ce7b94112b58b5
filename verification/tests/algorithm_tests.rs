use graphrs::algorithms::components::{
    bfs_equal_size_partitions, connected_components, get_bfs_partitions_usize, node_connected_component,
    number_of_connected_components, strongly_connected_components, weakly_connected_components,
};
use graphrs::algorithms::shortest_path::unweighted::{bfs, single_source_shortest_path_length_unweighted};
use graphrs::algorithms::shortest_path::{contains_path_through_node, get_number_of_partitions};
use graphrs::algorithms::centrality::{
    calculate_connected_non_group_nodes_sequential, check_betweenness_group, get_connected_non_group_nodes_for_node,
    group_degree_counts,
};
use graphrs::algorithms::square::{get_coefficient_for_combination, get_coefficient_for_node, square_pairs_fit};
use graphrs::algorithms::structural_holes::is_isolated;
use graphrs::{Edge, ErrorKind, Graph, GraphSpecs};
use std::collections::HashSet;
use std::sync::Arc;

fn graph_of(pairs: &[(u64, u64)], specs: GraphSpecs) -> Graph<()> {
    let mut g: Graph<()> = Graph::new(specs);
    for (u, v) in pairs {
        g.add_edge(Arc::new(Edge::new(*u, *v))).unwrap();
    }
    g
}

fn set_of(xs: &[u64]) -> HashSet<u64> {
    xs.iter().cloned().collect()
}

#[test]
fn connected_components_of_two_pieces() {
    let g = graph_of(&[(1, 2), (3, 4), (2, 5)], GraphSpecs::undirected_create_missing());
    let cs = connected_components(&g).unwrap();
    assert_eq!(cs, vec![set_of(&[1, 2, 5]), set_of(&[3, 4])]);
    assert_eq!(number_of_connected_components(&g).unwrap(), 2);
    assert_eq!(node_connected_component(&g, &4).unwrap(), set_of(&[3, 4]));
}

#[test]
fn connected_components_refuse_directed_graph() {
    let g = graph_of(&[(1, 2)], GraphSpecs::directed_create_missing());
    assert_eq!(connected_components(&g).unwrap_err().kind, ErrorKind::WrongMethod);
    assert_eq!(number_of_connected_components(&g).unwrap_err().kind, ErrorKind::WrongMethod);
}

#[test]
fn strongly_connected_components_of_a_cycle_and_a_tail() {
    let g = graph_of(&[(1, 2), (2, 3), (3, 1), (3, 4)], GraphSpecs::directed_create_missing());
    let cs = strongly_connected_components(&g).unwrap();
    assert_eq!(cs, vec![set_of(&[1, 2, 3]), set_of(&[4])]);
    let u = graph_of(&[(1, 2)], GraphSpecs::undirected_create_missing());
    assert_eq!(strongly_connected_components(&u).unwrap_err().kind, ErrorKind::WrongMethod);
}

#[test]
fn weakly_connected_components_ignore_direction() {
    let g = graph_of(&[(1, 2), (3, 2), (4, 5)], GraphSpecs::directed_create_missing());
    let cs = weakly_connected_components(&g).unwrap();
    assert_eq!(cs, vec![set_of(&[1, 2, 3]), set_of(&[4, 5])]);
}

#[test]
fn components_partition_the_nodes() {
    let g = graph_of(&[(1, 2), (3, 4), (5, 6), (6, 7), (8, 8 + 1)], GraphSpecs::undirected_create_missing());
    let cs = connected_components(&g).unwrap();
    let mut seen: HashSet<u64> = HashSet::new();
    for c in &cs {
        assert!(seen.is_disjoint(c));
        seen.extend(c.iter().cloned());
    }
    let all: HashSet<u64> = g.get_all_node_names().into_iter().collect();
    assert_eq!(seen, all);
}

#[test]
fn bfs_partitions_fill_parts_in_turn() {
    let g = graph_of(&[(0, 1), (1, 2), (2, 3), (3, 4)], GraphSpecs::undirected_create_missing());
    let parts = get_bfs_partitions_usize(&g, 2);
    assert_eq!(parts, vec![vec![0, 1, 2], vec![3, 4]]);
    let names = bfs_equal_size_partitions(&g, 2);
    assert_eq!(names, vec![vec![0, 1, 2], vec![3, 4]]);
}

#[test]
fn bfs_partitions_restart_in_other_components() {
    let g = graph_of(&[(10, 11), (12, 13), (14, 15)], GraphSpecs::directed_create_missing());
    let parts = get_bfs_partitions_usize(&g, 4);
    assert_eq!(parts, vec![vec![0, 1], vec![2, 3], vec![4, 5], vec![]]);
    let names = bfs_equal_size_partitions(&g, 4);
    assert_eq!(names, vec![vec![10, 11], vec![12, 13], vec![14, 15], vec![]]);
}

#[test]
fn bfs_partitions_follow_the_search_not_the_indexes() {
    let g = graph_of(&[(0, 3), (1, 2), (0, 2)], GraphSpecs::undirected_create_missing());
    let parts = get_bfs_partitions_usize(&g, 1);
    assert_eq!(parts, vec![vec![0, 1, 3, 2]]);
    let names = bfs_equal_size_partitions(&g, 1);
    assert_eq!(names, vec![vec![0, 3, 2, 1]]);
}

#[test]
fn bfs_partitions_single_part_holds_all() {
    let g = graph_of(&[(1, 2), (2, 3)], GraphSpecs::directed_create_missing());
    let parts = get_bfs_partitions_usize(&g, 1);
    assert_eq!(parts, vec![vec![0, 1, 2]]);
}

#[test]
fn number_of_partitions_depends_on_size() {
    let small = graph_of(&[(1, 2)], GraphSpecs::directed_create_missing());
    assert_eq!(get_number_of_partitions(&small, 8), 1);
    let pairs: Vec<(u64, u64)> = (0..100u64).map(|i| (i, i + 1)).collect();
    let big = graph_of(&pairs, GraphSpecs::directed_create_missing());
    assert_eq!(get_number_of_partitions(&big, 8), 96);
}

#[test]
fn path_through_node_only_in_the_middle() {
    let paths = vec![vec![1, 2, 3], vec![1, 4]];
    assert!(contains_path_through_node(&paths, 2));
    assert!(!contains_path_through_node(&paths, 1));
    assert!(!contains_path_through_node(&paths, 3));
    assert!(!contains_path_through_node(&paths, 4));
    assert!(!contains_path_through_node(&vec![], 2));
}

#[test]
fn isolated_nodes_have_no_successors() {
    let d = graph_of(&[(1, 2)], GraphSpecs::directed_create_missing());
    assert!(!is_isolated(&d, 0));
    assert!(is_isolated(&d, 1));
    let u = graph_of(&[(1, 2)], GraphSpecs::undirected_create_missing());
    assert!(!is_isolated(&u, 1));
}

#[test]
fn shortest_path_lengths_from_a_source() {
    let g = graph_of(&[(0, 1), (1, 2), (0, 3), (3, 2), (4, 0)], GraphSpecs::directed_create_missing());
    let mut r = single_source_shortest_path_length_unweighted(&g, 0);
    r.sort();
    assert_eq!(r, vec![(0, 0), (1, 1), (2, 2), (3, 1)]);
    let from_last = single_source_shortest_path_length_unweighted(&g, 4);
    assert_eq!(from_last.len(), 5);
}

#[test]
fn brandes_search_lists_shortest_predecessors() {
    let g = graph_of(&[(0, 1), (0, 2), (1, 3), (2, 3), (3, 4), (1, 2)], GraphSpecs::directed_create_missing());
    let (order, preds) = bfs(&g, 0);
    assert_eq!(order[0], 0);
    let reached: HashSet<usize> = order.iter().cloned().collect();
    assert_eq!(reached.len(), 5);
    assert_eq!(preds[0], Vec::<usize>::new());
    assert_eq!(preds[1], vec![0]);
    assert_eq!(preds[2], vec![0]);
    let mut p3 = preds[3].clone();
    p3.sort();
    assert_eq!(p3, vec![1, 2]);
    assert_eq!(preds[4], vec![3]);
}

#[test]
fn group_degree_counts_on_a_path() {
    let g = graph_of(&[(1, 2), (2, 3), (3, 4)], GraphSpecs::undirected_create_missing());
    assert_eq!(group_degree_counts(&g, &[2]).unwrap(), (2, 3));
    assert_eq!(group_degree_counts(&g, &[1, 4]).unwrap(), (2, 2));
    let d = graph_of(&[(1, 2), (3, 1)], GraphSpecs::directed_create_missing());
    assert_eq!(group_degree_counts(&d, &[1]).unwrap(), (1, 2));
}

#[test]
fn group_degree_counts_errors() {
    let g = graph_of(&[(1, 2), (2, 3)], GraphSpecs::undirected_create_missing());
    assert_eq!(group_degree_counts(&g, &[9]).unwrap_err().kind, ErrorKind::NodeNotFound);
    assert_eq!(group_degree_counts(&g, &[]).unwrap_err().kind, ErrorKind::InvalidArgument);
    assert_eq!(group_degree_counts(&g, &[1, 2, 3]).unwrap_err().kind, ErrorKind::InvalidArgument);
    assert_eq!(group_degree_counts(&g, &[1, 9]).unwrap_err().kind, ErrorKind::NodeNotFound);
}

#[test]
fn connected_non_group_nodes() {
    let g = graph_of(&[(1, 2), (2, 3), (3, 4)], GraphSpecs::undirected_create_missing());
    let pool = set_of(&[1, 3, 4]);
    assert_eq!(get_connected_non_group_nodes_for_node(&g, &2, &pool).unwrap(), set_of(&[1, 3]));
    assert_eq!(get_connected_non_group_nodes_for_node(&g, &99, &pool).unwrap(), set_of(&[]));
    let pool2 = set_of(&[1, 4]);
    assert_eq!(calculate_connected_non_group_nodes_sequential(&g, &[2, 3], &pool2).unwrap(), set_of(&[1, 4]));
}

#[test]
fn square_counts_on_a_four_cycle() {
    let g = graph_of(&[(0, 1), (1, 2), (2, 3), (3, 0)], GraphSpecs::undirected_create_missing());
    assert_eq!(get_coefficient_for_combination(&g, 0, 1, 3), (1, 1));
    assert_eq!(get_coefficient_for_node(&g, 0), (1, 1));
}

#[test]
fn square_counts_on_a_complete_graph() {
    let g = graph_of(&[(0, 1), (0, 2), (0, 3), (1, 2), (1, 3), (2, 3)], GraphSpecs::undirected_create_missing());
    assert_eq!(get_coefficient_for_combination(&g, 0, 1, 2), (1, 1));
    assert_eq!(get_coefficient_for_node(&g, 0), (3, 3));
}

#[test]
fn square_counts_on_a_star_have_no_squares() {
    let g = graph_of(&[(0, 1), (0, 2), (0, 3)], GraphSpecs::undirected_create_missing());
    assert_eq!(get_coefficient_for_node(&g, 0), (0, 0));
}

#[test]
fn square_pairs_fit_on_simple_and_directed_graphs() {
    let g = graph_of(&[(0, 1), (1, 2), (2, 3), (3, 0)], GraphSpecs::undirected_create_missing());
    assert!(square_pairs_fit(&g, 0));
    let d = graph_of(&[(0, 1), (0, 2)], GraphSpecs::directed_create_missing());
    assert!(!square_pairs_fit(&d, 0));
}

#[test]
fn betweenness_group_checks() {
    let g = graph_of(&[(1, 2), (2, 3), (3, 4)], GraphSpecs::undirected_create_missing());
    assert!(check_betweenness_group(&g, &[2]).is_ok());
    assert!(check_betweenness_group(&g, &[2, 3]).is_ok());
    assert_eq!(check_betweenness_group(&g, &[2, 9]).unwrap_err().kind, ErrorKind::NodeNotFound);
    assert_eq!(check_betweenness_group(&g, &[1, 2, 3]).unwrap_err().kind, ErrorKind::InvalidArgument);
    assert_eq!(check_betweenness_group(&g, &[]).unwrap_err().kind, ErrorKind::InvalidArgument);
}
