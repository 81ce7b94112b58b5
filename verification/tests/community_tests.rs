use graphrs::algorithms::community::partitions::{
    convert_usize_partitions_to_t, convert_usize_partitions_vec_to_t, get_singleton_partition, is_partition,
    is_partition_of_indexes, partition_is_singleton, partitions_eq,
};
use graphrs::{Edge, Graph, GraphSpecs};
use std::collections::HashSet;
use std::sync::Arc;

fn graph_of(pairs: &[(u64, u64)]) -> Graph<()> {
    let edges: Vec<Arc<Edge<()>>> = pairs.iter().map(|(u, v)| Arc::new(Edge::new(*u, *v))).collect();
    Graph::new_from_nodes_and_edges(vec![], edges, GraphSpecs::undirected_create_missing()).unwrap()
}

fn set_of(xs: &[u64]) -> HashSet<u64> {
    xs.iter().cloned().collect()
}

fn index_set(xs: &[usize]) -> HashSet<usize> {
    xs.iter().cloned().collect()
}

#[test]
fn is_partition_documented_example() {
    let graph = graph_of(&[(1, 2), (3, 4)]);
    assert!(is_partition(&graph, &[set_of(&[1, 3]), set_of(&[2, 4])]));
}

#[test]
fn is_partition_rejects_missing_and_unknown_nodes() {
    let graph = graph_of(&[(1, 2), (3, 4)]);
    assert!(!is_partition(&graph, &[set_of(&[1, 3]), set_of(&[2])]));
    assert!(!is_partition(&graph, &[set_of(&[1, 3]), set_of(&[2, 9])]));
    assert!(!is_partition(&graph, &[set_of(&[1, 2, 3, 4]), set_of(&[4])]));
}

#[test]
fn is_partition_rejects_a_repeated_community() {
    let graph = graph_of(&[(1, 2)]);
    assert!(!is_partition(&graph, &[set_of(&[1]), set_of(&[1])]));
    assert!(is_partition(&graph, &[set_of(&[1]), set_of(&[2])]));
    assert!(is_partition(&graph, &[set_of(&[1, 2]), set_of(&[])]));
}

#[test]
fn test_partition_is_singleton() {
    let partition = vec![index_set(&[0, 1]), index_set(&[2, 3]), index_set(&[4, 5])];
    assert!(!partition_is_singleton(&partition, 6));
    let partition = vec![index_set(&[0]), index_set(&[1]), index_set(&[2])];
    assert!(partition_is_singleton(&partition, 3));
}

#[test]
fn singleton_partition_covers_indexes() {
    let graph = graph_of(&[(1, 2), (3, 4)]);
    let p = get_singleton_partition(&graph);
    assert_eq!(p.len(), 4);
    assert_eq!(p[2], index_set(&[2]));
    assert!(partition_is_singleton(&p, 4));
    assert!(is_partition_of_indexes(&graph, &p));
    assert!(!is_partition_of_indexes(&graph, &p[1..]));
}

#[test]
fn test_convert_usize_partitions_to_t() {
    let graph = graph_of(&[(1, 2), (3, 4), (5, 6)]);
    let partitions = vec![index_set(&[0, 1]), index_set(&[2, 3]), index_set(&[4, 5])];
    let converted = convert_usize_partitions_to_t(partitions, &graph);
    assert_eq!(converted[0], set_of(&[1, 2]));
    assert_eq!(converted[1], set_of(&[3, 4]));
    assert_eq!(converted[2], set_of(&[5, 6]));
}

#[test]
fn test_convert_usize_partitions_vec_to_t() {
    let graph = graph_of(&[(1, 2), (3, 4), (5, 6)]);
    let partitions = vec![index_set(&[0, 1]), index_set(&[2, 3]), index_set(&[4, 5])];
    let converted = convert_usize_partitions_vec_to_t(vec![partitions], &graph);
    assert_eq!(converted[0][0], set_of(&[1, 2]));
    assert_eq!(converted[0][1], set_of(&[3, 4]));
    assert_eq!(converted[0][2], set_of(&[5, 6]));
}

#[test]
fn test_partitions_eq1() {
    let partition1 = vec![index_set(&[0, 1]), index_set(&[2, 3]), index_set(&[4, 5])];
    let partition2 = vec![index_set(&[0, 1]), index_set(&[2, 3]), index_set(&[4, 5])];
    assert!(partitions_eq(&partition1, &partition2));
}

#[test]
fn test_partitions_eq2() {
    let partition1 = vec![index_set(&[2, 3]), index_set(&[0, 1]), index_set(&[4, 5])];
    let partition2 = vec![index_set(&[0, 1]), index_set(&[2, 3]), index_set(&[4, 5])];
    assert!(partitions_eq(&partition1, &partition2));
}

#[test]
fn test_partitions_eq3() {
    let partition1 = vec![index_set(&[0, 1, 2]), index_set(&[3, 4, 5])];
    let partition2 = vec![index_set(&[0, 1]), index_set(&[2, 3]), index_set(&[4, 5])];
    assert!(!partitions_eq(&partition1, &partition2));
}
