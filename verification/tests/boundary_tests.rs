use graphrs::algorithms::boundary::edge_boundary;
use graphrs::{Edge, ErrorKind, Graph, GraphSpecs};
use std::sync::Arc;

fn edges_of(pairs: &[(u64, u64)]) -> Vec<Arc<Edge<()>>> {
    pairs.iter().map(|(u, v)| Arc::new(Edge::new(*u, *v))).collect()
}

fn sorted_pairs(edges: &[Arc<Edge<()>>]) -> Vec<(u64, u64)> {
    let mut v: Vec<(u64, u64)> = edges.iter().map(|e| (e.u, e.v)).collect();
    v.sort();
    v
}

fn karate_club_graph() -> Graph<()> {
    let adjacency: Vec<(u64, Vec<u64>)> = vec![
        (0, vec![1, 2, 3, 4, 5, 6, 7, 8, 10, 11, 12, 13, 17, 19, 21, 31]),
        (1, vec![2, 3, 7, 13, 17, 19, 21, 30]),
        (2, vec![3, 7, 8, 9, 13, 27, 28, 32]),
        (3, vec![7, 12, 13]),
        (4, vec![6, 10]),
        (5, vec![6, 10, 16]),
        (6, vec![16]),
        (8, vec![30, 32, 33]),
        (9, vec![33]),
        (13, vec![33]),
        (14, vec![32, 33]),
        (15, vec![32, 33]),
        (18, vec![32, 33]),
        (19, vec![33]),
        (20, vec![32, 33]),
        (22, vec![32, 33]),
        (23, vec![25, 27, 29, 32, 33]),
        (24, vec![25, 27, 31]),
        (25, vec![31]),
        (26, vec![29, 33]),
        (27, vec![33]),
        (28, vec![31, 33]),
        (29, vec![32, 33]),
        (30, vec![32, 33]),
        (31, vec![32, 33]),
        (32, vec![33]),
    ];
    let mut pairs = vec![];
    for (u, vs) in adjacency {
        for v in vs {
            pairs.push((u, v));
        }
    }
    Graph::new_from_nodes_and_edges(vec![], edges_of(&pairs), GraphSpecs::undirected_create_missing()).unwrap()
}

#[test]
fn test_edge_boundary_1() {
    let edges = edges_of(&[(1, 2), (1, 3), (2, 1), (2, 3)]);
    let graph: Graph<()> =
        Graph::new_from_nodes_and_edges(vec![], edges, GraphSpecs::directed_create_missing()).unwrap();
    let result = edge_boundary(&graph, &[1], None).unwrap();
    assert_eq!(result.len(), 2);
    assert_eq!(sorted_pairs(&result), vec![(1, 2), (1, 3)]);
}

#[test]
fn test_edge_boundary_2() {
    let edges = edges_of(&[(1, 2), (1, 3), (2, 1), (2, 3)]);
    let graph: Graph<()> =
        Graph::new_from_nodes_and_edges(vec![], edges, GraphSpecs::directed_create_missing()).unwrap();
    let result = edge_boundary(&graph, &[1], Some(&[2, 3])).unwrap();
    assert_eq!(sorted_pairs(&result), vec![(1, 2), (1, 3)]);
}

#[test]
fn test_edge_boundary_3() {
    let edges = edges_of(&[(1, 3), (2, 1), (2, 3)]);
    let graph: Graph<()> =
        Graph::new_from_nodes_and_edges(vec![], edges, GraphSpecs::directed_create_missing()).unwrap();
    let result = edge_boundary(&graph, &[1], Some(&[2, 3])).unwrap();
    assert_eq!(sorted_pairs(&result), vec![(1, 3)]);
}

#[test]
fn test_edge_boundary_4() {
    let edges = edges_of(&[(1, 3), (2, 1), (2, 3)]);
    let graph: Graph<()> =
        Graph::new_from_nodes_and_edges(vec![], edges, GraphSpecs::undirected_create_missing()).unwrap();
    let result = edge_boundary(&graph, &[1], Some(&[2, 3])).unwrap();
    assert_eq!(sorted_pairs(&result), vec![(1, 2), (1, 3)]);
}

#[test]
fn test_edge_boundary_5() {
    let graph = karate_club_graph();
    let result = edge_boundary(&graph, &[0, 1, 2, 3], Some(&[4, 5, 6, 7])).unwrap();
    assert_eq!(
        sorted_pairs(&result),
        vec![(0, 4), (0, 5), (0, 6), (0, 7), (1, 7), (2, 7), (3, 7)]
    );
}

#[test]
fn edge_boundary_missing_nodes() {
    let graph = karate_club_graph();
    assert_eq!(edge_boundary(&graph, &[0, 99], None).unwrap_err().kind, ErrorKind::NodeNotFound);
    assert_eq!(edge_boundary(&graph, &[0], Some(&[99])).unwrap_err().kind, ErrorKind::NodeNotFound);
}
