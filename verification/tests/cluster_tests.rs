use graphrs::algorithms::cluster::{
    generalized_degree, get_directed_triangles_and_degrees, get_triangles_and_degrees, triangle_and_triad_totals,
    triangles,
    DirectedTrianglesAndDegree, TrianglesAndDegrees,
};
use graphrs::{Edge, ErrorKind, Graph, GraphSpecs};
use std::collections::HashMap;
use std::sync::Arc;

fn four_edges() -> Vec<Arc<Edge<()>>> {
    vec![
        Arc::new(Edge::with_weight_bits(0, 1, 1.1f64.to_bits())),
        Arc::new(Edge::with_weight_bits(0, 2, 1.3f64.to_bits())),
        Arc::new(Edge::with_weight_bits(0, 3, 1.4f64.to_bits())),
        Arc::new(Edge::with_weight_bits(3, 2, 1.5f64.to_bits())),
    ]
}

#[test]
fn test_get_triangles_and_degrees_1() {
    let graph: Graph<()> =
        Graph::new_from_nodes_and_edges(vec![], four_edges(), GraphSpecs::undirected_create_missing()).unwrap();
    let result = get_triangles_and_degrees(&graph, None);
    assert_eq!(result.len(), 4);
    let hm: HashMap<u64, TrianglesAndDegrees> = result.into_iter().map(|item| (item.node_name, item)).collect();
    let mut tad = hm.get(&0).unwrap();
    assert_eq!(tad.degree, 3);
    assert_eq!(tad.number_of_triangles, 2);
    assert_eq!(tad.generalized_degree, vec![(1, 2), (0, 1)].into_iter().collect());
    tad = hm.get(&1).unwrap();
    assert_eq!(tad.degree, 1);
    assert_eq!(tad.number_of_triangles, 0);
    assert_eq!(tad.generalized_degree, vec![(0, 1)].into_iter().collect());
    tad = hm.get(&2).unwrap();
    assert_eq!(tad.degree, 2);
    assert_eq!(tad.number_of_triangles, 2);
    assert_eq!(tad.generalized_degree, vec![(1, 2)].into_iter().collect());
    tad = hm.get(&3).unwrap();
    assert_eq!(tad.degree, 2);
    assert_eq!(tad.number_of_triangles, 2);
    assert_eq!(tad.generalized_degree, vec![(1, 2)].into_iter().collect());
}

#[test]
fn test_get_directed_triangles_and_degrees_1() {
    let graph: Graph<()> =
        Graph::new_from_nodes_and_edges(vec![], four_edges(), GraphSpecs::directed_create_missing()).unwrap();
    let result = get_directed_triangles_and_degrees(&graph, None);
    assert_eq!(result.len(), 4);
    let hm: HashMap<u64, DirectedTrianglesAndDegree> =
        result.into_iter().map(|item| (item.node_name, item)).collect();
    let mut dtad = hm.get(&0).unwrap();
    assert_eq!(dtad.total_degree, 3);
    assert_eq!(dtad.reciprocal_degree, 0);
    assert_eq!(dtad.directed_triangles, 2);
    dtad = hm.get(&1).unwrap();
    assert_eq!(dtad.total_degree, 1);
    assert_eq!(dtad.reciprocal_degree, 0);
    assert_eq!(dtad.directed_triangles, 0);
    dtad = hm.get(&2).unwrap();
    assert_eq!(dtad.total_degree, 2);
    assert_eq!(dtad.reciprocal_degree, 0);
    assert_eq!(dtad.directed_triangles, 2);
    dtad = hm.get(&3).unwrap();
    assert_eq!(dtad.total_degree, 2);
    assert_eq!(dtad.reciprocal_degree, 0);
    assert_eq!(dtad.directed_triangles, 2);
}

#[test]
fn triangles_are_halved_counts() {
    let graph: Graph<()> =
        Graph::new_from_nodes_and_edges(vec![], four_edges(), GraphSpecs::undirected_create_missing()).unwrap();
    let t = triangles(&graph, None).unwrap();
    assert_eq!(t.len(), 4);
    assert_eq!(t[&0], 1);
    assert_eq!(t[&1], 0);
    assert_eq!(t[&2], 1);
    assert_eq!(t[&3], 1);
}

#[test]
fn triangles_of_listed_nodes_count_over_the_whole_graph() {
    let graph: Graph<()> =
        Graph::new_from_nodes_and_edges(vec![], four_edges(), GraphSpecs::undirected_create_missing()).unwrap();
    let t = triangles(&graph, Some(&[0])).unwrap();
    assert_eq!(t.len(), 1);
    assert_eq!(t[&0], 1);
    let gd = generalized_degree(&graph, Some(&[2])).unwrap();
    let expected: HashMap<usize, usize> = vec![(1, 2)].into_iter().collect();
    assert_eq!(gd.len(), 1);
    assert_eq!(gd[&2], expected);
    let tads = get_triangles_and_degrees(&graph, Some(&[3]));
    assert_eq!(tads.len(), 1);
    assert_eq!(tads[0].degree, 2);
    assert_eq!(tads[0].number_of_triangles, 2);
}

#[test]
fn triangles_refuse_directed_graph() {
    let graph: Graph<()> =
        Graph::new_from_nodes_and_edges(vec![], four_edges(), GraphSpecs::directed_create_missing()).unwrap();
    assert_eq!(triangles(&graph, None).unwrap_err().kind, ErrorKind::WrongMethod);
    assert_eq!(generalized_degree(&graph, None).unwrap_err().kind, ErrorKind::WrongMethod);
}

#[test]
fn generalized_degree_of_subset_with_neighbors() {
    let graph: Graph<()> =
        Graph::new_from_nodes_and_edges(vec![], four_edges(), GraphSpecs::undirected_create_missing()).unwrap();
    let gd = generalized_degree(&graph, Some(&[0, 1, 2, 3, 2])).unwrap();
    assert_eq!(gd.len(), 4);
    let expected: HashMap<usize, usize> = vec![(1, 2), (0, 1)].into_iter().collect();
    assert_eq!(gd[&0], expected);
}

#[test]
fn directed_triangles_follow_given_names() {
    let graph: Graph<()> =
        Graph::new_from_nodes_and_edges(vec![], four_edges(), GraphSpecs::directed_create_missing()).unwrap();
    let result = get_directed_triangles_and_degrees(&graph, Some(&[3, 3]));
    assert_eq!(result.len(), 2);
    assert_eq!(result[0].node_name, 3);
    assert_eq!(result[1].directed_triangles, 2);
    assert!(get_directed_triangles_and_degrees(&graph, Some(&[])).is_empty());
}

#[test]
fn triangle_and_triad_totals_of_a_graph() {
    let mut graph: Graph<()> =
        Graph::new_from_nodes_and_edges(vec![], four_edges(), GraphSpecs::undirected_create_missing()).unwrap();
    graph.add_node(Arc::new(graphrs::Node::from_name(7)));
    let tads = get_triangles_and_degrees(&graph, None);
    assert_eq!(triangle_and_triad_totals(&tads), Some((6, 10)));
    let big = vec![TrianglesAndDegrees {
        node_name: 0,
        degree: usize::MAX,
        number_of_triangles: 0,
        generalized_degree: HashMap::new(),
    }];
    assert_eq!(triangle_and_triad_totals(&big), None);
}
