use graphrs::adjacency_map::{get_adjacency_hashmap, EdgeSide};
use graphrs::{Edge, EdgeIndex, Error, ErrorKind, Graph, GraphSpecs, Node, NAN_BITS};
use std::cmp::Ordering;
use std::collections::{HashMap, HashSet};
use std::sync::Arc;

fn graph_of(pairs: &[(u64, u64)], specs: GraphSpecs) -> Graph<()> {
    let mut g: Graph<()> = Graph::new(specs);
    for (u, v) in pairs {
        g.add_edge(Arc::new(Edge::new(*u, *v))).unwrap();
    }
    g
}

fn edge_pairs(g: &Graph<()>) -> Vec<(u64, u64)> {
    let mut v: Vec<(u64, u64)> = g.get_all_edges().iter().map(|e| (e.u, e.v)).collect();
    v.sort();
    v
}

fn err_kind<T>(r: Result<T, Error>) -> ErrorKind {
    match r {
        Err(e) => e.kind,
        Ok(_) => panic!("expected an error"),
    }
}

fn set_of(xs: &[u64]) -> HashSet<u64> {
    xs.iter().cloned().collect()
}

#[test]
fn new_graph_is_empty() {
    let g: Graph<()> = Graph::new(GraphSpecs::directed());
    assert_eq!(g.number_of_nodes(), 0);
    assert_eq!(g.number_of_edges(), 0);
}

#[test]
fn add_edge_creates_missing_nodes_in_order() {
    let g = graph_of(&[(5, 2), (2, 9)], GraphSpecs::directed_create_missing());
    assert_eq!(g.get_all_node_names(), vec![5, 2, 9]);
    assert_eq!(g.get_node_index(&9).unwrap(), 2);
    assert_eq!(g.get_node_index(&7).unwrap_err().kind, ErrorKind::NodeNotFound);
    assert_eq!(g.number_of_edges(), 2);
}

#[test]
fn add_edge_refuses_missing_nodes() {
    let mut g: Graph<()> = Graph::new(GraphSpecs::directed());
    let r = g.add_edge(Arc::new(Edge::new(1, 2)));
    assert_eq!(err_kind(r), ErrorKind::NodeNotFound);
    assert_eq!(g.number_of_nodes(), 0);
}

#[test]
fn add_edge_refuses_duplicates_and_self_loops() {
    let mut g = graph_of(&[(1, 2)], GraphSpecs::directed_create_missing());
    assert_eq!(g.add_edge(Arc::new(Edge::new(1, 2))).unwrap_err().kind, ErrorKind::DuplicateEdge);
    assert_eq!(g.add_edge(Arc::new(Edge::new(3, 3))).unwrap_err().kind, ErrorKind::SelfLoopsFound);
    assert_eq!(g.number_of_edges(), 1);
}

#[test]
fn undirected_edge_is_stored_smaller_name_first() {
    let g = graph_of(&[(7, 3)], GraphSpecs::undirected_create_missing());
    assert_eq!(edge_pairs(&g), vec![(3, 7)]);
    assert!(g.get_edge(7, 3).is_ok());
    assert!(g.get_edge(3, 7).is_ok());
}

#[test]
fn multi_graph_keeps_parallel_edges() {
    let mut g: Graph<()> = Graph::new(GraphSpecs::multi_directed());
    g.add_node(Arc::new(Node::from_name(1)));
    g.add_node(Arc::new(Node::from_name(2)));
    g.add_edge(Arc::new(Edge::new(1, 2))).unwrap();
    g.add_edge(Arc::new(Edge::new(1, 2))).unwrap();
    assert_eq!(g.get_edges(1, 2).unwrap().len(), 2);
}

#[test]
fn new_from_nodes_and_edges_stops_at_first_error() {
    let nodes = vec![Arc::new(Node::from_name(1)), Arc::new(Node::from_name(2))];
    let edges = vec![Arc::new(Edge::new(1, 2)), Arc::new(Edge::new(2, 3))];
    let r: Result<Graph<()>, _> = Graph::new_from_nodes_and_edges(nodes, edges, GraphSpecs::directed());
    assert_eq!(err_kind(r), ErrorKind::NodeNotFound);
}

#[test]
fn reverse_turns_every_edge_around() {
    let g = graph_of(&[(1, 2), (2, 3), (3, 1), (1, 4)], GraphSpecs::directed_create_missing());
    let r = g.reverse().unwrap();
    assert_eq!(edge_pairs(&r), vec![(1, 3), (2, 1), (3, 2), (4, 1)]);
    let back = r.reverse().unwrap();
    assert_eq!(edge_pairs(&back), edge_pairs(&g));
}

#[test]
fn reverse_refuses_undirected_graph() {
    let g = graph_of(&[(1, 2)], GraphSpecs::undirected_create_missing());
    assert_eq!(err_kind(g.reverse()), ErrorKind::WrongMethod);
}

#[test]
fn set_all_edge_weights_sets_each_weight() {
    let g = graph_of(&[(1, 2), (2, 3)], GraphSpecs::directed_create_missing());
    let bits = 2.5f64.to_bits();
    let w = g.set_all_edge_weights(bits);
    assert!(w.get_all_edges().iter().all(|e| e.weight_bits == bits));
    assert!(g.get_all_edges().iter().all(|e| e.weight_bits == NAN_BITS));
    assert_eq!(edge_pairs(&w), edge_pairs(&g));
}

#[test]
fn to_undirected_merges_opposite_edges() {
    let g = graph_of(&[(1, 2), (2, 1), (2, 3)], GraphSpecs::directed_create_missing());
    let u = g.to_undirected().unwrap();
    assert!(!u.specs.directed);
    assert_eq!(edge_pairs(&u), vec![(1, 2), (2, 3)]);
    assert_eq!(u.get_all_node_names(), vec![1, 2, 3]);
}

#[test]
fn get_subgraph_keeps_edges_within_the_nodes() {
    let g = graph_of(&[(1, 2), (2, 3), (3, 4), (4, 1)], GraphSpecs::undirected_create_missing());
    let s = g.get_subgraph(&[1, 2, 3]).unwrap();
    assert_eq!(s.number_of_nodes(), 3);
    assert_eq!(edge_pairs(&s), vec![(1, 2), (2, 3)]);
}

#[test]
fn get_ego_graph_is_node_and_neighbors() {
    let g = graph_of(&[(1, 2), (2, 3), (3, 4), (1, 5)], GraphSpecs::undirected_create_missing());
    let e = g.get_ego_graph(2).unwrap();
    let names: HashSet<u64> = e.get_all_node_names().into_iter().collect();
    assert_eq!(names, set_of(&[1, 2, 3]));
    assert_eq!(edge_pairs(&e), vec![(1, 2), (2, 3)]);
    assert_eq!(err_kind(g.get_ego_graph(9)), ErrorKind::NodeNotFound);
}

#[test]
fn successors_and_predecessors_maps() {
    let g = graph_of(&[(1, 2), (1, 3), (3, 2)], GraphSpecs::directed_create_missing());
    let s = g.get_successors_map();
    assert_eq!(s.len(), 2);
    assert_eq!(s[&1], set_of(&[2, 3]));
    assert_eq!(s[&3], set_of(&[2]));
    let p = g.get_predecessors_map();
    assert_eq!(p.len(), 2);
    assert_eq!(p[&2], set_of(&[1, 3]));
    assert_eq!(p[&3], set_of(&[1]));
}

#[test]
fn adjacency_hashmap_from_tuples() {
    let tuples = vec![(1, 2), (1, 3), (4, 3)];
    let by_u = get_adjacency_hashmap(tuples.clone(), EdgeSide::U);
    let mut expected: HashMap<u64, HashSet<u64>> = HashMap::new();
    expected.insert(1, set_of(&[2, 3]));
    expected.insert(4, set_of(&[3]));
    assert_eq!(by_u, expected);
    let by_v = get_adjacency_hashmap(tuples, EdgeSide::V);
    let mut expected_v: HashMap<u64, HashSet<u64>> = HashMap::new();
    expected_v.insert(2, set_of(&[1]));
    expected_v.insert(3, set_of(&[1, 4]));
    assert_eq!(by_v, expected_v);
}

#[test]
fn edges_compare_by_their_nodes() {
    let a: Edge<()> = Edge::new(1, 2);
    let b: Edge<()> = Edge::with_weight_bits(1, 2, 3.0f64.to_bits());
    let c: Edge<()> = Edge::new(1, 3);
    let d: Edge<()> = Edge::new(2, 0);
    assert!(a == b);
    assert!(a != c);
    assert_eq!(a.partial_cmp(&c), Some(Ordering::Less));
    assert_eq!(d.partial_cmp(&c), Some(Ordering::Greater));
    assert_eq!(a.partial_cmp(&b), Some(Ordering::Equal));
    assert!(a < c && c < d);
}

#[test]
fn edge_reversed_and_ordered() {
    let e: Edge<()> = Edge::new(5, 2);
    let r = e.reversed();
    assert_eq!((r.u, r.v), (2, 5));
    let o = e.ordered();
    assert_eq!((o.u, o.v), (2, 5));
    let o2 = Edge::<()>::new(1, 4).ordered();
    assert_eq!((o2.u, o2.v), (1, 4));
}

#[test]
fn edge_indexes_compare_by_both_indexes() {
    assert!(EdgeIndex::new(3, 7) == EdgeIndex::new(3, 7));
    assert!(EdgeIndex::new(3, 7) != EdgeIndex::new(7, 3));
}

#[test]
fn degrees_count_edges() {
    let g = graph_of(&[(1, 2), (1, 3), (3, 2)], GraphSpecs::directed_create_missing());
    assert_eq!(g.get_node_degree(1), Some(2));
    assert_eq!(g.get_node_in_degree(2), Some(2));
    assert_eq!(g.get_node_out_degree(2), Some(0));
    assert_eq!(g.get_node_degree(9), None);
    let all = g.get_degree_for_all_nodes();
    assert_eq!(all[&3], 2);
    assert_eq!(all.len(), 3);
}

#[test]
fn ensure_methods_check_the_specs() {
    let d = graph_of(&[(1, 2)], GraphSpecs::directed_create_missing());
    assert!(d.ensure_directed().is_ok());
    assert_eq!(d.ensure_undirected().unwrap_err().kind, ErrorKind::WrongMethod);
    assert!(d.ensure_not_multi_edges().is_ok());
    assert_eq!(d.ensure_weighted().unwrap_err().kind, ErrorKind::EdgeWeightNotSpecified);
}

#[test]
fn breadth_first_search_reaches_along_edges() {
    let g = graph_of(&[(1, 2), (2, 3), (4, 1)], GraphSpecs::directed_create_missing());
    let r = g.breadth_first_search(&1);
    assert_eq!(r[0], 1);
    let s: HashSet<u64> = r.into_iter().collect();
    assert_eq!(s, set_of(&[1, 2, 3]));
}

#[test]
fn error_kind_texts() {
    assert_eq!(ErrorKind::NodeNotFound.to_string(), "node not found");
    assert_eq!(ErrorKind::DuplicateEdge.to_string(), "duplicate edge detected");
}
