use graphrs::algorithms::shortest_path::unweighted::{
    all_pairs_dijkstra, multi_source_dijkstra, single_source_dijkstra,
};
use graphrs::algorithms::shortest_path::{
    add_u_to_v_paths_and_append_v_paths_to_u_paths, get_contractory_paths_error, get_distance_index,
};
use graphrs::{Edge, ErrorKind, Graph, GraphSpecs};
use std::sync::Arc;

fn graph_of(pairs: &[(u64, u64)], specs: GraphSpecs) -> Graph<()> {
    let edges: Vec<Arc<Edge<()>>> = pairs.iter().map(|(u, v)| Arc::new(Edge::new(*u, *v))).collect();
    Graph::new_from_nodes_and_edges(vec![], edges, specs).unwrap()
}

#[test]
fn distance_index_is_row_major() {
    assert_eq!(get_distance_index(2, 3, 4), 14);
    assert_eq!(get_distance_index(0, 0, 7), 0);
}

#[test]
fn contradictory_paths_error_kind() {
    let e = get_contractory_paths_error();
    assert_eq!(e.kind, ErrorKind::ContradictoryPaths);
    assert_eq!(e.message, "Contradictary paths found, do some edges have negative weights?");
}

#[test]
fn append_extended_paths() {
    let mut paths: Vec<Vec<Vec<usize>>> = vec![vec![vec![0]], vec![vec![9, 1]], vec![]];
    add_u_to_v_paths_and_append_v_paths_to_u_paths(1, 0, &mut paths);
    assert_eq!(paths[1], vec![vec![9, 1], vec![0, 1]]);
    assert_eq!(paths[0], vec![vec![0]]);
    add_u_to_v_paths_and_append_v_paths_to_u_paths(2, 1, &mut paths);
    assert_eq!(paths[2], vec![vec![9, 1, 2], vec![0, 1, 2]]);
}

#[test]
fn single_source_on_a_path() {
    let graph = graph_of(&[(0, 1), (1, 2), (2, 3)], GraphSpecs::undirected_create_missing());
    let result = single_source_dijkstra(&graph, 0, None, None).unwrap();
    assert_eq!(result.len(), 4);
    assert_eq!(result[&0].distance, 0);
    assert_eq!(result[&0].path, vec![0]);
    assert_eq!(result[&3].distance, 3);
    assert_eq!(result[&3].path, vec![0, 1, 2, 3]);
}

#[test]
fn directed_edges_are_followed_forward_only() {
    let graph = graph_of(&[(0, 1), (2, 1), (1, 3)], GraphSpecs::directed_create_missing());
    let result = single_source_dijkstra(&graph, 0, None, None).unwrap();
    assert_eq!(result.len(), 3);
    assert!(!result.contains_key(&2));
    assert_eq!(result[&3].path, vec![0, 1, 3]);
}

#[test]
fn cutoff_limits_distance() {
    let graph = graph_of(&[(0, 1), (1, 2), (2, 3)], GraphSpecs::undirected_create_missing());
    let result = single_source_dijkstra(&graph, 0, None, Some(1)).unwrap();
    let mut keys: Vec<u64> = result.keys().cloned().collect();
    keys.sort();
    assert_eq!(keys, vec![0, 1]);
    let none = single_source_dijkstra(&graph, 0, None, Some(-1)).unwrap();
    assert_eq!(none.len(), 1);
    assert_eq!(none[&0].distance, 0);
}

#[test]
fn target_stops_the_search() {
    let graph = graph_of(&[(0, 1), (1, 2), (2, 3), (3, 4)], GraphSpecs::undirected_create_missing());
    let result = single_source_dijkstra(&graph, 0, Some(2), None).unwrap();
    assert_eq!(result[&2].distance, 2);
    assert!(!result.contains_key(&3));
    assert!(!result.contains_key(&4));
    assert!(result.contains_key(&1));
}

#[test]
fn multiple_sources_take_the_nearest() {
    let graph = graph_of(&[(0, 1), (1, 2), (2, 3), (3, 4)], GraphSpecs::undirected_create_missing());
    let result = multi_source_dijkstra(&graph, vec![0, 4], None, None).unwrap();
    assert_eq!(result[&3].distance, 1);
    assert_eq!(result[&3].path, vec![4, 3]);
    assert_eq!(result[&2].distance, 2);
}

#[test]
fn all_pairs_on_a_triangle() {
    let graph = graph_of(&[(0, 1), (1, 2), (2, 0)], GraphSpecs::undirected_create_missing());
    let result = all_pairs_dijkstra(&graph, None).unwrap();
    assert_eq!(result.len(), 3);
    for (source, targets) in result.iter() {
        assert_eq!(targets.len(), 3);
        assert_eq!(targets[source].distance, 0);
        for (target, sp) in targets.iter() {
            if target != source {
                assert_eq!(sp.distance, 1);
                assert_eq!(sp.path, vec![*source, *target]);
            }
        }
    }
}
