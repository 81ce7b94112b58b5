use graphrs::algorithms::boundary::edge_boundary;
use graphrs::algorithms::cluster::{get_triangles_and_degrees, triangles};
use graphrs::algorithms::community::partitions::{
    get_singleton_partition, is_partition_of_indexes, partition_is_singleton, partitions_eq,
};
use graphrs::algorithms::components::{connected_components, node_connected_component};
use graphrs::{Edge, Graph, GraphSpecs};
use std::collections::HashSet;
use std::sync::Arc;

fn graph_of(pairs: &[(u64, u64)], specs: GraphSpecs) -> Graph<()> {
    let mut g: Graph<()> = Graph::new(specs);
    for (u, v) in pairs {
        g.add_edge(Arc::new(Edge::new(*u, *v))).unwrap();
    }
    g
}

#[test]
fn successors_mirror_predecessors() {
    let g = graph_of(&[(1, 2), (1, 3), (3, 2), (4, 1)], GraphSpecs::directed_create_missing());
    let succ = g.get_successors_map();
    let pred = g.get_predecessors_map();
    for x in g.get_all_node_names() {
        for y in g.get_all_node_names() {
            let forward = succ.get(&x).map_or(false, |s| s.contains(&y));
            let backward = pred.get(&y).map_or(false, |s| s.contains(&x));
            assert_eq!(forward, backward);
        }
    }
}

#[test]
fn neighbors_are_symmetric() {
    let g = graph_of(&[(1, 2), (2, 3), (4, 1)], GraphSpecs::undirected_create_missing());
    let succ = g.get_successors_map();
    for x in g.get_all_node_names() {
        for y in g.get_all_node_names() {
            let xy = succ.get(&x).map_or(false, |s| s.contains(&y));
            let yx = succ.get(&y).map_or(false, |s| s.contains(&x));
            assert_eq!(xy, yx);
        }
    }
}

#[test]
fn node_component_is_one_of_the_components() {
    let g = graph_of(&[(1, 2), (3, 4), (4, 5), (6, 6 + 1)], GraphSpecs::undirected_create_missing());
    let cs = connected_components(&g).unwrap();
    for x in g.get_all_node_names() {
        let c = node_connected_component(&g, &x).unwrap();
        assert!(cs.contains(&c));
        assert!(c.contains(&x));
    }
}

#[test]
fn singleton_partition_is_a_singleton_partition() {
    let g = graph_of(&[(1, 2), (2, 3)], GraphSpecs::undirected_create_missing());
    let p = get_singleton_partition(&g);
    assert!(is_partition_of_indexes(&g, &p));
    assert!(partition_is_singleton(&p, g.number_of_nodes()));
    assert!(partitions_eq(&p, &p));
}

#[test]
fn partitions_eq_holds_of_a_partition_and_itself() {
    let p: Vec<HashSet<usize>> = vec![[0, 2].into_iter().collect(), [1].into_iter().collect()];
    assert!(partitions_eq(&p, &p));
}

#[test]
fn undirected_boundary_is_symmetric() {
    let g = graph_of(&[(1, 2), (2, 3), (3, 4), (4, 1), (1, 3)], GraphSpecs::undirected_create_missing());
    let a = [1u64, 2];
    let b = [3u64, 4];
    let ab: Vec<(u64, u64)> = edge_boundary(&g, &a, Some(&b)).unwrap().iter().map(|e| (e.u, e.v)).collect();
    let ba: Vec<(u64, u64)> = edge_boundary(&g, &b, Some(&a)).unwrap().iter().map(|e| (e.u, e.v)).collect();
    assert_eq!(ab, ba);
    assert_eq!(ab.len(), 3);
}

#[test]
fn added_edge_joins_its_nodes() {
    let mut g = graph_of(&[(1, 2)], GraphSpecs::directed_create_missing());
    g.add_edge(Arc::new(Edge::new(2, 3))).unwrap();
    assert!(g.get_edge(2, 3).is_ok());
    assert!(g.get_edge(3, 2).is_err());
    assert_eq!(g.get_successor_node_names(2).unwrap(), vec![3]);
}

#[test]
fn degrees_add_up_to_twice_the_edges() {
    let specs = GraphSpecs { self_loops: true, ..GraphSpecs::undirected_create_missing() };
    let g = graph_of(&[(1, 2), (2, 3), (3, 3), (4, 1)], specs);
    let degrees = g.get_degree_for_all_nodes();
    assert_eq!(degrees[&3], 3);
    let total: usize = degrees.values().sum();
    assert_eq!(total, 2 * g.get_all_edges().len());
}

#[test]
fn directed_degrees_add_up_to_twice_the_edges() {
    let specs = GraphSpecs { self_loops: true, ..GraphSpecs::directed_create_missing() };
    let g = graph_of(&[(1, 1), (1, 2), (2, 3), (3, 1)], specs);
    assert_eq!(g.get_edges_for_node(1).unwrap().len(), 3);
    let degrees = g.get_degree_for_all_nodes();
    assert_eq!(degrees[&1], 4);
    assert_eq!(degrees[&2], 2);
    assert_eq!(degrees[&3], 2);
    let total: usize = degrees.values().sum();
    assert_eq!(total, 2 * g.get_all_edges().len());
}

#[test]
fn in_and_out_degrees_add_up_to_the_edges() {
    let g = graph_of(&[(1, 2), (1, 3), (3, 2), (2, 1), (4, 1)], GraphSpecs::directed_create_missing());
    let outs: usize = g.get_out_degree_for_all_nodes().unwrap().values().sum();
    let ins: usize = g.get_in_degree_for_all_nodes().unwrap().values().sum();
    assert_eq!(outs, 5);
    assert_eq!(ins, 5);
    assert_eq!(g.get_all_edges().len(), 5);
}

#[test]
fn each_triangle_is_counted_twice_at_a_node() {
    let g = graph_of(
        &[(1, 2), (1, 3), (1, 4), (2, 3), (2, 4), (3, 4), (4, 5)],
        GraphSpecs::undirected_create_missing(),
    );
    for t in get_triangles_and_degrees(&g, None) {
        assert_eq!(t.number_of_triangles % 2, 0);
    }
    let counts = triangles(&g, None).unwrap();
    assert_eq!(counts.get(&1), Some(&3));
    assert_eq!(counts.get(&4), Some(&3));
    assert_eq!(counts.get(&5), Some(&0));
    let at_one = get_triangles_and_degrees(&g, None).into_iter().find(|t| t.node_name == 1).unwrap();
    assert_eq!(at_one.number_of_triangles, 6);
}
