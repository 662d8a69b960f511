use std::collections::HashMap;
use road_network::{Node, RoadNetwork, Way};

fn point(id: i64, lat: i64, lon: i64) -> Node {
    Node { id, lat, lon }
}

fn point_map(points: &[Node]) -> HashMap<i64, Node> {
    let mut m = HashMap::new();
    for p in points {
        m.insert(p.id, *p);
    }
    m
}

fn chain_points(ids: &[i64]) -> Vec<Node> {
    ids.iter().map(|&id| point(id, id * 10_000, 0)).collect()
}

#[test]
fn keeps_the_larger_of_two_components() {
    let big: Vec<i64> = vec![1, 2, 3, 4, 5, 6, 7];
    let small: Vec<i64> = vec![101, 102, 103];
    let mut pts = chain_points(&big);
    pts.extend(chain_points(&small));
    let ways = vec![
        Way { id: 10, speed: 30, refs: big.clone() },
        Way { id: 11, speed: 30, refs: small.clone() },
    ];
    let g = RoadNetwork::new(point_map(&pts), ways);
    let reduced = g.reduce_to_largest_connected_component();
    assert_eq!(reduced.nodes.len(), 7);
    for id in &big {
        assert!(reduced.nodes.contains_key(id));
    }
    for id in &small {
        assert!(!reduced.nodes.contains_key(id));
        assert!(!reduced.edges.contains_key(id));
        assert!(!reduced.raw_nodes.contains(id));
    }
}

#[test]
fn reducing_a_connected_graph_changes_nothing() {
    let ids: Vec<i64> = vec![1, 2, 3, 4];
    let pts = chain_points(&ids);
    let ways = vec![Way { id: 10, speed: 50, refs: ids.clone() }];
    let g = RoadNetwork::new(point_map(&pts), ways);
    let nodes_before = g.nodes.clone();
    let edges_before = g.edges.clone();
    let reduced = g.reduce_to_largest_connected_component();
    assert_eq!(reduced.nodes, nodes_before);
    assert_eq!(reduced.edges, edges_before);
}

#[test]
fn reducing_twice_matches_reducing_once() {
    let big: Vec<i64> = vec![1, 2, 3, 4, 5];
    let small: Vec<i64> = vec![201, 202];
    let mut pts = chain_points(&big);
    pts.extend(chain_points(&small));
    let ways = vec![
        Way { id: 10, speed: 30, refs: big.clone() },
        Way { id: 11, speed: 30, refs: small.clone() },
    ];
    let g = RoadNetwork::new(point_map(&pts), ways);
    let once = g.reduce_to_largest_connected_component();
    let nodes_once = once.nodes.clone();
    let edges_once = once.edges.clone();
    let twice = once.reduce_to_largest_connected_component();
    assert_eq!(twice.nodes, nodes_once);
    assert_eq!(twice.edges, edges_once);
}

#[test]
fn equal_components_keep_the_first_discovered() {
    // Two components of two nodes each: the one discovered by the earliest
    // probe wins the tie.
    let first: Vec<i64> = vec![1, 2];
    let second: Vec<i64> = vec![11, 12];
    let mut pts = chain_points(&first);
    pts.extend(chain_points(&second));
    let ways = vec![
        Way { id: 10, speed: 30, refs: first.clone() },
        Way { id: 11, speed: 30, refs: second.clone() },
    ];
    let g = RoadNetwork::new(point_map(&pts), ways);
    let first_probe = g.raw_nodes[0];
    let expected: Vec<i64> = if first.contains(&first_probe) { first } else { second };
    let reduced = g.reduce_to_largest_connected_component();
    assert_eq!(reduced.nodes.len(), 2);
    for id in &expected {
        assert!(reduced.nodes.contains_key(id));
    }
}

#[test]
fn reducing_an_empty_graph_gives_an_empty_graph() {
    let g = RoadNetwork::new(HashMap::new(), Vec::new());
    let reduced = g.reduce_to_largest_connected_component();
    assert!(reduced.nodes.is_empty());
    assert!(reduced.edges.is_empty());
    assert!(reduced.raw_nodes.is_empty());
}

#[test]
fn reduced_graph_keeps_the_raw_way_list() {
    let big: Vec<i64> = vec![1, 2, 3];
    let small: Vec<i64> = vec![301, 302];
    let mut pts = chain_points(&big);
    pts.extend(chain_points(&small));
    let ways = vec![
        Way { id: 10, speed: 30, refs: big.clone() },
        Way { id: 11, speed: 30, refs: small.clone() },
    ];
    let g = RoadNetwork::new(point_map(&pts), ways.clone());
    let reduced = g.reduce_to_largest_connected_component();
    assert_eq!(reduced.raw_ways, ways);
}

#[test]
fn traversal_reaches_exactly_one_component() {
    let big: Vec<i64> = vec![1, 2, 3, 4];
    let small: Vec<i64> = vec![401, 402];
    let mut pts = chain_points(&big);
    pts.extend(chain_points(&small));
    let ways = vec![
        Way { id: 10, speed: 30, refs: big.clone() },
        Way { id: 11, speed: 30, refs: small.clone() },
    ];
    let g = RoadNetwork::new(point_map(&pts), ways);
    let mut reached = g.reachable_from(1);
    reached.sort();
    assert_eq!(reached, big);
    let mut reached_small = g.reachable_from(402);
    reached_small.sort();
    assert_eq!(reached_small, small);
}

#[test]
fn unvisited_node_skips_marked_nodes() {
    let ids: Vec<i64> = vec![1, 2, 3];
    let pts = chain_points(&ids);
    let ways = vec![Way { id: 10, speed: 30, refs: ids.clone() }];
    let g = RoadNetwork::new(point_map(&pts), ways);
    let empty: HashMap<i64, u64> = HashMap::new();
    let picked = g.unvisited_node(&empty).unwrap();
    assert!(g.nodes.contains_key(&picked));
    let mut all: HashMap<i64, u64> = HashMap::new();
    for id in &ids {
        all.insert(*id, 1);
    }
    assert_eq!(g.unvisited_node(&all), None);
    let mut partial: HashMap<i64, u64> = HashMap::new();
    partial.insert(1, 1);
    partial.insert(2, 1);
    assert_eq!(g.unvisited_node(&partial), Some(3));
}
