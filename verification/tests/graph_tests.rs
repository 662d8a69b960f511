use std::collections::HashMap;
use road_network::{segment_cost, speed_calc, Node, RoadNetwork, Way};

fn point(id: i64, lat: i64, lon: i64) -> Node {
    Node { id, lat, lon }
}

fn point_map(points: &[Node]) -> HashMap<i64, Node> {
    let mut m = HashMap::new();
    for p in points {
        m.insert(p.id, *p);
    }
    m
}

#[test]
fn cost_is_deterministic() {
    let a = point(1, 0, 0);
    let b = point(2, 100_000, 0);
    let first = segment_cost(&a, &b, 30);
    let second = segment_cost(&a, &b, 30);
    assert_eq!(first, second);
    let third = segment_cost(&a, &b, 30);
    assert_eq!(second, third);
}

#[test]
fn cost_latitude_segment_exact_value() {
    // 0.01 degrees of latitude: 1112.29 m, floored to 1112 m; 30 km/h floors
    // to 8 m/s; 1112 / 8 = 139 whole seconds.
    let a = point(1, 0, 0);
    let b = point(2, 100_000, 0);
    assert_eq!(segment_cost(&a, &b, 30), 139);
    assert_eq!(segment_cost(&b, &a, 30), 139);
}

#[test]
fn cost_longitude_segment_exact_value() {
    // 0.01 degrees of longitude: 716.95 m, floored to 716 m; 716 / 8 = 89.
    let a = point(1, 0, 0);
    let b = point(2, 0, 100_000);
    assert_eq!(segment_cost(&a, &b, 30), 89);
}

#[test]
fn cost_zero_length_segment_is_zero() {
    let a = point(1, 5_000_000, -3_000_000);
    assert_eq!(segment_cost(&a, &a, 110), 0);
}

#[test]
fn residential_way_yields_bidirectional_edge() {
    let nodes = point_map(&[point(1, 0, 0), point(2, 100_000, 0)]);
    let speed = speed_calc("residential").unwrap();
    let ways = vec![Way { id: 10, speed, refs: vec![1, 2] }];
    let g = RoadNetwork::new(nodes, ways.clone());
    assert_eq!(g.edges.get(&1).unwrap().get(&2), Some(&(139, false)));
    assert_eq!(g.edges.get(&2).unwrap().get(&1), Some(&(139, false)));
    assert_eq!(g.nodes.len(), 2);
    assert_eq!(g.raw_ways, ways);
}

#[test]
fn unreferenced_point_is_pruned() {
    let nodes = point_map(&[point(1, 0, 0), point(2, 100_000, 0), point(3, 200_000, 0)]);
    let ways = vec![Way { id: 10, speed: 30, refs: vec![1, 2] }];
    let g = RoadNetwork::new(nodes, ways);
    assert!(!g.nodes.contains_key(&3));
    assert!(!g.raw_nodes.contains(&3));
    assert!(g.nodes.contains_key(&1));
    assert!(g.nodes.contains_key(&2));
}

#[test]
fn repeated_consecutive_reference_gives_zero_cost_edge() {
    let nodes = point_map(&[point(1, 0, 0)]);
    let ways = vec![Way { id: 10, speed: 30, refs: vec![1, 1] }];
    let g = RoadNetwork::new(nodes, ways);
    assert_eq!(g.edges.get(&1).unwrap().get(&1), Some(&(0, false)));
    assert!(g.nodes.contains_key(&1));
    assert_eq!(g.raw_nodes, vec![1]);
}

#[test]
fn missing_endpoint_skips_only_that_segment() {
    let nodes = point_map(&[point(1, 0, 0), point(2, 100_000, 0)]);
    let ways = vec![Way { id: 10, speed: 30, refs: vec![1, 2, 99] }];
    let g = RoadNetwork::new(nodes, ways);
    assert_eq!(g.nodes.len(), 2);
    assert_eq!(g.edges.get(&1).unwrap().get(&2), Some(&(139, false)));
    assert!(!g.edges.contains_key(&99));
}

#[test]
fn way_with_no_resolved_segment_leaves_graph_empty() {
    let nodes = point_map(&[point(1, 0, 0), point(2, 100_000, 0)]);
    let ways = vec![Way { id: 10, speed: 30, refs: vec![1, 99, 2] }];
    let g = RoadNetwork::new(nodes, ways.clone());
    assert!(g.nodes.is_empty());
    assert!(g.edges.is_empty());
    assert!(g.raw_nodes.is_empty());
    assert_eq!(g.raw_ways, ways);
}

#[test]
fn short_reference_lists_are_harmless() {
    let nodes = point_map(&[point(1, 0, 0)]);
    let ways = vec![
        Way { id: 10, speed: 30, refs: vec![] },
        Way { id: 11, speed: 30, refs: vec![1] },
    ];
    let g = RoadNetwork::new(nodes, ways);
    assert!(g.nodes.is_empty());
    assert!(g.edges.is_empty());
}

#[test]
fn duplicate_segment_takes_last_written_cost() {
    let nodes = point_map(&[point(1, 0, 0), point(2, 100_000, 0)]);
    let ways = vec![
        Way { id: 10, speed: 30, refs: vec![1, 2] },
        Way { id: 11, speed: 110, refs: vec![1, 2] },
    ];
    // 110 km/h floors to 30 m/s; 1112 / 30 = 37.
    let g = RoadNetwork::new(nodes, ways);
    assert_eq!(g.edges.get(&1).unwrap().get(&2), Some(&(37, false)));
    assert_eq!(g.edges.get(&2).unwrap().get(&1), Some(&(37, false)));
}

#[test]
fn edges_are_symmetric_with_identical_costs() {
    let nodes = point_map(&[
        point(1, 0, 0),
        point(2, 100_000, 0),
        point(3, 100_000, 100_000),
        point(4, 0, 200_000),
    ]);
    let ways = vec![
        Way { id: 10, speed: 30, refs: vec![1, 2, 3] },
        Way { id: 11, speed: 70, refs: vec![3, 4, 1] },
    ];
    let g = RoadNetwork::new(nodes, ways);
    for (tail, row) in &g.edges {
        for (head, cost) in row {
            assert_eq!(g.edges.get(head).unwrap().get(tail), Some(cost));
        }
    }
}

#[test]
fn raw_node_ids_match_node_keys() {
    let nodes = point_map(&[
        point(1, 0, 0),
        point(2, 100_000, 0),
        point(3, 200_000, 0),
        point(9, 900_000, 0),
    ]);
    let ways = vec![Way { id: 10, speed: 40, refs: vec![1, 2, 3] }];
    let g = RoadNetwork::new(nodes, ways);
    let mut from_list: Vec<i64> = g.raw_nodes.clone();
    from_list.sort();
    let mut from_map: Vec<i64> = g.nodes.keys().copied().collect();
    from_map.sort();
    assert_eq!(from_list, from_map);
    assert_eq!(g.raw_nodes.len(), g.nodes.len());
}

#[test]
fn no_node_is_isolated() {
    let nodes = point_map(&[point(1, 0, 0), point(2, 100_000, 0), point(3, 200_000, 0)]);
    let ways = vec![Way { id: 10, speed: 40, refs: vec![1, 2] }];
    let g = RoadNetwork::new(nodes, ways);
    for id in g.nodes.keys() {
        assert!(!g.edges.get(id).unwrap().is_empty());
    }
}
