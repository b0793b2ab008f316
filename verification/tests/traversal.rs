use road_network::dfs;
use road_network::traversal::build_road_graph;
use road_network::Road;
use std::collections::{HashMap, HashSet};

fn road(id: usize, a: usize, b: usize) -> Road {
    Road { id, name: None, endpoints: (a, b) }
}

fn set_of(members: &[usize]) -> HashSet<usize> {
    members.iter().copied().collect()
}

#[test]
fn road_graph_lists_both_directions() {
    let graph = build_road_graph(&vec![road(1, 1, 2), road(2, 2, 3)]);
    let mut expected: HashMap<usize, HashSet<usize>> = HashMap::new();
    expected.insert(1, set_of(&[2]));
    expected.insert(2, set_of(&[1, 3]));
    expected.insert(3, set_of(&[2]));
    assert_eq!(graph, expected);
}

#[test]
fn road_graph_of_no_roads_is_empty() {
    assert!(build_road_graph(&vec![]).is_empty());
}

#[test]
fn road_graph_keeps_a_loop_and_a_double_road() {
    let graph = build_road_graph(&vec![road(1, 4, 4), road(2, 5, 6), road(3, 6, 5)]);
    let mut expected: HashMap<usize, HashSet<usize>> = HashMap::new();
    expected.insert(4, set_of(&[4]));
    expected.insert(5, set_of(&[6]));
    expected.insert(6, set_of(&[5]));
    assert_eq!(graph, expected);
}

#[test]
fn dfs_collects_the_component_of_the_start() {
    let graph = build_road_graph(&vec![road(1, 1, 2), road(2, 2, 3), road(3, 4, 5)]);
    let mut visited = HashSet::new();
    let mut cluster = HashSet::new();
    dfs(1, &graph, &mut visited, &mut cluster);
    assert_eq!(cluster, set_of(&[1, 2, 3]));
    assert_eq!(visited, set_of(&[1, 2, 3]));

    let mut second = HashSet::new();
    dfs(5, &graph, &mut visited, &mut second);
    assert_eq!(second, set_of(&[4, 5]));
    assert_eq!(visited, set_of(&[1, 2, 3, 4, 5]));
}

#[test]
fn dfs_from_a_vertex_without_roads_finds_it_alone() {
    let graph = build_road_graph(&vec![road(1, 1, 2)]);
    let mut visited = HashSet::new();
    let mut cluster = HashSet::new();
    dfs(9, &graph, &mut visited, &mut cluster);
    assert_eq!(cluster, set_of(&[9]));
    assert_eq!(visited, set_of(&[9]));
}

#[test]
fn dfs_from_a_visited_start_finds_nothing() {
    let graph = build_road_graph(&vec![road(1, 1, 2)]);
    let mut visited = set_of(&[1]);
    let mut cluster = HashSet::new();
    dfs(1, &graph, &mut visited, &mut cluster);
    assert!(cluster.is_empty());
    assert_eq!(visited, set_of(&[1]));
}

#[test]
fn dfs_does_not_pass_through_visited_vertices() {
    let graph = build_road_graph(&vec![road(1, 1, 2), road(2, 2, 3), road(3, 1, 4)]);
    let mut visited = set_of(&[2]);
    let mut cluster = set_of(&[70]);
    dfs(1, &graph, &mut visited, &mut cluster);
    assert_eq!(cluster, set_of(&[70, 1, 4]));
    assert_eq!(visited, set_of(&[1, 2, 4]));
}

#[test]
fn dfs_follows_a_cycle_once() {
    let graph = build_road_graph(&vec![road(1, 1, 2), road(2, 2, 3), road(3, 3, 1)]);
    let mut visited = HashSet::new();
    let mut cluster = HashSet::new();
    dfs(2, &graph, &mut visited, &mut cluster);
    assert_eq!(cluster, set_of(&[1, 2, 3]));
}
