use road_network::{
    ensure_connected_network, InvariantViolation, Road, Settlement, Waypoint, WaypointKind,
};
use std::collections::HashMap;

fn settlement(id: usize, waypoint_id: usize) -> Settlement {
    Settlement { id, name: format!("S{}", id), population: 100, waypoint_id }
}

fn table(positions: &[(usize, (i32, i32))]) -> HashMap<usize, Waypoint> {
    let mut waypoints = HashMap::new();
    for &(id, position) in positions {
        waypoints.insert(id, Waypoint { id, position, kind: WaypointKind::Settlement });
    }
    waypoints
}

fn reached_from(roads: &[Road], start: usize) -> Vec<usize> {
    let mut reached = vec![start];
    let mut next = 0;
    while next < reached.len() {
        let node = reached[next];
        for road in roads {
            let (a, b) = road.endpoints;
            if a == node && !reached.contains(&b) {
                reached.push(b);
            }
            if b == node && !reached.contains(&a) {
                reached.push(a);
            }
        }
        next += 1;
    }
    reached.sort_unstable();
    reached
}

fn plain_road(id: usize, a: usize, b: usize) -> Road {
    Road { id, name: None, endpoints: (a, b) }
}

fn connector(id: usize, a: usize, b: usize) -> Road {
    Road { id, name: Some(format!("Connector {}-{}", a, b)), endpoints: (a, b) }
}

#[test]
fn single_settlement_needs_no_bridge() {
    let settlements = vec![settlement(1, 1)];
    let waypoints = table(&[(1, (0, 0))]);
    let mut roads = vec![];
    assert_eq!(ensure_connected_network(&settlements, &waypoints, &mut roads), Ok(()));
    assert_eq!(roads, vec![]);
}

#[test]
fn no_settlements_need_no_bridge() {
    let waypoints = table(&[(1, (0, 0)), (2, (9, 9))]);
    let mut roads = vec![plain_road(4, 1, 2)];
    assert_eq!(ensure_connected_network(&vec![], &waypoints, &mut roads), Ok(()));
    assert_eq!(roads, vec![plain_road(4, 1, 2)]);
}

#[test]
fn two_clusters_get_one_bridge_between_their_closest_pair() {
    let settlements =
        vec![settlement(1, 1), settlement(2, 2), settlement(3, 3), settlement(4, 4)];
    let waypoints = table(&[(1, (0, 0)), (2, (10, 0)), (3, (13, 4)), (4, (30, 0))]);
    let mut roads = vec![plain_road(1, 1, 2), plain_road(2, 3, 4)];
    assert_eq!(ensure_connected_network(&settlements, &waypoints, &mut roads), Ok(()));
    assert_eq!(roads, vec![plain_road(1, 1, 2), plain_road(2, 3, 4), connector(3, 2, 3)]);
    assert_eq!(reached_from(&roads, 1), vec![1, 2, 3, 4]);
}

#[test]
fn second_repair_adds_nothing() {
    let settlements =
        vec![settlement(1, 1), settlement(2, 2), settlement(3, 3), settlement(4, 4)];
    let waypoints = table(&[(1, (0, 0)), (2, (10, 0)), (3, (13, 4)), (4, (30, 0))]);
    let mut roads = vec![plain_road(1, 1, 2)];
    assert_eq!(ensure_connected_network(&settlements, &waypoints, &mut roads), Ok(()));
    let once = roads.clone();
    assert_eq!(once.len(), 3);
    assert_eq!(ensure_connected_network(&settlements, &waypoints, &mut roads), Ok(()));
    assert_eq!(roads, once);
}

#[test]
fn first_two_components_merge_first_and_go_to_the_end() {
    let settlements = vec![settlement(1, 1), settlement(2, 2), settlement(3, 3)];
    let waypoints = table(&[(1, (0, 0)), (2, (100, 0)), (3, (1, 0))]);
    let mut roads = vec![];
    assert_eq!(ensure_connected_network(&settlements, &waypoints, &mut roads), Ok(()));
    assert_eq!(roads, vec![connector(1, 1, 2), connector(2, 3, 1)]);
}

#[test]
fn five_lone_settlements_merge_in_queue_order() {
    let settlements = vec![
        settlement(1, 1),
        settlement(2, 2),
        settlement(3, 3),
        settlement(4, 4),
        settlement(5, 5),
    ];
    let waypoints =
        table(&[(1, (0, 0)), (2, (10, 0)), (3, (20, 0)), (4, (30, 0)), (5, (40, 0))]);
    let mut roads = vec![];
    assert_eq!(ensure_connected_network(&settlements, &waypoints, &mut roads), Ok(()));
    assert_eq!(
        roads,
        vec![connector(1, 1, 2), connector(2, 3, 4), connector(3, 5, 2), connector(4, 3, 2)]
    );
}

#[test]
fn components_are_taken_in_order_of_settlement_id() {
    let settlements = vec![settlement(2, 20), settlement(1, 10), settlement(3, 30)];
    let waypoints = table(&[(10, (0, 0)), (20, (100, 0)), (30, (1, 0))]);
    let mut roads = vec![];
    assert_eq!(ensure_connected_network(&settlements, &waypoints, &mut roads), Ok(()));
    assert_eq!(roads, vec![connector(1, 10, 20), connector(2, 30, 10)]);
}

#[test]
fn equally_close_pairs_rank_by_their_ids() {
    let settlements = vec![settlement(1, 5), settlement(2, 7)];
    let waypoints = table(&[(2, (0, 0)), (3, (0, 0)), (5, (0, 0)), (7, (0, 0))]);
    let mut roads = vec![plain_road(1, 5, 2), plain_road(2, 7, 3)];
    assert_eq!(ensure_connected_network(&settlements, &waypoints, &mut roads), Ok(()));
    assert_eq!(roads, vec![plain_road(1, 5, 2), plain_road(2, 7, 3), connector(3, 2, 3)]);
}

#[test]
fn junctions_count_towards_the_closest_pair() {
    let settlements = vec![settlement(1, 1), settlement(2, 2)];
    let waypoints = table(&[(1, (0, 0)), (2, (100, 0)), (8, (60, 0)), (9, (70, 0))]);
    let mut roads = vec![plain_road(1, 1, 8), plain_road(2, 9, 2)];
    assert_eq!(ensure_connected_network(&settlements, &waypoints, &mut roads), Ok(()));
    assert_eq!(roads, vec![plain_road(1, 1, 8), plain_road(2, 9, 2), connector(3, 8, 9)]);
}

#[test]
fn bridge_ids_count_up_from_the_largest_id() {
    let settlements =
        vec![settlement(1, 1), settlement(2, 2), settlement(3, 3), settlement(4, 4)];
    let waypoints = table(&[(1, (0, 0)), (2, (1, 0)), (3, (50, 0)), (4, (90, 0))]);
    let mut roads = vec![plain_road(40, 1, 2), plain_road(7, 2, 1)];
    assert_eq!(ensure_connected_network(&settlements, &waypoints, &mut roads), Ok(()));
    assert_eq!(
        roads,
        vec![
            plain_road(40, 1, 2),
            plain_road(7, 2, 1),
            connector(41, 2, 3),
            connector(42, 4, 3),
        ]
    );
}

#[test]
fn settlements_sharing_a_waypoint_form_one_component() {
    let settlements = vec![settlement(1, 1), settlement(2, 1), settlement(3, 2)];
    let waypoints = table(&[(1, (0, 0)), (2, (3, 4))]);
    let mut roads = vec![];
    assert_eq!(ensure_connected_network(&settlements, &waypoints, &mut roads), Ok(()));
    assert_eq!(roads, vec![connector(1, 1, 2)]);
}

#[test]
fn repair_reports_a_settlement_without_waypoint() {
    let settlements = vec![settlement(1, 1), settlement(2, 2)];
    let waypoints = table(&[(1, (0, 0))]);
    let mut roads = vec![plain_road(1, 1, 77)];
    assert_eq!(
        ensure_connected_network(&settlements, &waypoints, &mut roads),
        Err(InvariantViolation::MissingSettlementWaypoint)
    );
    assert_eq!(roads, vec![plain_road(1, 1, 77)]);
}

#[test]
fn repair_reports_a_road_without_waypoint() {
    let settlements = vec![settlement(1, 1), settlement(2, 2)];
    let waypoints = table(&[(1, (0, 0)), (2, (5, 5))]);
    let mut roads = vec![plain_road(1, 1, 77)];
    assert_eq!(
        ensure_connected_network(&settlements, &waypoints, &mut roads),
        Err(InvariantViolation::MissingRoadEndpoint)
    );
    assert_eq!(roads, vec![plain_road(1, 1, 77)]);
    let mut other = vec![plain_road(1, 78, 2)];
    assert_eq!(
        ensure_connected_network(&settlements, &waypoints, &mut other),
        Err(InvariantViolation::MissingRoadEndpoint)
    );
}

#[test]
fn repair_reports_exhausted_road_ids() {
    let settlements = vec![settlement(1, 1), settlement(2, 2), settlement(3, 3)];
    let waypoints = table(&[(1, (0, 0)), (2, (5, 5)), (3, (9, 9))]);
    let mut roads = vec![plain_road(usize::MAX - 1, 1, 1)];
    assert_eq!(
        ensure_connected_network(&settlements, &waypoints, &mut roads),
        Err(InvariantViolation::RoadIdExhausted)
    );
    assert_eq!(roads, vec![plain_road(usize::MAX - 1, 1, 1)]);
}

#[test]
fn repair_uses_the_last_road_id() {
    let settlements = vec![settlement(1, 1), settlement(2, 2)];
    let waypoints = table(&[(1, (0, 0)), (2, (5, 5))]);
    let mut roads = vec![plain_road(usize::MAX - 1, 1, 1)];
    assert_eq!(ensure_connected_network(&settlements, &waypoints, &mut roads), Ok(()));
    assert_eq!(roads, vec![plain_road(usize::MAX - 1, 1, 1), connector(usize::MAX, 1, 2)]);
}

#[test]
fn connected_roads_with_the_largest_id_are_accepted() {
    let settlements = vec![settlement(1, 1), settlement(2, 2)];
    let waypoints = table(&[(1, (0, 0)), (2, (5, 5))]);
    let mut roads = vec![plain_road(usize::MAX, 1, 2)];
    assert_eq!(ensure_connected_network(&settlements, &waypoints, &mut roads), Ok(()));
    assert_eq!(roads, vec![plain_road(usize::MAX, 1, 2)]);
}

#[test]
fn repair_of_scattered_settlements_leaves_one_component() {
    let mut settlements = vec![];
    let mut positions = vec![];
    for id in 1..=40usize {
        settlements.push(settlement(id, id));
        let x = ((id * 37) % 101) as i32;
        let y = ((id * 53) % 89) as i32;
        positions.push((id, (x, y)));
    }
    let waypoints = table(&positions);
    let mut roads = vec![plain_road(1, 1, 2), plain_road(2, 3, 4), plain_road(3, 2, 4)];
    assert_eq!(ensure_connected_network(&settlements, &waypoints, &mut roads), Ok(()));
    assert_eq!(roads.len(), 3 + 36);
    assert_eq!(reached_from(&roads, 1), (1..=40).collect::<Vec<usize>>());
    for (place, road) in roads.iter().enumerate().skip(3) {
        assert_eq!(road.id, place + 1);
        assert_ne!(road.endpoints.0, road.endpoints.1);
    }
}
