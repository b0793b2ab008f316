use road_network::road_builder::count_hubs;
use road_network::{
    build_smart_roads, ConfigError, GenerationError, InvariantViolation, Ratio, Road, Settlement,
    Waypoint, WaypointKind,
};
use std::collections::HashMap;

fn settlement(id: usize, name: &str, population: u32) -> Settlement {
    Settlement { id, name: String::from(name), population, waypoint_id: id }
}

fn table(positions: &[(usize, (i32, i32))]) -> HashMap<usize, Waypoint> {
    let mut waypoints = HashMap::new();
    for &(id, position) in positions {
        waypoints.insert(id, Waypoint { id, position, kind: WaypointKind::Settlement });
    }
    waypoints
}

fn share(numerator: u32, denominator: u32) -> Ratio {
    Ratio { numerator, denominator }
}

fn road(id: usize, name: &str, a: usize, b: usize) -> Road {
    Road { id, name: Some(String::from(name)), endpoints: (a, b) }
}

#[test]
fn hub_count_rounds_the_share_up() {
    assert_eq!(count_hubs(5, share(1, 5)), 1);
    assert_eq!(count_hubs(100, share(1, 20)), 5);
    assert_eq!(count_hubs(101, share(1, 20)), 6);
    assert_eq!(count_hubs(3, share(2, 3)), 2);
    assert_eq!(count_hubs(10, share(1, 1)), 10);
}

#[test]
fn hub_count_is_at_least_one_and_at_most_all() {
    assert_eq!(count_hubs(1, share(1, 100)), 1);
    assert_eq!(count_hubs(7, share(0, 5)), 1);
    assert_eq!(count_hubs(5, share(3, 2)), 5);
    assert_eq!(count_hubs(0, share(1, 5)), 0);
    assert_eq!(count_hubs(usize::MAX, share(u32::MAX, 1)), usize::MAX);
}

#[test]
fn hub_count_stays_between_one_and_all_for_every_share() {
    for total in 1..60usize {
        for denominator in 1..25u32 {
            for numerator in 1..=denominator {
                let count = count_hubs(total, share(numerator, denominator));
                assert!(1 <= count && count <= total);
                let product = numerator as usize * total;
                let rounded_up = (product + denominator as usize - 1) / denominator as usize;
                assert_eq!(count, rounded_up.max(1).min(total));
            }
        }
    }
}

#[test]
fn single_settlement_gets_no_roads() {
    let settlements = vec![settlement(1, "Ashvale", 400)];
    let waypoints = table(&[(1, (5, 5))]);
    assert_eq!(build_smart_roads(&settlements, &waypoints, share(1, 5), 50), Ok(vec![]));
}

#[test]
fn no_settlements_get_no_roads() {
    let waypoints = table(&[]);
    assert_eq!(build_smart_roads(&vec![], &waypoints, share(1, 5), 50), Ok(vec![]));
}

#[test]
fn five_settlements_with_a_fifth_as_hubs_get_four_spokes() {
    let settlements = vec![
        settlement(1, "A", 500),
        settlement(2, "B", 9000),
        settlement(3, "C", 300),
        settlement(4, "D", 700),
        settlement(5, "E", 100),
    ];
    let waypoints =
        table(&[(1, (0, 0)), (2, (100, 100)), (3, (200, 0)), (4, (0, 200)), (5, (300, 300))]);
    let roads = build_smart_roads(&settlements, &waypoints, share(1, 5), 10);
    assert_eq!(
        roads,
        Ok(vec![
            road(1, "D to B", 4, 2),
            road(2, "A to B", 1, 2),
            road(3, "C to B", 3, 2),
            road(4, "E to B", 5, 2),
        ])
    );
}

#[test]
fn mesh_joins_settlements_within_the_threshold_boundary_included() {
    let settlements = vec![
        settlement(1, "A", 1000),
        settlement(2, "B", 500),
        settlement(3, "C", 400),
        settlement(4, "D", 300),
    ];
    let waypoints = table(&[(1, (0, 0)), (2, (10, 0)), (3, (13, 4)), (4, (10, 6))]);
    let roads = build_smart_roads(&settlements, &waypoints, share(1, 4), 5);
    assert_eq!(
        roads,
        Ok(vec![
            road(1, "B to A", 2, 1),
            road(2, "C to A", 3, 1),
            road(3, "D to A", 4, 1),
            road(4, "B <-> C", 2, 3),
            road(5, "C <-> D", 3, 4),
        ])
    );
}

#[test]
fn mesh_leaves_out_pairs_just_beyond_the_threshold() {
    let settlements = vec![
        settlement(1, "A", 1000),
        settlement(2, "B", 500),
        settlement(3, "C", 400),
    ];
    let waypoints = table(&[(1, (0, 0)), (2, (10, 0)), (3, (13, 4))]);
    let roads = build_smart_roads(&settlements, &waypoints, share(1, 3), 4);
    assert_eq!(roads, Ok(vec![road(1, "B to A", 2, 1), road(2, "C to A", 3, 1)]));
}

#[test]
fn hubs_get_neither_spokes_nor_mesh_roads_of_their_own() {
    let settlements = vec![
        settlement(1, "A", 1000),
        settlement(2, "B", 900),
        settlement(3, "C", 100),
    ];
    let waypoints = table(&[(1, (0, 0)), (2, (1, 0)), (3, (50, 0))]);
    let roads = build_smart_roads(&settlements, &waypoints, share(2, 3), 5);
    assert_eq!(roads, Ok(vec![road(1, "C to B", 3, 2)]));
}

#[test]
fn equally_near_hubs_go_to_the_first_in_rank() {
    let settlements = vec![
        settlement(1, "East", 800),
        settlement(2, "West", 900),
        settlement(3, "Mid", 100),
        settlement(4, "North", 50),
    ];
    let waypoints = table(&[(1, (5, 0)), (2, (-5, 0)), (3, (0, 0)), (4, (0, 30))]);
    let roads = build_smart_roads(&settlements, &waypoints, share(1, 2), 0);
    assert_eq!(roads, Ok(vec![road(1, "Mid to West", 3, 2), road(2, "North to West", 4, 2)]));
}

#[test]
fn equal_populations_rank_in_list_order() {
    let settlements = vec![
        settlement(1, "First", 500),
        settlement(2, "Second", 500),
        settlement(3, "Third", 500),
    ];
    let waypoints = table(&[(1, (0, 0)), (2, (100, 0)), (3, (0, 100))]);
    let roads = build_smart_roads(&settlements, &waypoints, share(1, 3), 0);
    assert_eq!(roads, Ok(vec![road(1, "Second to First", 2, 1), road(2, "Third to First", 3, 1)]));
}

#[test]
fn settlements_on_one_spot_are_all_meshed() {
    let settlements = vec![
        settlement(1, "A", 400),
        settlement(2, "B", 300),
        settlement(3, "C", 200),
        settlement(4, "D", 100),
    ];
    let waypoints = table(&[(1, (7, 7)), (2, (7, 7)), (3, (7, 7)), (4, (7, 7))]);
    let roads = build_smart_roads(&settlements, &waypoints, share(1, 4), 0);
    assert_eq!(
        roads,
        Ok(vec![
            road(1, "B to A", 2, 1),
            road(2, "C to A", 3, 1),
            road(3, "D to A", 4, 1),
            road(4, "B <-> C", 2, 3),
            road(5, "B <-> D", 2, 4),
            road(6, "C <-> D", 3, 4),
        ])
    );
}

#[test]
fn builder_refuses_a_share_outside_the_unit_interval() {
    let settlements = vec![settlement(1, "A", 400)];
    let waypoints = table(&[(1, (0, 0))]);
    let refused = Err(GenerationError::Config(ConfigError::InvalidHubPercent));
    assert_eq!(build_smart_roads(&settlements, &waypoints, share(0, 5), 10), refused);
    assert_eq!(build_smart_roads(&settlements, &waypoints, share(6, 5), 10), refused);
    assert_eq!(build_smart_roads(&settlements, &waypoints, share(1, 0), 10), refused);
    assert_eq!(build_smart_roads(&settlements, &waypoints, share(0, 0), 10), refused);
}

#[test]
fn builder_refuses_a_negative_threshold() {
    let settlements = vec![settlement(1, "A", 400)];
    let waypoints = table(&[(1, (0, 0))]);
    assert_eq!(
        build_smart_roads(&settlements, &waypoints, share(1, 5), -1),
        Err(GenerationError::Config(ConfigError::NegativeMeshThreshold))
    );
}

#[test]
fn builder_reports_a_settlement_without_waypoint() {
    let settlements = vec![settlement(1, "A", 400), settlement(2, "B", 300)];
    let waypoints = table(&[(1, (0, 0))]);
    assert_eq!(
        build_smart_roads(&settlements, &waypoints, share(1, 5), 10),
        Err(GenerationError::Invariant(InvariantViolation::MissingSettlementWaypoint))
    );
}

#[test]
fn builder_tests_the_share_before_the_threshold_and_the_waypoints() {
    let settlements = vec![settlement(1, "A", 400)];
    let waypoints = table(&[]);
    assert_eq!(
        build_smart_roads(&settlements, &waypoints, share(0, 5), -1),
        Err(GenerationError::Config(ConfigError::InvalidHubPercent))
    );
    assert_eq!(
        build_smart_roads(&settlements, &waypoints, share(1, 5), -1),
        Err(GenerationError::Config(ConfigError::NegativeMeshThreshold))
    );
}
