use rand::rngs::StdRng;
use rand::SeedableRng;
use road_network::generator::sample_names;
use road_network::world::{assemble_network, check_config, index_settlements, index_waypoints};
use road_network::{
    generate_world, ConfigError, GenerationError, InvariantViolation, Ratio, Road, RoadNetwork,
    Settlement, SimulationConfig, Waypoint, WaypointKind,
};
use std::collections::HashSet;

fn config(count: usize) -> SimulationConfig {
    SimulationConfig {
        x_range: (0, 800),
        y_range: (0, 600),
        settlement_count: count,
        hub_percent: Ratio { numerator: 1, denominator: 20 },
        mesh_distance_threshold: 50,
    }
}

fn settlement(id: usize, name: &str, population: u32) -> Settlement {
    Settlement { id, name: String::from(name), population, waypoint_id: id }
}

fn waypoint(id: usize, position: (i32, i32)) -> Waypoint {
    Waypoint { id, position, kind: WaypointKind::Settlement }
}

fn reached_from(network: &RoadNetwork, start: usize) -> HashSet<usize> {
    let mut reached = HashSet::new();
    let mut stack = vec![start];
    while let Some(node) = stack.pop() {
        if reached.insert(node) {
            for road in network.roads.values() {
                if road.endpoints.0 == node {
                    stack.push(road.endpoints.1);
                }
                if road.endpoints.1 == node {
                    stack.push(road.endpoints.0);
                }
            }
        }
    }
    reached
}

#[test]
fn check_config_accepts_a_sound_configuration() {
    assert_eq!(check_config(&config(10)), Ok(()));
    assert_eq!(check_config(&config(0)), Ok(()));
    let mut whole = config(10);
    whole.hub_percent = Ratio { numerator: 7, denominator: 7 };
    whole.mesh_distance_threshold = 0;
    assert_eq!(check_config(&whole), Ok(()));
}

#[test]
fn check_config_names_each_fault() {
    let mut c = config(10);
    c.x_range = (5, 5);
    assert_eq!(check_config(&c), Err(ConfigError::InvalidXRange));
    let mut c = config(10);
    c.y_range = (6, 5);
    assert_eq!(check_config(&c), Err(ConfigError::InvalidYRange));
    let mut c = config(10);
    c.hub_percent = Ratio { numerator: 0, denominator: 5 };
    assert_eq!(check_config(&c), Err(ConfigError::InvalidHubPercent));
    c.hub_percent = Ratio { numerator: 6, denominator: 5 };
    assert_eq!(check_config(&c), Err(ConfigError::InvalidHubPercent));
    let mut c = config(10);
    c.mesh_distance_threshold = -1;
    assert_eq!(check_config(&c), Err(ConfigError::NegativeMeshThreshold));
}

#[test]
fn check_config_reports_the_first_fault() {
    let mut c = config(10);
    c.x_range = (9, 0);
    c.y_range = (9, 0);
    c.hub_percent = Ratio { numerator: 0, denominator: 0 };
    c.mesh_distance_threshold = -5;
    assert_eq!(check_config(&c), Err(ConfigError::InvalidXRange));
    c.x_range = (0, 9);
    assert_eq!(check_config(&c), Err(ConfigError::InvalidYRange));
    c.y_range = (0, 9);
    assert_eq!(check_config(&c), Err(ConfigError::InvalidHubPercent));
    c.hub_percent = Ratio { numerator: 1, denominator: 2 };
    assert_eq!(check_config(&c), Err(ConfigError::NegativeMeshThreshold));
}

#[test]
fn index_waypoints_files_by_id_and_keeps_the_later_of_two() {
    let table = index_waypoints(&vec![waypoint(4, (1, 1)), waypoint(9, (2, 2)), waypoint(4, (3, 3))]);
    assert_eq!(table.len(), 2);
    assert_eq!(table[&4], waypoint(4, (3, 3)));
    assert_eq!(table[&9], waypoint(9, (2, 2)));
}

#[test]
fn index_settlements_files_by_id_and_keeps_the_later_of_two() {
    let table = index_settlements(&vec![
        settlement(4, "First", 100),
        settlement(9, "Other", 200),
        settlement(4, "Second", 300),
    ]);
    assert_eq!(table.len(), 2);
    assert_eq!(table[&4], settlement(4, "Second", 300));
    assert_eq!(table[&9], settlement(9, "Other", 200));
}

#[test]
fn assemble_builds_repairs_and_files() {
    let settlements = vec![
        settlement(1, "A", 1000),
        settlement(2, "B", 500),
        settlement(3, "C", 400),
        settlement(4, "D", 300),
    ];
    let waypoints =
        vec![waypoint(1, (0, 0)), waypoint(2, (10, 0)), waypoint(3, (13, 4)), waypoint(4, (10, 6))];
    let network =
        assemble_network(&settlements, &waypoints, Ratio { numerator: 1, denominator: 4 }, 5)
            .unwrap();
    assert_eq!(network.waypoints.len(), 4);
    assert_eq!(network.waypoints[&3], waypoint(3, (13, 4)));
    assert_eq!(network.settlements.len(), 4);
    assert_eq!(network.settlements[&2], settlement(2, "B", 500));
    assert_eq!(network.roads.len(), 5);
    assert_eq!(
        network.roads[&1],
        Road { id: 1, name: Some(String::from("B to A")), endpoints: (2, 1) }
    );
    assert_eq!(
        network.roads[&5],
        Road { id: 5, name: Some(String::from("C <-> D")), endpoints: (3, 4) }
    );
}

#[test]
fn assemble_bridges_what_the_builder_leaves_apart() {
    let settlements = vec![
        settlement(1, "A", 1000),
        settlement(2, "B", 900),
        settlement(3, "C", 300),
        settlement(4, "D", 200),
    ];
    let waypoints = vec![
        waypoint(1, (0, 0)),
        waypoint(2, (1000, 0)),
        waypoint(3, (10, 0)),
        waypoint(4, (990, 0)),
    ];
    let network =
        assemble_network(&settlements, &waypoints, Ratio { numerator: 1, denominator: 2 }, 5)
            .unwrap();
    assert_eq!(network.roads.len(), 3);
    assert_eq!(
        network.roads[&1],
        Road { id: 1, name: Some(String::from("C to A")), endpoints: (3, 1) }
    );
    assert_eq!(
        network.roads[&2],
        Road { id: 2, name: Some(String::from("D to B")), endpoints: (4, 2) }
    );
    assert_eq!(
        network.roads[&3],
        Road { id: 3, name: Some(String::from("Connector 3-4")), endpoints: (3, 4) }
    );
}

#[test]
fn assemble_hands_on_what_the_builder_refuses() {
    let settlements = vec![settlement(1, "A", 1000), settlement(2, "B", 900)];
    let waypoints = vec![waypoint(1, (0, 0))];
    let share = Ratio { numerator: 1, denominator: 2 };
    assert_eq!(
        assemble_network(&settlements, &waypoints, share, 5).err(),
        Some(GenerationError::Invariant(InvariantViolation::MissingSettlementWaypoint))
    );
    assert_eq!(
        assemble_network(&settlements, &waypoints, share, -5).err(),
        Some(GenerationError::Config(ConfigError::NegativeMeshThreshold))
    );
    assert_eq!(
        assemble_network(&settlements, &waypoints, Ratio { numerator: 3, denominator: 2 }, 5).err(),
        Some(GenerationError::Config(ConfigError::InvalidHubPercent))
    );
}

#[test]
fn generated_world_connects_all_settlements() {
    for seed in 0..20 {
        let mut rng = StdRng::seed_from_u64(seed);
        let network = generate_world(&config(60), &sample_names(), &mut rng).unwrap();
        assert_eq!(network.settlements.len(), 60);
        assert_eq!(network.waypoints.len(), 60);
        let reached = reached_from(&network, 1);
        for settlement in network.settlements.values() {
            assert!(reached.contains(&settlement.waypoint_id));
        }
    }
}

#[test]
fn generated_world_files_every_record_under_its_id() {
    let mut rng = StdRng::seed_from_u64(17);
    let network = generate_world(&config(40), &sample_names(), &mut rng).unwrap();
    for id in 1..=40 {
        assert_eq!(network.settlements[&id].id, id);
        assert_eq!(network.settlements[&id].waypoint_id, id);
        assert_eq!(network.waypoints[&id].id, id);
        assert_eq!(network.waypoints[&id].kind, WaypointKind::Settlement);
    }
    let count = network.roads.len();
    assert!(count >= 39);
    for id in 1..=count {
        assert_eq!(network.roads[&id].id, id);
    }
}

#[test]
fn generated_roads_have_two_different_known_ends() {
    let mut rng = StdRng::seed_from_u64(23);
    let network = generate_world(&config(80), &sample_names(), &mut rng).unwrap();
    for road in network.roads.values() {
        assert_ne!(road.endpoints.0, road.endpoints.1);
        assert!(network.waypoints.contains_key(&road.endpoints.0));
        assert!(network.waypoints.contains_key(&road.endpoints.1));
    }
}

#[test]
fn generated_world_has_spokes_first_and_connectors_last() {
    let mut rng = StdRng::seed_from_u64(5);
    let mut sparse = config(30);
    sparse.mesh_distance_threshold = 0;
    sparse.x_range = (0, 1_000_000);
    sparse.y_range = (0, 1_000_000);
    sparse.hub_percent = Ratio { numerator: 1, denominator: 10 };
    let network = generate_world(&sparse, &sample_names(), &mut rng).unwrap();
    assert_eq!(network.roads.len(), 29);
    for id in 1..=27 {
        assert!(network.roads[&id].name.as_ref().unwrap().contains(" to "));
    }
    for id in 28..=29 {
        assert!(network.roads[&id].name.as_ref().unwrap().starts_with("Connector "));
    }
}

#[test]
fn generated_world_with_one_seed_is_one_world() {
    let mut first = StdRng::seed_from_u64(77);
    let mut second = StdRng::seed_from_u64(77);
    let a = generate_world(&config(50), &sample_names(), &mut first).unwrap();
    let b = generate_world(&config(50), &sample_names(), &mut second).unwrap();
    assert_eq!(a.settlements, b.settlements);
    assert_eq!(a.waypoints, b.waypoints);
    assert_eq!(a.roads, b.roads);
}

#[test]
fn world_of_no_settlements_is_empty() {
    let mut rng = StdRng::seed_from_u64(1);
    let network = generate_world(&config(0), &sample_names(), &mut rng).unwrap();
    assert!(network.settlements.is_empty());
    assert!(network.waypoints.is_empty());
    assert!(network.roads.is_empty());
}

#[test]
fn world_of_one_settlement_has_no_roads() {
    let mut rng = StdRng::seed_from_u64(1);
    let network = generate_world(&config(1), &sample_names(), &mut rng).unwrap();
    assert_eq!(network.settlements.len(), 1);
    assert!(network.roads.is_empty());
}

#[test]
fn generate_world_refuses_a_bad_configuration_before_drawing() {
    let mut rng = StdRng::seed_from_u64(9);
    let mut untouched = StdRng::seed_from_u64(9);
    let mut bad = config(10);
    bad.x_range = (800, 0);
    assert_eq!(
        generate_world(&bad, &sample_names(), &mut rng).err(),
        Some(GenerationError::Config(ConfigError::InvalidXRange))
    );
    let mut bad = config(10);
    bad.y_range = (1, 1);
    assert_eq!(
        generate_world(&bad, &sample_names(), &mut rng).err(),
        Some(GenerationError::Config(ConfigError::InvalidYRange))
    );
    let mut bad = config(10);
    bad.hub_percent = Ratio { numerator: 2, denominator: 1 };
    assert_eq!(
        generate_world(&bad, &sample_names(), &mut rng).err(),
        Some(GenerationError::Config(ConfigError::InvalidHubPercent))
    );
    let mut bad = config(10);
    bad.mesh_distance_threshold = -3;
    assert_eq!(
        generate_world(&bad, &sample_names(), &mut rng).err(),
        Some(GenerationError::Config(ConfigError::NegativeMeshThreshold))
    );
    let after = generate_world(&config(10), &sample_names(), &mut rng).unwrap();
    let fresh = generate_world(&config(10), &sample_names(), &mut untouched).unwrap();
    assert_eq!(after.waypoints, fresh.waypoints);
}
