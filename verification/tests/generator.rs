use rand::rngs::StdRng;
use rand::SeedableRng;
use road_network::generator::{sample_names, settle, spawn_settlements};
use road_network::{ConfigError, Settlement, Waypoint, WaypointKind};

#[test]
fn sample_names_are_the_ten_names() {
    assert_eq!(
        sample_names(),
        vec![
            "Ashvale", "Brimstead", "Cairnhold", "Dunford", "Eldham", "Fairreach", "Glenbrook",
            "Highmere", "Ironhill", "Jorwick",
        ]
    );
}

#[test]
fn settle_with_a_drawn_name() {
    let name = String::from("Dunford");
    let (settlement, waypoint) = settle(3, Some(&name), 4200, (-7, 12));
    assert_eq!(
        settlement,
        Settlement { id: 3, name: String::from("Dunford"), population: 4200, waypoint_id: 3 }
    );
    assert_eq!(waypoint, Waypoint { id: 3, position: (-7, 12), kind: WaypointKind::Settlement });
}

#[test]
fn settle_without_a_name_calls_the_settlement_by_its_id() {
    let (settlement, waypoint) = settle(12, None, 100, (0, 0));
    assert_eq!(
        settlement,
        Settlement { id: 12, name: String::from("Settlement 12"), population: 100, waypoint_id: 12 }
    );
    assert_eq!(waypoint, Waypoint { id: 12, position: (0, 0), kind: WaypointKind::Settlement });
}

#[test]
fn spawn_gives_the_ids_from_one_in_order() {
    let mut rng = StdRng::seed_from_u64(7);
    let (settlements, waypoints) =
        spawn_settlements(25, (0, 800), (0, 600), &sample_names(), &mut rng).unwrap();
    assert_eq!(settlements.len(), 25);
    assert_eq!(waypoints.len(), 25);
    for i in 0..25 {
        assert_eq!(settlements[i].id, i + 1);
        assert_eq!(settlements[i].waypoint_id, i + 1);
        assert_eq!(waypoints[i].id, i + 1);
        assert_eq!(waypoints[i].kind, WaypointKind::Settlement);
    }
}

#[test]
fn spawn_keeps_every_draw_in_its_range() {
    let mut rng = StdRng::seed_from_u64(99);
    let pool = sample_names();
    let (settlements, waypoints) =
        spawn_settlements(200, (-50, 50), (1000, 1010), &pool, &mut rng).unwrap();
    for settlement in &settlements {
        assert!(100 <= settlement.population && settlement.population < 10_000);
        assert!(pool.contains(&settlement.name));
    }
    for waypoint in &waypoints {
        assert!(-50 <= waypoint.position.0 && waypoint.position.0 <= 50);
        assert!(1000 <= waypoint.position.1 && waypoint.position.1 <= 1010);
    }
}

#[test]
fn spawn_draws_differ_from_the_bounds_and_from_each_other() {
    let mut rng = StdRng::seed_from_u64(3);
    let (settlements, waypoints) =
        spawn_settlements(100, (0, 1_000_000), (0, 1_000_000), &sample_names(), &mut rng).unwrap();
    assert!(settlements.iter().any(|s| s.population != 100));
    assert!(settlements.iter().any(|s| s.population != settlements[0].population));
    assert!(settlements.iter().any(|s| s.name != settlements[0].name));
    assert!(waypoints.iter().any(|w| w.position.0 != 0 && w.position.0 != 1_000_000));
    assert!(waypoints.iter().any(|w| w.position.1 != 0 && w.position.1 != 1_000_000));
    assert!(waypoints.iter().any(|w| w.position.0 != w.position.1));
    assert!(waypoints.iter().any(|w| w.position != waypoints[0].position));
}

#[test]
fn spawn_with_one_seed_gives_one_outcome() {
    let pool = sample_names();
    let mut first = StdRng::seed_from_u64(2024);
    let mut second = StdRng::seed_from_u64(2024);
    let a = spawn_settlements(40, (0, 800), (0, 600), &pool, &mut first).unwrap();
    let b = spawn_settlements(40, (0, 800), (0, 600), &pool, &mut second).unwrap();
    assert_eq!(a, b);
}

#[test]
fn spawn_with_an_empty_pool_calls_settlements_by_their_ids() {
    let mut rng = StdRng::seed_from_u64(1);
    let (settlements, _) = spawn_settlements(3, (0, 10), (0, 10), &vec![], &mut rng).unwrap();
    let names: Vec<&str> = settlements.iter().map(|s| s.name.as_str()).collect();
    assert_eq!(names, vec!["Settlement 1", "Settlement 2", "Settlement 3"]);
}

#[test]
fn spawn_of_no_settlements_is_empty() {
    let mut rng = StdRng::seed_from_u64(1);
    let spawned = spawn_settlements(0, (0, 10), (0, 10), &sample_names(), &mut rng);
    assert_eq!(spawned, Ok((vec![], vec![])));
}

#[test]
fn spawn_accepts_ranges_of_one_point() {
    let mut rng = StdRng::seed_from_u64(5);
    let (_, waypoints) = spawn_settlements(4, (3, 3), (-9, -9), &sample_names(), &mut rng).unwrap();
    for waypoint in &waypoints {
        assert_eq!(waypoint.position, (3, -9));
    }
}

#[test]
fn spawn_covers_the_whole_grid() {
    let mut rng = StdRng::seed_from_u64(11);
    let spawned = spawn_settlements(
        50,
        (i32::MIN, i32::MAX),
        (i32::MIN, i32::MAX),
        &sample_names(),
        &mut rng,
    );
    assert_eq!(spawned.unwrap().0.len(), 50);
}

#[test]
fn spawn_refuses_a_reversed_range() {
    let mut rng = StdRng::seed_from_u64(1);
    let pool = sample_names();
    assert_eq!(
        spawn_settlements(5, (10, 9), (0, 10), &pool, &mut rng),
        Err(ConfigError::InvalidXRange)
    );
    assert_eq!(
        spawn_settlements(5, (0, 10), (1, 0), &pool, &mut rng),
        Err(ConfigError::InvalidYRange)
    );
    assert_eq!(
        spawn_settlements(5, (10, 9), (1, 0), &pool, &mut rng),
        Err(ConfigError::InvalidXRange)
    );
}
