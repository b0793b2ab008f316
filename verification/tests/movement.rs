use road_network::movement::onward_options;
use std::collections::HashSet;

fn set_of(members: &[usize]) -> HashSet<usize> {
    members.iter().copied().collect()
}

#[test]
fn traveller_without_a_past_may_go_anywhere() {
    assert_eq!(onward_options(&set_of(&[9, 2, 5]), None), vec![2, 5, 9]);
}

#[test]
fn traveller_does_not_turn_back_while_another_way_is_open() {
    assert_eq!(onward_options(&set_of(&[9, 2, 5]), Some(5)), vec![2, 9]);
    assert_eq!(onward_options(&set_of(&[9, 2, 5]), Some(2)), vec![5, 9]);
}

#[test]
fn traveller_turns_back_in_a_dead_end() {
    assert_eq!(onward_options(&set_of(&[4]), Some(4)), vec![4]);
}

#[test]
fn traveller_from_elsewhere_may_go_anywhere() {
    assert_eq!(onward_options(&set_of(&[3, 1]), Some(8)), vec![1, 3]);
}

#[test]
fn traveller_without_neighbours_has_no_options() {
    assert_eq!(onward_options(&set_of(&[]), None), Vec::<usize>::new());
    assert_eq!(onward_options(&set_of(&[]), Some(1)), Vec::<usize>::new());
}

#[test]
fn options_come_in_ascending_order() {
    let neighbors: Vec<usize> = (0..200).map(|k| (k * 7919) % 1000).collect();
    let options = onward_options(&set_of(&neighbors), Some(7919 % 1000));
    assert_eq!(options.len(), 199);
    for pair in options.windows(2) {
        assert!(pair[0] < pair[1]);
    }
    assert!(!options.contains(&(7919 % 1000)));
}
