use road_network::text::{
    decimal_string, make_connector_name, make_fallback_name, make_mesh_name, make_spoke_name,
};

#[test]
fn decimal_string_of_single_digits() {
    assert_eq!(decimal_string(0), "0");
    assert_eq!(decimal_string(7), "7");
    assert_eq!(decimal_string(9), "9");
}

#[test]
fn decimal_string_of_longer_numbers() {
    assert_eq!(decimal_string(10), "10");
    assert_eq!(decimal_string(12345), "12345");
    assert_eq!(decimal_string(9006), "9006");
    assert_eq!(decimal_string(usize::MAX), format!("{}", usize::MAX));
}

#[test]
fn fallback_name_carries_the_id() {
    assert_eq!(make_fallback_name(7), "Settlement 7");
    assert_eq!(make_fallback_name(120), "Settlement 120");
}

#[test]
fn road_names_follow_their_patterns() {
    let a = String::from("Eldham");
    let b = String::from("Dunford");
    assert_eq!(make_spoke_name(&a, &b), "Eldham to Dunford");
    assert_eq!(make_mesh_name(&a, &b), "Eldham <-> Dunford");
    assert_eq!(make_connector_name(3, 18), "Connector 3-18");
}
