//! The names that the generator gives to settlements and roads.

use vstd::prelude::*;
use vstd::string::StringExecFns;

verus! {

/// The character of one decimal digit.
pub open spec fn digit_char(d: nat) -> char {
    if d == 0 {
        '0'
    } else if d == 1 {
        '1'
    } else if d == 2 {
        '2'
    } else if d == 3 {
        '3'
    } else if d == 4 {
        '4'
    } else if d == 5 {
        '5'
    } else if d == 6 {
        '6'
    } else if d == 7 {
        '7'
    } else if d == 8 {
        '8'
    } else {
        '9'
    }
}

/// The decimal numeral of `n`, without leading zeros.
pub open spec fn decimal(n: nat) -> Seq<char>
    decreases n,
{
    if n < 10 {
        seq![digit_char(n)]
    } else {
        decimal(n / 10).push(digit_char(n % 10))
    }
}

fn digit_text(d: usize) -> (text: &'static str)
    requires
        d < 10,
    ensures
        text@ == seq![digit_char(d as nat)],
{
    proof {
        reveal_strlit("0");
        reveal_strlit("1");
        reveal_strlit("2");
        reveal_strlit("3");
        reveal_strlit("4");
        reveal_strlit("5");
        reveal_strlit("6");
        reveal_strlit("7");
        reveal_strlit("8");
        reveal_strlit("9");
    }
    let text = if d == 0 {
        "0"
    } else if d == 1 {
        "1"
    } else if d == 2 {
        "2"
    } else if d == 3 {
        "3"
    } else if d == 4 {
        "4"
    } else if d == 5 {
        "5"
    } else if d == 6 {
        "6"
    } else if d == 7 {
        "7"
    } else if d == 8 {
        "8"
    } else {
        "9"
    };
    assert(text@ =~= seq![digit_char(d as nat)]);
    text
}

/// Writes `n` as a decimal numeral.
pub fn decimal_string(n: usize) -> (text: String)
    ensures
        text@ == decimal(n as nat),
    decreases n,
{
    if n < 10 {
        String::from_str(digit_text(n))
    } else {
        let mut text = decimal_string(n / 10);
        text.append(digit_text(n % 10));
        assert(text@ =~= decimal(n as nat));
        text
    }
}

/// The name of a settlement that could not draw one: `Settlement 7`.
pub open spec fn fallback_name(id: usize) -> Seq<char> {
    "Settlement "@ + decimal(id as nat)
}

/// The name of the road from a settlement to its hub: `Eldham to Dunford`.
pub open spec fn spoke_name(from: Seq<char>, hub: Seq<char>) -> Seq<char> {
    from + " to "@ + hub
}

/// The name of a road of the local mesh: `Eldham <-> Dunford`.
pub open spec fn mesh_name(a: Seq<char>, b: Seq<char>) -> Seq<char> {
    a + " <-> "@ + b
}

/// The name of a road that bridges two components: `Connector 3-8`.
pub open spec fn connector_name(a: usize, b: usize) -> Seq<char> {
    "Connector "@ + decimal(a as nat) + "-"@ + decimal(b as nat)
}

/// Builds `fallback_name(id)`.
pub fn make_fallback_name(id: usize) -> (name: String)
    ensures
        name@ == fallback_name(id),
{
    let mut name = String::from_str("Settlement ");
    let digits = decimal_string(id);
    name.append(digits.as_str());
    name
}

/// Builds `spoke_name` from the two settlements' names.
pub fn make_spoke_name(from: &String, hub: &String) -> (name: String)
    ensures
        name@ == spoke_name(from@, hub@),
{
    let mut name = from.clone();
    name.append(" to ");
    name.append(hub.as_str());
    name
}

/// Builds `mesh_name` from the two settlements' names.
pub fn make_mesh_name(a: &String, b: &String) -> (name: String)
    ensures
        name@ == mesh_name(a@, b@),
{
    let mut name = a.clone();
    name.append(" <-> ");
    name.append(b.as_str());
    name
}

/// Builds `connector_name` from the two waypoint ids.
pub fn make_connector_name(a: usize, b: usize) -> (name: String)
    ensures
        name@ == connector_name(a, b),
{
    let mut name = String::from_str("Connector ");
    let first = decimal_string(a);
    name.append(first.as_str());
    name.append("-");
    let second = decimal_string(b);
    name.append(second.as_str());
    name
}

} // verus!
