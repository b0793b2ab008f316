//! The settlement generator: settlements with drawn names, populations
//! and positions, each anchored at a waypoint of its own.

use crate::errors::ConfigError;
use crate::model::{Settlement, Waypoint, WaypointKind};
use crate::text::{fallback_name, make_fallback_name};
use rand::rngs::StdRng;
use rand::seq::SliceRandom;
use rand::Rng;
use vstd::prelude::*;
use vstd::string::StringExecFns;

verus! {

/// The random source of the generator, `rand::rngs::StdRng`. A source
/// made from a seed gives the same draws every time.
#[verifier::external_type_specification]
#[verifier::external_body]
pub struct ExStdRng(StdRng);

/// The least population of a settlement.
pub const MIN_POPULATION: u32 = 100;

/// The bound that the population of a settlement stays below.
pub const POPULATION_LIMIT: u32 = 10_000;

/// Calls `Rng::gen_range` of `rand` on the closed range from `low` to
/// `high`. The contract claims what the range promises: the value lies in
/// it. The call panics on an empty range, which `requires` leaves out.
#[verifier::external_body]
fn draw_between(rng: &mut StdRng, low: i64, high: i64) -> (value: i64)
    requires
        low <= high,
    ensures
        low <= value <= high,
{
    rng.gen_range(low..=high)
}

/// Calls `SliceRandom::choose` of `rand` on the pool. The contract claims
/// what its documentation says: an element of the pool, and none only
/// where the pool is empty.
#[verifier::external_body]
fn draw_name<'a>(pool: &'a Vec<String>, rng: &mut StdRng) -> (drawn: Option<&'a String>)
    ensures
        pool@.len() == 0 ==> drawn is None,
        pool@.len() > 0 ==> drawn is Some,
        drawn matches Some(name) ==> exists|i: int| 0 <= i < pool@.len() && pool@[i] == *name,
{
    pool.choose(rng)
}

/// The names that settlements are called by where nothing else is asked
/// for.
pub fn sample_names() -> (names: Vec<String>)
    ensures
        names@.len() == 10,
        names@[0]@ == "Ashvale"@,
        names@[1]@ == "Brimstead"@,
        names@[2]@ == "Cairnhold"@,
        names@[3]@ == "Dunford"@,
        names@[4]@ == "Eldham"@,
        names@[5]@ == "Fairreach"@,
        names@[6]@ == "Glenbrook"@,
        names@[7]@ == "Highmere"@,
        names@[8]@ == "Ironhill"@,
        names@[9]@ == "Jorwick"@,
{
    let mut names: Vec<String> = Vec::new();
    names.push(String::from_str("Ashvale"));
    names.push(String::from_str("Brimstead"));
    names.push(String::from_str("Cairnhold"));
    names.push(String::from_str("Dunford"));
    names.push(String::from_str("Eldham"));
    names.push(String::from_str("Fairreach"));
    names.push(String::from_str("Glenbrook"));
    names.push(String::from_str("Highmere"));
    names.push(String::from_str("Ironhill"));
    names.push(String::from_str("Jorwick"));
    names
}

/// Why the generator refuses its ranges, if it does.
pub open spec fn spawn_error(x_range: (i32, i32), y_range: (i32, i32)) -> Option<ConfigError> {
    if x_range.0 > x_range.1 {
        Some(ConfigError::InvalidXRange)
    } else if y_range.0 > y_range.1 {
        Some(ConfigError::InvalidYRange)
    } else {
        None
    }
}

/// The settlement with the given id and draws, and the waypoint that
/// anchors it. Both carry the id. A settlement without a drawn name is
/// called by its id.
pub fn settle(
    id: usize,
    drawn_name: Option<&String>,
    population: u32,
    position: (i32, i32),
) -> (placed: (Settlement, Waypoint))
    ensures
        placed.0.id == id,
        placed.0.waypoint_id == id,
        placed.0.population == population,
        placed.0.name@ == match drawn_name {
            Some(name) => name@,
            None => fallback_name(id),
        },
        placed.1 == (Waypoint { id, position, kind: WaypointKind::Settlement }),
{
    let name = match drawn_name {
        Some(name) => name.clone(),
        None => make_fallback_name(id),
    };
    (
        Settlement { id, name, population, waypoint_id: id },
        Waypoint { id, position, kind: WaypointKind::Settlement },
    )
}

/// Whether the name is one that the generator gives under the pool: a
/// name of the pool, or the fallback name where the pool is empty.
pub open spec fn name_from(pool: Seq<String>, id: usize, name: Seq<char>) -> bool {
    if pool.len() == 0 {
        name == fallback_name(id)
    } else {
        exists|j: int| 0 <= j < pool.len() && (#[trigger] pool[j])@ == name
    }
}

/// What holds of every outcome of the generator: `count` settlements
/// with the ids from 1 in order, each at the waypoint of its id, with a
/// population and a position in their ranges and a name from the pool.
pub open spec fn well_spawned(
    settlements: Seq<Settlement>,
    waypoints: Seq<Waypoint>,
    count: usize,
    x_range: (i32, i32),
    y_range: (i32, i32),
    pool: Seq<String>,
) -> bool {
    &&& settlements.len() == count
    &&& waypoints.len() == count
    &&& forall|i: int|
        0 <= i < count ==> {
            &&& (#[trigger] settlements[i]).id == i + 1
            &&& settlements[i].waypoint_id == i + 1
            &&& MIN_POPULATION <= settlements[i].population < POPULATION_LIMIT
            &&& name_from(pool, settlements[i].id, settlements[i].name@)
        }
    &&& forall|i: int|
        0 <= i < count ==> {
            &&& (#[trigger] waypoints[i]).id == i + 1
            &&& waypoints[i].kind == WaypointKind::Settlement
            &&& x_range.0 <= waypoints[i].position.0 <= x_range.1
            &&& y_range.0 <= waypoints[i].position.1 <= y_range.1
        }
}

/// Generates `count` settlements and their waypoints.
///
/// The ids run from 1 in the order of generation. Each name is drawn from
/// the pool; with an empty pool the settlement is called by its id. Each
/// population is drawn from 100 up to, not including, 10000. Each position
/// is drawn from the two ranges, their bounds included. Where a range is
/// refused, nothing is drawn.
pub fn spawn_settlements(
    count: usize,
    x_range: (i32, i32),
    y_range: (i32, i32),
    name_pool: &Vec<String>,
    rng: &mut StdRng,
) -> (result: Result<(Vec<Settlement>, Vec<Waypoint>), ConfigError>)
    ensures
        match result {
            Ok((settlements, waypoints)) => {
                &&& spawn_error(x_range, y_range) is None
                &&& well_spawned(settlements@, waypoints@, count, x_range, y_range, name_pool@)
            },
            Err(e) => spawn_error(x_range, y_range) == Some(e) && *final(rng) == *old(rng),
        },
{
    if x_range.0 > x_range.1 {
        return Err(ConfigError::InvalidXRange);
    }
    if y_range.0 > y_range.1 {
        return Err(ConfigError::InvalidYRange);
    }
    let mut settlements: Vec<Settlement> = Vec::new();
    let mut waypoints: Vec<Waypoint> = Vec::new();
    let mut i: usize = 0;
    while i < count
        invariant
            i <= count,
            x_range.0 <= x_range.1,
            y_range.0 <= y_range.1,
            well_spawned(settlements@, waypoints@, i, x_range, y_range, name_pool@),
        decreases count - i,
    {
        let id: usize = i + 1;
        let drawn_name = draw_name(name_pool, rng);
        let population = draw_between(rng, MIN_POPULATION as i64, POPULATION_LIMIT as i64 - 1) as u32;
        let x = draw_between(rng, x_range.0 as i64, x_range.1 as i64) as i32;
        let y = draw_between(rng, y_range.0 as i64, y_range.1 as i64) as i32;
        let (settlement, waypoint) = settle(id, drawn_name, population, (x, y));
        let ghost settled = settlements@;
        let ghost anchored = waypoints@;
        settlements.push(settlement);
        waypoints.push(waypoint);
        proof {
            assert forall|k: int| 0 <= k < i + 1 implies {
                &&& (#[trigger] settlements@[k]).id == k + 1
                &&& settlements@[k].waypoint_id == k + 1
                &&& MIN_POPULATION <= settlements@[k].population < POPULATION_LIMIT
                &&& name_from(name_pool@, settlements@[k].id, settlements@[k].name@)
            } by {
                if k < i {
                    assert(settlements@[k] == settled[k]);
                }
            }
            assert forall|k: int| 0 <= k < i + 1 implies {
                &&& (#[trigger] waypoints@[k]).id == k + 1
                &&& waypoints@[k].kind == WaypointKind::Settlement
                &&& x_range.0 <= waypoints@[k].position.0 <= x_range.1
                &&& y_range.0 <= waypoints@[k].position.1 <= y_range.1
            } by {
                if k < i {
                    assert(waypoints@[k] == anchored[k]);
                }
            }
        }
        i = i + 1;
    }
    Ok((settlements, waypoints))
}

} // verus!
