//! The pipeline from a configuration to the finished network: generate
//! the settlements, lay the roads, repair the connectivity, file the
//! records.

use crate::components::{
    bridge_plan, components_in_order, lemma_bridge_plan_len, lemma_components_cover,
};
use crate::connectivity::{
    bridge_road, ensure_connected_network, is_no_loop, max_road_id, repair_plan, settlement_nodes,
};
use crate::errors::{ConfigError, GenerationError, InvariantViolation};
use crate::generator::{spawn_settlements, well_spawned};
use crate::graph::connected;
use crate::model::{
    endpoints_of, road_views, roads_resolve, settlements_resolve, Ratio, Road, RoadNetwork,
    RoadView, Settlement, Waypoint,
};
use crate::road_builder::{
    build_error, build_smart_roads, distinct_waypoints, joins_two_settlements,
    lemma_planned_bound, numbered_from_one, planned_roads,
};
use rand::rngs::StdRng;
use std::collections::HashMap;
use vstd::prelude::*;

verus! {

broadcast use vstd::std_specs::hash::group_hash_axioms;

/// What a world is generated from.
#[derive(Debug, Clone, Copy, PartialEq, Eq)]
pub struct SimulationConfig {
    pub x_range: (i32, i32),
    pub y_range: (i32, i32),
    pub settlement_count: usize,
    pub hub_percent: Ratio,
    pub mesh_distance_threshold: i64,
}

/// What is wrong with the configuration, if anything. The first failing
/// test decides: the x range, the y range, the share of hubs, the
/// threshold. A range needs its lower bound below its upper bound.
pub open spec fn config_error(config: SimulationConfig) -> Option<ConfigError> {
    if config.x_range.0 >= config.x_range.1 {
        Some(ConfigError::InvalidXRange)
    } else if config.y_range.0 >= config.y_range.1 {
        Some(ConfigError::InvalidYRange)
    } else if !config.hub_percent.is_share() {
        Some(ConfigError::InvalidHubPercent)
    } else if config.mesh_distance_threshold < 0 {
        Some(ConfigError::NegativeMeshThreshold)
    } else {
        None
    }
}

/// Tests the configuration.
pub fn check_config(config: &SimulationConfig) -> (result: Result<(), ConfigError>)
    ensures
        match result {
            Ok(()) => config_error(*config) is None,
            Err(e) => config_error(*config) == Some(e),
        },
{
    if config.x_range.0 >= config.x_range.1 {
        Err(ConfigError::InvalidXRange)
    } else if config.y_range.0 >= config.y_range.1 {
        Err(ConfigError::InvalidYRange)
    } else if config.hub_percent.numerator == 0 || config.hub_percent.numerator
        > config.hub_percent.denominator {
        Err(ConfigError::InvalidHubPercent)
    } else if config.mesh_distance_threshold < 0 {
        Err(ConfigError::NegativeMeshThreshold)
    } else {
        Ok(())
    }
}

/// The waypoints filed under their ids; of two with one id the later
/// stays.
pub open spec fn waypoint_table(waypoints: Seq<Waypoint>) -> Map<usize, Waypoint>
    decreases waypoints.len(),
{
    if waypoints.len() == 0 {
        Map::empty()
    } else {
        waypoint_table(waypoints.drop_last()).insert(waypoints.last().id, waypoints.last())
    }
}

/// The settlements filed under their ids; of two with one id the later
/// stays.
pub open spec fn settlement_table(settlements: Seq<Settlement>) -> Map<usize, Settlement>
    decreases settlements.len(),
{
    if settlements.len() == 0 {
        Map::empty()
    } else {
        settlement_table(settlements.drop_last()).insert(
            settlements.last().id,
            settlements.last(),
        )
    }
}

/// Every entry of the waypoint table is a waypoint of the list, filed
/// under its id.
pub proof fn lemma_waypoint_table_entries(waypoints: Seq<Waypoint>, id: usize)
    requires
        waypoint_table(waypoints).contains_key(id),
    ensures
        waypoint_table(waypoints)[id].id == id,
        waypoints.contains(waypoint_table(waypoints)[id]),
    decreases waypoints.len(),
{
    if waypoints.len() > 0 {
        let shorter = waypoints.drop_last();
        if waypoints.last().id == id {
            assert(waypoints[waypoints.len() - 1] == waypoint_table(waypoints)[id]);
        } else {
            lemma_waypoint_table_entries(shorter, id);
            let k = choose|k: int|
                0 <= k < shorter.len() && shorter[k] == waypoint_table(shorter)[id];
            assert(waypoints[k] == waypoint_table(waypoints)[id]);
        }
    }
}

/// Every entry of the settlement table is a settlement of the list,
/// filed under its id.
pub proof fn lemma_settlement_table_entries(settlements: Seq<Settlement>, id: usize)
    requires
        settlement_table(settlements).contains_key(id),
    ensures
        settlement_table(settlements)[id].id == id,
        settlements.contains(settlement_table(settlements)[id]),
    decreases settlements.len(),
{
    if settlements.len() > 0 {
        let shorter = settlements.drop_last();
        if settlements.last().id == id {
            assert(settlements[settlements.len() - 1] == settlement_table(settlements)[id]);
        } else {
            lemma_settlement_table_entries(shorter, id);
            let k = choose|k: int|
                0 <= k < shorter.len() && shorter[k] == settlement_table(shorter)[id];
            assert(settlements[k] == settlement_table(settlements)[id]);
        }
    }
}

/// Files the waypoints under their ids.
pub fn index_waypoints(waypoints: &Vec<Waypoint>) -> (table: HashMap<usize, Waypoint>)
    ensures
        table@ == waypoint_table(waypoints@),
{
    let mut table: HashMap<usize, Waypoint> = HashMap::new();
    let mut i: usize = 0;
    while i < waypoints.len()
        invariant
            i <= waypoints.len(),
            table@ == waypoint_table(waypoints@.take(i as int)),
        decreases waypoints.len() - i,
    {
        assert(waypoints@.take(i + 1).drop_last() =~= waypoints@.take(i as int));
        table.insert(waypoints[i].id, waypoints[i]);
        i = i + 1;
    }
    assert(waypoints@.take(i as int) =~= waypoints@);
    table
}

/// Files the settlements under their ids.
pub fn index_settlements(settlements: &Vec<Settlement>) -> (table: HashMap<usize, Settlement>)
    ensures
        table@ == settlement_table(settlements@),
{
    let mut table: HashMap<usize, Settlement> = HashMap::new();
    let mut i: usize = 0;
    while i < settlements.len()
        invariant
            i <= settlements.len(),
            table@ == settlement_table(settlements@.take(i as int)),
        decreases settlements.len() - i,
    {
        assert(settlements@.take(i + 1).drop_last() =~= settlements@.take(i as int));
        table.insert(settlements[i].id, settlements[i].clone());
        i = i + 1;
    }
    assert(settlements@.take(i as int) =~= settlements@);
    table
}

/// Whether the table holds the roads of the list, and no others, each
/// under its place in the list counted from 1.
pub open spec fn filed_in_order(table: Map<usize, Road>, roads: Seq<Road>) -> bool {
    &&& forall|id: usize| table.contains_key(id) <==> 1 <= id <= roads.len()
    &&& forall|k: int| 0 <= k < roads.len() ==> table[(k + 1) as usize] == #[trigger] roads[k]
}

/// Files the roads under their ids.
fn index_roads(roads: &Vec<Road>) -> (table: HashMap<usize, Road>)
    requires
        numbered_from_one(roads@),
    ensures
        filed_in_order(table@, roads@),
{
    let mut table: HashMap<usize, Road> = HashMap::new();
    let mut i: usize = 0;
    while i < roads.len()
        invariant
            i <= roads.len(),
            numbered_from_one(roads@),
            filed_in_order(table@, roads@.take(i as int)),
        decreases roads.len() - i,
    {
        let ghost before = table@;
        table.insert(roads[i].id, roads[i].clone());
        proof {
            let shorter = roads@.take(i as int);
            let longer = roads@.take(i + 1);
            assert(roads@[i as int].id == i + 1);
            assert forall|k: int| 0 <= k < longer.len() implies table@[(k + 1) as usize]
                == #[trigger] longer[k] by {
                if k < i {
                    assert(shorter[k] == longer[k]);
                    assert(before[(k + 1) as usize] == shorter[k]);
                }
            }
        }
        i = i + 1;
    }
    assert(roads@.take(i as int) =~= roads@);
    table
}

/// The endpoint pairs of a list of roads, in the same order.
pub open spec fn edges_of(views: Seq<RoadView>) -> Seq<(usize, usize)> {
    Seq::new(views.len(), |i: int| views[i].endpoints)
}

/// The bridging roads for a plan, with ids that count up behind
/// `built`.
pub open spec fn bridge_roads(built: int, plan: Seq<(usize, usize)>) -> Seq<RoadView> {
    Seq::new(plan.len(), |k: int| bridge_road(built + 1 + k, plan[k]))
}

/// The roads of the finished network, in the order of their ids: what
/// the builder lays, then what the repair adds to it.
pub open spec fn finished_roads(
    settlements: Seq<Settlement>,
    table: Map<usize, Waypoint>,
    hub_percent: Ratio,
    threshold: i64,
) -> Seq<RoadView> {
    let built = planned_roads(settlements, table, hub_percent, threshold);
    let plan = bridge_plan(
        components_in_order(edges_of(built), settlement_nodes(settlements)),
        table,
    );
    built + bridge_roads(built.len() as int, plan)
}

/// Why no network is assembled from the records, if none is: what the
/// builder refuses, or a lack of road ids for the repair.
pub open spec fn assembly_error(
    settlements: Seq<Settlement>,
    table: Map<usize, Waypoint>,
    hub_percent: Ratio,
    threshold: i64,
) -> Option<GenerationError> {
    match build_error(settlements, table, hub_percent, threshold) {
        Some(e) => Some(e),
        None => if finished_roads(settlements, table, hub_percent, threshold).len() > usize::MAX {
            Some(GenerationError::Invariant(InvariantViolation::RoadIdExhausted))
        } else {
            None
        },
    }
}

/// Whether the network is the one assembled from the records: the
/// waypoints and the settlements filed under their ids, and the finished
/// roads filed under the ids from 1 in their order.
pub open spec fn is_assembly(
    network: RoadNetwork,
    settlements: Seq<Settlement>,
    waypoints: Seq<Waypoint>,
    hub_percent: Ratio,
    threshold: i64,
) -> bool {
    let table = waypoint_table(waypoints);
    let finished = finished_roads(settlements, table, hub_percent, threshold);
    &&& network.waypoints@ == table
    &&& network.settlements@ == settlement_table(settlements)
    &&& forall|id: usize| network.roads@.contains_key(id) <==> 1 <= id <= finished.len()
    &&& forall|k: int|
        0 <= k < finished.len() ==> network.roads@[(k + 1) as usize]@ == #[trigger] finished[k]
    &&& forall|k: int| 0 <= k < finished.len() ==> (#[trigger] finished[k]).id == k + 1
}

/// Whether the roads of the finished network connect every settlement to
/// every other.
pub open spec fn settlements_connected(
    settlements: Seq<Settlement>,
    roads: Seq<RoadView>,
) -> bool {
    forall|i: int, j: int|
        0 <= i < settlements.len() && 0 <= j < settlements.len() ==> connected(
            edges_of(roads),
            (#[trigger] settlements[i]).waypoint_id,
            (#[trigger] settlements[j]).waypoint_id,
        )
}

/// Whether both ends of every road are in the table.
pub open spec fn ends_resolve(roads: Seq<RoadView>, table: Map<usize, Waypoint>) -> bool {
    forall|k: int|
        0 <= k < roads.len() ==> table.contains_key((#[trigger] roads[k]).endpoints.0)
            && table.contains_key(roads[k].endpoints.1)
}

/// Whether no road leads from a waypoint to itself.
pub open spec fn no_loops(roads: Seq<RoadView>) -> bool {
    forall|k: int| 0 <= k < roads.len() ==> (#[trigger] roads[k]).endpoints.0 != roads[k].endpoints.1
}

/// Roads that carry the ids from 1 in order have their number as the
/// largest id.
proof fn lemma_numbered_max(roads: Seq<Road>)
    requires
        numbered_from_one(roads),
    ensures
        max_road_id(roads) == roads.len(),
    decreases roads.len(),
{
    if roads.len() > 0 {
        let shorter = roads.drop_last();
        assert forall|k: int| 0 <= k < shorter.len() implies (#[trigger] shorter[k]).id == k + 1 by {
            assert(shorter[k] == roads[k]);
        }
        lemma_numbered_max(shorter);
    }
}

/// Lays and repairs the roads between the settlements and files all
/// records in one network.
///
/// The waypoints are filed first; the builder and the repair look the
/// settlements' positions up in that table.
pub fn assemble_network(
    settlements: &Vec<Settlement>,
    waypoints: &Vec<Waypoint>,
    hub_percent: Ratio,
    mesh_distance_threshold: i64,
) -> (result: Result<RoadNetwork, GenerationError>)
    ensures
        match result {
            Ok(network) => {
                &&& assembly_error(
                    settlements@,
                    waypoint_table(waypoints@),
                    hub_percent,
                    mesh_distance_threshold,
                ) is None
                &&& is_assembly(
                    network,
                    settlements@,
                    waypoints@,
                    hub_percent,
                    mesh_distance_threshold,
                )
                &&& network.well_formed()
                &&& settlements_connected(
                    settlements@,
                    finished_roads(
                        settlements@,
                        waypoint_table(waypoints@),
                        hub_percent,
                        mesh_distance_threshold,
                    ),
                )
                &&& ends_resolve(
                    finished_roads(
                        settlements@,
                        waypoint_table(waypoints@),
                        hub_percent,
                        mesh_distance_threshold,
                    ),
                    waypoint_table(waypoints@),
                )
                &&& distinct_waypoints(settlements@) ==> no_loops(
                    finished_roads(
                        settlements@,
                        waypoint_table(waypoints@),
                        hub_percent,
                        mesh_distance_threshold,
                    ),
                )
            },
            Err(e) => assembly_error(
                settlements@,
                waypoint_table(waypoints@),
                hub_percent,
                mesh_distance_threshold,
            ) == Some(e),
        },
{
    let table = index_waypoints(waypoints);
    let mut roads = match build_smart_roads(
        settlements,
        &table,
        hub_percent,
        mesh_distance_threshold,
    ) {
        Ok(roads) => roads,
        Err(e) => {
            return Err(e);
        },
    };
    let ghost built = roads@;
    let ghost planned = planned_roads(settlements@, table@, hub_percent, mesh_distance_threshold);
    let ghost finished = finished_roads(
        settlements@,
        table@,
        hub_percent,
        mesh_distance_threshold,
    );
    let ghost plan = repair_plan(settlements@, table@, built);
    proof {
        assert(endpoints_of(built) =~= edges_of(planned));
        assert(road_views(built).len() == built.len());
        lemma_numbered_max(built);
        assert(roads_resolve(built, table@)) by {
            assert forall|k: int| 0 <= k < built.len() implies table@.contains_key(
                (#[trigger] built[k]).endpoints.0,
            ) && table@.contains_key(built[k].endpoints.1) by {
                assert(joins_two_settlements(settlements@, built[k]));
            }
        }
        assert(finished.len() == built.len() + plan.len());
    }
    match ensure_connected_network(settlements, &table, &mut roads) {
        Ok(()) => {},
        Err(e) => {
            return Err(GenerationError::Invariant(e));
        },
    }
    proof {
        assert(road_views(roads@) =~= finished) by {
            assert forall|k: int| 0 <= k < finished.len() implies road_views(roads@)[k]
                == finished[k] by {
                if k < built.len() {
                    assert(roads@[k] == built[k]);
                    assert(road_views(built)[k] == built[k]@);
                } else {
                    let r = k - built.len();
                    assert((#[trigger] roads@[built.len() + r])@ == bridge_road(
                        max_road_id(built) + 1 + r,
                        plan[r],
                    ));
                }
            }
        }
        assert(endpoints_of(roads@) =~= edges_of(finished));
        assert(numbered_from_one(roads@)) by {
            assert forall|k: int| 0 <= k < roads@.len() implies (#[trigger] roads@[k]).id == k + 1 by {
                if k < built.len() {
                    assert(roads@[k] == built[k]);
                } else {
                    let r = k - built.len();
                    assert((#[trigger] roads@[built.len() + r])@ == bridge_road(
                        max_road_id(built) + 1 + r,
                        plan[r],
                    ));
                }
            }
        }
        assert(ends_resolve(finished, table@)) by {
            assert forall|k: int| 0 <= k < finished.len() implies table@.contains_key(
                (#[trigger] finished[k]).endpoints.0,
            ) && table@.contains_key(finished[k].endpoints.1) by {
                assert(finished[k] == roads@[k]@);
            }
        }
        if distinct_waypoints(settlements@) {
            assert forall|k: int| 0 <= k < finished.len() implies (#[trigger] finished[k]).endpoints.0
                != finished[k].endpoints.1 by {
                assert(finished[k] == roads@[k]@);
                if k < built.len() {
                    assert(roads@[k] == built[k]);
                    assert(joins_two_settlements(settlements@, built[k]));
                } else {
                    assert(is_no_loop(roads@[k]));
                }
            }
        }
        assert(settlements_connected(settlements@, finished));
    }
    let filed_roads = index_roads(&roads);
    let filed_settlements = index_settlements(settlements);
    proof {
        assert forall|k: int| 0 <= k < finished.len() implies filed_roads@[(k + 1) as usize]@
            == #[trigger] finished[k] by {
            assert(filed_roads@[(k + 1) as usize] == roads@[k]);
            assert(road_views(roads@)[k] == roads@[k]@);
        }
        assert forall|k: int| 0 <= k < finished.len() implies (#[trigger] finished[k]).id == k
            + 1 by {
            assert(road_views(roads@)[k] == roads@[k]@);
        }
    }
    let network =
        RoadNetwork { waypoints: table, roads: filed_roads, settlements: filed_settlements };
    proof {
        assert forall|id: usize| network.waypoints@.contains_key(id) implies (
        #[trigger] network.waypoints@[id]).id == id by {
            lemma_waypoint_table_entries(waypoints@, id);
        }
        assert forall|id: usize| network.settlements@.contains_key(id) implies (
        #[trigger] network.settlements@[id]).id == id && network.waypoints@.contains_key(
            network.settlements@[id].waypoint_id,
        ) by {
            lemma_settlement_table_entries(settlements@, id);
            let k = choose|k: int|
                0 <= k < settlements@.len() && settlements@[k] == settlement_table(
                    settlements@,
                )[id];
            assert(network.waypoints@.contains_key(settlements@[k].waypoint_id));
        }
        assert forall|id: usize| network.roads@.contains_key(id) implies (
        #[trigger] network.roads@[id]).id == id && network.waypoints@.contains_key(
            network.roads@[id].endpoints.0,
        ) && network.waypoints@.contains_key(network.roads@[id].endpoints.1) by {
            let k = id - 1;
            assert(network.roads@[(k + 1) as usize] == roads@[k]);
        }
    }
    Ok(network)
}

/// Every waypoint's id is a key of the table.
pub proof fn lemma_table_holds_ids(waypoints: Seq<Waypoint>, i: int)
    requires
        0 <= i < waypoints.len(),
    ensures
        waypoint_table(waypoints).contains_key(waypoints[i].id),
    decreases waypoints.len(),
{
    if i < waypoints.len() - 1 {
        lemma_table_holds_ids(waypoints.drop_last(), i);
    }
}

/// From `n` settlements a network of at most `n * n + 2 * n` roads is
/// assembled.
pub proof fn lemma_finished_bound(
    settlements: Seq<Settlement>,
    table: Map<usize, Waypoint>,
    hub_percent: Ratio,
    threshold: i64,
)
    ensures
        finished_roads(settlements, table, hub_percent, threshold).len() <= settlements.len()
            * settlements.len() + 2 * settlements.len(),
{
    let built = planned_roads(settlements, table, hub_percent, threshold);
    let nodes = settlement_nodes(settlements);
    let groups = components_in_order(edges_of(built), nodes);
    lemma_planned_bound(settlements, table, hub_percent, threshold);
    lemma_components_cover(edges_of(built), nodes);
    lemma_bridge_plan_len(groups, table);
}

/// What holds of every world that is generated: it is assembled from
/// settlements and waypoints as the generator makes them; its roads
/// connect every settlement to every other, end at waypoints of the
/// network, and never lead from a waypoint to itself.
pub open spec fn is_generated(network: RoadNetwork, config: SimulationConfig, pool: Seq<String>) -> bool {
    exists|settlements: Seq<Settlement>, waypoints: Seq<Waypoint>|
        {
            &&& #[trigger] well_spawned(
                settlements,
                waypoints,
                config.settlement_count,
                config.x_range,
                config.y_range,
                pool,
            )
            &&& is_assembly(
                network,
                settlements,
                waypoints,
                config.hub_percent,
                config.mesh_distance_threshold,
            )
            &&& network.well_formed()
            &&& settlements_connected(
                settlements,
                finished_roads(
                    settlements,
                    waypoint_table(waypoints),
                    config.hub_percent,
                    config.mesh_distance_threshold,
                ),
            )
            &&& ends_resolve(
                finished_roads(
                    settlements,
                    waypoint_table(waypoints),
                    config.hub_percent,
                    config.mesh_distance_threshold,
                ),
                waypoint_table(waypoints),
            )
            &&& no_loops(
                finished_roads(
                    settlements,
                    waypoint_table(waypoints),
                    config.hub_percent,
                    config.mesh_distance_threshold,
                ),
            )
        }
}

/// Generates a world: settlements within the configured ranges, the
/// roads between them, and the repair that connects them all.
///
/// A configuration that is refused is reported before anything is
/// drawn from the random source. A configuration that is accepted gives a
/// network unless the road ids run out, which they cannot while the
/// square of the settlement count, and twice the count on top, fit the
/// machine's word.
pub fn generate_world(
    config: &SimulationConfig,
    name_pool: &Vec<String>,
    rng: &mut StdRng,
) -> (result: Result<RoadNetwork, GenerationError>)
    ensures
        match result {
            Ok(network) => config_error(*config) is None && is_generated(
                network,
                *config,
                name_pool@,
            ),
            Err(e) => match config_error(*config) {
                Some(refused) => e == GenerationError::Config(refused) && *final(rng) == *old(rng),
                None => e == GenerationError::Invariant(InvariantViolation::RoadIdExhausted),
            },
        },
        config_error(*config) is None && config.settlement_count * config.settlement_count + 2
            * config.settlement_count <= usize::MAX ==> result is Ok,
{
    match check_config(config) {
        Ok(()) => {},
        Err(refused) => {
            return Err(GenerationError::Config(refused));
        },
    }
    let (settlements, waypoints) = match spawn_settlements(
        config.settlement_count,
        config.x_range,
        config.y_range,
        name_pool,
        rng,
    ) {
        Ok(spawned) => spawned,
        Err(refused) => {
            return Err(GenerationError::Config(refused));
        },
    };
    proof {
        let table = waypoint_table(waypoints@);
        assert(settlements_resolve(settlements@, table)) by {
            assert forall|i: int| 0 <= i < settlements@.len() implies table.contains_key(
                (#[trigger] settlements@[i]).waypoint_id,
            ) by {
                lemma_table_holds_ids(waypoints@, i);
                assert(waypoints@[i].id == i + 1);
            }
        }
        assert(distinct_waypoints(settlements@));
        lemma_finished_bound(
            settlements@,
            table,
            config.hub_percent,
            config.mesh_distance_threshold,
        );
        lemma_planned_bound(
            settlements@,
            table,
            config.hub_percent,
            config.mesh_distance_threshold,
        );
    }
    match assemble_network(
        &settlements,
        &waypoints,
        config.hub_percent,
        config.mesh_distance_threshold,
    ) {
        Ok(network) => {
            proof {
                assert(well_spawned(
                    settlements@,
                    waypoints@,
                    config.settlement_count,
                    config.x_range,
                    config.y_range,
                    name_pool@,
                ));
            }
            Ok(network)
        },
        Err(e) => Err(e),
    }
}

} // verus!
