//! The network builder: hubs by population, a spoke from every other
//! settlement to its nearest hub, and a mesh between settlements that lie
//! close to each other.

use crate::errors::{ConfigError, GenerationError, InvariantViolation};
use crate::metric::{sq_dist, squared_distance, within, within_threshold};
use crate::model::{
    road_views, settlements_resolve, Ratio, Road, RoadView, Settlement, Waypoint,
};
use crate::ordering::{
    is_stable_order, lemma_stable_order_exists, precedes, sort_indices, stable_order,
};
use crate::text::{make_mesh_name, make_spoke_name, mesh_name, spoke_name};
use std::collections::HashMap;
use vstd::prelude::*;

verus! {

broadcast use vstd::std_specs::hash::group_hash_axioms;

/// The quotient of `a` by `b`, rounded up.
pub open spec fn ceil_div(a: int, b: int) -> int {
    if a % b == 0 {
        a / b
    } else {
        a / b + 1
    }
}

/// How many of `total` settlements are hubs: the share of them, rounded
/// up, but at least one, and no more than there are.
pub open spec fn hub_count(total: int, share: Ratio) -> int {
    let wanted = ceil_div(share.numerator * total, share.denominator as int);
    let at_least_one = if wanted < 1 {
        1
    } else {
        wanted
    };
    if at_least_one > total {
        total
    } else {
        at_least_one
    }
}

/// `ceil_div` is the least integer that is not below the exact quotient.
pub proof fn lemma_ceil_div_is_ceiling(a: int, b: int)
    requires
        0 <= a,
        0 < b,
    ensures
        b * (ceil_div(a, b) - 1) < a <= b * ceil_div(a, b),
{
    vstd::arithmetic::div_mod::lemma_fundamental_div_mod(a, b);
    vstd::arithmetic::div_mod::lemma_mod_bound(a, b);
    let q = a / b;
    assert(b * (q + 1) == b * q + b) by (nonlinear_arith);
    assert(b * (q - 1) == b * q - b) by (nonlinear_arith);
}

/// Among one settlement or more there is at least one hub and never more
/// hubs than settlements.
pub proof fn lemma_hub_count_bounds(total: int, share: Ratio)
    requires
        total >= 1,
    ensures
        1 <= hub_count(total, share) <= total,
{
}

/// Computes `hub_count`.
pub fn count_hubs(total: usize, share: Ratio) -> (count: usize)
    requires
        share.denominator > 0,
    ensures
        count == hub_count(total as int, share),
{
    assert(0 <= share.numerator * total <= 0xffff_ffff * 0xffff_ffff_ffff_ffff) by (nonlinear_arith)
        requires
            0 <= share.numerator <= 0xffff_ffff,
            0 <= total <= 0xffff_ffff_ffff_ffff,
    ;
    let product: u128 = share.numerator as u128 * total as u128;
    let divisor: u128 = share.denominator as u128;
    assert(0 <= product as int / divisor as int <= product) by (nonlinear_arith)
        requires
            0 <= product,
            0 < divisor,
    ;
    let wanted: u128 = if product % divisor == 0 {
        product / divisor
    } else {
        product / divisor + 1
    };
    let at_least_one: u128 = if wanted < 1 {
        1
    } else {
        wanted
    };
    if at_least_one > total as u128 {
        total
    } else {
        at_least_one as usize
    }
}

/// The keys by which settlements are ranked: smaller for a larger
/// population.
pub open spec fn rank_keys(settlements: Seq<Settlement>) -> Seq<u64> {
    Seq::new(settlements.len(), |i: int| (u32::MAX - settlements[i].population) as u64)
}

/// The settlements by falling population; settlements with one
/// population keep the order of the list.
pub open spec fn ranked(settlements: Seq<Settlement>) -> Seq<Settlement> {
    let order = stable_order(rank_keys(settlements));
    Seq::new(settlements.len(), |k: int| settlements[order[k] as int])
}

/// Where the settlement lies.
pub open spec fn place(waypoints: Map<usize, Waypoint>, settlement: Settlement) -> (i32, i32) {
    waypoints[settlement.waypoint_id].position
}

/// Whether hub `h` is nearest to `from`, and first in the list among the
/// hubs that are equally near.
pub open spec fn is_nearest_hub(
    hubs: Seq<Settlement>,
    waypoints: Map<usize, Waypoint>,
    from: Settlement,
    h: int,
) -> bool {
    &&& 0 <= h < hubs.len()
    &&& forall|g: int|
        0 <= g < hubs.len() ==> sq_dist(place(waypoints, from), place(waypoints, hubs[h]))
            <= sq_dist(place(waypoints, from), place(waypoints, #[trigger] hubs[g]))
    &&& forall|g: int|
        0 <= g < h ==> sq_dist(place(waypoints, from), place(waypoints, hubs[h])) < sq_dist(
            place(waypoints, from),
            place(waypoints, #[trigger] hubs[g]),
        )
}

/// The hub nearest to `from`, as its position in the list of hubs.
pub open spec fn nearest_hub(
    hubs: Seq<Settlement>,
    waypoints: Map<usize, Waypoint>,
    from: Settlement,
) -> int {
    choose|h: int| is_nearest_hub(hubs, waypoints, from, h)
}

/// A settlement has one nearest hub and no other.
pub proof fn lemma_nearest_hub_unique(
    hubs: Seq<Settlement>,
    waypoints: Map<usize, Waypoint>,
    from: Settlement,
    h: int,
)
    requires
        is_nearest_hub(hubs, waypoints, from, h),
    ensures
        nearest_hub(hubs, waypoints, from) == h,
{
    let c = nearest_hub(hubs, waypoints, from);
    assert(is_nearest_hub(hubs, waypoints, from, c));
    if c < h {
        assert(sq_dist(place(waypoints, from), place(waypoints, hubs[h])) < sq_dist(
            place(waypoints, from),
            place(waypoints, hubs[c]),
        ));
        assert(sq_dist(place(waypoints, from), place(waypoints, hubs[c])) <= sq_dist(
            place(waypoints, from),
            place(waypoints, hubs[h]),
        ));
    } else if h < c {
        assert(sq_dist(place(waypoints, from), place(waypoints, hubs[c])) < sq_dist(
            place(waypoints, from),
            place(waypoints, hubs[h]),
        ));
        assert(sq_dist(place(waypoints, from), place(waypoints, hubs[h])) <= sq_dist(
            place(waypoints, from),
            place(waypoints, hubs[c]),
        ));
    }
}

/// The road from `from` to its nearest hub.
pub open spec fn spoke_road(
    hubs: Seq<Settlement>,
    waypoints: Map<usize, Waypoint>,
    from: Settlement,
    id: int,
) -> RoadView {
    let hub = hubs[nearest_hub(hubs, waypoints, from)];
    RoadView {
        id: id as usize,
        name: Some(spoke_name(from.name@, hub.name@)),
        endpoints: (from.waypoint_id, hub.waypoint_id),
    }
}

/// One spoke for each settlement that is no hub, in order, with ids from
/// 1.
pub open spec fn spoke_roads(
    hubs: Seq<Settlement>,
    others: Seq<Settlement>,
    waypoints: Map<usize, Waypoint>,
) -> Seq<RoadView> {
    Seq::new(others.len(), |k: int| spoke_road(hubs, waypoints, others[k], k + 1))
}

/// The pairs `(i, j)` with `i < j < upto` whose settlements lie within
/// the threshold of each other, by rising `j`.
pub open spec fn mesh_row(
    others: Seq<Settlement>,
    waypoints: Map<usize, Waypoint>,
    threshold: i64,
    i: int,
    upto: int,
) -> Seq<(int, int)>
    decreases upto - i,
{
    if upto <= i + 1 {
        Seq::empty()
    } else {
        let before = mesh_row(others, waypoints, threshold, i, upto - 1);
        if within(place(waypoints, others[i]), place(waypoints, others[upto - 1]), threshold) {
            before.push((i, upto - 1))
        } else {
            before
        }
    }
}

/// The pairs `(i, j)` with `i < j` and `i < rows` whose settlements lie
/// within the threshold of each other, by rising `i`, then by rising `j`.
pub open spec fn mesh_pairs(
    others: Seq<Settlement>,
    waypoints: Map<usize, Waypoint>,
    threshold: i64,
    rows: int,
) -> Seq<(int, int)>
    decreases rows,
{
    if rows <= 0 {
        Seq::empty()
    } else {
        mesh_pairs(others, waypoints, threshold, rows - 1) + mesh_row(
            others,
            waypoints,
            threshold,
            rows - 1,
            others.len() as int,
        )
    }
}

/// The mesh road between the two settlements of `pair`.
pub open spec fn mesh_road(others: Seq<Settlement>, pair: (int, int), id: int) -> RoadView {
    RoadView {
        id: id as usize,
        name: Some(mesh_name(others[pair.0].name@, others[pair.1].name@)),
        endpoints: (others[pair.0].waypoint_id, others[pair.1].waypoint_id),
    }
}

/// The roads of the given pairs, in order, with ids from `first_id`.
pub open spec fn mesh_roads(others: Seq<Settlement>, pairs: Seq<(int, int)>, first_id: int) -> Seq<
    RoadView,
> {
    Seq::new(pairs.len(), |q: int| mesh_road(others, pairs[q], first_id + q))
}

/// The roads that the builder lays: the spokes, then the mesh among the
/// settlements that are no hubs. The ids count up from 1.
pub open spec fn planned_roads(
    settlements: Seq<Settlement>,
    waypoints: Map<usize, Waypoint>,
    hub_percent: Ratio,
    threshold: i64,
) -> Seq<RoadView> {
    let line = ranked(settlements);
    let hubs = line.take(hub_count(line.len() as int, hub_percent));
    let others = line.skip(hub_count(line.len() as int, hub_percent));
    spoke_roads(hubs, others, waypoints) + mesh_roads(
        others,
        mesh_pairs(others, waypoints, threshold, others.len() as int),
        others.len() as int + 1,
    )
}

/// Why the builder refuses its input, if it does. The first failing test
/// decides: the share of hubs, the threshold, the settlements' waypoints,
/// then the supply of road ids.
pub open spec fn build_error(
    settlements: Seq<Settlement>,
    waypoints: Map<usize, Waypoint>,
    hub_percent: Ratio,
    threshold: i64,
) -> Option<GenerationError> {
    if !hub_percent.is_share() {
        Some(GenerationError::Config(ConfigError::InvalidHubPercent))
    } else if threshold < 0 {
        Some(GenerationError::Config(ConfigError::NegativeMeshThreshold))
    } else if !settlements_resolve(settlements, waypoints) {
        Some(GenerationError::Invariant(InvariantViolation::MissingSettlementWaypoint))
    } else if planned_roads(settlements, waypoints, hub_percent, threshold).len() > usize::MAX {
        Some(GenerationError::Invariant(InvariantViolation::RoadIdExhausted))
    } else {
        None
    }
}

/// Along the ranking the populations never rise, and settlements with
/// one population stand in the order of the list.
pub proof fn lemma_ranking_falls(settlements: Seq<Settlement>, a: int, b: int)
    requires
        settlements.len() <= usize::MAX,
        0 <= a < b < settlements.len(),
    ensures
        ranked(settlements)[a].population >= ranked(settlements)[b].population,
        ranked(settlements)[a].population == ranked(settlements)[b].population ==> stable_order(
            rank_keys(settlements),
        )[a] < stable_order(rank_keys(settlements))[b],
{
    let keys = rank_keys(settlements);
    lemma_stable_order_exists(keys);
    let order = stable_order(keys);
    assert(order[a] < settlements.len() && order[b] < settlements.len());
    assert(precedes(keys, order[a], order[b]));
}

/// The ranking holds every settlement of the list.
pub proof fn lemma_ranking_holds_all(settlements: Seq<Settlement>, i: int)
    requires
        settlements.len() <= usize::MAX,
        0 <= i < settlements.len(),
    ensures
        ranked(settlements).contains(settlements[i]),
{
    let keys = rank_keys(settlements);
    lemma_stable_order_exists(keys);
    let order = stable_order(keys);
    assert(order.contains(i as usize));
    let k = choose|k: int| 0 <= k < order.len() && order[k] == i as usize;
    assert(ranked(settlements)[k] == settlements[i]);
}

/// A row of the mesh holds the pair `(i, j)` if and only if `j` lies
/// behind `i` and before the row's bound and the two settlements lie
/// within the threshold; it holds no pair that starts elsewhere.
pub proof fn lemma_mesh_row_members(
    others: Seq<Settlement>,
    waypoints: Map<usize, Waypoint>,
    threshold: i64,
    i: int,
    upto: int,
    pair: (int, int),
)
    ensures
        mesh_row(others, waypoints, threshold, i, upto).contains(pair) <==> pair.0 == i && i
            < pair.1 < upto && within(
            place(waypoints, others[i]),
            place(waypoints, others[pair.1]),
            threshold,
        ),
    decreases upto - i,
{
    let row = mesh_row(others, waypoints, threshold, i, upto);
    if upto > i + 1 {
        let before = mesh_row(others, waypoints, threshold, i, upto - 1);
        lemma_mesh_row_members(others, waypoints, threshold, i, upto - 1, pair);
        if within(place(waypoints, others[i]), place(waypoints, others[upto - 1]), threshold) {
            assert(row == before.push((i, upto - 1)));
            if before.contains(pair) {
                let k = choose|k: int| 0 <= k < before.len() && before[k] == pair;
                assert(row[k] == pair);
            }
            if pair == (i, upto - 1) {
                assert(row[before.len() as int] == pair);
            }
            if row.contains(pair) {
                let k = choose|k: int| 0 <= k < row.len() && row[k] == pair;
                if k < before.len() {
                    assert(before[k] == pair);
                }
            }
        }
    }
}

/// The mesh holds the pair `(i, j)` if and only if `i` is one of its
/// rows, `j` lies behind `i`, and the two settlements lie within the
/// threshold.
pub proof fn lemma_mesh_pairs_members(
    others: Seq<Settlement>,
    waypoints: Map<usize, Waypoint>,
    threshold: i64,
    rows: int,
    pair: (int, int),
)
    ensures
        mesh_pairs(others, waypoints, threshold, rows).contains(pair) <==> 0 <= pair.0 < rows
            && pair.0 < pair.1 < others.len() && within(
            place(waypoints, others[pair.0]),
            place(waypoints, others[pair.1]),
            threshold,
        ),
    decreases rows,
{
    let all = mesh_pairs(others, waypoints, threshold, rows);
    if rows > 0 {
        let before = mesh_pairs(others, waypoints, threshold, rows - 1);
        let row = mesh_row(others, waypoints, threshold, rows - 1, others.len() as int);
        lemma_mesh_pairs_members(others, waypoints, threshold, rows - 1, pair);
        lemma_mesh_row_members(others, waypoints, threshold, rows - 1, others.len() as int, pair);
        assert(all == before + row);
        if before.contains(pair) {
            let k = choose|k: int| 0 <= k < before.len() && before[k] == pair;
            assert(all[k] == pair);
        }
        if row.contains(pair) {
            let k = choose|k: int| 0 <= k < row.len() && row[k] == pair;
            assert(all[before.len() + k] == pair);
        }
        if all.contains(pair) {
            let k = choose|k: int| 0 <= k < all.len() && all[k] == pair;
            if k < before.len() {
                assert(before[k] == pair);
            } else {
                assert(row[k - before.len()] == pair);
            }
        }
    }
}

/// Whether the road runs between the waypoints of two different
/// settlements of the list.
pub open spec fn joins_two_settlements(settlements: Seq<Settlement>, road: Road) -> bool {
    exists|i: int, j: int|
        0 <= i < settlements.len() && 0 <= j < settlements.len() && i != j && road.endpoints == (
            #[trigger] settlements[i].waypoint_id,
            #[trigger] settlements[j].waypoint_id,
        )
}

/// Whether no two settlements of the list share a waypoint.
pub open spec fn distinct_waypoints(settlements: Seq<Settlement>) -> bool {
    forall|i: int, j: int|
        0 <= i < settlements.len() && 0 <= j < settlements.len() && i != j ==> (
        #[trigger] settlements[i]).waypoint_id != (#[trigger] settlements[j]).waypoint_id
}

/// Whether the roads carry the ids from 1 in order.
pub open spec fn numbered_from_one(roads: Seq<Road>) -> bool {
    forall|k: int| 0 <= k < roads.len() ==> (#[trigger] roads[k]).id == k + 1
}

/// A row of the mesh grows with its bound.
proof fn lemma_mesh_row_grows(
    others: Seq<Settlement>,
    waypoints: Map<usize, Waypoint>,
    threshold: i64,
    i: int,
    shorter: int,
    longer: int,
)
    requires
        shorter <= longer,
    ensures
        mesh_row(others, waypoints, threshold, i, shorter).len() <= mesh_row(
            others,
            waypoints,
            threshold,
            i,
            longer,
        ).len(),
    decreases longer - shorter,
{
    if shorter < longer {
        lemma_mesh_row_grows(others, waypoints, threshold, i, shorter, longer - 1);
    }
}

/// The mesh grows with its number of rows.
proof fn lemma_mesh_pairs_grow(
    others: Seq<Settlement>,
    waypoints: Map<usize, Waypoint>,
    threshold: i64,
    fewer: int,
    more: int,
)
    requires
        fewer <= more,
    ensures
        mesh_pairs(others, waypoints, threshold, fewer).len() <= mesh_pairs(
            others,
            waypoints,
            threshold,
            more,
        ).len(),
    decreases more - fewer,
{
    if fewer < more {
        lemma_mesh_pairs_grow(others, waypoints, threshold, fewer, more - 1);
    }
}

proof fn lemma_mesh_row_bound(
    others: Seq<Settlement>,
    waypoints: Map<usize, Waypoint>,
    threshold: i64,
    i: int,
    upto: int,
)
    requires
        0 <= i,
    ensures
        mesh_row(others, waypoints, threshold, i, upto).len() <= if upto > 0 {
            upto
        } else {
            0
        },
    decreases upto - i,
{
    if upto > i + 1 {
        lemma_mesh_row_bound(others, waypoints, threshold, i, upto - 1);
    }
}

proof fn lemma_mesh_pairs_bound(
    others: Seq<Settlement>,
    waypoints: Map<usize, Waypoint>,
    threshold: i64,
    rows: int,
)
    requires
        0 <= rows,
    ensures
        mesh_pairs(others, waypoints, threshold, rows).len() <= rows * others.len(),
    decreases rows,
{
    if rows > 0 {
        lemma_mesh_pairs_bound(others, waypoints, threshold, rows - 1);
        lemma_mesh_row_bound(others, waypoints, threshold, rows - 1, others.len() as int);
        assert((rows - 1) * others.len() + others.len() == rows * others.len())
            by (nonlinear_arith);
    } else {
        assert(0 * others.len() == 0);
    }
}

/// Among `n` settlements the builder lays at most `n + n * n` roads.
pub proof fn lemma_planned_bound(
    settlements: Seq<Settlement>,
    waypoints: Map<usize, Waypoint>,
    hub_percent: Ratio,
    threshold: i64,
)
    ensures
        planned_roads(settlements, waypoints, hub_percent, threshold).len() <= settlements.len()
            + settlements.len() * settlements.len(),
{
    let n = settlements.len() as int;
    let line = ranked(settlements);
    let hubs_n = hub_count(n, hub_percent);
    let others = line.skip(hubs_n);
    let m = others.len() as int;
    assert(0 <= hubs_n <= n);
    assert(m == n - hubs_n);
    lemma_mesh_pairs_bound(others, waypoints, threshold, m);
    assert(m * m <= n * n) by (nonlinear_arith)
        requires
            0 <= m <= n,
    ;
}

/// Whether `order` ranks the settlements and `places` holds where they
/// lie, in ranked order.
spec fn lined_up(
    settlements: Seq<Settlement>,
    waypoints: Map<usize, Waypoint>,
    order: Seq<usize>,
    places: Seq<(i32, i32)>,
) -> bool {
    &&& is_stable_order(order, rank_keys(settlements))
    &&& order == stable_order(rank_keys(settlements))
    &&& places.len() == settlements.len()
    &&& forall|k: int|
        0 <= k < places.len() ==> #[trigger] places[k] == place(
            waypoints,
            settlements[order[k] as int],
        )
}

fn rank_settlements(settlements: &Vec<Settlement>) -> (order: Vec<usize>)
    ensures
        is_stable_order(order@, rank_keys(settlements@)),
        order@ == stable_order(rank_keys(settlements@)),
{
    let mut keys: Vec<u64> = Vec::new();
    let mut i: usize = 0;
    while i < settlements.len()
        invariant
            i <= settlements.len(),
            keys@.len() == i,
            forall|j: int| 0 <= j < i ==> keys@[j] == (u32::MAX - settlements@[j].population) as u64,
        decreases settlements.len() - i,
    {
        keys.push((u32::MAX - settlements[i].population) as u64);
        i = i + 1;
    }
    assert(keys@ =~= rank_keys(settlements@));
    sort_indices(&keys)
}

/// Looks up where each settlement lies, in ranked order; `None` where a
/// settlement's waypoint is not in the table.
fn resolve_places(
    settlements: &Vec<Settlement>,
    waypoints: &HashMap<usize, Waypoint>,
    order: &Vec<usize>,
) -> (found: Option<Vec<(i32, i32)>>)
    requires
        is_stable_order(order@, rank_keys(settlements@)),
        order@ == stable_order(rank_keys(settlements@)),
    ensures
        found is Some <==> settlements_resolve(settlements@, waypoints@),
        found matches Some(places) ==> lined_up(settlements@, waypoints@, order@, places@),
{
    let mut places: Vec<(i32, i32)> = Vec::new();
    let mut k: usize = 0;
    while k < order.len()
        invariant
            k <= order.len(),
            order@.len() == settlements@.len(),
            is_stable_order(order@, rank_keys(settlements@)),
            places@.len() == k,
            forall|j: int|
                0 <= j < k ==> waypoints@.contains_key(
                    settlements@[#[trigger] order@[j] as int].waypoint_id,
                ) && places@[j] == place(waypoints@, settlements@[order@[j] as int]),
        decreases order.len() - k,
    {
        match waypoints.get(&settlements[order[k]].waypoint_id) {
            Some(waypoint) => {
                let ghost before = places@;
                assert(waypoints@.contains_key(settlements@[order@[k as int] as int].waypoint_id));
                assert(*waypoint == waypoints@[settlements@[order@[k as int] as int].waypoint_id]);
                places.push(waypoint.position);
                assert forall|j: int| 0 <= j < k + 1 implies waypoints@.contains_key(
                    settlements@[#[trigger] order@[j] as int].waypoint_id,
                ) && places@[j] == place(waypoints@, settlements@[order@[j] as int]) by {
                    if j < k {
                        assert(places@[j] == before[j]);
                    }
                }
            },
            None => {
                return None;
            },
        }
        k = k + 1;
    }
    proof {
        assert forall|i: int| 0 <= i < settlements@.len() implies waypoints@.contains_key(
            (#[trigger] settlements@[i]).waypoint_id,
        ) by {
            assert(order@.contains(i as usize));
            let j = choose|j: int| 0 <= j < order@.len() && order@[j] == i as usize;
            assert(places@[j] == place(waypoints@, settlements@[order@[j] as int]));
        }
        assert forall|j: int| 0 <= j < places@.len() implies #[trigger] places@[j] == place(
            waypoints@,
            settlements@[order@[j] as int],
        ) by {
            assert(order@[j] < settlements@.len());
        }
    }
    Some(places)
}

/// Finds, among the first `hub_total` places, the one nearest to `from`;
/// among equally near ones the first.
fn nearest_place(places: &Vec<(i32, i32)>, hub_total: usize, from: (i32, i32)) -> (best: usize)
    requires
        1 <= hub_total <= places.len(),
    ensures
        best < hub_total,
        forall|g: int|
            0 <= g < hub_total ==> sq_dist(from, places@[best as int]) <= sq_dist(
                from,
                #[trigger] places@[g],
            ),
        forall|g: int|
            0 <= g < best ==> sq_dist(from, places@[best as int]) < sq_dist(
                from,
                #[trigger] places@[g],
            ),
{
    let mut best: usize = 0;
    let mut nearest: u128 = squared_distance(from, places[0]);
    let mut g: usize = 1;
    while g < hub_total
        invariant
            1 <= g <= hub_total <= places.len(),
            best < g,
            nearest == sq_dist(from, places@[best as int]),
            forall|x: int| 0 <= x < g ==> nearest <= sq_dist(from, #[trigger] places@[x]),
            forall|x: int| 0 <= x < best ==> nearest < sq_dist(from, #[trigger] places@[x]),
        decreases hub_total - g,
    {
        let d = squared_distance(from, places[g]);
        if d < nearest {
            best = g;
            nearest = d;
        }
        g = g + 1;
    }
    best
}

/// Lays one spoke from each settlement that is no hub to its nearest hub.
fn lay_spokes(
    settlements: &Vec<Settlement>,
    order: &Vec<usize>,
    places: &Vec<(i32, i32)>,
    hub_total: usize,
    Ghost(waypoints): Ghost<Map<usize, Waypoint>>,
) -> (roads: Vec<Road>)
    requires
        lined_up(settlements@, waypoints, order@, places@),
        hub_total <= settlements@.len(),
        settlements@.len() > 0 ==> hub_total >= 1,
    ensures
        road_views(roads@) == spoke_roads(
            ranked(settlements@).take(hub_total as int),
            ranked(settlements@).skip(hub_total as int),
            waypoints,
        ),
        roads@.len() == settlements@.len() - hub_total,
        numbered_from_one(roads@),
        forall|q: int| 0 <= q < roads@.len() ==> joins_two_settlements(settlements@, #[trigger] roads@[q]),
{
    let ghost line = ranked(settlements@);
    let ghost hubs = line.take(hub_total as int);
    let ghost others = line.skip(hub_total as int);
    let total = settlements.len();
    let mut roads: Vec<Road> = Vec::new();
    let mut k: usize = hub_total;
    while k < total
        invariant
            hub_total <= k <= total,
            total == settlements@.len(),
            total > 0 ==> hub_total >= 1,
            lined_up(settlements@, waypoints, order@, places@),
            line == ranked(settlements@),
            hubs == line.take(hub_total as int),
            others == line.skip(hub_total as int),
            roads@.len() == k - hub_total,
            forall|q: int|
                0 <= q < roads@.len() ==> (#[trigger] roads@[q])@ == spoke_road(
                    hubs,
                    waypoints,
                    others[q],
                    q + 1,
                ),
            numbered_from_one(roads@),
            forall|q: int|
                0 <= q < roads@.len() ==> joins_two_settlements(settlements@, #[trigger] roads@[q]),
        decreases total - k,
    {
        let best = nearest_place(places, hub_total, places[k]);
        let from = &settlements[order[k]];
        let hub = &settlements[order[best]];
        proof {
            assert(others[k - hub_total] == line[k as int]);
            assert(line[k as int] == *from);
            assert(hubs[best as int] == *hub);
            assert(places@[k as int] == place(waypoints, *from));
            assert(is_nearest_hub(hubs, waypoints, *from, best as int)) by {
                assert forall|g: int| 0 <= g < hubs.len() implies sq_dist(
                    place(waypoints, *from),
                    place(waypoints, hubs[best as int]),
                ) <= sq_dist(place(waypoints, *from), place(waypoints, #[trigger] hubs[g])) by {
                    assert(places@[g] == place(waypoints, hubs[g]));
                    assert(places@[best as int] == place(waypoints, hubs[best as int]));
                }
                assert forall|g: int| 0 <= g < best implies sq_dist(
                    place(waypoints, *from),
                    place(waypoints, hubs[best as int]),
                ) < sq_dist(place(waypoints, *from), place(waypoints, #[trigger] hubs[g])) by {
                    assert(places@[g] == place(waypoints, hubs[g]));
                    assert(places@[best as int] == place(waypoints, hubs[best as int]));
                }
            }
            lemma_nearest_hub_unique(hubs, waypoints, *from, best as int);
        }
        let name = make_spoke_name(&from.name, &hub.name);
        let id: usize = k - hub_total + 1;
        let ghost before = roads@;
        roads.push(Road { id, name: Some(name), endpoints: (from.waypoint_id, hub.waypoint_id) });
        proof {
            assert forall|q: int| 0 <= q < roads@.len() implies (#[trigger] roads@[q])@
                == spoke_road(hubs, waypoints, others[q], q + 1) by {
                if q < before.len() {
                    assert(roads@[q] == before[q]);
                }
            }
            assert(precedes(rank_keys(settlements@), order@[best as int], order@[k as int]));
            assert(order@[best as int] != order@[k as int]);
            assert forall|q: int| 0 <= q < roads@.len() implies joins_two_settlements(
                settlements@,
                #[trigger] roads@[q],
            ) by {
                if q < before.len() {
                    assert(roads@[q] == before[q]);
                } else {
                    assert(roads@[q].endpoints == (
                        settlements@[order@[k as int] as int].waypoint_id,
                        settlements@[order@[best as int] as int].waypoint_id,
                    ));
                }
            }
            assert forall|q: int| 0 <= q < roads@.len() implies (#[trigger] roads@[q]).id == q + 1 by {
                if q < before.len() {
                    assert(roads@[q] == before[q]);
                }
            }
        }
        k = k + 1;
    }
    assert(road_views(roads@) =~= spoke_roads(hubs, others, waypoints));
    roads
}

/// Appends the mesh among the settlements that are no hubs. Gives
/// `false` where the road ids run out; the roads are then of no use.
fn lay_mesh(
    settlements: &Vec<Settlement>,
    order: &Vec<usize>,
    places: &Vec<(i32, i32)>,
    hub_total: usize,
    threshold: i64,
    roads: &mut Vec<Road>,
    Ghost(waypoints): Ghost<Map<usize, Waypoint>>,
) -> (complete: bool)
    requires
        lined_up(settlements@, waypoints, order@, places@),
        hub_total <= settlements@.len(),
        threshold >= 0,
        old(roads)@.len() == settlements@.len() - hub_total,
        numbered_from_one(old(roads)@),
        forall|q: int|
            0 <= q < old(roads)@.len() ==> joins_two_settlements(
                settlements@,
                #[trigger] old(roads)@[q],
            ),
    ensures
        complete ==> numbered_from_one(final(roads)@),
        complete ==> forall|q: int|
            0 <= q < final(roads)@.len() ==> joins_two_settlements(
                settlements@,
                #[trigger] final(roads)@[q],
            ),
        complete <==> settlements@.len() - hub_total + mesh_pairs(
            ranked(settlements@).skip(hub_total as int),
            waypoints,
            threshold,
            settlements@.len() - hub_total,
        ).len() <= usize::MAX,
        complete ==> road_views(final(roads)@) == road_views(old(roads)@) + mesh_roads(
            ranked(settlements@).skip(hub_total as int),
            mesh_pairs(
                ranked(settlements@).skip(hub_total as int),
                waypoints,
                threshold,
                settlements@.len() - hub_total,
            ),
            settlements@.len() - hub_total + 1,
        ),
{
    let ghost line = ranked(settlements@);
    let ghost others = line.skip(hub_total as int);
    let ghost base = roads@;
    let total = settlements.len();
    let ghost m = total - hub_total;
    let ghost mut pairs: Seq<(int, int)> = Seq::empty();
    let mut i: usize = hub_total;
    while i < total
        invariant
            hub_total <= i <= total,
            total == settlements@.len(),
            m == total - hub_total,
            threshold >= 0,
            lined_up(settlements@, waypoints, order@, places@),
            line == ranked(settlements@),
            others == line.skip(hub_total as int),
            base.len() == m,
            pairs == mesh_pairs(others, waypoints, threshold, i - hub_total),
            roads@.len() == base.len() + pairs.len(),
            numbered_from_one(roads@),
            forall|q: int|
                0 <= q < roads@.len() ==> joins_two_settlements(settlements@, #[trigger] roads@[q]),
            forall|q: int| 0 <= q < base.len() ==> #[trigger] roads@[q] == base[q],
            forall|q: int|
                0 <= q < pairs.len() ==> (#[trigger] roads@[base.len() + q])@ == mesh_road(
                    others,
                    pairs[q],
                    m + 1 + q,
                ),
        decreases total - i,
    {
        let ghost row_start = pairs;
        let mut j: usize = i + 1;
        while j < total
            invariant
                hub_total <= i < j <= total,
                total == settlements@.len(),
                m == total - hub_total,
                threshold >= 0,
                lined_up(settlements@, waypoints, order@, places@),
                line == ranked(settlements@),
                others == line.skip(hub_total as int),
                base.len() == m,
                row_start == mesh_pairs(others, waypoints, threshold, i - hub_total),
                pairs == row_start + mesh_row(
                    others,
                    waypoints,
                    threshold,
                    i - hub_total,
                    j - hub_total,
                ),
                roads@.len() == base.len() + pairs.len(),
                numbered_from_one(roads@),
                forall|q: int|
                    0 <= q < roads@.len() ==> joins_two_settlements(
                        settlements@,
                        #[trigger] roads@[q],
                    ),
                forall|q: int| 0 <= q < base.len() ==> #[trigger] roads@[q] == base[q],
                forall|q: int|
                    0 <= q < pairs.len() ==> (#[trigger] roads@[base.len() + q])@ == mesh_road(
                        others,
                        pairs[q],
                        m + 1 + q,
                    ),
            decreases total - j,
        {
            let a = &settlements[order[i]];
            let b = &settlements[order[j]];
            proof {
                assert(others[i - hub_total] == *a);
                assert(others[j - hub_total] == *b);
                assert(places@[i as int] == place(waypoints, *a));
                assert(places@[j as int] == place(waypoints, *b));
            }
            let ghost row = mesh_row(others, waypoints, threshold, i - hub_total, j - hub_total);
            if within_threshold(places[i], places[j], threshold) {
                let ghost pair = (i - hub_total, j - hub_total);
                proof {
                    assert(mesh_row(others, waypoints, threshold, i - hub_total, j + 1 - hub_total)
                        == row.push(pair));
                    assert(row_start + row.push(pair) =~= pairs.push(pair));
                }
                if roads.len() == usize::MAX {
                    proof {
                        lemma_mesh_row_grows(
                            others,
                            waypoints,
                            threshold,
                            i - hub_total,
                            j + 1 - hub_total,
                            m,
                        );
                        lemma_mesh_pairs_grow(others, waypoints, threshold, i - hub_total + 1, m);
                        assert(others.len() == m);
                        assert(mesh_pairs(others, waypoints, threshold, i - hub_total + 1)
                            == row_start + mesh_row(others, waypoints, threshold, i - hub_total, m));
                        let full_row = mesh_row(others, waypoints, threshold, i - hub_total, m);
                        let next_row = mesh_row(
                            others,
                            waypoints,
                            threshold,
                            i - hub_total,
                            j + 1 - hub_total,
                        );
                        assert(next_row.len() == row.len() + 1);
                        assert((row_start + full_row).len() == row_start.len() + full_row.len());
                        assert((row_start + row).len() == row_start.len() + row.len());
                        assert(mesh_pairs(others, waypoints, threshold, m).len() > pairs.len());
                    }
                    return false;
                }
                let name = make_mesh_name(&a.name, &b.name);
                let id: usize = roads.len() + 1;
                let ghost before = roads@;
                roads.push(
                    Road { id, name: Some(name), endpoints: (a.waypoint_id, b.waypoint_id) },
                );
                proof {
                    let longer = pairs.push(pair);
                    assert forall|q: int| 0 <= q < base.len() implies #[trigger] roads@[q]
                        == base[q] by {
                        assert(roads@[q] == before[q]);
                    }
                    assert forall|q: int| 0 <= q < longer.len() implies (#[trigger] roads@[base.len()
                        + q])@ == mesh_road(others, longer[q], m + 1 + q) by {
                        if q < pairs.len() {
                            assert(roads@[base.len() + q] == before[base.len() + q]);
                        }
                    }
                    assert(precedes(rank_keys(settlements@), order@[i as int], order@[j as int]));
                    assert(order@[i as int] != order@[j as int]);
                    assert forall|q: int| 0 <= q < roads@.len() implies joins_two_settlements(
                        settlements@,
                        #[trigger] roads@[q],
                    ) by {
                        if q < before.len() {
                            assert(roads@[q] == before[q]);
                        } else {
                            assert(roads@[q].endpoints == (
                                settlements@[order@[i as int] as int].waypoint_id,
                                settlements@[order@[j as int] as int].waypoint_id,
                            ));
                        }
                    }
                    assert forall|q: int| 0 <= q < roads@.len() implies (#[trigger] roads@[q]).id
                        == q + 1 by {
                        if q < before.len() {
                            assert(roads@[q] == before[q]);
                        }
                    }
                    pairs = longer;
                }
            } else {
                proof {
                    assert(mesh_row(others, waypoints, threshold, i - hub_total, j + 1 - hub_total)
                        == row);
                }
            }
            j = j + 1;
        }
        proof {
            assert(others.len() == m);
            assert(mesh_pairs(others, waypoints, threshold, i + 1 - hub_total) == row_start
                + mesh_row(others, waypoints, threshold, i - hub_total, m));
        }
        i = i + 1;
    }
    let count = roads.len();
    proof {
        assert(pairs == mesh_pairs(others, waypoints, threshold, m));
        let laid = road_views(base) + mesh_roads(others, pairs, m + 1);
        assert(road_views(roads@).len() == laid.len());
        assert forall|q: int| 0 <= q < laid.len() implies road_views(roads@)[q] == laid[q] by {
            if q < base.len() {
                assert(roads@[q] == base[q]);
            } else {
                let r = q - base.len();
                assert((#[trigger] roads@[base.len() + r])@ == mesh_road(others, pairs[r], m + 1 + r));
            }
        }
        assert(road_views(roads@) =~= laid);
    }
    true
}

/// Lays the roads between the settlements.
///
/// The settlements are ranked by falling population, equal populations in
/// the order of the list. The first `hub_count` of them are hubs. Every
/// other settlement gets a spoke to its nearest hub, the first in rank
/// among equally near ones. Then every two settlements that are no hubs
/// and lie within the threshold of each other, the boundary included,
/// get a road of the mesh. The road ids count up from 1 in this order.
pub fn build_smart_roads(
    settlements: &Vec<Settlement>,
    waypoints: &HashMap<usize, Waypoint>,
    hub_percent: Ratio,
    mesh_distance_threshold: i64,
) -> (result: Result<Vec<Road>, GenerationError>)
    ensures
        match result {
            Ok(roads) => {
                &&& build_error(settlements@, waypoints@, hub_percent, mesh_distance_threshold) is None
                &&& road_views(roads@) == planned_roads(
                    settlements@,
                    waypoints@,
                    hub_percent,
                    mesh_distance_threshold,
                )
                &&& numbered_from_one(roads@)
                &&& forall|k: int|
                    0 <= k < roads@.len() ==> joins_two_settlements(
                        settlements@,
                        #[trigger] roads@[k],
                    )
                &&& distinct_waypoints(settlements@) ==> forall|k: int|
                    0 <= k < roads@.len() ==> (#[trigger] roads@[k]).endpoints.0
                        != roads@[k].endpoints.1
            },
            Err(e) => build_error(settlements@, waypoints@, hub_percent, mesh_distance_threshold)
                == Some(e),
        },
{
    if hub_percent.numerator == 0 || hub_percent.numerator > hub_percent.denominator {
        return Err(GenerationError::Config(ConfigError::InvalidHubPercent));
    }
    if mesh_distance_threshold < 0 {
        return Err(GenerationError::Config(ConfigError::NegativeMeshThreshold));
    }
    let order = rank_settlements(settlements);
    let places = match resolve_places(settlements, waypoints, &order) {
        Some(places) => places,
        None => {
            return Err(GenerationError::Invariant(InvariantViolation::MissingSettlementWaypoint));
        },
    };
    let hub_total = count_hubs(settlements.len(), hub_percent);
    let mut roads = lay_spokes(settlements, &order, &places, hub_total, Ghost(waypoints@));
    let ghost spokes = roads@;
    assert(road_views(spokes).len() == spokes.len());
    let complete = lay_mesh(
        settlements,
        &order,
        &places,
        hub_total,
        mesh_distance_threshold,
        &mut roads,
        Ghost(waypoints@),
    );
    if !complete {
        return Err(GenerationError::Invariant(InvariantViolation::RoadIdExhausted));
    }
    proof {
        if distinct_waypoints(settlements@) {
            assert forall|k: int| 0 <= k < roads@.len() implies (#[trigger] roads@[k]).endpoints.0
                != roads@[k].endpoints.1 by {
                assert(joins_two_settlements(settlements@, roads@[k]));
            }
        }
    }
    Ok(roads)
}

} // verus!
