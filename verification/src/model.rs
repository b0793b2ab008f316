//! The records that make up a road network.

use std::collections::HashMap;
use vstd::prelude::*;

verus! {

/// What a waypoint marks on the map.
#[derive(Debug, Clone, Copy, PartialEq, Eq, Structural)]
pub enum WaypointKind {
    Normal,
    Junction,
    Settlement,
}

/// A point of the road graph, placed on the integer grid.
#[derive(Debug, Clone, Copy, PartialEq, Eq)]
pub struct Waypoint {
    pub id: usize,
    pub position: (i32, i32),
    pub kind: WaypointKind,
}

/// A populated place, anchored at one waypoint.
#[derive(Debug, PartialEq, Eq)]
pub struct Settlement {
    pub id: usize,
    pub name: String,
    pub population: u32,
    pub waypoint_id: usize,
}

impl Clone for Settlement {
    fn clone(&self) -> (copy: Self)
        ensures
            copy == *self,
    {
        Settlement {
            id: self.id,
            name: self.name.clone(),
            population: self.population,
            waypoint_id: self.waypoint_id,
        }
    }
}

/// A road between two waypoints, given by their ids.
#[derive(Debug, PartialEq, Eq)]
pub struct Road {
    pub id: usize,
    pub name: Option<String>,
    pub endpoints: (usize, usize),
}

impl Clone for Road {
    fn clone(&self) -> (copy: Self)
        ensures
            copy == *self,
    {
        let name = match &self.name {
            Some(text) => Some(text.clone()),
            None => None,
        };
        Road { id: self.id, name, endpoints: self.endpoints }
    }
}

/// A road as contracts see it: the name is its sequence of characters.
pub struct RoadView {
    pub id: usize,
    pub name: Option<Seq<char>>,
    pub endpoints: (usize, usize),
}

impl View for Road {
    type V = RoadView;

    open spec fn view(&self) -> RoadView {
        RoadView {
            id: self.id,
            name: match self.name {
                Some(text) => Some(text@),
                None => None,
            },
            endpoints: self.endpoints,
        }
    }
}

/// The views of a list of roads, in the same order.
pub open spec fn road_views(roads: Seq<Road>) -> Seq<RoadView> {
    Seq::new(roads.len(), |i: int| roads[i]@)
}

/// The endpoint pairs of a list of roads, in the same order.
pub open spec fn endpoints_of(roads: Seq<Road>) -> Seq<(usize, usize)> {
    Seq::new(roads.len(), |i: int| roads[i].endpoints)
}

/// Whether the waypoint of every settlement is in the table.
pub open spec fn settlements_resolve(
    settlements: Seq<Settlement>,
    waypoints: Map<usize, Waypoint>,
) -> bool {
    forall|i: int|
        0 <= i < settlements.len() ==> waypoints.contains_key(
            (#[trigger] settlements[i]).waypoint_id,
        )
}

/// Whether both ends of every road are in the table.
pub open spec fn roads_resolve(roads: Seq<Road>, waypoints: Map<usize, Waypoint>) -> bool {
    forall|i: int|
        0 <= i < roads.len() ==> waypoints.contains_key((#[trigger] roads[i]).endpoints.0)
            && waypoints.contains_key(roads[i].endpoints.1)
}

/// A share of a whole, as a fraction.
#[derive(Debug, Clone, Copy, PartialEq, Eq, Structural)]
pub struct Ratio {
    pub numerator: u32,
    pub denominator: u32,
}

impl Ratio {
    /// Whether the fraction lies above zero and not above one.
    pub open spec fn is_share(self) -> bool {
        0 < self.numerator <= self.denominator
    }
}

/// The finished network: every record is filed under its id.
#[derive(Debug)]
pub struct RoadNetwork {
    pub waypoints: HashMap<usize, Waypoint>,
    pub roads: HashMap<usize, Road>,
    pub settlements: HashMap<usize, Settlement>,
}

impl RoadNetwork {
    /// Whether every record is filed under its own id, every settlement
    /// is anchored at a waypoint of the network, and every road ends at
    /// waypoints of the network.
    pub open spec fn well_formed(&self) -> bool {
        &&& forall|id: usize|
            self.waypoints@.contains_key(id) ==> (#[trigger] self.waypoints@[id]).id == id
        &&& forall|id: usize|
            self.settlements@.contains_key(id) ==> (#[trigger] self.settlements@[id]).id == id
                && self.waypoints@.contains_key(self.settlements@[id].waypoint_id)
        &&& forall|id: usize|
            self.roads@.contains_key(id) ==> (#[trigger] self.roads@[id]).id == id
                && self.waypoints@.contains_key(self.roads@[id].endpoints.0)
                && self.waypoints@.contains_key(self.roads@[id].endpoints.1)
    }
}

} // verus!
