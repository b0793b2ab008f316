//! The ways in which generation can fail.

use vstd::prelude::*;

verus! {

/// A configuration value that generation cannot work with. It is
/// reported before any record is generated.
#[derive(Debug, Clone, Copy, PartialEq, Eq, Structural)]
pub enum ConfigError {
    /// The lower bound of the x range lies above its upper bound.
    InvalidXRange,
    /// The lower bound of the y range lies above its upper bound.
    InvalidYRange,
    /// The share of hubs is zero, above one, or has no denominator.
    InvalidHubPercent,
    /// The mesh distance threshold is negative.
    NegativeMeshThreshold,
}

/// A broken invariant of the data handed from one stage to the next.
#[derive(Debug, Clone, Copy, PartialEq, Eq, Structural)]
pub enum InvariantViolation {
    /// A settlement names a waypoint that the waypoint table lacks.
    MissingSettlementWaypoint,
    /// A road names a waypoint that the waypoint table lacks.
    MissingRoadEndpoint,
    /// No road id is left for a road that has to be added.
    RoadIdExhausted,
}

/// Why a generation call failed.
#[derive(Debug, Clone, Copy, PartialEq, Eq, Structural)]
pub enum GenerationError {
    Config(ConfigError),
    Invariant(InvariantViolation),
}

} // verus!
