//! Network nodes and their geographic positions.

use vstd::prelude::*;

use crate::clock;
use crate::geo;

verus! {

/// Default communication range of a newly created satellite, in metres.
pub const CUBESAT_RANGE_M: u64 = 1_000_000;

/// Communication range every ground station keeps for its whole life,
/// in metres.
pub const GROUND_STATION_RANGE_M: u64 = 5_000_000;

/// Largest communication range the engine accepts, in metres.
pub const MAX_RANGE_M: u64 = 1_000_000_000;

/// A full battery, in thousandths.
pub const FULL_BATTERY: u32 = 1000;

/// Closed set of node kinds; behaviour differences (default range,
/// processing delay) key off this tag.
#[derive(Clone, Copy, Debug, PartialEq, Eq, Structural)]
pub enum NodeType {
    CubeSat,
    GroundStation,
    Relay,
}

/// Geographic position and velocity of a node.  Angles in millidegrees,
/// altitude in metres, velocity components in metres per second.
#[derive(Clone, Copy, Debug, PartialEq, Eq, Structural)]
pub struct OrbitalPosition {
    pub lat_mdeg: i32,
    pub lon_mdeg: i32,
    pub alt_m: u32,
    pub vel_x_mps: i32,
    pub vel_y_mps: i32,
    pub vel_z_mps: i32,
}

impl OrbitalPosition {
    /// A position the engine accepts: angles in range, altitude bounded.
    pub open spec fn wf(self) -> bool {
        &&& -90_000 <= self.lat_mdeg <= 90_000
        &&& -180_000 <= self.lon_mdeg <= 180_000
        &&& self.alt_m <= geo::MAX_ALTITUDE_M
    }
}

/// Squared Earth-centred Cartesian distance between two positions, in
/// square metres.
pub open spec fn spec_sq_dist(p: OrbitalPosition, q: OrbitalPosition) -> int {
    geo::spec_sq_dist(
        geo::spec_ecef_x(p.lat_mdeg as int, p.lon_mdeg as int, p.alt_m as int),
        geo::spec_ecef_y(p.lat_mdeg as int, p.lon_mdeg as int, p.alt_m as int),
        geo::spec_ecef_z(p.lat_mdeg as int, p.lon_mdeg as int, p.alt_m as int),
        geo::spec_ecef_x(q.lat_mdeg as int, q.lon_mdeg as int, q.alt_m as int),
        geo::spec_ecef_y(q.lat_mdeg as int, q.lon_mdeg as int, q.alt_m as int),
        geo::spec_ecef_z(q.lat_mdeg as int, q.lon_mdeg as int, q.alt_m as int),
    )
}

/// Distance between two positions in metres, rounded down.
pub open spec fn spec_distance_m(p: OrbitalPosition, q: OrbitalPosition) -> int {
    geo::sqrt_floor(spec_sq_dist(p, q) as nat) as int
}

/// The squared distance is non-negative, bounded, and symmetric.
pub proof fn lemma_sq_dist_bounds(p: OrbitalPosition, q: OrbitalPosition)
    requires
        p.wf(),
        q.wf(),
    ensures
        0 <= spec_sq_dist(p, q) < 160_000_000_000_000_000,
        spec_sq_dist(p, q) == spec_sq_dist(q, p),
{
    let x1 = geo::spec_ecef_x(p.lat_mdeg as int, p.lon_mdeg as int, p.alt_m as int);
    let y1 = geo::spec_ecef_y(p.lat_mdeg as int, p.lon_mdeg as int, p.alt_m as int);
    let z1 = geo::spec_ecef_z(p.lat_mdeg as int, p.lon_mdeg as int, p.alt_m as int);
    let x2 = geo::spec_ecef_x(q.lat_mdeg as int, q.lon_mdeg as int, q.alt_m as int);
    let y2 = geo::spec_ecef_y(q.lat_mdeg as int, q.lon_mdeg as int, q.alt_m as int);
    let z2 = geo::spec_ecef_z(q.lat_mdeg as int, q.lon_mdeg as int, q.alt_m as int);
    lemma_ecef_in_bounds(p);
    lemma_ecef_in_bounds(q);
    assert(0 <= (x1 - x2) * (x1 - x2) <= 45_259_158_564_000_000
        && (x1 - x2) * (x1 - x2) == (x2 - x1) * (x2 - x1)) by (nonlinear_arith)
        requires
            -106_371_000 <= x1 <= 106_371_000,
            -106_371_000 <= x2 <= 106_371_000,
    ;
    assert(0 <= (y1 - y2) * (y1 - y2) <= 45_259_158_564_000_000
        && (y1 - y2) * (y1 - y2) == (y2 - y1) * (y2 - y1)) by (nonlinear_arith)
        requires
            -106_371_000 <= y1 <= 106_371_000,
            -106_371_000 <= y2 <= 106_371_000,
    ;
    assert(0 <= (z1 - z2) * (z1 - z2) <= 45_259_158_564_000_000
        && (z1 - z2) * (z1 - z2) == (z2 - z1) * (z2 - z1)) by (nonlinear_arith)
        requires
            -106_371_000 <= z1 <= 106_371_000,
            -106_371_000 <= z2 <= 106_371_000,
    ;
}

/// Each Cartesian coordinate of an accepted position is bounded by
/// `geo::MAX_COORD_M`.
pub proof fn lemma_ecef_in_bounds(p: OrbitalPosition)
    requires
        p.wf(),
    ensures
        -106_371_000
            <= geo::spec_ecef_x(p.lat_mdeg as int, p.lon_mdeg as int, p.alt_m as int)
            <= 106_371_000,
        -106_371_000
            <= geo::spec_ecef_y(p.lat_mdeg as int, p.lon_mdeg as int, p.alt_m as int)
            <= 106_371_000,
        -106_371_000
            <= geo::spec_ecef_z(p.lat_mdeg as int, p.lon_mdeg as int, p.alt_m as int)
            <= 106_371_000,
{
    let lat = p.lat_mdeg as int;
    let lon = p.lon_mdeg as int;
    let alt = p.alt_m as int;
    let r = 6_371_000 + alt;
    geo::lemma_cos_bounds(lat);
    geo::lemma_cos_bounds(lon);
    geo::lemma_sin_bounds(lat);
    geo::lemma_sin_bounds(lon);
    let cl = geo::spec_cos(lat);
    assert(0 <= r * cl <= r * 1_000_000) by (nonlinear_arith)
        requires
            0 < r,
            0 <= cl <= 1_000_000,
    ;
    assert(0 <= r * cl / 1_000_000 <= r) by (nonlinear_arith)
        requires
            0 <= r * cl <= r * 1_000_000,
            0 < r,
    ;
    let t = r * cl / 1_000_000;
    lemma_scale_in_bounds(t, geo::spec_cos(lon));
    lemma_scale_in_bounds(t, geo::spec_sin(lon));
    lemma_scale_in_bounds(r, geo::spec_sin(lat));
}

proof fn lemma_scale_in_bounds(a: int, s: int)
    requires
        0 <= a <= 106_371_000,
        -1_000_000 <= s <= 1_000_000,
    ensures
        -a <= geo::spec_scale(a, s) <= a,
{
    if s >= 0 {
        assert(0 <= a * s <= a * 1_000_000) by (nonlinear_arith)
            requires
                0 <= a,
                0 <= s <= 1_000_000,
        ;
        assert(0 <= a * s / 1_000_000 <= a) by (nonlinear_arith)
            requires
                0 <= a * s <= a * 1_000_000,
                0 <= a,
        ;
    } else {
        assert(0 <= a * -s <= a * 1_000_000) by (nonlinear_arith)
            requires
                0 <= a,
                0 < -s <= 1_000_000,
        ;
        assert(0 <= a * -s / 1_000_000 <= a) by (nonlinear_arith)
            requires
                0 <= a * -s <= a * 1_000_000,
                0 <= a,
        ;
    }
}

/// Computes the distance in metres between two positions.
pub fn distance_m(p: &OrbitalPosition, q: &OrbitalPosition) -> (d: u64)
    requires
        p.wf(),
        q.wf(),
    ensures
        d == spec_distance_m(*p, *q),
        d < geo::MAX_DISTANCE_M,
{
    proof {
        lemma_sq_dist_bounds(*p, *q);
    }
    let (x1, y1, z1) = geo::ecef(p.lat_mdeg as i64, p.lon_mdeg as i64, p.alt_m as i64);
    let (x2, y2, z2) = geo::ecef(q.lat_mdeg as i64, q.lon_mdeg as i64, q.alt_m as i64);
    let dx: i64 = x1 - x2;
    let dy: i64 = y1 - y2;
    let dz: i64 = z1 - z2;
    proof {
        assert(0 <= dx * dx <= 45_259_158_564_000_000) by (nonlinear_arith)
            requires
                -212_742_000 <= dx <= 212_742_000,
        ;
        assert(0 <= dy * dy <= 45_259_158_564_000_000) by (nonlinear_arith)
            requires
                -212_742_000 <= dy <= 212_742_000,
        ;
        assert(0 <= dz * dz <= 45_259_158_564_000_000) by (nonlinear_arith)
            requires
                -212_742_000 <= dz <= 212_742_000,
        ;
    }
    let sq: i64 = dx * dx + dy * dy + dz * dz;
    let d = geo::isqrt(sq as u64);
    proof {
        geo::lemma_sqrt_floor_bounds(sq as nat);
        assert(d < 400_000_000) by (nonlinear_arith)
            requires
                d as int * d as int <= sq,
                sq < 160_000_000_000_000_000,
                d >= 0,
        {
            assert(400_000_000int * 400_000_000int == 160_000_000_000_000_000int);
        }
    }
    d
}

/// Distances between accepted positions stay below `geo::MAX_DISTANCE_M`.
pub proof fn lemma_distance_bound(p: OrbitalPosition, q: OrbitalPosition)
    requires
        p.wf(),
        q.wf(),
    ensures
        0 <= spec_distance_m(p, q) < 400_000_000,
{
    lemma_sq_dist_bounds(p, q);
    let sq = spec_sq_dist(p, q) as nat;
    geo::lemma_sqrt_floor_bounds(sq);
    let d = geo::sqrt_floor(sq);
    assert(d < 400_000_000) by (nonlinear_arith)
        requires
            d * d <= sq,
            sq < 160_000_000_000_000_000,
            d >= 0,
    {
        assert(400_000_000int * 400_000_000int == 160_000_000_000_000_000int);
    }
}

/// The distance relation is symmetric.
pub proof fn lemma_distance_symmetric(p: OrbitalPosition, q: OrbitalPosition)
    requires
        p.wf(),
        q.wf(),
    ensures
        spec_distance_m(p, q) == spec_distance_m(q, p),
{
    lemma_sq_dist_bounds(p, q);
}

/// True when every element of `s` is strictly below its successors:
/// sorted, with no duplicates.
pub open spec fn strictly_increasing(s: Seq<u32>) -> bool {
    forall|i: int, j: int| 0 <= i < j < s.len() ==> s[i] < s[j]
}

/// A member of the mesh: a satellite, a ground station or a relay,
/// together with its derived neighbour set.
#[derive(Clone, Debug)]
pub struct NetworkNode {
    pub node_id: u32,
    pub node_type: NodeType,
    pub position: OrbitalPosition,
    pub communication_range_m: u64,
    pub is_active: bool,
    pub last_seen_ms: i64,
    pub battery_millis: u32,
    pub neighbors: Vec<u32>,
}

impl NetworkNode {
    /// Validity of a node record.  Ground stations keep a full battery
    /// and the extended range for their whole life.
    pub open spec fn wf(self) -> bool {
        &&& self.position.wf()
        &&& 1 <= self.communication_range_m <= MAX_RANGE_M
        &&& self.battery_millis <= FULL_BATTERY
        &&& strictly_increasing(self.neighbors@)
        &&& self.node_type == NodeType::GroundStation ==> {
            &&& self.communication_range_m == GROUND_STATION_RANGE_M
            &&& self.battery_millis == FULL_BATTERY
        }
    }

    /// Creates a satellite with the default range and a full battery.
    pub fn new_cubesat(node_id: u32, position: OrbitalPosition) -> (n: NetworkNode)
        requires
            position.wf(),
        ensures
            n.wf(),
            n.node_id == node_id,
            n.node_type == NodeType::CubeSat,
            n.position == position,
            n.communication_range_m == CUBESAT_RANGE_M,
            n.is_active,
            n.battery_millis == FULL_BATTERY,
            n.neighbors@ == Seq::<u32>::empty(),
    {
        NetworkNode {
            node_id,
            node_type: NodeType::CubeSat,
            position,
            communication_range_m: CUBESAT_RANGE_M,
            is_active: true,
            last_seen_ms: clock::now_millis(),
            battery_millis: FULL_BATTERY,
            neighbors: Vec::new(),
        }
    }

    /// Creates a ground station at the given geographic location, with
    /// the extended range and a full battery.
    pub fn new_ground_station(node_id: u32, lat_mdeg: i32, lon_mdeg: i32) -> (n: NetworkNode)
        requires
            -90_000 <= lat_mdeg <= 90_000,
            -180_000 <= lon_mdeg <= 180_000,
        ensures
            n.wf(),
            n.node_id == node_id,
            n.node_type == NodeType::GroundStation,
            n.position.lat_mdeg == lat_mdeg,
            n.position.lon_mdeg == lon_mdeg,
            n.position.alt_m == 0,
            n.position.vel_x_mps == 0,
            n.position.vel_y_mps == 0,
            n.position.vel_z_mps == 0,
            n.communication_range_m == GROUND_STATION_RANGE_M,
            n.is_active,
            n.battery_millis == FULL_BATTERY,
            n.neighbors@ == Seq::<u32>::empty(),
    {
        NetworkNode {
            node_id,
            node_type: NodeType::GroundStation,
            position: OrbitalPosition {
                lat_mdeg,
                lon_mdeg,
                alt_m: 0,
                vel_x_mps: 0,
                vel_y_mps: 0,
                vel_z_mps: 0,
            },
            communication_range_m: GROUND_STATION_RANGE_M,
            is_active: true,
            last_seen_ms: clock::now_millis(),
            battery_millis: FULL_BATTERY,
            neighbors: Vec::new(),
        }
    }
}

} // verus!
