//! Network packets routed through the mesh.

use vstd::prelude::*;

use crate::clock;

verus! {

/// TTL a fresh packet starts with: the hop budget.
pub const INITIAL_TTL: u8 = 32;

/// Relies on rand::random (rand 0.8): an arbitrary value of the
/// requested type; nothing is assumed of it.
pub assume_specification<T>[ rand::random::<T> ]() -> (r: T)
    where
        rand::distributions::Standard: rand::distributions::Distribution<T>,
;

/// An application message in flight, with its hop budget and the ordered
/// history of visited node ids (source first).
#[derive(Clone, Debug)]
pub struct NetworkPacket {
    pub packet_id: u32,
    pub source: u32,
    pub destination: u32,
    pub next_hop: u32,
    pub ttl: u8,
    pub priority: u8,
    pub timestamp_ms: i64,
    pub payload: Vec<u8>,
    pub route_history: Vec<u32>,
}

impl NetworkPacket {
    /// Builds a fresh packet: random id, full hop budget, priority 1,
    /// the current time, and a route history holding only the source.
    pub fn new(source: u32, destination: u32, data: &[u8]) -> (p: NetworkPacket)
        ensures
            p.source == source,
            p.destination == destination,
            p.ttl == INITIAL_TTL,
            p.priority == 1,
            p.payload@ == data@,
            p.route_history@ == seq![source],
    {
        let mut history: Vec<u32> = Vec::new();
        history.push(source);
        proof {
            assert(history@ =~= seq![source]);
        }
        NetworkPacket {
            packet_id: rand::random::<u32>(),
            source,
            destination,
            next_hop: 0,
            ttl: INITIAL_TTL,
            priority: 1,
            timestamp_ms: clock::now_millis(),
            payload: vstd::slice::slice_to_vec(data),
            route_history: history,
        }
    }
}

} // verus!
