//! Externally driven simulation step: time advances only when the
//! scheduler calls in.  The engine drains satellite batteries for the
//! elapsed time, refreshes the derived topology, and periodically
//! rebuilds the routing table; positions are never advanced here — they
//! change only through the explicit position update call.

use vstd::prelude::*;

use crate::mesh::{
    has_node, node_at, topology_consistent, MeshNetwork, TABLE_REBUILD_PERIOD,
};
use crate::node::{NetworkNode, NodeType};
use crate::routing;
use crate::routing::RouteError;
use crate::table::listed_neighbor;

verus! {

/// Battery level after `delta` seconds of drain at one thousandth per
/// second, floored at empty.
pub open spec fn spec_drained(bat: int, delta: int) -> int {
    if delta >= bat {
        0
    } else {
        bat - delta
    }
}

/// How one node record changes over a step: satellites lose one
/// thousandth of battery per second (floored at empty), everything else
/// stays as it was.
pub open spec fn node_after_step(post: NetworkNode, pre: NetworkNode, delta: int) -> bool {
    &&& post.node_id == pre.node_id
    &&& post.node_type == pre.node_type
    &&& post.position == pre.position
    &&& post.communication_range_m == pre.communication_range_m
    &&& post.is_active == pre.is_active
    &&& post.last_seen_ms == pre.last_seen_ms
    &&& post.neighbors@ == pre.neighbors@
    &&& post.battery_millis == (if pre.node_type == NodeType::CubeSat {
        spec_drained(pre.battery_millis as int, delta)
    } else {
        pre.battery_millis as int
    })
}

impl MeshNetwork {
    /// Advances the engine by `delta_seconds` of simulated time: drains
    /// satellite batteries, rebuilds the derived topology, and rebuilds
    /// the routing table when the delivered-packet counter sits on the
    /// rebuild cadence.
    pub fn simulate_network_step(&mut self, delta_seconds: u64) -> (r: Result<(), RouteError>)
        requires
            old(self).wf(),
        ensures
            final(self).wf(),
            r is Ok,
            final(self).nodes@.len() == old(self).nodes@.len(),
            forall|i: int|
                0 <= i < final(self).nodes@.len() ==> node_after_step(
                    #[trigger] final(self).nodes@[i],
                    old(self).nodes@[i],
                    delta_seconds as int,
                ),
            final(self).ground_stations@ == old(self).ground_stations@,
            final(self).statistics == old(self).statistics,
            topology_consistent(final(self).nodes@, final(self).topology),
            old(self).statistics.packets_routed % TABLE_REBUILD_PERIOD == 0 ==> forall|id: u32|
                #[trigger] routing::has_dest(final(self).routing_table.entries@, id)
                    <==> listed_neighbor(final(self).nodes@, id),
            old(self).statistics.packets_routed % TABLE_REBUILD_PERIOD != 0
                ==> final(self).routing_table == old(self).routing_table,
    {
        let ghost before = self.nodes@;
        let n = self.nodes.len();
        let mut rebuilt: Vec<NetworkNode> = Vec::new();
        let mut i: usize = 0;
        while i < n
            invariant
                i <= n,
                n == self.nodes@.len(),
                self.wf(),
                self.nodes@ == before,
                rebuilt@.len() == i,
                forall|ii: int|
                    0 <= ii < i ==> node_after_step(
                        #[trigger] rebuilt@[ii],
                        before[ii],
                        delta_seconds as int,
                    ),
            decreases n - i,
        {
            let is_sat = match self.nodes[i].node_type {
                NodeType::CubeSat => true,
                _ => false,
            };
            let bat = self.nodes[i].battery_millis;
            let new_bat: u32 = if is_sat {
                if delta_seconds >= bat as u64 {
                    0
                } else {
                    bat - delta_seconds as u32
                }
            } else {
                bat
            };
            let targets = crate::search::copy_route(&self.nodes[i].neighbors);
            let nn = NetworkNode {
                node_id: self.nodes[i].node_id,
                node_type: self.nodes[i].node_type,
                position: self.nodes[i].position,
                communication_range_m: self.nodes[i].communication_range_m,
                is_active: self.nodes[i].is_active,
                last_seen_ms: self.nodes[i].last_seen_ms,
                battery_millis: new_bat,
                neighbors: targets,
            };
            rebuilt.push(nn);
            i += 1;
        }
        self.nodes = rebuilt;
        proof {
            assert forall|a: int, b: int|
                0 <= a < b < self.nodes@.len() implies self.nodes@[a].node_id
                < self.nodes@[b].node_id by {
                assert(before[a].node_id < before[b].node_id);
            }
            assert forall|a: int| 0 <= a < self.nodes@.len() implies (
            #[trigger] self.nodes@[a]).wf() by {
                assert(before[a].wf());
            }
            assert forall|x: u32| #[trigger]
                has_node(self.nodes@, x) implies has_node(before, x) by {
                let ii = choose|ii: int|
                    0 <= ii < self.nodes@.len() && (#[trigger] self.nodes@[ii]).node_id == x;
                assert(before[ii].node_id == x);
            }
            assert forall|x: u32| #[trigger]
                has_node(before, x) implies has_node(self.nodes@, x) by {
                let ii = choose|ii: int|
                    0 <= ii < before.len() && (#[trigger] before[ii]).node_id == x;
                assert(self.nodes@[ii].node_id == x);
            }
            assert forall|k: int|
                0 <= k < self.ground_stations@.len() implies {
                &&& has_node(self.nodes@, #[trigger] self.ground_stations@[k])
                &&& node_at(self.nodes@, self.ground_stations@[k]).node_type
                    == NodeType::GroundStation
            } by {
                let g = self.ground_stations@[k];
                let jg = crate::mesh::index_of(before, g);
                crate::mesh::lemma_node_index_unique(before, jg, g);
                assert(self.nodes@[jg].node_id == g);
                crate::mesh::lemma_node_index_unique(self.nodes@, jg, g);
            }
            assert forall|a: int|
                0 <= a < self.nodes@.len() && (#[trigger] self.nodes@[a]).node_type
                    == NodeType::GroundStation implies self.ground_stations@.contains(
                self.nodes@[a].node_id,
            ) by {
                assert(before[a].node_type == self.nodes@[a].node_type);
                assert(before[a].node_id == self.nodes@[a].node_id);
            }
        }
        self.update_network_topology();
        if self.statistics.packets_routed % TABLE_REBUILD_PERIOD == 0 {
            match self.build_routing_table() {
                Ok(_) => {},
                Err(e) => {
                    return Err(e);
                },
            }
            // The table rebuild leaves the topology untouched, so the
            // maps stay consistent with the unchanged node set.
        }
        Ok(())
    }
}

} // verus!
