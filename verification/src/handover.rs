//! Handover selector: chooses the best ground station for a satellite
//! by signal quality, with ties broken by the lowest station id.

use vstd::prelude::*;

use crate::mesh::{has_node, lemma_node_index_unique, node_at, sat_add64, spec_sat64, MeshNetwork};
use crate::node;
use crate::node::{NetworkNode, NodeType};
use crate::routing::RouteError;

verus! {

/// A station can serve the satellite when their distance does not
/// exceed the station's own range.
pub open spec fn spec_gs_eligible(sat: NetworkNode, gs: NetworkNode) -> bool {
    node::spec_distance_m(sat.position, gs.position) <= gs.communication_range_m
}

/// Signal quality of a station for the satellite:
/// `1 - distance / range`, floored at 0, in thousandths.
pub open spec fn spec_gs_signal(sat: NetworkNode, gs: NetworkNode) -> int {
    let q = 1000 - 1000 * node::spec_distance_m(sat.position, gs.position)
        / gs.communication_range_m as int;
    if q < 0 {
        0
    } else {
        q
    }
}

impl MeshNetwork {
    /// Selects the eligible ground station with the highest signal
    /// quality for the given satellite; ties resolve to the lowest
    /// station id.  Fails with `NotFound` for an unknown id and with
    /// `InvalidNode` for a node that is not a satellite; finding no
    /// eligible station is a `None` result, not an error.  A successful
    /// selection counts as one completed handover.
    pub fn handle_ground_station_handover(&mut self, cubesat_id: u32) -> (r: Result<
        Option<u32>,
        RouteError,
    >)
        requires
            old(self).wf(),
        ensures
            final(self).wf(),
            final(self).nodes@ == old(self).nodes@,
            final(self).routing_table == old(self).routing_table,
            final(self).ground_stations@ == old(self).ground_stations@,
            final(self).topology == old(self).topology,
            (r == Err::<Option<u32>, RouteError>(RouteError::NotFound)) <==> !has_node(
                old(self).nodes@,
                cubesat_id,
            ),
            (r == Err::<Option<u32>, RouteError>(RouteError::InvalidNode)) <==> (has_node(
                old(self).nodes@,
                cubesat_id,
            ) && node_at(old(self).nodes@, cubesat_id).node_type != NodeType::CubeSat),
            has_node(old(self).nodes@, cubesat_id) && node_at(
                old(self).nodes@,
                cubesat_id,
            ).node_type == NodeType::CubeSat ==> r is Ok,
            r matches Ok(o) ==> {
                let sat = node_at(old(self).nodes@, cubesat_id);
                match o {
                    None => forall|g: u32|
                        #[trigger] old(self).ground_stations@.contains(g) ==> !spec_gs_eligible(
                            sat,
                            node_at(old(self).nodes@, g),
                        ),
                    Some(g) => {
                        &&& old(self).ground_stations@.contains(g)
                        &&& spec_gs_eligible(sat, node_at(old(self).nodes@, g))
                        &&& forall|g2: u32|
                            #[trigger] old(self).ground_stations@.contains(g2)
                                && spec_gs_eligible(sat, node_at(old(self).nodes@, g2))
                                ==> (spec_gs_signal(sat, node_at(old(self).nodes@, g2))
                                < spec_gs_signal(sat, node_at(old(self).nodes@, g)) || (
                            spec_gs_signal(sat, node_at(old(self).nodes@, g2)) == spec_gs_signal(
                                sat,
                                node_at(old(self).nodes@, g),
                            ) && g <= g2))
                    },
                }
            },
            final(self).statistics.handovers_completed == (
            if r matches Ok(o) && o is Some {
                spec_sat64(old(self).statistics.handovers_completed + 1)
            } else {
                old(self).statistics.handovers_completed as int
            }),
            final(self).statistics.packets_routed == old(self).statistics.packets_routed,
            final(self).statistics.packets_dropped == old(self).statistics.packets_dropped,
            final(self).statistics.total_hops == old(self).statistics.total_hops,
            final(self).statistics.total_latency_ns == old(self).statistics.total_latency_ns,
    {
        let ghost nodes = self.nodes@;
        let si = match self.find_node_index(cubesat_id) {
            Some(i) => i,
            None => {
                return Err(RouteError::NotFound);
            },
        };
        proof {
            lemma_node_index_unique(nodes, si as int, cubesat_id);
        }
        let is_sat = match self.nodes[si].node_type {
            NodeType::CubeSat => true,
            _ => false,
        };
        if !is_sat {
            return Err(RouteError::InvalidNode);
        }
        let sat_pos = self.nodes[si].position;
        let ghost sat = nodes[si as int];
        let gn = self.ground_stations.len();
        let mut have = false;
        let mut best_id: u32 = 0;
        let mut best_q: u64 = 0;
        let ghost mut best_k: int = 0;
        let mut k: usize = 0;
        while k < gn
            invariant
                k <= gn,
                gn == self.ground_stations@.len(),
                self.wf(),
                nodes == self.nodes@,
                si < nodes.len(),
                sat == nodes[si as int],
                sat.wf(),
                sat_pos == sat.position,
                !have ==> forall|kk: int|
                    0 <= kk < k ==> !spec_gs_eligible(
                        sat,
                        node_at(nodes, #[trigger] self.ground_stations@[kk]),
                    ),
                have ==> {
                    &&& 0 <= best_k < k
                    &&& self.ground_stations@[best_k] == best_id
                    &&& spec_gs_eligible(sat, node_at(nodes, best_id))
                    &&& best_q == spec_gs_signal(sat, node_at(nodes, best_id))
                    &&& forall|kk: int|
                        0 <= kk < k && spec_gs_eligible(
                            sat,
                            node_at(nodes, #[trigger] self.ground_stations@[kk]),
                        ) ==> (spec_gs_signal(sat, node_at(nodes, self.ground_stations@[kk]))
                            < best_q || (spec_gs_signal(
                            sat,
                            node_at(nodes, self.ground_stations@[kk]),
                        ) == best_q && best_k <= kk))
                },
            decreases gn - k,
        {
            let g_id = self.ground_stations[k];
            match self.find_node_index(g_id) {
                None => {
                    proof {
                        assert(self.ground_stations@.contains(self.ground_stations@[k as int]));
                        assert(false);
                    }
                },
                Some(gi) => {
                    proof {
                        lemma_node_index_unique(nodes, gi as int, g_id);
                        assert(self.nodes@[gi as int].wf());
                    }
                    let gs_range = self.nodes[gi].communication_range_m;
                    let d = node::distance_m(&sat_pos, &self.nodes[gi].position);
                    if d <= gs_range {
                        proof {
                            vstd::arithmetic::div_mod::lemma_div_is_ordered(
                                1000 * d as int,
                                1000 * gs_range as int,
                                gs_range as int,
                            );
                            vstd::arithmetic::div_mod::lemma_div_by_multiple(
                                1000,
                                gs_range as int,
                            );
                            assert(1000 * (gs_range as int) == (gs_range as int) * 1000)
                                by (nonlinear_arith);
                            assert((1000 * d as int) / (gs_range as int) <= 1000);
                            vstd::arithmetic::div_mod::lemma_div_pos_is_pos(
                                1000 * d as int,
                                gs_range as int,
                            );
                        }
                        let q: u64 = 1000 - (1000 * d) / gs_range;
                        proof {
                            assert(q == spec_gs_signal(sat, node_at(nodes, g_id)));
                        }
                        if !have || q > best_q {
                            have = true;
                            best_id = g_id;
                            best_q = q;
                            proof {
                                best_k = k as int;
                            }
                        }
                    }
                },
            }
            k += 1;
        }
        if have {
            self.statistics.handovers_completed = sat_add64(
                self.statistics.handovers_completed,
                1,
            );
            proof {
                assert(self.ground_stations@.contains(best_id)) by {
                    assert(self.ground_stations@[best_k] == best_id);
                }
                assert forall|g2: u32|
                    #[trigger] self.ground_stations@.contains(g2) && spec_gs_eligible(
                        sat,
                        node_at(nodes, g2),
                    ) implies (spec_gs_signal(sat, node_at(nodes, g2)) < best_q || (
                spec_gs_signal(sat, node_at(nodes, g2)) == best_q && best_id <= g2)) by {
                    let kk = choose|kk: int|
                        0 <= kk < self.ground_stations@.len() && self.ground_stations@[kk] == g2;
                    if spec_gs_signal(sat, node_at(nodes, g2)) == best_q {
                        if kk < best_k {
                            assert(self.ground_stations@[kk] < self.ground_stations@[best_k]);
                        } else if best_k < kk {
                            assert(self.ground_stations@[best_k] < self.ground_stations@[kk]);
                        }
                    }
                }
            }
            Ok(Some(best_id))
        } else {
            proof {
                assert forall|g: u32| #[trigger]
                    self.ground_stations@.contains(g) implies !spec_gs_eligible(
                    sat,
                    node_at(nodes, g),
                ) by {
                    let kk = choose|kk: int|
                        0 <= kk < self.ground_stations@.len() && self.ground_stations@[kk] == g;
                }
            }
            Ok(None)
        }
    }
}

} // verus!
