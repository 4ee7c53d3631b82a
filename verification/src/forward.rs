//! Packet forwarder and handover selector: hop-by-hop transit with TTL
//! protection and delay accounting, plus ground-station selection for a
//! satellite, and the externally driven simulation step.

use vstd::prelude::*;

use crate::mesh::{has_node, is_route, node_at, reachable, sat_add64, spec_sat64, MeshNetwork};
use crate::search::min_cost_route;
use crate::node;
use crate::node::{NetworkNode, NodeType};
use crate::packet::NetworkPacket;
use crate::routing;
use crate::routing::RouteError;

verus! {

/// Fixed per-hop processing delay, keyed by the receiving node's type,
/// in nanoseconds.
pub open spec fn spec_processing_delay_ns(t: NodeType) -> int {
    match t {
        NodeType::CubeSat => 1_000_000,
        NodeType::GroundStation => 5_000_000,
        NodeType::Relay => 2_000_000,
    }
}

/// Delay of one hop in nanoseconds: light propagation over the distance
/// plus the receiver's processing delay; a fixed second when either
/// endpoint is unknown.
pub open spec fn spec_hop_delay_ns(nodes: Seq<NetworkNode>, from: u32, to: u32) -> int {
    if has_node(nodes, from) && has_node(nodes, to) {
        node::spec_distance_m(node_at(nodes, from).position, node_at(nodes, to).position)
            * 1_000_000_000 / 299_792_458 + spec_processing_delay_ns(node_at(nodes, to).node_type)
    } else {
        1_000_000_000
    }
}

/// Total delay of a walk starting at `prev`, in nanoseconds.
pub open spec fn spec_route_delay_ns(nodes: Seq<NetworkNode>, prev: u32, hops: Seq<u32>) -> int
    decreases hops.len(),
{
    if hops.len() == 0 {
        0
    } else {
        spec_hop_delay_ns(nodes, prev, hops[0]) + spec_route_delay_ns(
            nodes,
            hops[0],
            hops.subrange(1, hops.len() as int),
        )
    }
}

/// Unrolls the walk delay one hop from the right.
proof fn lemma_route_delay_push(nodes: Seq<NetworkNode>, prev: u32, hops: Seq<u32>, x: u32)
    ensures
        spec_route_delay_ns(nodes, prev, hops.push(x)) == spec_route_delay_ns(nodes, prev, hops)
            + spec_hop_delay_ns(
            nodes,
            if hops.len() == 0 {
                prev
            } else {
                hops[hops.len() - 1]
            },
            x,
        ),
    decreases hops.len(),
{
    let e = hops.push(x);
    if hops.len() == 0 {
        assert(e.subrange(1, 1) =~= Seq::<u32>::empty());
        assert(e.len() == 1);
        assert(e[0] == x);
        assert(spec_route_delay_ns(nodes, x, e.subrange(1, 1)) == 0);
        assert(spec_route_delay_ns(nodes, prev, e) == spec_hop_delay_ns(nodes, prev, x));
    } else {
        let rest = hops.subrange(1, hops.len() as int);
        assert(e[0] == hops[0]);
        assert(e.subrange(1, e.len() as int) =~= rest.push(x));
        lemma_route_delay_push(nodes, hops[0], rest, x);
        let tail_prev = if rest.len() == 0 {
            hops[0]
        } else {
            rest[rest.len() - 1]
        };
        assert(tail_prev == hops[hops.len() - 1]) by {
            if rest.len() > 0 {
                assert(rest[rest.len() - 1] == hops[hops.len() - 1]);
            }
        }
        assert(spec_route_delay_ns(nodes, prev, e) == spec_hop_delay_ns(nodes, prev, hops[0])
            + spec_route_delay_ns(nodes, hops[0], rest.push(x)));
        assert(spec_route_delay_ns(nodes, hops[0], rest.push(x)) == spec_route_delay_ns(
            nodes,
            hops[0],
            rest,
        ) + spec_hop_delay_ns(nodes, tail_prev, x));
        assert(spec_route_delay_ns(nodes, prev, hops) == spec_hop_delay_ns(nodes, prev, hops[0])
            + spec_route_delay_ns(nodes, hops[0], rest));
    }
}

impl MeshNetwork {
    /// Computes the transmission delay of one hop, in nanoseconds.
    pub fn calculate_transmission_delay(&self, from: u32, to: u32) -> (d: u64)
        requires
            self.wf(),
        ensures
            d == spec_hop_delay_ns(self.nodes@, from, to),
            d <= 1_400_000_000,
    {
        let fi = match self.find_node_index(from) {
            Some(i) => i,
            None => {
                return 1_000_000_000;
            },
        };
        let ti = match self.find_node_index(to) {
            Some(i) => i,
            None => {
                return 1_000_000_000;
            },
        };
        proof {
            assert(self.nodes@[fi as int].wf());
            assert(self.nodes@[ti as int].wf());
        }
        let dm = node::distance_m(&self.nodes[fi].position, &self.nodes[ti].position);
        proof {
            assert(dm * 1_000_000_000 <= 400_000_000_000_000_000int) by (nonlinear_arith)
                requires
                    0 <= dm < 400_000_000,
            ;
            vstd::arithmetic::div_mod::lemma_div_is_ordered(
                dm * 1_000_000_000,
                400_000_000_000_000_000,
                299_792_458,
            );
            vstd::arithmetic::div_mod::lemma_div_pos_is_pos(dm * 1_000_000_000, 299_792_458);
            assert(400_000_000_000_000_000int / 299_792_458 <= 1_334_300_000);
        }
        let prop: u64 = dm * 1_000_000_000 / 299_792_458;
        let proc: u64 = match self.nodes[ti].node_type {
            NodeType::CubeSat => 1_000_000,
            NodeType::GroundStation => 5_000_000,
            NodeType::Relay => 2_000_000,
        };
        prop + proc
    }

    /// Walks `route` hop by hop: decrements the TTL per hop, aborts with
    /// `TtlExceeded` (counted as dropped) when the budget reaches zero
    /// before the destination, and accumulates each hop's transmission
    /// delay into the statistics.  Succeeds exactly when the route is
    /// empty or fits the packet's hop budget; a route of exactly as many
    /// hops as the budget arrives with nothing to spare.
    pub fn forward_packet(&mut self, packet: NetworkPacket, route: &Vec<u32>) -> (r: Result<
        (),
        RouteError,
    >)
        requires
            old(self).wf(),
        ensures
            final(self).wf(),
            final(self).nodes@ == old(self).nodes@,
            final(self).routing_table == old(self).routing_table,
            final(self).ground_stations@ == old(self).ground_stations@,
            final(self).topology == old(self).topology,
            (r is Ok) <==> (route@.len() == 0 || route@.len() <= packet.ttl),
            r is Err ==> r == Err::<(), RouteError>(RouteError::TtlExceeded),
            final(self).statistics.packets_routed == old(self).statistics.packets_routed,
            final(self).statistics.total_hops == old(self).statistics.total_hops,
            final(self).statistics.handovers_completed == old(
                self,
            ).statistics.handovers_completed,
            final(self).statistics.total_latency_ns >= old(self).statistics.total_latency_ns,
            r is Ok ==> {
                &&& final(self).statistics.packets_dropped == old(self).statistics.packets_dropped
                &&& final(self).statistics.total_latency_ns == spec_sat64(
                    old(self).statistics.total_latency_ns + spec_route_delay_ns(
                        old(self).nodes@,
                        packet.source,
                        route@,
                    ),
                )
            },
            r is Err ==> {
                &&& final(self).statistics.packets_dropped == spec_sat64(
                    old(self).statistics.packets_dropped + 1,
                )
                &&& final(self).statistics.total_latency_ns >= old(
                    self,
                ).statistics.total_latency_ns
            },
    {
        let ghost nodes = self.nodes@;
        let ghost base_latency = self.statistics.total_latency_ns;
        let mut pk = packet;
        let n = route.len();
        let mut i: usize = 0;
        while i < n
            invariant
                i <= n,
                n == route@.len(),
                self.wf(),
                nodes == self.nodes@,
                self.nodes@ == old(self).nodes@,
                self.routing_table == old(self).routing_table,
                self.ground_stations@ == old(self).ground_stations@,
                self.topology == old(self).topology,
                self.statistics.packets_routed == old(self).statistics.packets_routed,
                self.statistics.packets_dropped == old(self).statistics.packets_dropped,
                self.statistics.total_hops == old(self).statistics.total_hops,
                self.statistics.handovers_completed == old(self).statistics.handovers_completed,
                base_latency == old(self).statistics.total_latency_ns,
                pk.ttl == packet.ttl - i,
                pk.source == packet.source,
                0 < i < n ==> pk.ttl >= 1,
                self.statistics.total_latency_ns == spec_sat64(
                    base_latency + spec_route_delay_ns(
                        nodes,
                        packet.source,
                        route@.take(i as int),
                    ),
                ),
                spec_route_delay_ns(nodes, packet.source, route@.take(i as int)) >= 0,
            decreases n - i,
        {
            let hop = route[i];
            pk.next_hop = hop;
            pk.route_history.push(hop);
            if pk.ttl == 0 {
                // A packet handed in with an exhausted budget cannot
                // travel at all.
                self.statistics.packets_dropped = sat_add64(self.statistics.packets_dropped, 1);
                return Err(RouteError::TtlExceeded);
            }
            pk.ttl = pk.ttl - 1;
            if pk.ttl == 0 && i + 1 < n {
                // The budget reached zero before the destination.
                self.statistics.packets_dropped = sat_add64(self.statistics.packets_dropped, 1);
                return Err(RouteError::TtlExceeded);
            }
            let from: u32 = if i == 0 {
                pk.source
            } else {
                route[i - 1]
            };
            let d = self.calculate_transmission_delay(from, hop);
            proof {
                lemma_route_delay_push(nodes, packet.source, route@.take(i as int), hop);
                assert(route@.take(i + 1) =~= route@.take(i as int).push(hop));
                if i > 0 {
                    assert(route@.take(i as int)[i - 1] == route@[i - 1]);
                }
            }
            self.statistics.total_latency_ns = sat_add64(self.statistics.total_latency_ns, d);
            i += 1;
        }
        proof {
            assert(route@.take(n as int) =~= route@);
        }
        Ok(())
    }

    /// Builds a packet for `data`, finds a fresh route, and forwards it.
    /// Returns whether the message was delivered; an unreachable
    /// destination or an exhausted hop budget is counted as a dropped
    /// packet, not an error.
    #[verifier::rlimit(100)]
    pub fn route_message(&mut self, source: u32, destination: u32, data: &[u8]) -> (delivered:
        bool)
        requires
            old(self).wf(),
        ensures
            final(self).wf(),
            final(self).nodes@ == old(self).nodes@,
            final(self).routing_table == old(self).routing_table,
            final(self).ground_stations@ == old(self).ground_stations@,
            final(self).topology == old(self).topology,
            delivered ==> source != destination && reachable(
                old(self).nodes@,
                source,
                destination,
            ),
            source == destination || !reachable(old(self).nodes@, source, destination)
                ==> !delivered,
            source != destination && reachable(old(self).nodes@, source, destination) && old(
                self,
            ).nodes@.len() <= 32 ==> delivered,
            final(self).statistics.handovers_completed == old(
                self,
            ).statistics.handovers_completed,
            final(self).statistics.total_latency_ns >= old(self).statistics.total_latency_ns,
            delivered ==> {
                &&& final(self).statistics.packets_routed == spec_sat64(
                    old(self).statistics.packets_routed + 1,
                )
                &&& final(self).statistics.packets_dropped == old(
                    self,
                ).statistics.packets_dropped
            },
            // the hop counter grows by the length of the cheapest route
            // that was forwarded, so the running mean tracks real routes
            delivered ==> exists|p: Seq<u32>|
                #[trigger] min_cost_route(
                    old(self).nodes@,
                    old(self).routing_table.entries@,
                    source,
                    p,
                    destination,
                ) && 1 <= p.len() <= 32 && final(self).statistics.total_hops == spec_sat64(
                    old(self).statistics.total_hops + p.len(),
                ),
            !delivered ==> {
                &&& final(self).statistics.packets_dropped == spec_sat64(
                    old(self).statistics.packets_dropped + 1,
                )
                &&& final(self).statistics.packets_routed == old(self).statistics.packets_routed
                &&& final(self).statistics.total_hops == old(self).statistics.total_hops
            },
    {
        let packet = NetworkPacket::new(source, destination, data);
        let route = match self.find_optimal_route(source, destination) {
            Ok(r) => r,
            Err(_) => {
                self.statistics.packets_dropped = sat_add64(self.statistics.packets_dropped, 1);
                return false;
            },
        };
        if route.len() == 0 {
            // Source and destination coincide; nothing travels.
            self.statistics.packets_dropped = sat_add64(self.statistics.packets_dropped, 1);
            return false;
        }
        let hops = route.len();
        let ghost found = route@;
        proof {
            assert(is_route(self.nodes@, source, route@, destination));
            assert(source != destination);
            assert(hops <= self.nodes@.len());
        }
        match self.forward_packet(packet, &route) {
            Ok(_) => {
                self.statistics.packets_routed = sat_add64(self.statistics.packets_routed, 1);
                proof {
                    assert(hops <= 32);
                }
                self.statistics.total_hops = sat_add64(self.statistics.total_hops, hops as u64);
                proof {
                    assert(min_cost_route(
                        old(self).nodes@,
                        old(self).routing_table.entries@,
                        source,
                        found,
                        destination,
                    ) && 1 <= found.len() <= 32 && self.statistics.total_hops == spec_sat64(
                        old(self).statistics.total_hops + found.len(),
                    ));
                }
                true
            },
            Err(_) => false,
        }
    }
}

} // verus!
