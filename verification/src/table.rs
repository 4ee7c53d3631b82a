//! Routing table builder: seeds one-hop entries from the neighbour sets
//! and relaxes them up to the node count, with loop prevention through
//! the hop bound; the result serves only as the reliability signal of
//! the link cost model.

use vstd::prelude::*;

use crate::clock;
use crate::mesh::{neighbors_consistent, MeshNetwork};
use crate::node::NetworkNode;
use crate::routing;
use crate::routing::{RouteError, RoutingEntry};
use crate::topology::node_same_but_neighbors;

verus! {

/// `v` occurs in some registered node's neighbour set.
pub open spec fn listed_neighbor(nodes: Seq<NetworkNode>, v: u32) -> bool {
    exists|i: int| 0 <= i < nodes.len() && (#[trigger] nodes[i]).neighbors@.contains(v)
}

/// Copies the entry list of a table so a relaxation round can walk a
/// stable snapshot while the live table is improved.
fn copy_entries(v: &Vec<RoutingEntry>) -> (r: Vec<RoutingEntry>)
    ensures
        r@ == v@,
{
    let mut r: Vec<RoutingEntry> = Vec::new();
    let n = v.len();
    let mut k: usize = 0;
    while k < n
        invariant
            k <= n,
            n == v@.len(),
            r@ == v@.take(k as int),
        decreases n - k,
    {
        r.push(v[k]);
        proof {
            assert(r@ =~= v@.take(k + 1));
        }
        k += 1;
    }
    proof {
        assert(r@ =~= v@);
    }
    r
}

impl MeshNetwork {
    /// Rebuilds the routing table: one-hop entries seeded from every
    /// neighbour set, then up to one relaxation pass per node, each
    /// replacing an entry only by a strictly cheaper candidate whose hop
    /// count stays below the loop bound, stopping early on convergence.
    /// Afterwards the table holds exactly the ids that occur in some
    /// neighbour set.
    pub fn build_routing_table(&mut self) -> (r: Result<(), RouteError>)
        requires
            old(self).wf(),
        ensures
            final(self).wf(),
            r is Ok,
            final(self).nodes@ == old(self).nodes@,
            final(self).ground_stations@ == old(self).ground_stations@,
            final(self).statistics == old(self).statistics,
            final(self).topology == old(self).topology,
            forall|id: u32|
                #[trigger] routing::has_dest(final(self).routing_table.entries@, id)
                    <==> listed_neighbor(final(self).nodes@, id),
            forall|k: int|
                0 <= k < final(self).routing_table.entries@.len() ==> listed_neighbor(
                    final(self).nodes@,
                    (#[trigger] final(self).routing_table.entries@[k]).next_hop,
                ),
            forall|k: int|
                0 <= k < final(self).routing_table.entries@.len() && (
                #[trigger] final(self).routing_table.entries@[k]).hop_count == 1
                    ==> final(self).routing_table.entries@[k].next_hop
                    == final(self).routing_table.entries@[k].destination,
    {
        let ghost nodes = self.nodes@;
        self.routing_table.entries.clear();
        let n = self.nodes.len();
        let mut ui: usize = 0;
        while ui < n
            invariant
                ui <= n,
                n == self.nodes@.len(),
                self.wf(),
                nodes == self.nodes@,
                self.ground_stations@ == old(self).ground_stations@,
                self.statistics == old(self).statistics,
                self.topology == old(self).topology,
                forall|id: u32|
                    #[trigger] routing::has_dest(self.routing_table.entries@, id)
                        ==> listed_neighbor(nodes, id),
                forall|i: int, b: u32|
                    0 <= i < ui && (#[trigger] nodes[i].neighbors@.contains(b))
                        ==> routing::has_dest(self.routing_table.entries@, b),
                forall|k: int|
                    0 <= k < self.routing_table.entries@.len() ==> listed_neighbor(
                        nodes,
                        (#[trigger] self.routing_table.entries@[k]).next_hop,
                    ),
                forall|k: int|
                    0 <= k < self.routing_table.entries@.len() && (
                    #[trigger] self.routing_table.entries@[k]).hop_count == 1
                        ==> self.routing_table.entries@[k].next_hop
                        == self.routing_table.entries@[k].destination,
            decreases n - ui,
        {
            let u_id = self.nodes[ui].node_id;
            let nb_count = self.nodes[ui].neighbors.len();
            let mut t: usize = 0;
            while t < nb_count
                invariant
                    t <= nb_count,
                    ui < n,
                    n == self.nodes@.len(),
                    nb_count == nodes[ui as int].neighbors@.len(),
                    u_id == nodes[ui as int].node_id,
                    self.wf(),
                    nodes == self.nodes@,
                    self.ground_stations@ == old(self).ground_stations@,
                    self.statistics == old(self).statistics,
                    self.topology == old(self).topology,
                    forall|id: u32|
                        #[trigger] routing::has_dest(self.routing_table.entries@, id)
                            ==> listed_neighbor(nodes, id),
                    forall|i: int, b: u32|
                        0 <= i < ui && (#[trigger] nodes[i].neighbors@.contains(b))
                            ==> routing::has_dest(self.routing_table.entries@, b),
                    forall|tt: int|
                        0 <= tt < t ==> routing::has_dest(
                            self.routing_table.entries@,
                            #[trigger] nodes[ui as int].neighbors@[tt],
                        ),
                    forall|k: int|
                        0 <= k < self.routing_table.entries@.len() ==> listed_neighbor(
                            nodes,
                            (#[trigger] self.routing_table.entries@[k]).next_hop,
                        ),
                    forall|k: int|
                        0 <= k < self.routing_table.entries@.len() && (
                        #[trigger] self.routing_table.entries@[k]).hop_count == 1
                            ==> self.routing_table.entries@[k].next_hop
                            == self.routing_table.entries@[k].destination,
                decreases nb_count - t,
            {
                let v = self.nodes[ui].neighbors[t];
                let c = self.calculate_link_cost(u_id, v);
                let e = RoutingEntry {
                    destination: v,
                    next_hop: v,
                    hop_count: 1,
                    cost: c,
                    last_updated_ms: clock::now_millis(),
                    reliability_millis: routing::SEED_RELIABILITY,
                };
                proof {
                    assert(routing::entry_wf(e));
                    assert(nodes[ui as int].neighbors@.contains(v));
                    assert(listed_neighbor(nodes, v));
                }
                let ghost before_entries = self.routing_table.entries@;
                self.routing_table.upsert(e);
                proof {
                    assert forall|k: int|
                        0 <= k < self.routing_table.entries@.len() implies listed_neighbor(
                        nodes,
                        (#[trigger] self.routing_table.entries@[k]).next_hop,
                    ) && routing::entry_wf(self.routing_table.entries@[k]) && (
                    self.routing_table.entries@[k].hop_count == 1
                        ==> self.routing_table.entries@[k].next_hop
                        == self.routing_table.entries@[k].destination) by {
                        if self.routing_table.entries@[k] != e {
                            assert(before_entries.contains(self.routing_table.entries@[k]));
                            let j = choose|j: int|
                                0 <= j < before_entries.len() && before_entries[j]
                                    == self.routing_table.entries@[k];
                            assert(listed_neighbor(nodes, before_entries[j].next_hop));
                            assert(routing::entry_wf(before_entries[j]));
                            assert(before_entries[j].hop_count == 1
                                ==> before_entries[j].next_hop == before_entries[j].destination);
                        }
                    }
                }
                t += 1;
            }
            ui += 1;
        }
        proof {
            assert forall|id: u32|
                listed_neighbor(nodes, id) implies #[trigger] routing::has_dest(
                self.routing_table.entries@,
                id,
            ) by {
                let i = choose|i: int|
                    0 <= i < nodes.len() && (#[trigger] nodes[i]).neighbors@.contains(id);
                assert(routing::has_dest(self.routing_table.entries@, id));
            }
        }
        // Relaxation rounds, bounded by the node count, stopping early
        // once a full pass changes nothing.
        let mut round: usize = 0;
        while round < n
            invariant_except_break
                round <= n,
                n == self.nodes@.len(),
                self.wf(),
                nodes == self.nodes@,
                self.ground_stations@ == old(self).ground_stations@,
                self.statistics == old(self).statistics,
                self.topology == old(self).topology,
                forall|id: u32|
                    #[trigger] routing::has_dest(self.routing_table.entries@, id)
                        <==> listed_neighbor(nodes, id),
                forall|k: int|
                    0 <= k < self.routing_table.entries@.len() ==> listed_neighbor(
                        nodes,
                        (#[trigger] self.routing_table.entries@[k]).next_hop,
                    ),
                forall|k: int|
                    0 <= k < self.routing_table.entries@.len() && (
                    #[trigger] self.routing_table.entries@[k]).hop_count == 1
                        ==> self.routing_table.entries@[k].next_hop
                        == self.routing_table.entries@[k].destination,
            ensures
                self.wf(),
                nodes == self.nodes@,
                self.ground_stations@ == old(self).ground_stations@,
                self.statistics == old(self).statistics,
                self.topology == old(self).topology,
                forall|id: u32|
                    #[trigger] routing::has_dest(self.routing_table.entries@, id)
                        <==> listed_neighbor(nodes, id),
                forall|k: int|
                    0 <= k < self.routing_table.entries@.len() ==> listed_neighbor(
                        nodes,
                        (#[trigger] self.routing_table.entries@[k]).next_hop,
                    ),
                forall|k: int|
                    0 <= k < self.routing_table.entries@.len() && (
                    #[trigger] self.routing_table.entries@[k]).hop_count == 1
                        ==> self.routing_table.entries@[k].next_hop
                        == self.routing_table.entries@[k].destination,
            decreases n - round,
        {
            let mut changed = false;
            let mut ui: usize = 0;
            while ui < n
                invariant
                    ui <= n,
                    n == self.nodes@.len(),
                    self.wf(),
                    nodes == self.nodes@,
                    self.ground_stations@ == old(self).ground_stations@,
                    self.statistics == old(self).statistics,
                    self.topology == old(self).topology,
                    forall|id: u32|
                        #[trigger] routing::has_dest(self.routing_table.entries@, id)
                            <==> listed_neighbor(nodes, id),
                    forall|k: int|
                        0 <= k < self.routing_table.entries@.len() ==> listed_neighbor(
                            nodes,
                            (#[trigger] self.routing_table.entries@[k]).next_hop,
                        ),
                    forall|k: int|
                        0 <= k < self.routing_table.entries@.len() && (
                        #[trigger] self.routing_table.entries@[k]).hop_count == 1
                            ==> self.routing_table.entries@[k].next_hop
                            == self.routing_table.entries@[k].destination,
                decreases n - ui,
            {
                let u_id = self.nodes[ui].node_id;
                let nb_count = self.nodes[ui].neighbors.len();
                let mut t: usize = 0;
                while t < nb_count
                    invariant
                        t <= nb_count,
                        ui < n,
                        n == self.nodes@.len(),
                        nb_count == nodes[ui as int].neighbors@.len(),
                        u_id == nodes[ui as int].node_id,
                        self.wf(),
                        nodes == self.nodes@,
                        self.ground_stations@ == old(self).ground_stations@,
                        self.statistics == old(self).statistics,
                        self.topology == old(self).topology,
                        forall|id: u32|
                            #[trigger] routing::has_dest(self.routing_table.entries@, id)
                                <==> listed_neighbor(nodes, id),
                        forall|k: int|
                            0 <= k < self.routing_table.entries@.len() ==> listed_neighbor(
                                nodes,
                                (#[trigger] self.routing_table.entries@[k]).next_hop,
                            ),
                        forall|k: int|
                            0 <= k < self.routing_table.entries@.len() && (
                            #[trigger] self.routing_table.entries@[k]).hop_count == 1
                                ==> self.routing_table.entries@[k].next_hop
                                == self.routing_table.entries@[k].destination,
                    decreases nb_count - t,
                {
                    let v = self.nodes[ui].neighbors[t];
                    let snapshot = copy_entries(&self.routing_table.entries);
                    let ghost snap = snapshot@;
                    let ghost snap_entries = self.routing_table.entries@;
                    proof {
                        assert forall|k: int|
                            0 <= k < snap.len() implies listed_neighbor(
                            nodes,
                            (#[trigger] snap[k]).destination,
                        ) by {
                            assert(snap_entries[k].destination == snap[k].destination);
                            assert(routing::has_dest(snap_entries, snap[k].destination));
                        }
                    }
                    let m = snapshot.len();
                    let mut s: usize = 0;
                    while s < m
                        invariant
                            s <= m,
                            m == snap.len(),
                            snapshot@ == snap,
                            ui < n,
                            n == self.nodes@.len(),
                            u_id == nodes[ui as int].node_id,
                            nodes[ui as int].neighbors@.contains(v),
                            self.wf(),
                            nodes == self.nodes@,
                            self.ground_stations@ == old(self).ground_stations@,
                            self.statistics == old(self).statistics,
                            self.topology == old(self).topology,
                            routing::table_wf(snap),
                            forall|k: int|
                                0 <= k < snap.len() ==> listed_neighbor(
                                    nodes,
                                    (#[trigger] snap[k]).destination,
                                ),
                            forall|id: u32|
                                #[trigger] routing::has_dest(self.routing_table.entries@, id)
                                    <==> listed_neighbor(nodes, id),
                            forall|k: int|
                                0 <= k < self.routing_table.entries@.len() ==> listed_neighbor(
                                    nodes,
                                    (#[trigger] self.routing_table.entries@[k]).next_hop,
                                ),
                            forall|k: int|
                                0 <= k < self.routing_table.entries@.len() && (
                                #[trigger] self.routing_table.entries@[k]).hop_count == 1
                                    ==> self.routing_table.entries@[k].next_hop
                                    == self.routing_table.entries@[k].destination,
                        decreases m - s,
                    {
                        let e = snapshot[s];
                        if e.destination != u_id {
                            let c = self.calculate_link_cost(u_id, v);
                            let nc: u64 = if e.cost >= routing::INFINITE_COST - c {
                                routing::INFINITE_COST
                            } else {
                                c + e.cost
                            };
                            proof {
                                assert(routing::entry_wf(snap[s as int]));
                                routing::lemma_decayed_reliability_bounds(
                                    snap[s as int].hop_count as int,
                                );
                                assert(e.reliability_millis <= 900);
                            }
                            let nh: u8 = e.hop_count + 1;
                            let cheaper: bool = match self.routing_table.find_entry(e.destination) {
                                Some(i) => nc < self.routing_table.entries[i].cost,
                                None => true,
                            };
                            if cheaper && nh < 16 {
                                let ne = RoutingEntry {
                                    destination: e.destination,
                                    next_hop: v,
                                    hop_count: nh,
                                    cost: nc,
                                    last_updated_ms: clock::now_millis(),
                                    reliability_millis: e.reliability_millis * 19 / 20,
                                };
                                proof {
                                    assert(routing::entry_wf(ne)) by {
                                        assert(e.reliability_millis == routing::decayed_reliability(
                                            e.hop_count as int,
                                        ));
                                        assert(routing::decayed_reliability(nh as int)
                                            == routing::decayed_reliability(e.hop_count as int) * 19
                                            / 20);
                                    }
                                    assert(listed_neighbor(nodes, e.destination));
                                    assert(listed_neighbor(nodes, v));
                                }
                                let ghost before_entries = self.routing_table.entries@;
                                self.routing_table.upsert(ne);
                                changed = true;
                                proof {
                                    assert forall|k: int|
                                        0 <= k < self.routing_table.entries@.len() implies listed_neighbor(
                                        nodes,
                                        (#[trigger] self.routing_table.entries@[k]).next_hop,
                                    ) && routing::entry_wf(self.routing_table.entries@[k]) && (
                                    self.routing_table.entries@[k].hop_count == 1
                                        ==> self.routing_table.entries@[k].next_hop
                                        == self.routing_table.entries@[k].destination) by {
                                        if self.routing_table.entries@[k] != ne {
                                            assert(before_entries.contains(
                                                self.routing_table.entries@[k],
                                            ));
                                            let j = choose|j: int|
                                                0 <= j < before_entries.len() && before_entries[j]
                                                    == self.routing_table.entries@[k];
                                            assert(listed_neighbor(
                                                nodes,
                                                before_entries[j].next_hop,
                                            ));
                                            assert(routing::entry_wf(before_entries[j]));
                                            assert(before_entries[j].hop_count == 1
                                                ==> before_entries[j].next_hop
                                                == before_entries[j].destination);
                                        }
                                    }
                                }
                            }
                        }
                        s += 1;
                    }
                    t += 1;
                }
                ui += 1;
            }
            if !changed {
                break ;
            }
            round += 1;
        }
        proof {
            assert forall|i: int, b: u32|
                0 <= i < n && (#[trigger] nodes[i].neighbors@.contains(b)) implies routing::has_dest(
                self.routing_table.entries@,
                b,
            ) by {
                assert(listed_neighbor(nodes, b));
            }
        }
        Ok(())
    }

    /// Brings the routing layer up: discovers neighbours from the
    /// current positions, builds the distance-vector table, and
    /// re-asserts the ground-station guarantees.
    pub fn initialize_routing(&mut self) -> (r: Result<(), RouteError>)
        requires
            old(self).wf(),
        ensures
            final(self).wf(),
            r is Ok,
            neighbors_consistent(final(self).nodes@),
            final(self).nodes@.len() == old(self).nodes@.len(),
            forall|i: int|
                0 <= i < final(self).nodes@.len() ==> node_same_but_neighbors(
                    #[trigger] final(self).nodes@[i],
                    old(self).nodes@[i],
                ),
            forall|id: u32|
                #[trigger] routing::has_dest(final(self).routing_table.entries@, id)
                    <==> listed_neighbor(final(self).nodes@, id),
            forall|k: int|
                0 <= k < final(self).routing_table.entries@.len() && (
                #[trigger] final(self).routing_table.entries@[k]).hop_count == 1
                    ==> final(self).routing_table.entries@[k].next_hop
                    == final(self).routing_table.entries@[k].destination,
            final(self).ground_stations@ == old(self).ground_stations@,
            final(self).statistics == old(self).statistics,
    {
        match self.discover_neighbors() {
            Ok(_) => {},
            Err(e) => {
                return Err(e);
            },
        }
        match self.build_routing_table() {
            Ok(_) => {},
            Err(e) => {
                return Err(e);
            },
        }
        match self.initialize_ground_stations() {
            Ok(_) => {},
            Err(e) => {
                return Err(e);
            },
        }
        Ok(())
    }
}

} // verus!
