//! Topology builder: neighbour discovery and the derived adjacency and
//! connectivity maps, recomputed from current positions on request.

use vstd::prelude::*;

use crate::mesh::{
    has_node, ids_sorted, index_of, lemma_in_range_symmetric, lemma_node_index_unique, link_ok,
    links_contain, links_sorted, neighbors_consistent, node_at, nodes_wf, row_ok,
    spec_in_range, spec_link_quality, topology_consistent, AdjacencyRow, MeshNetwork,
    NetworkTopology, TopologyLink,
};
use crate::node;
use crate::node::NetworkNode;
use crate::routing::RouteError;

verus! {

/// Computes the links leaving node `i`: every other registered node in
/// mutual range, in id order, with the modelled link quality; also
/// returns the plain target ids.
fn scan_row(nodes: &Vec<NetworkNode>, i: usize) -> (row: (Vec<TopologyLink>, Vec<u32>))
    requires
        ids_sorted(nodes@),
        nodes_wf(nodes@),
        i < nodes@.len(),
    ensures
        row_ok(nodes@, nodes@[i as int], row.0@),
        row.1@.len() == row.0@.len(),
        forall|k: int| 0 <= k < row.0@.len() ==> row.1@[k] == (#[trigger] row.0@[k]).to,
{
    let n = nodes.len();
    let a_id = nodes[i].node_id;
    let a_pos = nodes[i].position;
    let a_range = nodes[i].communication_range_m;
    let mut links: Vec<TopologyLink> = Vec::new();
    let mut targets: Vec<u32> = Vec::new();
    let mut j: usize = 0;
    while j < n
        invariant
            j <= n,
            n == nodes@.len(),
            i < n,
            ids_sorted(nodes@),
            nodes_wf(nodes@),
            a_id == nodes@[i as int].node_id,
            a_pos == nodes@[i as int].position,
            a_range == nodes@[i as int].communication_range_m,
            links_sorted(links@),
            targets@.len() == links@.len(),
            forall|k: int| 0 <= k < links@.len() ==> targets@[k] == (#[trigger] links@[k]).to,
            forall|k: int|
                0 <= k < links@.len() ==> link_ok(nodes@, nodes@[i as int], #[trigger] links@[k]),
            forall|k: int|
                0 <= k < links@.len() ==> exists|jj: int|
                    0 <= jj < j && nodes@[jj].node_id == (#[trigger] links@[k]).to,
            forall|jj: int|
                0 <= jj < j && jj != i && spec_in_range(nodes@[i as int], #[trigger] nodes@[jj])
                    ==> links_contain(links@, nodes@[jj].node_id),
        decreases n - j,
    {
        if j != i {
            let b_id = nodes[j].node_id;
            let b_range = nodes[j].communication_range_m;
            proof {
                assert(nodes@[i as int].wf());
                assert(nodes@[j as int].wf());
            }
            let d = node::distance_m(&a_pos, &nodes[j].position);
            let mr: u64 = if a_range <= b_range {
                a_range
            } else {
                b_range
            };
            if d <= mr {
                proof {
                    vstd::arithmetic::div_mod::lemma_div_is_ordered(
                        1000 * d as int,
                        1000 * mr as int,
                        mr as int,
                    );
                    vstd::arithmetic::div_mod::lemma_div_by_multiple(1000, mr as int);
                    assert(1000 * (mr as int) == (mr as int) * 1000) by (nonlinear_arith);
                    assert((1000 * d as int) / (mr as int) <= 1000);
                    vstd::arithmetic::div_mod::lemma_div_pos_is_pos(1000 * d as int, mr as int);
                }
                let q_raw: u64 = 1000 - (1000 * d) / mr;
                let q: u64 = if q_raw < 100 {
                    100
                } else {
                    q_raw
                };
                let ghost old_links = links@;
                proof {
                    lemma_node_index_unique(nodes@, j as int, b_id);
                    assert(q == spec_link_quality(nodes@[i as int], nodes@[j as int]));
                    assert forall|k: int| 0 <= k < links@.len() implies (#[trigger] links@[k]).to
                        < b_id by {
                        let jj = choose|jj: int| 0 <= jj < j && nodes@[jj].node_id == links@[k].to;
                        assert(nodes@[jj].node_id < nodes@[j as int].node_id);
                    }
                }
                links.push(TopologyLink { to: b_id, quality_millis: q as u32 });
                targets.push(b_id);
                proof {
                    assert(links@ == old_links.push(
                        TopologyLink { to: b_id, quality_millis: q as u32 },
                    ));
                    assert forall|jj: int|
                        0 <= jj < j + 1 && jj != i && spec_in_range(
                            nodes@[i as int],
                            #[trigger] nodes@[jj],
                        ) implies links_contain(links@, nodes@[jj].node_id) by {
                        if jj < j {
                            assert(links_contain(old_links, nodes@[jj].node_id));
                            let k = choose|k: int|
                                0 <= k < old_links.len() && old_links[k].to == nodes@[jj].node_id;
                            assert(links@[k].to == nodes@[jj].node_id);
                        } else {
                            assert(links@[links@.len() - 1].to == nodes@[jj].node_id);
                        }
                    }
                }
            } else {
                proof {
                    assert(!spec_in_range(nodes@[i as int], nodes@[j as int]));
                }
            }
        }
        j += 1;
    }
    proof {
        assert forall|b: u32|
            #[trigger] has_node(nodes@, b) && b != nodes@[i as int].node_id && spec_in_range(
                nodes@[i as int],
                node_at(nodes@, b),
            ) implies links_contain(links@, b) by {
            let jj = choose|jj: int| 0 <= jj < nodes@.len() && (#[trigger] nodes@[jj]).node_id == b;
            lemma_node_index_unique(nodes@, jj, b);
            assert(node_at(nodes@, b) == nodes@[jj]);
            assert(jj != i);
            assert(links_contain(links@, nodes@[jj].node_id));
        }
    }
    (links, targets)
}

impl MeshNetwork {
    /// Rebuilds the adjacency and connectivity maps from the current
    /// node positions and ranges.  Invoked after node changes that the
    /// caller wants reflected; never incremental.
    pub fn update_network_topology(&mut self)
        requires
            old(self).wf(),
        ensures
            final(self).wf(),
            final(self).nodes@ == old(self).nodes@,
            final(self).routing_table == old(self).routing_table,
            final(self).ground_stations@ == old(self).ground_stations@,
            final(self).statistics == old(self).statistics,
            topology_consistent(final(self).nodes@, final(self).topology),
    {
        let n = self.nodes.len();
        let mut adjacency: Vec<AdjacencyRow> = Vec::new();
        let mut connectivity: Vec<(u32, Vec<u32>)> = Vec::new();
        let mut i: usize = 0;
        while i < n
            invariant
                i <= n,
                n == self.nodes@.len(),
                self.wf(),
                self == old(self),
                adjacency@.len() == i,
                connectivity@.len() == i,
                forall|ii: int|
                    0 <= ii < i ==> {
                        &&& (#[trigger] adjacency@[ii]).from == self.nodes@[ii].node_id
                        &&& row_ok(self.nodes@, self.nodes@[ii], adjacency@[ii].links@)
                    },
                forall|ii: int|
                    0 <= ii < i ==> {
                        &&& (#[trigger] connectivity@[ii]).0 == self.nodes@[ii].node_id
                        &&& connectivity@[ii].1@.len() == adjacency@[ii].links@.len()
                        &&& forall|k: int|
                            0 <= k < connectivity@[ii].1@.len()
                                ==> (#[trigger] connectivity@[ii].1@[k])
                                == adjacency@[ii].links@[k].to
                    },
            decreases n - i,
        {
            let (links, targets) = scan_row(&self.nodes, i);
            let from = self.nodes[i].node_id;
            adjacency.push(AdjacencyRow { from, links });
            connectivity.push((from, targets));
            i += 1;
        }
        self.topology = NetworkTopology { adjacency, connectivity };
    }

    /// Recomputes every node's neighbour set from the current positions:
    /// two distinct registered nodes become mutual neighbours exactly
    /// when their distance is at most the smaller of their ranges.
    /// Idempotent and deterministic for a fixed position set.
    pub fn discover_neighbors(&mut self) -> (r: Result<(), RouteError>)
        requires
            old(self).wf(),
        ensures
            final(self).wf(),
            r is Ok,
            neighbors_consistent(final(self).nodes@),
            final(self).nodes@.len() == old(self).nodes@.len(),
            forall|i: int|
                0 <= i < final(self).nodes@.len() ==> node_same_but_neighbors(
                    #[trigger] final(self).nodes@[i],
                    old(self).nodes@[i],
                ),
            final(self).routing_table == old(self).routing_table,
            final(self).ground_stations@ == old(self).ground_stations@,
            final(self).statistics == old(self).statistics,
            final(self).topology == old(self).topology,
    {
        let n = self.nodes.len();
        let mut rebuilt: Vec<NetworkNode> = Vec::new();
        let mut i: usize = 0;
        while i < n
            invariant
                i <= n,
                n == self.nodes@.len(),
                self.wf(),
                self == old(self),
                rebuilt@.len() == i,
                forall|ii: int|
                    0 <= ii < i ==> node_same_but_neighbors(
                        #[trigger] rebuilt@[ii],
                        self.nodes@[ii],
                    ),
                forall|ii: int, b: u32|
                    0 <= ii < i ==> ((#[trigger] rebuilt@[ii].neighbors@.contains(b)) <==> {
                        &&& has_node(self.nodes@, b)
                        &&& b != self.nodes@[ii].node_id
                        &&& spec_in_range(self.nodes@[ii], node_at(self.nodes@, b))
                    }),
                forall|ii: int|
                    0 <= ii < i ==> node::strictly_increasing(
                        (#[trigger] rebuilt@[ii]).neighbors@,
                    ),
            decreases n - i,
        {
            let (links, targets) = scan_row(&self.nodes, i);
            let ghost links_view = links@;
            let ghost targets_view = targets@;
            let nn = NetworkNode {
                node_id: self.nodes[i].node_id,
                node_type: self.nodes[i].node_type,
                position: self.nodes[i].position,
                communication_range_m: self.nodes[i].communication_range_m,
                is_active: self.nodes[i].is_active,
                last_seen_ms: self.nodes[i].last_seen_ms,
                battery_millis: self.nodes[i].battery_millis,
                neighbors: targets,
            };
            proof {
                assert forall|b: u32| #[trigger]
                    targets_view.contains(b) implies has_node(self.nodes@, b) && b
                    != self.nodes@[i as int].node_id && spec_in_range(
                    self.nodes@[i as int],
                    node_at(self.nodes@, b),
                ) by {
                    let k = choose|k: int| 0 <= k < targets_view.len() && targets_view[k] == b;
                    assert(link_ok(self.nodes@, self.nodes@[i as int], links_view[k]));
                }
                assert forall|b: u32|
                    has_node(self.nodes@, b) && b != self.nodes@[i as int].node_id
                        && spec_in_range(
                        self.nodes@[i as int],
                        node_at(self.nodes@, b),
                    ) implies #[trigger] targets_view.contains(b) by {
                    assert(links_contain(links_view, b));
                    let k = choose|k: int| 0 <= k < links_view.len() && links_view[k].to == b;
                    assert(targets_view[k] == b);
                }
                assert forall|k1: int, k2: int|
                    0 <= k1 < k2 < targets_view.len() implies targets_view[k1]
                    < targets_view[k2] by {
                    assert(targets_view[k1] == links_view[k1].to);
                    assert(targets_view[k2] == links_view[k2].to);
                }
            }
            rebuilt.push(nn);
            i += 1;
        }
        let ghost old_nodes = self.nodes@;
        self.nodes = rebuilt;
        proof {
            assert forall|x: u32| #[trigger]
                has_node(self.nodes@, x) implies has_node(old_nodes, x) by {
                let ii = choose|ii: int|
                    0 <= ii < self.nodes@.len() && (#[trigger] self.nodes@[ii]).node_id == x;
                assert(old_nodes[ii].node_id == x);
            }
            assert forall|x: u32| #[trigger]
                has_node(old_nodes, x) implies has_node(self.nodes@, x) by {
                let ii = choose|ii: int|
                    0 <= ii < old_nodes.len() && (#[trigger] old_nodes[ii]).node_id == x;
                assert(self.nodes@[ii].node_id == x);
            }
            assert forall|i: int, b: u32|
                0 <= i < self.nodes@.len() implies ((#[trigger] self.nodes@[i].neighbors@.contains(
                b,
            )) <==> {
                &&& has_node(self.nodes@, b)
                &&& b != self.nodes@[i].node_id
                &&& spec_in_range(self.nodes@[i], node_at(self.nodes@, b))
            }) by {
                if has_node(self.nodes@, b) {
                    let jb = index_of(self.nodes@, b);
                    assert(self.nodes@[jb].node_id == b);
                    assert(old_nodes[jb].node_id == b);
                    lemma_node_index_unique(old_nodes, jb, b);
                    lemma_node_index_unique(self.nodes@, jb, b);
                    assert(node_at(self.nodes@, b).position == node_at(old_nodes, b).position);
                    assert(node_at(self.nodes@, b).communication_range_m == node_at(
                        old_nodes,
                        b,
                    ).communication_range_m);
                }
            }
            assert forall|k: int|
                0 <= k < self.ground_stations@.len() implies {
                &&& has_node(self.nodes@, #[trigger] self.ground_stations@[k])
                &&& node_at(self.nodes@, self.ground_stations@[k]).node_type
                    == crate::node::NodeType::GroundStation
            } by {
                let g = self.ground_stations@[k];
                assert(has_node(old_nodes, g));
                let jg = index_of(old_nodes, g);
                lemma_node_index_unique(old_nodes, jg, g);
                assert(self.nodes@[jg].node_id == g);
                lemma_node_index_unique(self.nodes@, jg, g);
            }
        }
        Ok(())
    }

    /// Re-asserts the ground-station guarantees (extended range, full
    /// battery); they hold for the life of every ground-station node, so
    /// the node records come out unchanged.
    pub fn initialize_ground_stations(&mut self) -> (r: Result<(), RouteError>)
        requires
            old(self).wf(),
        ensures
            final(self).wf(),
            r is Ok,
            final(self).nodes@ == old(self).nodes@,
            final(self).routing_table == old(self).routing_table,
            final(self).ground_stations@ == old(self).ground_stations@,
            final(self).statistics == old(self).statistics,
            final(self).topology == old(self).topology,
    {
        let n = self.ground_stations.len();
        let mut k: usize = 0;
        while k < n
            invariant
                k <= n,
                n == self.ground_stations@.len(),
                self.wf(),
                self.nodes@ == old(self).nodes@,
                self.routing_table == old(self).routing_table,
                self.ground_stations@ == old(self).ground_stations@,
                self.statistics == old(self).statistics,
                self.topology == old(self).topology,
            decreases n - k,
        {
            let gs_id = self.ground_stations[k];
            match self.find_node_index(gs_id) {
                Some(i) => {
                    proof {
                        assert(node_at(self.nodes@, gs_id).node_type
                            == crate::node::NodeType::GroundStation);
                        assert(self.nodes@[i as int].wf());
                    }
                    // The well-formedness invariant already pins these
                    // two fields, so the writes below change nothing.
                    let ghost before = self.nodes@;
                    let mut station = self.nodes.remove(i);
                    station.communication_range_m = crate::node::GROUND_STATION_RANGE_M;
                    station.battery_millis = crate::node::FULL_BATTERY;
                    self.nodes.insert(i, station);
                    proof {
                        assert(self.nodes@ =~= before);
                    }
                },
                None => {},
            }
            k += 1;
        }
        Ok(())
    }
}

/// Two node records that agree on everything except the derived
/// neighbour set.
pub open spec fn node_same_but_neighbors(a: NetworkNode, b: NetworkNode) -> bool {
    &&& a.node_id == b.node_id
    &&& a.node_type == b.node_type
    &&& a.position == b.position
    &&& a.communication_range_m == b.communication_range_m
    &&& a.is_active == b.is_active
    &&& a.last_seen_ms == b.last_seen_ms
    &&& a.battery_millis == b.battery_millis
}

/// The neighbour relation produced by discovery is symmetric: if `b` is
/// a neighbour of `a`, then `a` is a neighbour of `b`.
pub proof fn lemma_neighbor_symmetry(nodes: Seq<NetworkNode>, a: u32, b: u32)
    requires
        ids_sorted(nodes),
        nodes_wf(nodes),
        neighbors_consistent(nodes),
        has_node(nodes, a),
        node_at(nodes, a).neighbors@.contains(b),
    ensures
        has_node(nodes, b),
        node_at(nodes, b).neighbors@.contains(a),
{
    let ia = index_of(nodes, a);
    lemma_node_index_unique(nodes, ia, a);
    assert(nodes[ia].neighbors@.contains(b));
    assert(has_node(nodes, b) && b != nodes[ia].node_id && spec_in_range(
        nodes[ia],
        node_at(nodes, b),
    ));
    let ib = index_of(nodes, b);
    lemma_node_index_unique(nodes, ib, b);
    assert(nodes[ia].wf());
    assert(nodes[ib].wf());
    lemma_in_range_symmetric(nodes[ia], nodes[ib]);
    assert(nodes[ib].neighbors@.contains(a) <==> {
        &&& has_node(nodes, a)
        &&& a != nodes[ib].node_id
        &&& spec_in_range(nodes[ib], node_at(nodes, a))
    });
}

} // verus!
