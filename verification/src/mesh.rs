//! The mesh network engine: node registry, derived topology, routing
//! statistics, and the operations the collaborators call.
//!
//! Nodes are held sorted by strictly increasing id, so every id appears
//! at most once and scans are deterministic (ties always resolve to the
//! lowest id).

use vstd::prelude::*;

use crate::node;
use crate::node::{NetworkNode, NodeType, OrbitalPosition};
use crate::routing;
use crate::routing::{RouteError, RoutingEntry, RoutingTable};

verus! {

/// Number of delivered packets after which `simulate_network_step`
/// rebuilds the routing table; a tunable cadence, not a correctness
/// requirement.
pub const TABLE_REBUILD_PERIOD: u64 = 100;

/// One directed link of the topology's adjacency map, with its quality
/// in thousandths.
#[derive(Clone, Copy, Debug, PartialEq, Eq, Structural)]
pub struct TopologyLink {
    pub to: u32,
    pub quality_millis: u32,
}

/// All links leaving one node.
#[derive(Clone, Debug)]
pub struct AdjacencyRow {
    pub from: u32,
    pub links: Vec<TopologyLink>,
}

/// Fully derived view of the current radio topology: link qualities per
/// ordered pair, and the set of reachable ids per node.  Rebuilt, never
/// patched.
#[derive(Clone, Debug)]
pub struct NetworkTopology {
    pub adjacency: Vec<AdjacencyRow>,
    pub connectivity: Vec<(u32, Vec<u32>)>,
}

/// Counters the engine maintains; owned by one engine instance and
/// updated only by its own operations.
#[derive(Clone, Copy, Debug, PartialEq, Eq, Structural)]
pub struct NetworkStatistics {
    pub packets_routed: u64,
    pub packets_dropped: u64,
    pub total_hops: u64,
    pub handovers_completed: u64,
    pub total_latency_ns: u64,
}

impl NetworkStatistics {
    /// Fresh, all-zero counters.
    pub fn new() -> (s: NetworkStatistics)
        ensures
            s == (NetworkStatistics {
                packets_routed: 0,
                packets_dropped: 0,
                total_hops: 0,
                handovers_completed: 0,
                total_latency_ns: 0,
            }),
    {
        NetworkStatistics {
            packets_routed: 0,
            packets_dropped: 0,
            total_hops: 0,
            handovers_completed: 0,
            total_latency_ns: 0,
        }
    }

    /// Running mean hop count of delivered packets, in thousandths,
    /// capped at `u64::MAX`; 0 while nothing was delivered.
    pub fn average_hop_count_millis(&self) -> (a: u64)
        ensures
            self.packets_routed == 0 ==> a == 0,
            self.packets_routed > 0 ==> a == spec_sat64(
                self.total_hops * 1000 / self.packets_routed as int,
            ),
    {
        if self.packets_routed == 0 {
            0
        } else {
            let wide: u128 = (self.total_hops as u128) * 1000 / (self.packets_routed as u128);
            proof {
                assert((self.total_hops as u128) * 1000 == self.total_hops * 1000) by (nonlinear_arith);
            }
            if wide > 0xffff_ffff_ffff_ffff {
                0xffff_ffff_ffff_ffff
            } else {
                wide as u64
            }
        }
    }
}

/// Caps an unbounded count at `u64::MAX`.
pub open spec fn spec_sat64(v: int) -> int {
    if v > 0xffff_ffff_ffff_ffff {
        0xffff_ffff_ffff_ffff as int
    } else {
        v
    }
}

/// Saturating 64-bit addition; statistics counters never wrap.
pub fn sat_add64(a: u64, b: u64) -> (r: u64)
    ensures
        r == spec_sat64(a + b),
{
    if a > 0xffff_ffff_ffff_ffff - b {
        0xffff_ffff_ffff_ffff
    } else {
        a + b
    }
}

/// Node records sorted by strictly increasing id.
pub open spec fn ids_sorted(nodes: Seq<NetworkNode>) -> bool {
    forall|i: int, j: int|
        0 <= i < j < nodes.len() ==> nodes[i].node_id < nodes[j].node_id
}

/// Every node record is valid.
pub open spec fn nodes_wf(nodes: Seq<NetworkNode>) -> bool {
    forall|i: int| 0 <= i < nodes.len() ==> (#[trigger] nodes[i]).wf()
}

/// True when some record carries `id`.
pub open spec fn has_node(nodes: Seq<NetworkNode>, id: u32) -> bool {
    exists|i: int| 0 <= i < nodes.len() && (#[trigger] nodes[i]).node_id == id
}

/// Index of the record carrying `id`.
pub open spec fn index_of(nodes: Seq<NetworkNode>, id: u32) -> int {
    choose|i: int| 0 <= i < nodes.len() && (#[trigger] nodes[i]).node_id == id
}

/// The record carrying `id`.
pub open spec fn node_at(nodes: Seq<NetworkNode>, id: u32) -> NetworkNode {
    nodes[index_of(nodes, id)]
}

/// In a sorted registry, an index with a matching id is the unique one
/// that `index_of` denotes.
pub proof fn lemma_node_index_unique(nodes: Seq<NetworkNode>, i: int, id: u32)
    requires
        ids_sorted(nodes),
        0 <= i < nodes.len(),
        nodes[i].node_id == id,
    ensures
        has_node(nodes, id),
        index_of(nodes, id) == i,
        node_at(nodes, id) == nodes[i],
{
    assert(has_node(nodes, id));
    let j = index_of(nodes, id);
    if j < i {
        assert(nodes[j].node_id < nodes[i].node_id);
    } else if i < j {
        assert(nodes[i].node_id < nodes[j].node_id);
    }
}

/// The smaller of the two nodes' communication ranges, in metres.
pub open spec fn min_range(a: NetworkNode, b: NetworkNode) -> int {
    if a.communication_range_m <= b.communication_range_m {
        a.communication_range_m as int
    } else {
        b.communication_range_m as int
    }
}

/// Two nodes can communicate directly when their distance does not
/// exceed the smaller of the two ranges.
pub open spec fn spec_in_range(a: NetworkNode, b: NetworkNode) -> bool {
    node::spec_distance_m(a.position, b.position) <= min_range(a, b)
}

/// Being in range is a symmetric relation.
pub proof fn lemma_in_range_symmetric(a: NetworkNode, b: NetworkNode)
    requires
        a.position.wf(),
        b.position.wf(),
    ensures
        spec_in_range(a, b) == spec_in_range(b, a),
{
    node::lemma_distance_symmetric(a.position, b.position);
}

/// Link quality of an in-range pair: `1 - distance / maxRange`, floored
/// at 0.1, all in thousandths.
pub open spec fn spec_link_quality(a: NetworkNode, b: NetworkNode) -> int {
    let d = node::spec_distance_m(a.position, b.position);
    let q = 1000 - 1000 * d / min_range(a, b);
    if q < 100 {
        100
    } else {
        q
    }
}

/// True when every node's stored neighbour set is exactly the set of
/// other registered nodes within mutual range, as of the last discovery.
pub open spec fn neighbors_consistent(nodes: Seq<NetworkNode>) -> bool {
    forall|i: int, b: u32|
        0 <= i < nodes.len() ==> (#[trigger] nodes[i].neighbors@.contains(b) <==> {
            &&& has_node(nodes, b)
            &&& b != nodes[i].node_id
            &&& spec_in_range(nodes[i], node_at(nodes, b))
        })
}

/// Directed edge of the routing graph: both endpoints registered and the
/// target stored as a neighbour of the origin.
pub open spec fn edge(nodes: Seq<NetworkNode>, u: u32, v: u32) -> bool {
    &&& has_node(nodes, u)
    &&& has_node(nodes, v)
    &&& node_at(nodes, u).neighbors@.contains(v)
}

/// `hops` is a walk from `src` (excluded) to `dst` (included, unless the
/// walk is empty and `src == dst`) along edges of the graph.
pub open spec fn is_route(nodes: Seq<NetworkNode>, src: u32, hops: Seq<u32>, dst: u32) -> bool {
    if hops.len() == 0 {
        src == dst
    } else {
        &&& edge(nodes, src, hops[0])
        &&& hops[hops.len() - 1] == dst
        &&& forall|k: int| 0 <= k < hops.len() - 1 ==> edge(nodes, #[trigger] hops[k], hops[k + 1])
    }
}

/// Some walk connects `src` to `dst`.
pub open spec fn reachable(nodes: Seq<NetworkNode>, src: u32, dst: u32) -> bool {
    exists|hops: Seq<u32>| is_route(nodes, src, hops, dst)
}

/// Appending an edge to a walk keeps it a walk.
pub proof fn lemma_route_extend(nodes: Seq<NetworkNode>, src: u32, hops: Seq<u32>, x: u32, y: u32)
    requires
        is_route(nodes, src, hops, x),
        edge(nodes, x, y),
    ensures
        is_route(nodes, src, hops.push(y), y),
{
    let e = hops.push(y);
    if hops.len() == 0 {
        assert(e[0] == y);
    } else {
        assert(e[0] == hops[0]);
        assert(e[e.len() - 1] == y);
        assert forall|k: int| 0 <= k < e.len() - 1 implies edge(nodes, #[trigger] e[k], e[k + 1]) by {
            if k < hops.len() - 1 {
                assert(e[k] == hops[k]);
                assert(e[k + 1] == hops[k + 1]);
            } else {
                assert(e[k] == hops[hops.len() - 1]);
                assert(e[k + 1] == y);
            }
        }
    }
}

/// A set of ids closed under edges and holding `src` holds the endpoint
/// of every walk out of `src`.
pub proof fn lemma_route_closure(
    nodes: Seq<NetworkNode>,
    src: u32,
    hops: Seq<u32>,
    dst: u32,
    s: Set<u32>,
)
    requires
        is_route(nodes, src, hops, dst),
        s.contains(src),
        forall|u: u32, v: u32| s.contains(u) && edge(nodes, u, v) ==> s.contains(v),
    ensures
        s.contains(dst),
    decreases hops.len(),
{
    if hops.len() == 0 {
    } else {
        let h0 = hops[0];
        assert(edge(nodes, src, h0));
        assert(s.contains(h0));
        let rest = hops.subrange(1, hops.len() as int);
        if hops.len() == 1 {
            assert(h0 == dst);
        } else {
            assert(rest.len() == hops.len() - 1);
            assert(rest[rest.len() - 1] == hops[hops.len() - 1]);
            assert forall|k: int| 0 <= k < rest.len() - 1 implies edge(
                nodes,
                #[trigger] rest[k],
                rest[k + 1],
            ) by {
                assert(rest[k] == hops[k + 1]);
                assert(rest[k + 1] == hops[k + 2]);
                assert(edge(nodes, hops[k + 1], hops[k + 2]));
            }
            assert(rest[0] == hops[1]);
            assert(edge(nodes, hops[0], hops[1]));
            assert(is_route(nodes, h0, rest, dst));
            lemma_route_closure(nodes, h0, rest, dst, s);
        }
    }
}

/// One directed link of an adjacency row is sound: target registered,
/// distinct, in range, and the stored quality is the modelled one.
pub open spec fn link_ok(nodes: Seq<NetworkNode>, a: NetworkNode, l: TopologyLink) -> bool {
    &&& has_node(nodes, l.to)
    &&& l.to != a.node_id
    &&& spec_in_range(a, node_at(nodes, l.to))
    &&& l.quality_millis == spec_link_quality(a, node_at(nodes, l.to))
}

/// Link rows are sorted by strictly increasing target id.
pub open spec fn links_sorted(links: Seq<TopologyLink>) -> bool {
    forall|i: int, j: int| 0 <= i < j < links.len() ==> links[i].to < links[j].to
}

/// Some link of the row points at `b`.
pub open spec fn links_contain(links: Seq<TopologyLink>, b: u32) -> bool {
    exists|k: int| 0 <= k < links.len() && links[k].to == b
}

/// A whole adjacency row is sound and complete for node `a`.
pub open spec fn row_ok(nodes: Seq<NetworkNode>, a: NetworkNode, links: Seq<TopologyLink>) -> bool {
    &&& links_sorted(links)
    &&& forall|k: int| 0 <= k < links.len() ==> link_ok(nodes, a, #[trigger] links[k])
    &&& forall|b: u32|
        #[trigger] has_node(nodes, b) && b != a.node_id && spec_in_range(a, node_at(nodes, b))
            ==> links_contain(links, b)
}

/// The stored topology mirrors the current node set: one adjacency row
/// and one connectivity row per node, in registry order.
pub open spec fn topology_consistent(nodes: Seq<NetworkNode>, topo: NetworkTopology) -> bool {
    &&& topo.adjacency@.len() == nodes.len()
    &&& topo.connectivity@.len() == nodes.len()
    &&& forall|i: int|
        0 <= i < nodes.len() ==> {
            &&& (#[trigger] topo.adjacency@[i]).from == nodes[i].node_id
            &&& row_ok(nodes, nodes[i], topo.adjacency@[i].links@)
        }
    &&& forall|i: int|
        0 <= i < nodes.len() ==> {
            &&& (#[trigger] topo.connectivity@[i]).0 == nodes[i].node_id
            &&& topo.connectivity@[i].1@.len() == topo.adjacency@[i].links@.len()
            &&& forall|k: int|
                0 <= k < topo.connectivity@[i].1@.len()
                    ==> (#[trigger] topo.connectivity@[i].1@[k]) == topo.adjacency@[i].links@[k].to
        }
}


/// Inserts `x` into a strictly sorted id list, keeping it sorted; no
/// effect when already present.
fn insert_sorted_id(v: &mut Vec<u32>, x: u32)
    requires
        node::strictly_increasing(old(v)@),
    ensures
        node::strictly_increasing(final(v)@),
        forall|y: u32|
            #[trigger] final(v)@.contains(y) <==> (old(v)@.contains(y) || y == x),
{
    let ghost before = v@;
    let n = v.len();
    let mut p: usize = 0;
    while p < n && v[p] < x
        invariant
            p <= n,
            n == v@.len(),
            v@ == before,
            node::strictly_increasing(v@),
            forall|j: int| 0 <= j < p ==> v@[j] < x,
        decreases n - p,
    {
        p += 1;
    }
    if p < n && v[p] == x {
        proof {
            assert(v@.contains(x));
            assert forall|y: u32| #[trigger]
                v@.contains(y) <==> (before.contains(y) || y == x) by {}
        }
        return ;
    }
    proof {
        assert forall|j: int| p <= j < n implies x < v@[j] by {
            if j == p {
            } else {
                assert(v@[p as int] < v@[j]);
            }
        }
    }
    v.insert(p, x);
    proof {
        assert(v@ == before.insert(p as int, x));
        assert forall|i: int, j: int| 0 <= i < j < v@.len() implies v@[i] < v@[j] by {
            if i < p && j > p {
                assert(v@[i] == before[i]);
                assert(v@[j] == before[j - 1]);
            }
        }
        assert(v@[p as int] == x);
        assert forall|y: u32| #[trigger] v@.contains(y) implies (before.contains(y) || y == x) by {
            let i = choose|i: int| 0 <= i < v@.len() && v@[i] == y;
            if i < p {
                assert(before[i] == y);
            } else if i > p {
                assert(before[i - 1] == y);
            }
        }
        assert forall|y: u32| before.contains(y) implies #[trigger] v@.contains(y) by {
            let i = choose|i: int| 0 <= i < before.len() && before[i] == y;
            if i < p {
                assert(v@[i] == y);
            } else {
                assert(v@[i + 1] == y);
            }
        }
        assert(v@.contains(x));
    }
}

/// Removes `x` from a strictly sorted id list; no effect when absent.
fn remove_sorted_id(v: &mut Vec<u32>, x: u32)
    requires
        node::strictly_increasing(old(v)@),
    ensures
        node::strictly_increasing(final(v)@),
        forall|y: u32|
            #[trigger] final(v)@.contains(y) <==> (old(v)@.contains(y) && y != x),
{
    let ghost before = v@;
    let n = v.len();
    let mut p: usize = 0;
    while p < n && v[p] != x
        invariant
            p <= n,
            n == v@.len(),
            v@ == before,
            node::strictly_increasing(v@),
            forall|j: int| 0 <= j < p ==> v@[j] != x,
        decreases n - p,
    {
        p += 1;
    }
    if p == n {
        proof {
            assert(!v@.contains(x));
            assert forall|y: u32| #[trigger]
                v@.contains(y) <==> (before.contains(y) && y != x) by {}
        }
        return ;
    }
    v.remove(p);
    proof {
        assert(before[p as int] == x);
        assert(v@ == before.remove(p as int));
        assert forall|i: int, j: int| 0 <= i < j < v@.len() implies v@[i] < v@[j] by {
            if i < p && j >= p {
                assert(v@[i] == before[i]);
                assert(v@[j] == before[j + 1]);
            }
        }
        assert forall|y: u32| #[trigger]
            v@.contains(y) implies (before.contains(y) && y != x) by {
            let i = choose|i: int| 0 <= i < v@.len() && v@[i] == y;
            if i < p {
                assert(before[i] == y);
                if y == x {
                    assert(before[i] < before[p as int]);
                }
            } else {
                assert(before[i + 1] == y);
                if y == x {
                    assert(before[p as int] < before[i + 1]);
                }
            }
        }
        assert forall|y: u32|
            before.contains(y) && y != x implies #[trigger] v@.contains(y) by {
            let i = choose|i: int| 0 <= i < before.len() && before[i] == y;
            if i < p {
                assert(v@[i] == y);
            } else if i > p {
                assert(v@[i - 1] == y);
            }
        }
    }
}

/// The mesh network engine.
pub struct MeshNetwork {
    pub nodes: Vec<NetworkNode>,
    pub routing_table: RoutingTable,
    pub topology: NetworkTopology,
    pub ground_stations: Vec<u32>,
    pub statistics: NetworkStatistics,
}

impl MeshNetwork {
    /// Internal consistency of an engine instance.
    pub open spec fn wf(&self) -> bool {
        &&& ids_sorted(self.nodes@)
        &&& nodes_wf(self.nodes@)
        &&& node::strictly_increasing(self.ground_stations@)
        &&& forall|k: int|
            0 <= k < self.ground_stations@.len() ==> {
                &&& has_node(self.nodes@, #[trigger] self.ground_stations@[k])
                &&& node_at(self.nodes@, self.ground_stations@[k]).node_type
                    == NodeType::GroundStation
            }
        &&& forall|i: int|
            0 <= i < self.nodes@.len() && (#[trigger] self.nodes@[i]).node_type
                == NodeType::GroundStation
                ==> self.ground_stations@.contains(self.nodes@[i].node_id)
        &&& routing::table_wf(self.routing_table.entries@)
    }

    /// Creates an empty engine.
    pub fn new() -> (net: MeshNetwork)
        ensures
            net.wf(),
            net.nodes@.len() == 0,
            net.ground_stations@.len() == 0,
            net.routing_table.entries@.len() == 0,
            net.statistics == (NetworkStatistics {
                packets_routed: 0,
                packets_dropped: 0,
                total_hops: 0,
                handovers_completed: 0,
                total_latency_ns: 0,
            }),
    {
        MeshNetwork {
            nodes: Vec::new(),
            routing_table: RoutingTable::new(),
            topology: NetworkTopology { adjacency: Vec::new(), connectivity: Vec::new() },
            ground_stations: Vec::new(),
            statistics: NetworkStatistics::new(),
        }
    }

    /// Number of registered nodes.
    pub fn node_count(&self) -> (n: usize)
        ensures
            n == self.nodes@.len(),
    {
        self.nodes.len()
    }

    /// Index of the record carrying `id`, if registered.
    pub fn find_node_index(&self, id: u32) -> (r: Option<usize>)
        requires
            ids_sorted(self.nodes@),
        ensures
            match r {
                Some(i) => {
                    &&& i < self.nodes@.len()
                    &&& self.nodes@[i as int].node_id == id
                    &&& has_node(self.nodes@, id)
                    &&& index_of(self.nodes@, id) == i
                },
                None => !has_node(self.nodes@, id),
            },
    {
        let n = self.nodes.len();
        let mut k: usize = 0;
        while k < n
            invariant
                k <= n,
                n == self.nodes@.len(),
                ids_sorted(self.nodes@),
                forall|j: int| 0 <= j < k ==> self.nodes@[j].node_id != id,
            decreases n - k,
        {
            if self.nodes[k].node_id == id {
                proof {
                    lemma_node_index_unique(self.nodes@, k as int, id);
                }
                return Some(k);
            }
            k += 1;
        }
        proof {
            if has_node(self.nodes@, id) {
                let i = index_of(self.nodes@, id);
                assert(self.nodes@[i].node_id == id);
            }
        }
        None
    }

    /// True when `id` is registered.
    pub fn contains_node(&self, id: u32) -> (r: bool)
        requires
            ids_sorted(self.nodes@),
        ensures
            r == has_node(self.nodes@, id),
    {
        self.find_node_index(id).is_some()
    }

    /// Snapshot of the statistics counters.
    pub fn get_statistics(&self) -> (s: &NetworkStatistics)
        ensures
            s == self.statistics,
    {
        &self.statistics
    }

    /// Registers `node`, replacing any record with the same id, and
    /// rebuilds the derived topology.
    pub fn add_node(&mut self, node: NetworkNode)
        requires
            old(self).wf(),
            node.wf(),
        ensures
            final(self).wf(),
            has_node(final(self).nodes@, node.node_id),
            node_at(final(self).nodes@, node.node_id) == node,
            forall|x: u32|
                #[trigger] has_node(final(self).nodes@, x) <==> (has_node(old(self).nodes@, x)
                    || x == node.node_id),
            forall|x: u32|
                x != node.node_id && #[trigger] has_node(old(self).nodes@, x) ==> node_at(
                    final(self).nodes@,
                    x,
                ) == node_at(old(self).nodes@, x),
            forall|g: u32|
                #[trigger] final(self).ground_stations@.contains(g) <==> ((old(
                    self,
                ).ground_stations@.contains(g) && g != node.node_id) || (node.node_type
                    == NodeType::GroundStation && g == node.node_id)),
            final(self).routing_table == old(self).routing_table,
            final(self).statistics == old(self).statistics,
            topology_consistent(final(self).nodes@, final(self).topology),
    {
        let id = node.node_id;
        let is_gs = node.node_type == NodeType::GroundStation;
        let ghost before = self.nodes@;
        let n = self.nodes.len();
        let mut p: usize = 0;
        while p < n && self.nodes[p].node_id < id
            invariant
                p <= n,
                n == self.nodes@.len(),
                ids_sorted(self.nodes@),
                forall|j: int| 0 <= j < p ==> self.nodes@[j].node_id < id,
            decreases n - p,
        {
            p += 1;
        }
        if p < n && self.nodes[p].node_id == id {
            self.nodes.set(p, node);
            proof {
                assert(self.nodes@ == before.update(p as int, node));
                lemma_node_index_unique(self.nodes@, p as int, id);
                assert forall|x: u32| #[trigger]
                    has_node(self.nodes@, x) implies has_node(before, x) || x == id by {
                    let i = choose|i: int|
                        0 <= i < self.nodes@.len() && (#[trigger] self.nodes@[i]).node_id == x;
                    if i != p {
                        assert(before[i].node_id == x);
                    }
                }
                assert forall|x: u32| #[trigger]
                    has_node(before, x) implies has_node(self.nodes@, x) by {
                    let i = choose|i: int|
                        0 <= i < before.len() && (#[trigger] before[i]).node_id == x;
                    if i != p {
                        assert(self.nodes@[i].node_id == x);
                    } else {
                        assert(self.nodes@[i].node_id == id);
                        assert(before[p as int].node_id == id);
                    }
                }
                assert forall|x: u32|
                    x != id && #[trigger] has_node(before, x) implies node_at(self.nodes@, x)
                    == node_at(before, x) by {
                    let i = choose|i: int|
                        0 <= i < before.len() && (#[trigger] before[i]).node_id == x;
                    assert(i != p);
                    lemma_node_index_unique(before, i, x);
                    lemma_node_index_unique(self.nodes@, i, x);
                }
            }
        } else {
            proof {
                assert forall|j: int| p <= j < n implies id < self.nodes@[j].node_id by {
                    if j == p {
                    } else {
                        assert(self.nodes@[p as int].node_id < self.nodes@[j].node_id);
                    }
                }
            }
            self.nodes.insert(p, node);
            proof {
                assert(self.nodes@ == before.insert(p as int, node));
                assert forall|i: int, j: int|
                    0 <= i < j < self.nodes@.len() implies self.nodes@[i].node_id
                    < self.nodes@[j].node_id by {
                    if i < p && j > p {
                        assert(self.nodes@[i] == before[i]);
                        assert(self.nodes@[j] == before[j - 1]);
                    }
                }
                lemma_node_index_unique(self.nodes@, p as int, id);
                assert forall|x: u32| #[trigger]
                    has_node(self.nodes@, x) implies has_node(before, x) || x == id by {
                    let i = choose|i: int|
                        0 <= i < self.nodes@.len() && (#[trigger] self.nodes@[i]).node_id == x;
                    if i < p {
                        assert(before[i].node_id == x);
                    } else if i > p {
                        assert(before[i - 1].node_id == x);
                    }
                }
                assert forall|x: u32| #[trigger]
                    has_node(before, x) implies has_node(self.nodes@, x) by {
                    let i = choose|i: int|
                        0 <= i < before.len() && (#[trigger] before[i]).node_id == x;
                    if i < p {
                        assert(self.nodes@[i].node_id == x);
                    } else {
                        assert(self.nodes@[i + 1].node_id == x);
                    }
                }
                assert forall|x: u32|
                    x != id && #[trigger] has_node(before, x) implies node_at(self.nodes@, x)
                    == node_at(before, x) by {
                    let i = choose|i: int|
                        0 <= i < before.len() && (#[trigger] before[i]).node_id == x;
                    lemma_node_index_unique(before, i, x);
                    if i < p {
                        lemma_node_index_unique(self.nodes@, i, x);
                    } else {
                        lemma_node_index_unique(self.nodes@, i + 1, x);
                    }
                }
            }
        }
        if is_gs {
            insert_sorted_id(&mut self.ground_stations, id);
        } else {
            remove_sorted_id(&mut self.ground_stations, id);
        }
        proof {
            assert forall|k: int|
                0 <= k < self.ground_stations@.len() implies {
                &&& has_node(self.nodes@, #[trigger] self.ground_stations@[k])
                &&& node_at(self.nodes@, self.ground_stations@[k]).node_type
                    == NodeType::GroundStation
            } by {
                let g = self.ground_stations@[k];
                assert(self.ground_stations@.contains(g));
                if g == id {
                    assert(node_at(self.nodes@, g) == node);
                }
            }
            assert forall|i: int|
                0 <= i < self.nodes@.len() && (#[trigger] self.nodes@[i]).node_type
                    == NodeType::GroundStation implies self.ground_stations@.contains(
                self.nodes@[i].node_id,
            ) by {
                let x = self.nodes@[i].node_id;
                lemma_node_index_unique(self.nodes@, i, x);
                if x != id {
                    assert(has_node(self.nodes@, x));
                    assert(has_node(before, x));
                    let j = choose|j: int|
                        0 <= j < before.len() && (#[trigger] before[j]).node_id == x;
                    lemma_node_index_unique(before, j, x);
                    assert(node_at(before, x) == node_at(self.nodes@, x));
                    assert(old(self).ground_stations@.contains(x));
                }
            }
        }
        self.update_network_topology();
    }

    /// Unregisters `node_id`: fails with `NotFound` when unknown;
    /// otherwise drops the record, purges every routing entry whose
    /// destination or next hop equals the removed id, and rebuilds the
    /// derived topology.
    pub fn remove_node(&mut self, node_id: u32) -> (r: Result<(), RouteError>)
        requires
            old(self).wf(),
        ensures
            final(self).wf(),
            (r is Ok) <==> has_node(old(self).nodes@, node_id),
            r is Err ==> {
                &&& r == Err::<(), RouteError>(RouteError::NotFound)
                &&& final(self).nodes@ == old(self).nodes@
                &&& final(self).routing_table == old(self).routing_table
                &&& final(self).ground_stations@ == old(self).ground_stations@
                &&& final(self).statistics == old(self).statistics
                &&& final(self).topology == old(self).topology
            },
            r is Ok ==> {
                &&& !has_node(final(self).nodes@, node_id)
                &&& forall|x: u32|
                    #[trigger] has_node(final(self).nodes@, x) <==> (has_node(
                        old(self).nodes@,
                        x,
                    ) && x != node_id)
                &&& forall|x: u32|
                    x != node_id && #[trigger] has_node(old(self).nodes@, x) ==> node_at(
                        final(self).nodes@,
                        x,
                    ) == node_at(old(self).nodes@, x)
                &&& forall|g: u32|
                    #[trigger] final(self).ground_stations@.contains(g) <==> (old(
                        self,
                    ).ground_stations@.contains(g) && g != node_id)
                &&& forall|j: int|
                    0 <= j < final(self).routing_table.entries@.len() ==> {
                        &&& (#[trigger] final(self).routing_table.entries@[j]).destination
                            != node_id
                        &&& final(self).routing_table.entries@[j].next_hop != node_id
                    }
                &&& forall|e: RoutingEntry|
                    #[trigger] final(self).routing_table.entries@.contains(e) <==> (old(
                        self,
                    ).routing_table.entries@.contains(e) && e.destination != node_id
                        && e.next_hop != node_id)
                &&& final(self).statistics == old(self).statistics
                &&& topology_consistent(final(self).nodes@, final(self).topology)
            },
    {
        let i = match self.find_node_index(node_id) {
            Some(i) => i,
            None => {
                return Err(RouteError::NotFound);
            },
        };
        let ghost before = self.nodes@;
        self.nodes.remove(i);
        proof {
            assert(before[i as int].node_id == node_id);
            assert(self.nodes@ == before.remove(i as int));
            assert forall|a: int, b: int|
                0 <= a < b < self.nodes@.len() implies self.nodes@[a].node_id
                < self.nodes@[b].node_id by {
                if a < i && b >= i {
                    assert(self.nodes@[a] == before[a]);
                    assert(self.nodes@[b] == before[b + 1]);
                }
            }
            assert forall|x: u32| #[trigger]
                has_node(self.nodes@, x) implies (has_node(before, x) && x != node_id) by {
                let j = choose|j: int|
                    0 <= j < self.nodes@.len() && (#[trigger] self.nodes@[j]).node_id == x;
                if j < i {
                    assert(before[j].node_id == x);
                    if x == node_id {
                        lemma_node_index_unique(before, j, x);
                        lemma_node_index_unique(before, i as int, x);
                    }
                } else {
                    assert(before[j + 1].node_id == x);
                    if x == node_id {
                        lemma_node_index_unique(before, j + 1, x);
                        lemma_node_index_unique(before, i as int, x);
                    }
                }
            }
            assert forall|x: u32|
                has_node(before, x) && x != node_id implies #[trigger] has_node(
                self.nodes@,
                x,
            ) by {
                let j = choose|j: int| 0 <= j < before.len() && (#[trigger] before[j]).node_id == x;
                if j < i {
                    assert(self.nodes@[j].node_id == x);
                } else if j > i {
                    assert(self.nodes@[j - 1].node_id == x);
                }
            }
            assert forall|x: u32|
                x != node_id && #[trigger] has_node(before, x) implies node_at(self.nodes@, x)
                == node_at(before, x) by {
                let j = choose|j: int| 0 <= j < before.len() && (#[trigger] before[j]).node_id == x;
                lemma_node_index_unique(before, j, x);
                if j < i {
                    lemma_node_index_unique(self.nodes@, j, x);
                } else {
                    lemma_node_index_unique(self.nodes@, j - 1, x);
                }
            }
        }
        remove_sorted_id(&mut self.ground_stations, node_id);
        let ghost old_entries = self.routing_table.entries@;
        let m = self.routing_table.entries.len();
        let mut kept: Vec<RoutingEntry> = Vec::new();
        let mut j: usize = 0;
        while j < m
            invariant
                j <= m,
                m == self.routing_table.entries@.len(),
                self.routing_table.entries@ == old_entries,
                routing::table_wf(old_entries),
                routing::dests_sorted(kept@),
                forall|k: int|
                    0 <= k < kept@.len() ==> routing::entry_wf(#[trigger] kept@[k]),
                forall|k: int|
                    0 <= k < kept@.len() ==> exists|jj: int|
                        0 <= jj < j && old_entries[jj] == (#[trigger] kept@[k]),
                forall|k: int|
                    0 <= k < kept@.len() ==> (#[trigger] kept@[k]).destination != node_id
                        && kept@[k].next_hop != node_id,
                forall|jj: int|
                    0 <= jj < j && (#[trigger] old_entries[jj]).destination != node_id
                        && old_entries[jj].next_hop != node_id ==> kept@.contains(old_entries[jj]),
            decreases m - j,
        {
            let e = self.routing_table.entries[j];
            if e.destination != node_id && e.next_hop != node_id {
                proof {
                    assert forall|k: int|
                        0 <= k < kept@.len() implies (#[trigger] kept@[k]).destination
                        < e.destination by {
                        let jj = choose|jj: int| 0 <= jj < j && old_entries[jj] == kept@[k];
                        assert(old_entries[jj].destination < old_entries[j as int].destination);
                    }
                }
                let ghost kept_before = kept@;
                kept.push(e);
                proof {
                    assert(kept@ == kept_before.push(e));
                    assert forall|jj: int|
                        0 <= jj < j + 1 && (#[trigger] old_entries[jj]).destination != node_id
                            && old_entries[jj].next_hop != node_id implies kept@.contains(
                        old_entries[jj],
                    ) by {
                        if jj < j {
                            assert(kept_before.contains(old_entries[jj]));
                            let k = choose|k: int|
                                0 <= k < kept_before.len() && kept_before[k] == old_entries[jj];
                            assert(kept@[k] == old_entries[jj]);
                        } else {
                            assert(kept@[kept@.len() - 1] == e);
                        }
                    }
                }
            }
            j += 1;
        }
        self.routing_table.entries = kept;
        proof {
            assert forall|e: RoutingEntry| #[trigger]
                self.routing_table.entries@.contains(e) implies (old_entries.contains(e)
                && e.destination != node_id && e.next_hop != node_id) by {
                let k = choose|k: int|
                    0 <= k < self.routing_table.entries@.len() && self.routing_table.entries@[k]
                        == e;
                let jj = choose|jj: int| 0 <= jj < m && old_entries[jj] == e;
                assert(old_entries[jj] == e);
            }
            assert forall|e: RoutingEntry|
                old_entries.contains(e) && e.destination != node_id && e.next_hop
                    != node_id implies #[trigger] self.routing_table.entries@.contains(e) by {
                let jj = choose|jj: int| 0 <= jj < old_entries.len() && old_entries[jj] == e;
                assert(self.routing_table.entries@.contains(old_entries[jj]));
            }
            assert forall|a: int| 0 <= a < self.nodes@.len() implies (#[trigger] self.nodes@[a]).wf() by {
                if a < i {
                    assert(self.nodes@[a] == before[a]);
                    assert(before[a].wf());
                } else {
                    assert(self.nodes@[a] == before[a + 1]);
                    assert(before[a + 1].wf());
                }
            }
            assert forall|k: int|
                0 <= k < self.ground_stations@.len() implies {
                &&& has_node(self.nodes@, #[trigger] self.ground_stations@[k])
                &&& node_at(self.nodes@, self.ground_stations@[k]).node_type
                    == NodeType::GroundStation
            } by {
                let g = self.ground_stations@[k];
                assert(self.ground_stations@.contains(g));
                assert(old(self).ground_stations@.contains(g) && g != node_id);
                assert(has_node(before, g));
                assert(node_at(self.nodes@, g) == node_at(before, g));
            }
            assert forall|a: int|
                0 <= a < self.nodes@.len() && (#[trigger] self.nodes@[a]).node_type
                    == NodeType::GroundStation implies self.ground_stations@.contains(
                self.nodes@[a].node_id,
            ) by {
                let x = self.nodes@[a].node_id;
                lemma_node_index_unique(self.nodes@, a, x);
                assert(has_node(before, x) && x != node_id);
                let jb = choose|jb: int| 0 <= jb < before.len() && (#[trigger] before[jb]).node_id == x;
                lemma_node_index_unique(before, jb, x);
                assert(node_at(before, x) == node_at(self.nodes@, x));
                assert(node_at(before, x).node_type == NodeType::GroundStation);
                assert(old(self).ground_stations@.contains(x));
            }
        }
        self.update_network_topology();
        Ok(())
    }

    /// Replaces the position of `node_id` with `new_position`, stamps
    /// the node as seen now, and rebuilds the derived topology; fails
    /// with `NotFound` when the id is unknown.
    pub fn update_node_position(&mut self, node_id: u32, new_position: OrbitalPosition) -> (r:
        Result<(), RouteError>)
        requires
            old(self).wf(),
            new_position.wf(),
        ensures
            final(self).wf(),
            (r is Ok) <==> has_node(old(self).nodes@, node_id),
            r is Err ==> {
                &&& r == Err::<(), RouteError>(RouteError::NotFound)
                &&& final(self).nodes@ == old(self).nodes@
                &&& final(self).routing_table == old(self).routing_table
                &&& final(self).ground_stations@ == old(self).ground_stations@
                &&& final(self).statistics == old(self).statistics
                &&& final(self).topology == old(self).topology
            },
            r is Ok ==> {
                &&& forall|x: u32|
                    #[trigger] has_node(final(self).nodes@, x) <==> has_node(old(self).nodes@, x)
                &&& node_at(final(self).nodes@, node_id).position == new_position
                &&& node_with_position(
                    node_at(final(self).nodes@, node_id),
                    node_at(old(self).nodes@, node_id),
                )
                &&& forall|x: u32|
                    x != node_id && #[trigger] has_node(old(self).nodes@, x) ==> node_at(
                        final(self).nodes@,
                        x,
                    ) == node_at(old(self).nodes@, x)
                &&& final(self).routing_table == old(self).routing_table
                &&& final(self).ground_stations@ == old(self).ground_stations@
                &&& final(self).statistics == old(self).statistics
                &&& topology_consistent(final(self).nodes@, final(self).topology)
            },
    {
        let i = match self.find_node_index(node_id) {
            Some(i) => i,
            None => {
                return Err(RouteError::NotFound);
            },
        };
        let ghost before = self.nodes@;
        let mut record = self.nodes.remove(i);
        record.position = new_position;
        record.last_seen_ms = crate::clock::now_millis();
        self.nodes.insert(i, record);
        proof {
            assert(self.nodes@ =~= before.update(i as int, self.nodes@[i as int]));
            let updated = self.nodes@[i as int];
            assert(updated.node_id == node_id);
            assert(updated.wf());
            assert forall|a: int, b: int|
                0 <= a < b < self.nodes@.len() implies self.nodes@[a].node_id
                < self.nodes@[b].node_id by {
                assert(before[a].node_id < before[b].node_id);
            }
            lemma_node_index_unique(self.nodes@, i as int, node_id);
            lemma_node_index_unique(before, i as int, node_id);
            assert forall|x: u32| #[trigger]
                has_node(self.nodes@, x) implies has_node(before, x) by {
                let j = choose|j: int|
                    0 <= j < self.nodes@.len() && (#[trigger] self.nodes@[j]).node_id == x;
                assert(before[j].node_id == x);
            }
            assert forall|x: u32| #[trigger]
                has_node(before, x) implies has_node(self.nodes@, x) by {
                let j = choose|j: int| 0 <= j < before.len() && (#[trigger] before[j]).node_id == x;
                assert(self.nodes@[j].node_id == x);
            }
            assert forall|x: u32|
                x != node_id && #[trigger] has_node(before, x) implies node_at(self.nodes@, x)
                == node_at(before, x) by {
                let j = choose|j: int| 0 <= j < before.len() && (#[trigger] before[j]).node_id == x;
                assert(j != i);
                lemma_node_index_unique(before, j, x);
                lemma_node_index_unique(self.nodes@, j, x);
            }
            assert forall|k: int|
                0 <= k < self.ground_stations@.len() implies {
                &&& has_node(self.nodes@, #[trigger] self.ground_stations@[k])
                &&& node_at(self.nodes@, self.ground_stations@[k]).node_type
                    == NodeType::GroundStation
            } by {
                let g = self.ground_stations@[k];
                if g == node_id {
                    assert(node_at(self.nodes@, g) == updated);
                    assert(node_at(before, g).node_type == NodeType::GroundStation);
                }
            }
            assert forall|j: int|
                0 <= j < self.nodes@.len() && (#[trigger] self.nodes@[j]).node_type
                    == NodeType::GroundStation implies self.ground_stations@.contains(
                self.nodes@[j].node_id,
            ) by {
                assert(before[j].node_type == self.nodes@[j].node_type);
                assert(before[j].node_id == self.nodes@[j].node_id);
            }
        }
        self.update_network_topology();
        Ok(())
    }

    /// Number of registered ground stations.
    pub fn ground_station_count(&self) -> (n: usize)
        ensures
            n == self.ground_stations@.len(),
    {
        self.ground_stations.len()
    }
}

impl Default for MeshNetwork {
    /// An empty engine, as `new` builds it.
    fn default() -> (net: MeshNetwork)
        ensures
            net.wf(),
            net.nodes@.len() == 0,
    {
        MeshNetwork::new()
    }
}

/// Two node records that agree on everything except the position and
/// the last-seen stamp.
pub open spec fn node_with_position(a: NetworkNode, b: NetworkNode) -> bool {
    &&& a.node_id == b.node_id
    &&& a.node_type == b.node_type
    &&& a.communication_range_m == b.communication_range_m
    &&& a.is_active == b.is_active
    &&& a.battery_millis == b.battery_millis
    &&& a.neighbors@ == b.neighbors@
}

} // verus!
