//! Route finder: the link cost model and on-demand shortest-path search
//! over the current neighbour graph.

use vstd::prelude::*;

use crate::mesh::{
    edge, has_node, ids_sorted, index_of, is_route, lemma_node_index_unique, lemma_route_closure,
    lemma_route_extend, node_at, nodes_wf, reachable, MeshNetwork,
};
use crate::node;
use crate::node::NetworkNode;
use crate::routing;
use crate::routing::{RouteError, RoutingEntry};

verus! {

/// No finite link cost exceeds this (metres-per-thousand times the three
/// scaled penalty factors).
pub const MAX_LINK_COST: u64 = 4_800_000_000_000;

/// Path-cost value standing for "not reached yet".
pub const UNREACHED: u128 = 0xffff_ffff_ffff_ffff_ffff_ffff_ffff_ffff;

/// Cost of the direct link from `n1` to `n2`: distance (km) scaled by a
/// battery factor, a reliability factor taken from the routing table,
/// and a penalty for crossing node types; `INFINITE_COST` when either
/// endpoint is unknown.  All factors are in thousandths, so one cost
/// unit is 1 km scaled by 1/1000 of each factor.
pub open spec fn spec_link_cost(
    nodes: Seq<NetworkNode>,
    entries: Seq<RoutingEntry>,
    n1: u32,
    n2: u32,
) -> int {
    if has_node(nodes, n1) && has_node(nodes, n2) {
        let a = node_at(nodes, n1);
        let b = node_at(nodes, n2);
        let d_km = node::spec_distance_m(a.position, b.position) / 1000;
        let bat: int = if a.battery_millis <= b.battery_millis {
            a.battery_millis as int
        } else {
            b.battery_millis as int
        };
        let rel = routing::spec_rel_hint(entries, n2);
        let tf: int = if a.node_type != b.node_type {
            3
        } else {
            2
        };
        d_km * (2000 - bat) * (2000 - rel) * tf
    } else {
        routing::INFINITE_COST as int
    }
}

/// A finite link cost is non-negative and bounded by `MAX_LINK_COST`.
pub proof fn lemma_link_cost_bound(
    nodes: Seq<NetworkNode>,
    entries: Seq<RoutingEntry>,
    n1: u32,
    n2: u32,
)
    requires
        nodes_wf(nodes),
        routing::table_wf(entries),
        has_node(nodes, n1),
        has_node(nodes, n2),
    ensures
        0 <= spec_link_cost(nodes, entries, n1, n2) <= MAX_LINK_COST,
{
    let a = node_at(nodes, n1);
    let b = node_at(nodes, n2);
    let i1 = index_of(nodes, n1);
    let i2 = index_of(nodes, n2);
    assert(0 <= i1 < nodes.len() && nodes[i1].node_id == n1);
    assert(0 <= i2 < nodes.len() && nodes[i2].node_id == n2);
    assert(a.wf());
    assert(b.wf());
    node::lemma_distance_bound(a.position, b.position);
    let dm = node::spec_distance_m(a.position, b.position);
    vstd::arithmetic::div_mod::lemma_div_pos_is_pos(dm, 1000);
    let d_km = dm / 1000;
    assert(d_km <= 400_000) by {
        vstd::arithmetic::div_mod::lemma_div_is_ordered(dm, 400_000_000, 1000);
        vstd::arithmetic::div_mod::lemma_div_by_multiple(400_000, 1000);
        assert(400_000int * 1000 == 400_000_000int);
    }
    let bat: int = if a.battery_millis <= b.battery_millis {
        a.battery_millis as int
    } else {
        b.battery_millis as int
    };
    assert(0 <= bat <= 1000);
    let rel = routing::spec_rel_hint(entries, n2);
    assert(0 <= rel <= 1000) by {
        if routing::has_dest(entries, n2) {
            let j = routing::entry_index(entries, n2);
            assert(0 <= j < entries.len() && entries[j].destination == n2);
            assert(routing::entry_wf(entries[j]));
            routing::lemma_decayed_reliability_bounds(entries[j].hop_count as int);
        }
    }
    let tf: int = if a.node_type != b.node_type {
        3
    } else {
        2
    };
    assert(0 <= d_km * (2000 - bat) * (2000 - rel) * tf <= 4_800_000_000_000) by (nonlinear_arith)
        requires
            0 <= d_km <= 400_000,
            0 <= bat <= 1000,
            0 <= rel <= 1000,
            2 <= tf <= 3,
    ;
}

/// Number of true flags in a boolean sequence.
pub open spec fn count_true(s: Seq<bool>) -> int
    decreases s.len(),
{
    if s.len() == 0 {
        0
    } else {
        count_true(s.drop_last()) + if s.last() {
            1int
        } else {
            0int
        }
    }
}

proof fn lemma_mul_le(a: int, b: int, m: int)
    requires
        a <= b,
        m >= 0,
    ensures
        a * m <= b * m,
{
    assert(a * m <= b * m) by (nonlinear_arith)
        requires
            a <= b,
            m >= 0,
    ;
}

proof fn lemma_count_true_bounds(s: Seq<bool>)
    ensures
        0 <= count_true(s) <= s.len(),
    decreases s.len(),
{
    if s.len() > 0 {
        lemma_count_true_bounds(s.drop_last());
    }
}

proof fn lemma_count_true_update(s: Seq<bool>, i: int)
    requires
        0 <= i < s.len(),
        !s[i],
    ensures
        count_true(s.update(i, true)) == count_true(s) + 1,
    decreases s.len(),
{
    let t = s.update(i, true);
    if i == s.len() - 1 {
        assert(t.drop_last() =~= s.drop_last());
    } else {
        assert(t.drop_last() =~= s.drop_last().update(i, true));
        lemma_count_true_update(s.drop_last(), i);
        assert(t.last() == s.last());
    }
}

proof fn lemma_count_true_not_full(s: Seq<bool>, i: int)
    requires
        0 <= i < s.len(),
        !s[i],
    ensures
        count_true(s) < s.len(),
    decreases s.len(),
{
    if i == s.len() - 1 {
        lemma_count_true_bounds(s.drop_last());
    } else {
        lemma_count_true_not_full(s.drop_last(), i);
    }
}

/// Copies a route so it can be extended independently.
pub(crate) fn copy_route(v: &Vec<u32>) -> (r: Vec<u32>)
    ensures
        r@ == v@,
{
    let mut r: Vec<u32> = Vec::new();
    let n = v.len();
    let mut k: usize = 0;
    while k < n
        invariant
            k <= n,
            n == v@.len(),
            r@ == v@.take(k as int),
        decreases n - k,
    {
        r.push(v[k]);
        proof {
            assert(r@ =~= v@.take(k + 1));
        }
        k += 1;
    }
    proof {
        assert(r@ =~= v@);
    }
    r
}

/// Total cost of a walk starting at `prev` under the given node set and
/// routing table: the sum of the link costs of its edges.
pub open spec fn spec_route_cost(
    nodes: Seq<NetworkNode>,
    entries: Seq<RoutingEntry>,
    prev: u32,
    hops: Seq<u32>,
) -> int
    decreases hops.len(),
{
    if hops.len() == 0 {
        0
    } else {
        spec_link_cost(nodes, entries, prev, hops[0]) + spec_route_cost(
            nodes,
            entries,
            hops[0],
            hops.subrange(1, hops.len() as int),
        )
    }
}

/// No node id occurs twice among the hops.
pub open spec fn distinct_hops(hops: Seq<u32>) -> bool {
    forall|m1: int, m2: int| 0 <= m1 < m2 < hops.len() ==> hops[m1] != hops[m2]
}

/// `hops` is a walk from `src` to `dst` of minimal cost among all such
/// walks, under the given node set and routing table.
pub open spec fn min_cost_route(
    nodes: Seq<NetworkNode>,
    entries: Seq<RoutingEntry>,
    src: u32,
    hops: Seq<u32>,
    dst: u32,
) -> bool {
    &&& is_route(nodes, src, hops, dst)
    &&& forall|q: Seq<u32>|
        is_route(nodes, src, q, dst) ==> spec_route_cost(nodes, entries, src, hops)
            <= spec_route_cost(nodes, entries, src, q)
}

/// Unrolls the walk cost one hop from the right.
proof fn lemma_route_cost_push(
    nodes: Seq<NetworkNode>,
    entries: Seq<RoutingEntry>,
    prev: u32,
    hops: Seq<u32>,
    x: u32,
)
    ensures
        spec_route_cost(nodes, entries, prev, hops.push(x)) == spec_route_cost(
            nodes,
            entries,
            prev,
            hops,
        ) + spec_link_cost(
            nodes,
            entries,
            if hops.len() == 0 {
                prev
            } else {
                hops[hops.len() - 1]
            },
            x,
        ),
    decreases hops.len(),
{
    let e = hops.push(x);
    if hops.len() == 0 {
        assert(e.subrange(1, 1) =~= Seq::<u32>::empty());
        assert(e.len() == 1);
        assert(e[0] == x);
        assert(spec_route_cost(nodes, entries, x, e.subrange(1, 1)) == 0);
    } else {
        let rest = hops.subrange(1, hops.len() as int);
        assert(e[0] == hops[0]);
        assert(e.subrange(1, e.len() as int) =~= rest.push(x));
        lemma_route_cost_push(nodes, entries, hops[0], rest, x);
        let tail_prev = if rest.len() == 0 {
            hops[0]
        } else {
            rest[rest.len() - 1]
        };
        assert(tail_prev == hops[hops.len() - 1]) by {
            if rest.len() > 0 {
                assert(rest[rest.len() - 1] == hops[hops.len() - 1]);
            }
        }
        assert(spec_route_cost(nodes, entries, prev, e) == spec_link_cost(
            nodes,
            entries,
            prev,
            hops[0],
        ) + spec_route_cost(nodes, entries, hops[0], rest.push(x)));
        assert(spec_route_cost(nodes, entries, prev, hops) == spec_link_cost(
            nodes,
            entries,
            prev,
            hops[0],
        ) + spec_route_cost(nodes, entries, hops[0], rest));
    }
}

/// Any walk out of a settled region costs at least the threshold `t`:
/// `t` is below every unexplored tentative cost, settled nodes sit below
/// `t`, and every edge out of a settled node has been relaxed.
proof fn lemma_route_cost_lower(
    nodes: Seq<NetworkNode>,
    entries: Seq<RoutingEntry>,
    dist: Seq<u128>,
    visited: Seq<bool>,
    src: u32,
    src_i: int,
    q: Seq<u32>,
    x: u32,
    t: int,
)
    requires
        ids_sorted(nodes),
        nodes_wf(nodes),
        routing::table_wf(entries),
        dist.len() == nodes.len(),
        visited.len() == nodes.len(),
        0 <= src_i < nodes.len(),
        nodes[src_i].node_id == src,
        visited[src_i],
        dist[src_i] == 0,
        forall|j: int, b: u32|
            0 <= j < nodes.len() && visited[j] && (#[trigger] nodes[j].neighbors@.contains(b))
                && has_node(nodes, b) ==> dist[index_of(nodes, b)] as int <= dist[j]
                + spec_link_cost(nodes, entries, nodes[j].node_id, b),
        forall|j: int, k: int|
            0 <= j < nodes.len() && 0 <= k < nodes.len() && visited[j] && !visited[k]
                ==> #[trigger] dist[j] <= #[trigger] dist[k],
        is_route(nodes, src, q, x),
        t <= dist[index_of(nodes, x)],
        forall|k: int| 0 <= k < nodes.len() && !visited[k] ==> t <= #[trigger] dist[k],
    ensures
        spec_route_cost(nodes, entries, src, q) >= t,
    decreases q.len(),
{
    if q.len() == 0 {
        assert(x == src);
        lemma_node_index_unique(nodes, src_i, src);
        assert(t <= 0);
    } else {
        let w: u32 = if q.len() == 1 {
            src
        } else {
            q[q.len() - 2]
        };
        let qp = q.subrange(0, q.len() - 1);
        assert(edge(nodes, w, x)) by {
            if q.len() == 1 {
                assert(edge(nodes, src, q[0]));
                assert(q[0] == x);
            } else {
                assert(edge(nodes, q[q.len() - 2], q[q.len() - 1]));
                assert(q[q.len() - 1] == x);
            }
        }
        assert(is_route(nodes, src, qp, w)) by {
            if q.len() == 1 {
                assert(qp.len() == 0);
            } else {
                assert(qp[0] == q[0]);
                assert(qp[qp.len() - 1] == q[q.len() - 2]);
                assert forall|k: int| 0 <= k < qp.len() - 1 implies edge(
                    nodes,
                    #[trigger] qp[k],
                    qp[k + 1],
                ) by {
                    assert(qp[k] == q[k]);
                    assert(qp[k + 1] == q[k + 1]);
                    assert(edge(nodes, q[k], q[k + 1]));
                }
            }
        }
        assert(q =~= qp.push(x));
        lemma_route_cost_push(nodes, entries, src, qp, x);
        assert(spec_route_cost(nodes, entries, src, q) == spec_route_cost(
            nodes,
            entries,
            src,
            qp,
        ) + spec_link_cost(nodes, entries, w, x)) by {
            if qp.len() > 0 {
                assert(qp[qp.len() - 1] == w);
            }
        }
        lemma_link_cost_bound(nodes, entries, w, x);
        let iw = index_of(nodes, w);
        assert(0 <= iw < nodes.len() && nodes[iw].node_id == w);
        let ix = index_of(nodes, x);
        assert(0 <= ix < nodes.len() && nodes[ix].node_id == x);
        if visited[iw] {
            lemma_route_cost_lower(
                nodes,
                entries,
                dist,
                visited,
                src,
                src_i,
                qp,
                w,
                dist[iw] as int,
            );
            assert(node_at(nodes, w) == nodes[iw]) by {
                lemma_node_index_unique(nodes, iw, w);
            }
            assert(nodes[iw].neighbors@.contains(x));
            assert(dist[ix] as int <= dist[iw] + spec_link_cost(nodes, entries, w, x));
        } else {
            lemma_route_cost_lower(nodes, entries, dist, visited, src, src_i, qp, w, t);
            assert(t <= dist[iw]);
        }
    }
}

impl MeshNetwork {
    /// Computes the cost of the direct link from `node1` to `node2`
    /// under the current battery levels and routing-table reliability
    /// hints; `INFINITE_COST` when either node is unknown.
    pub fn calculate_link_cost(&self, node1: u32, node2: u32) -> (c: u64)
        requires
            self.wf(),
        ensures
            c == spec_link_cost(self.nodes@, self.routing_table.entries@, node1, node2),
            has_node(self.nodes@, node1) && has_node(self.nodes@, node2) ==> c <= MAX_LINK_COST,
            !(has_node(self.nodes@, node1) && has_node(self.nodes@, node2)) ==> c
                == routing::INFINITE_COST,
    {
        let i1 = match self.find_node_index(node1) {
            Some(i) => i,
            None => {
                return routing::INFINITE_COST;
            },
        };
        let i2 = match self.find_node_index(node2) {
            Some(i) => i,
            None => {
                return routing::INFINITE_COST;
            },
        };
        proof {
            lemma_link_cost_bound(self.nodes@, self.routing_table.entries@, node1, node2);
            assert(self.nodes@[i1 as int].wf());
            assert(self.nodes@[i2 as int].wf());
        }
        let d = node::distance_m(&self.nodes[i1].position, &self.nodes[i2].position);
        let d_km: u64 = d / 1000;
        let bat: u32 = if self.nodes[i1].battery_millis <= self.nodes[i2].battery_millis {
            self.nodes[i1].battery_millis
        } else {
            self.nodes[i2].battery_millis
        };
        let rel: u32 = self.routing_table.rel_hint(node2);
        let tf: u64 = if self.nodes[i1].node_type != self.nodes[i2].node_type {
            3
        } else {
            2
        };
        proof {
            assert(d_km <= 400_000) by {
                vstd::arithmetic::div_mod::lemma_div_is_ordered(d as int, 400_000_000, 1000);
                vstd::arithmetic::div_mod::lemma_div_by_multiple(400_000, 1000);
                assert(400_000int * 1000 == 400_000_000int);
            }
            assert(rel <= 1000) by {
                if routing::has_dest(self.routing_table.entries@, node2) {
                    let j = routing::entry_index(self.routing_table.entries@, node2);
                    assert(routing::entry_wf(self.routing_table.entries@[j]));
                    routing::lemma_decayed_reliability_bounds(
                        self.routing_table.entries@[j].hop_count as int,
                    );
                }
            }
            assert(d_km * (2000 - bat) * (2000 - rel) * tf <= 4_800_000_000_000) by (nonlinear_arith)
                requires
                    0 <= d_km <= 400_000,
                    0 <= bat <= 1000,
                    0 <= rel <= 1000,
                    2 <= tf <= 3,
            ;
            assert(d_km * (2000 - bat) <= 800_000_000) by (nonlinear_arith)
                requires
                    0 <= d_km <= 400_000,
                    0 <= bat <= 1000,
            ;
            assert(d_km * (2000 - bat) * (2000 - rel) <= 1_600_000_000_000) by (nonlinear_arith)
                requires
                    0 <= d_km * (2000 - bat) <= 800_000_000,
                    0 <= rel <= 1000,
            ;
        }
        let c: u64 = d_km * (2000 - bat as u64) * (2000 - rel as u64) * tf;
        c
    }


    /// Relaxes every neighbour of the freshly settled node `best`,
    /// keeping the search invariants.
    #[verifier::rlimit(100)]
    fn relax_neighbors(
        &self,
        best: usize,
        dist: &mut Vec<u128>,
        routes: &mut Vec<Vec<u32>>,
        visited: &Vec<bool>,
        Ghost(source): Ghost<u32>,
        Ghost(src_i): Ghost<int>,
    )
        requires
            self.wf(),
            best < self.nodes@.len(),
            0 <= src_i < self.nodes@.len(),
            self.nodes@[src_i].node_id == source,
            old(dist)@.len() == self.nodes@.len(),
            old(routes)@.len() == self.nodes@.len(),
            visited@.len() == self.nodes@.len(),
            visited@[best as int],
            visited@[src_i],
            old(dist)@[src_i] == 0,
            forall|j: int|
                #![trigger old(dist)@[j]]
                0 <= j < self.nodes@.len() && visited@[j] ==> old(dist)@[j] < UNREACHED && old(dist)@[j] <= count_true(visited@) * MAX_LINK_COST && old(routes)@[j]@.len()
                    <= count_true(visited@),
            forall|j: int|
                #![trigger old(dist)@[j]]
                0 <= j < self.nodes@.len() && old(dist)@[j] < UNREACHED ==> {
                    &&& old(dist)@[j] <= (count_true(visited@) + 1) * MAX_LINK_COST
                    &&& is_route(self.nodes@, source, old(routes)@[j]@, self.nodes@[j].node_id)
                    &&& old(routes)@[j]@.len() <= count_true(visited@) + 1
                    &&& (j != src_i ==> old(routes)@[j]@.len() >= 1)
                },
            forall|j: int|
                #![trigger old(routes)@[j]]
                0 <= j < self.nodes@.len() && old(dist)@[j] < UNREACHED ==> old(dist)@[j]
                    == spec_route_cost(
                    self.nodes@,
                    self.routing_table.entries@,
                    source,
                    old(routes)@[j]@,
                ),
            forall|j: int|
                #![trigger old(routes)@[j]]
                0 <= j < self.nodes@.len() && old(dist)@[j] < UNREACHED ==> {
                    &&& distinct_hops(old(routes)@[j]@)
                    &&& !old(routes)@[j]@.contains(source)
                    &&& forall|m: int|
                        0 <= m < old(routes)@[j]@.len() - 1 ==> has_node(
                            self.nodes@,
                            #[trigger] old(routes)@[j]@[m],
                        ) && visited@[index_of(self.nodes@, old(routes)@[j]@[m])]
                },
            forall|j: int, b: u32|
                0 <= j < self.nodes@.len() && visited@[j] && j != best && (
                #[trigger] self.nodes@[j].neighbors@.contains(b)) && has_node(self.nodes@, b)
                    ==> old(dist)@[index_of(self.nodes@, b)] as int <= old(dist)@[j]
                    + spec_link_cost(
                    self.nodes@,
                    self.routing_table.entries@,
                    self.nodes@[j].node_id,
                    b,
                ),
            forall|j: int|
                0 <= j < self.nodes@.len() && visited@[j] ==> #[trigger] old(dist)@[j] <= old(dist)@[best as int],
            forall|k2: int|
                0 <= k2 < self.nodes@.len() && !visited@[k2] ==> old(dist)@[best as int]
                    <= #[trigger] old(dist)@[k2],
        ensures
            final(dist)@.len() == self.nodes@.len(),
            final(routes)@.len() == self.nodes@.len(),
            final(dist)@[src_i] == 0,
            forall|j: int|
                #![trigger final(dist)@[j]]
                0 <= j < self.nodes@.len() && visited@[j] ==> final(dist)@[j] < UNREACHED && final(dist)@[j] <= count_true(visited@) * MAX_LINK_COST && final(routes)@[j]@.len()
                    <= count_true(visited@),
            forall|j: int|
                #![trigger final(dist)@[j]]
                0 <= j < self.nodes@.len() && final(dist)@[j] < UNREACHED ==> {
                    &&& final(dist)@[j] <= (count_true(visited@) + 1) * MAX_LINK_COST
                    &&& is_route(self.nodes@, source, final(routes)@[j]@, self.nodes@[j].node_id)
                    &&& final(routes)@[j]@.len() <= count_true(visited@) + 1
                    &&& (j != src_i ==> final(routes)@[j]@.len() >= 1)
                },
            forall|j: int|
                #![trigger final(routes)@[j]]
                0 <= j < self.nodes@.len() && final(dist)@[j] < UNREACHED ==> final(dist)@[j]
                    == spec_route_cost(
                    self.nodes@,
                    self.routing_table.entries@,
                    source,
                    final(routes)@[j]@,
                ),
            forall|j: int|
                #![trigger final(routes)@[j]]
                0 <= j < self.nodes@.len() && final(dist)@[j] < UNREACHED ==> {
                    &&& distinct_hops(final(routes)@[j]@)
                    &&& !final(routes)@[j]@.contains(source)
                    &&& forall|m: int|
                        0 <= m < final(routes)@[j]@.len() - 1 ==> has_node(
                            self.nodes@,
                            #[trigger] final(routes)@[j]@[m],
                        ) && visited@[index_of(self.nodes@, final(routes)@[j]@[m])]
                },
            forall|j: int, b: u32|
                0 <= j < self.nodes@.len() && visited@[j] && j != best && (
                #[trigger] self.nodes@[j].neighbors@.contains(b)) && has_node(self.nodes@, b)
                    ==> final(dist)@[index_of(self.nodes@, b)] as int <= final(dist)@[j]
                    + spec_link_cost(
                    self.nodes@,
                    self.routing_table.entries@,
                    self.nodes@[j].node_id,
                    b,
                ),
            forall|tt: int|
                0 <= tt < self.nodes@[best as int].neighbors@.len() && has_node(
                    self.nodes@,
                    #[trigger] self.nodes@[best as int].neighbors@[tt],
                ) ==> final(dist)@[index_of(
                    self.nodes@,
                    self.nodes@[best as int].neighbors@[tt],
                )] as int <= final(dist)@[best as int] + spec_link_cost(
                    self.nodes@,
                    self.routing_table.entries@,
                    self.nodes@[best as int].node_id,
                    self.nodes@[best as int].neighbors@[tt],
                ),
            forall|j: int|
                0 <= j < self.nodes@.len() && visited@[j] ==> #[trigger] final(dist)@[j] <= final(dist)@[best as int],
            forall|k2: int|
                0 <= k2 < self.nodes@.len() && !visited@[k2] ==> final(dist)@[best as int]
                    <= #[trigger] final(dist)@[k2],
    {
        let ghost nodes = self.nodes@;
        let ghost entries = self.routing_table.entries@;
        let n = self.nodes.len();
        let u_id = self.nodes[best].node_id;
        let nb_count = self.nodes[best].neighbors.len();
        let mut t: usize = 0;
        while t < nb_count
            invariant
                self.wf(),
                nodes == self.nodes@,
                entries == self.routing_table.entries@,
                n == nodes.len(),
                best < n,
                0 <= src_i < n,
                nodes[src_i].node_id == source,
                u_id == nodes[best as int].node_id,
                t <= nb_count,
                nb_count == nodes[best as int].neighbors@.len(),
                dist@.len() == n,
                visited@.len() == n,
                routes@.len() == n,
                visited@[best as int],
                visited@[src_i],
                dist@[src_i] == 0,
                forall|j: int|
                    #![trigger dist@[j]]
                    0 <= j < n && visited@[j] ==> dist@[j] < UNREACHED && dist@[j]
                        <= count_true(visited@) * MAX_LINK_COST && routes@[j]@.len()
                        <= count_true(visited@),
                forall|j: int|
                    #![trigger dist@[j]]
                    0 <= j < n && dist@[j] < UNREACHED ==> {
                        &&& dist@[j] <= (count_true(visited@) + 1) * MAX_LINK_COST
                        &&& is_route(nodes, source, routes@[j]@, nodes[j].node_id)
                        &&& routes@[j]@.len() <= count_true(visited@) + 1
                        &&& (j != src_i ==> routes@[j]@.len() >= 1)
                    },
                forall|j: int|
                    #![trigger routes@[j]]
                    0 <= j < n && dist@[j] < UNREACHED ==> dist@[j] == spec_route_cost(
                        nodes,
                        entries,
                        source,
                        routes@[j]@,
                    ),
                forall|j: int|
                    #![trigger routes@[j]]
                    0 <= j < n && dist@[j] < UNREACHED ==> {
                        &&& distinct_hops(routes@[j]@)
                        &&& !routes@[j]@.contains(source)
                        &&& forall|m: int|
                            0 <= m < routes@[j]@.len() - 1 ==> has_node(
                                nodes,
                                #[trigger] routes@[j]@[m],
                            ) && visited@[index_of(nodes, routes@[j]@[m])]
                    },
                forall|j: int, b: u32|
                    0 <= j < n && visited@[j] && j != best && (#[trigger] nodes[j].neighbors@.contains(
                        b,
                    )) && has_node(nodes, b) ==> dist@[index_of(nodes, b)] as int <= dist@[j]
                        + spec_link_cost(nodes, entries, nodes[j].node_id, b),
                forall|tt: int|
                    0 <= tt < t && has_node(
                        nodes,
                        #[trigger] nodes[best as int].neighbors@[tt],
                    ) ==> dist@[index_of(nodes, nodes[best as int].neighbors@[tt])] as int
                        <= dist@[best as int] + spec_link_cost(
                        nodes,
                        entries,
                        u_id,
                        nodes[best as int].neighbors@[tt],
                    ),
                forall|j: int|
                    0 <= j < n && visited@[j] ==> #[trigger] dist@[j] <= dist@[best as int],
                forall|k2: int|
                    0 <= k2 < n && !visited@[k2] ==> dist@[best as int] <= #[trigger] dist@[
                        k2],
            decreases nb_count - t,
        {
            let b = self.nodes[best].neighbors[t];
            match self.find_node_index(b) {
                None => {},
                Some(vi) => {
                    if !visited[vi] {
                        let c = self.calculate_link_cost(u_id, b);
                        proof {
                            lemma_count_true_bounds(visited@);
                            lemma_node_index_unique(nodes, best as int, u_id);
                            lemma_node_index_unique(nodes, vi as int, b);
                            assert(dist@[best as int] < UNREACHED);
                            assert(c <= MAX_LINK_COST);
                            assert(dist@[best as int] + c < UNREACHED) by (nonlinear_arith)
                                requires
                                    dist@[best as int] <= count_true(visited@) * MAX_LINK_COST,
                                    0 <= count_true(visited@) <= n,
                                    n < 0x1_0000_0000_0000_0000,
                                    0 <= c <= MAX_LINK_COST,
                                    MAX_LINK_COST == 4_800_000_000_000,
                                    UNREACHED == 0xffff_ffff_ffff_ffff_ffff_ffff_ffff_ffff,
                            ;
                        }
                        let du: u128 = dist[best];
                        let nd: u128 = du + (c as u128);
                        if nd < dist[vi] {
                            let ghost old_dist = dist@;
                            let ghost old_routes = routes@;
                            let mut nr = copy_route(&routes[best]);
                            nr.push(b);
                            dist.set(vi, nd);
                            routes.set(vi, nr);
                            proof {
                                assert(routes@[vi as int]@ == old_routes[best as int]@.push(b));
                                lemma_relax_update(
                                    nodes,
                                    entries,
                                    source,
                                    src_i,
                                    best as int,
                                    vi as int,
                                    t as int,
                                    b,
                                    c,
                                    nd,
                                    visited@,
                                    old_dist,
                                    old_routes,
                                    dist@,
                                    routes@,
                                );
                            }
                        } else {
                            proof {
                                lemma_node_index_unique(nodes, vi as int, b);
                                assert(dist@[vi as int] as int <= dist@[best as int] + c);
                            }
                        }
                    } else {
                        proof {
                            lemma_node_index_unique(nodes, vi as int, b);
                            assert(dist@[vi as int] <= dist@[best as int]);
                            lemma_link_cost_bound(nodes, entries, u_id, b);
                        }
                    }
                },
            }
            t += 1;
        }
    }

    /// Finds the cheapest route from `source` to `destination` over the
    /// current neighbour sets, Dijkstra-style, using the link cost model
    /// as edge weight.  Ties between equal-cost candidates resolve to
    /// the lowest node id, so results are reproducible.  Returns the
    /// ordered hop ids excluding the source; the empty sequence when
    /// `source == destination`; `NoRoute` exactly when the destination
    /// is unreachable.
    #[verifier::rlimit(100)]
    pub fn find_optimal_route(&self, source: u32, destination: u32) -> (r: Result<
        Vec<u32>,
        RouteError,
    >)
        requires
            self.wf(),
        ensures
            source == destination ==> (r matches Ok(p) && p@.len() == 0),
            source != destination ==> ((r is Ok) <==> reachable(
                self.nodes@,
                source,
                destination,
            )),
            r matches Ok(p) ==> min_cost_route(
                self.nodes@,
                self.routing_table.entries@,
                source,
                p@,
                destination,
            ),
            r matches Ok(p) ==> p@.len() <= self.nodes@.len(),
            r matches Ok(p) ==> distinct_hops(p@) && !p@.contains(source),
            r is Err ==> r == Err::<Vec<u32>, RouteError>(RouteError::NoRoute),
    {
        let ghost nodes = self.nodes@;
        let ghost entries = self.routing_table.entries@;
        if source == destination {
            proof {
                assert forall|q: Seq<u32>|
                    is_route(nodes, source, q, destination) implies spec_route_cost(
                    nodes,
                    entries,
                    source,
                    q,
                ) >= 0 by {
                    lemma_route_cost_nonneg(nodes, entries, source, q);
                }
                assert(spec_route_cost(nodes, entries, source, Seq::<u32>::empty()) == 0);
                assert(is_route(nodes, source, Seq::<u32>::empty(), destination));
                assert(min_cost_route(nodes, entries, source, Seq::<u32>::empty(), destination));
                assert(!Seq::<u32>::empty().contains(source));
            }
            return Ok(Vec::new());
        }
        let src_i = match self.find_node_index(source) {
            Some(i) => i,
            None => {
                proof {
                    if reachable(nodes, source, destination) {
                        let hops = choose|hops: Seq<u32>| is_route(nodes, source, hops, destination);
                        assert(hops.len() > 0);
                        assert(edge(nodes, source, hops[0]));
                    }
                }
                return Err(RouteError::NoRoute);
            },
        };
        let dst_i = match self.find_node_index(destination) {
            Some(i) => i,
            None => {
                proof {
                    if reachable(nodes, source, destination) {
                        let hops = choose|hops: Seq<u32>| is_route(nodes, source, hops, destination);
                        assert(hops.len() > 0);
                        if hops.len() == 1 {
                            assert(edge(nodes, source, hops[0]));
                            assert(hops[0] == destination);
                        } else {
                            assert(edge(nodes, hops[hops.len() - 2], hops[hops.len() - 1]));
                        }
                    }
                }
                return Err(RouteError::NoRoute);
            },
        };
        let n = self.nodes.len();
        let mut dist: Vec<u128> = Vec::new();
        let mut visited: Vec<bool> = Vec::new();
        let mut routes: Vec<Vec<u32>> = Vec::new();
        let mut k: usize = 0;
        while k < n
            invariant
                k <= n,
                dist@.len() == k,
                visited@.len() == k,
                routes@.len() == k,
                forall|j: int| 0 <= j < k ==> dist@[j] == UNREACHED,
                forall|j: int| 0 <= j < k ==> !visited@[j],
                forall|j: int| 0 <= j < k ==> (#[trigger] routes@[j])@.len() == 0,
            decreases n - k,
        {
            dist.push(UNREACHED);
            visited.push(false);
            routes.push(Vec::new());
            k += 1;
        }
        dist.set(src_i, 0);
        proof {
            assert(count_true(visited@) == 0) by {
                lemma_count_true_zero(visited@);
            }
            assert(is_route(nodes, source, routes@[src_i as int]@, nodes[src_i as int].node_id));
            assert(spec_route_cost(nodes, entries, source, routes@[src_i as int]@) == 0);
        }
        loop
            invariant_except_break
                self.wf(),
                nodes == self.nodes@,
                entries == self.routing_table.entries@,
                n == nodes.len(),
                src_i < n,
                dst_i < n,
                nodes[src_i as int].node_id == source,
                nodes[dst_i as int].node_id == destination,
                source != destination,
                dist@.len() == n,
                visited@.len() == n,
                routes@.len() == n,
                dist@[src_i as int] == 0,
                // visited nodes are settled
                forall|j: int|
                    #![trigger dist@[j]]
                    0 <= j < n && visited@[j] ==> dist@[j] < UNREACHED && dist@[j] <= count_true(
                        visited@,
                    ) * MAX_LINK_COST && routes@[j]@.len() <= count_true(visited@),
                // every reached node carries a witness walk
                forall|j: int|
                    #![trigger dist@[j]]
                    0 <= j < n && dist@[j] < UNREACHED ==> {
                        &&& dist@[j] <= (count_true(visited@) + 1) * MAX_LINK_COST
                        &&& is_route(nodes, source, routes@[j]@, nodes[j].node_id)
                        &&& routes@[j]@.len() <= count_true(visited@) + 1
                        &&& (j != src_i ==> routes@[j]@.len() >= 1)
                    },
                // the walk behind a reached node costs exactly its label
                forall|j: int|
                    #![trigger routes@[j]]
                    0 <= j < n && dist@[j] < UNREACHED ==> dist@[j] == spec_route_cost(
                        nodes,
                        entries,
                        source,
                        routes@[j]@,
                    ),
                // the hops behind a reached node are distinct, avoid the
                // source, and (except the endpoint) are settled
                forall|j: int|
                    #![trigger routes@[j]]
                    0 <= j < n && dist@[j] < UNREACHED ==> {
                        &&& distinct_hops(routes@[j]@)
                        &&& !routes@[j]@.contains(source)
                        &&& forall|m: int|
                            0 <= m < routes@[j]@.len() - 1 ==> has_node(
                                nodes,
                                #[trigger] routes@[j]@[m],
                            ) && visited@[index_of(nodes, routes@[j]@[m])]
                    },
                // every edge out of a settled node has been relaxed
                forall|j: int, b: u32|
                    0 <= j < n && visited@[j] && (#[trigger] nodes[j].neighbors@.contains(b))
                        && has_node(nodes, b) ==> dist@[index_of(nodes, b)] as int <= dist@[j]
                        + spec_link_cost(nodes, entries, nodes[j].node_id, b),
                // settled nodes sit below the whole frontier
                forall|j: int, k2: int|
                    0 <= j < n && 0 <= k2 < n && visited@[j] && !visited@[k2]
                        ==> #[trigger] dist@[j] <= #[trigger] dist@[k2],
                // the source is always settled first
                !visited@[src_i as int] ==> (forall|j: int| 0 <= j < n ==> !visited@[j]) && (
                forall|j: int|
                    #![trigger dist@[j]]
                    0 <= j < n && j != src_i ==> dist@[j] == UNREACHED),
            ensures
                dist@.len() == n,
                visited@.len() == n,
                routes@.len() == n,
                forall|j: int|
                    #![trigger dist@[j]]
                    0 <= j < n && dist@[j] < UNREACHED ==> is_route(
                        nodes,
                        source,
                        routes@[j]@,
                        nodes[j].node_id,
                    ) && routes@[j]@.len() <= n && (j != src_i ==> routes@[j]@.len() >= 1),
                forall|j: int|
                    #![trigger routes@[j]]
                    0 <= j < n && dist@[j] < UNREACHED ==> dist@[j] == spec_route_cost(
                        nodes,
                        entries,
                        source,
                        routes@[j]@,
                    ) && distinct_hops(routes@[j]@) && !routes@[j]@.contains(source),
                dist@[dst_i as int] < UNREACHED ==> {
                    &&& visited@[src_i as int]
                    &&& dist@[src_i as int] == 0
                    &&& (forall|j: int, b: u32|
                        0 <= j < n && visited@[j] && (#[trigger] nodes[j].neighbors@.contains(b))
                            && has_node(nodes, b) ==> dist@[index_of(nodes, b)] as int <= dist@[j]
                            + spec_link_cost(nodes, entries, nodes[j].node_id, b))
                    &&& (forall|j: int, k2: int|
                        0 <= j < n && 0 <= k2 < n && visited@[j] && !visited@[k2]
                            ==> #[trigger] dist@[j] <= #[trigger] dist@[k2])
                    &&& (forall|k2: int|
                        0 <= k2 < n && !visited@[k2] ==> dist@[dst_i as int]
                            <= #[trigger] dist@[k2])
                },
                dist@[dst_i as int] < UNREACHED || {
                    &&& (forall|j: int|
                        #![trigger dist@[j]]
                        0 <= j < n && dist@[j] < UNREACHED ==> visited@[j])
                    &&& dist@[src_i as int] == 0
                    &&& (forall|j: int, b: u32|
                        0 <= j < n && visited@[j] && (#[trigger] nodes[j].neighbors@.contains(b))
                            && has_node(nodes, b) ==> dist@[index_of(nodes, b)] < UNREACHED)
                },
            decreases n - count_true(visited@),
        {
            proof {
                lemma_count_true_bounds(visited@);
            }
            // Scan for the unvisited node with the smallest tentative
            // cost; the first strict improvement wins, so ties resolve
            // to the lowest node id.
            let mut best: usize = n;
            let mut best_d: u128 = UNREACHED;
            let mut s: usize = 0;
            while s < n
                invariant
                    s <= n,
                    n == dist@.len(),
                    n == visited@.len(),
                    best == n || (best < n && !visited@[best as int] && dist@[best as int]
                        == best_d && best_d < UNREACHED),
                    best == n ==> best_d == UNREACHED,
                    forall|j: int| 0 <= j < s && !visited@[j] ==> #[trigger] dist@[j] >= best_d,
                decreases n - s,
            {
                if !visited[s] && dist[s] < best_d {
                    best = s;
                    best_d = dist[s];
                }
                s += 1;
            }
            if best == n {
                // No unvisited node is reached: the explored region is
                // closed under edges.
                proof {
                    lemma_count_true_bounds(visited@);
                    assert forall|j: int| #![trigger dist@[j]]
                        0 <= j < n && dist@[j] < UNREACHED implies visited@[j] by {
                        if !visited@[j] {
                            assert(dist@[j] >= best_d);
                        }
                    }
                    assert forall|j: int| #![trigger dist@[j]]
                        0 <= j < n && dist@[j] < UNREACHED implies routes@[j]@.len() <= n by {
                        assert(visited@[j]);
                    }
                    if dist@[dst_i as int] < UNREACHED {
                        assert(visited@[dst_i as int]);
                        assert(visited@[src_i as int]);
                        assert forall|k2: int|
                            0 <= k2 < n && !visited@[k2] implies dist@[dst_i as int]
                            <= #[trigger] dist@[k2] by {
                            assert(dist@[k2] >= best_d);
                        }
                    }
                    assert forall|j: int, b: u32|
                        0 <= j < n && visited@[j] && (#[trigger] nodes[j].neighbors@.contains(b))
                            && has_node(nodes, b) implies dist@[index_of(nodes, b)]
                        < UNREACHED by {
                        lemma_node_index_unique(nodes, j, nodes[j].node_id);
                        lemma_link_cost_bound(nodes, entries, nodes[j].node_id, b);
                        assert(dist@[j] + spec_link_cost(nodes, entries, nodes[j].node_id, b)
                            < UNREACHED) by (nonlinear_arith)
                            requires
                                dist@[j] <= count_true(visited@) * MAX_LINK_COST,
                                0 <= count_true(visited@) <= n,
                                n < 0x1_0000_0000_0000_0000,
                                0 <= spec_link_cost(nodes, entries, nodes[j].node_id, b)
                                    <= MAX_LINK_COST,
                                MAX_LINK_COST == 4_800_000_000_000,
                                UNREACHED == 0xffff_ffff_ffff_ffff_ffff_ffff_ffff_ffff,
                        ;
                    }
                }
                break ;
            }
            if self.nodes[best].node_id == destination {
                proof {
                    lemma_node_index_unique(nodes, best as int, destination);
                    lemma_count_true_bounds(visited@);
                    lemma_count_true_not_full(visited@, best as int);
                    assert(dist@[dst_i as int] < UNREACHED);
                    assert(visited@[src_i as int]) by {
                        if !visited@[src_i as int] {
                            assert(dist@[best as int] == UNREACHED);
                        }
                    }
                    assert forall|k2: int|
                        0 <= k2 < n && !visited@[k2] implies dist@[dst_i as int]
                        <= #[trigger] dist@[k2] by {
                        assert(dist@[k2] >= best_d);
                    }
                }
                break ;
            }
            let u_id = self.nodes[best].node_id;
            let ghost old_visited = visited@;
            visited.set(best, true);
            proof {
                lemma_node_index_unique(nodes, best as int, u_id);
                lemma_settle_step(
                    nodes,
                    source,
                    src_i as int,
                    best as int,
                    dist@,
                    routes@,
                    old_visited,
                    visited@,
                );
            }
            self.relax_neighbors(
                best,
                &mut dist,
                &mut routes,
                &visited,
                Ghost(source),
                Ghost(src_i as int),
            );
            proof {
                assert forall|j: int, b: u32|
                    0 <= j < n && visited@[j] && (#[trigger] nodes[j].neighbors@.contains(b))
                        && has_node(nodes, b) implies dist@[index_of(nodes, b)] as int <= dist@[j]
                    + spec_link_cost(nodes, entries, nodes[j].node_id, b) by {
                    if j == best {
                        let tt = choose|tt: int|
                            0 <= tt < nodes[j].neighbors@.len() && nodes[j].neighbors@[tt] == b;
                        assert(nodes[best as int].neighbors@[tt] == b);
                    }
                }
                assert forall|j: int, k2: int|
                    0 <= j < n && 0 <= k2 < n && visited@[j] && !visited@[k2]
                        implies #[trigger] dist@[j] <= #[trigger] dist@[k2] by {
                    assert(dist@[j] <= dist@[best as int]);
                    assert(dist@[best as int] <= dist@[k2]);
                }
            }
        }
        if dist[dst_i] < UNREACHED {
            let p = copy_route(&routes[dst_i]);
            proof {
                assert(is_route(nodes, source, p@, nodes[dst_i as int].node_id));
                assert(reachable(nodes, source, destination));
                let dd = dist@[dst_i as int] as int;
                assert(spec_route_cost(nodes, entries, source, p@) == dd);
                assert(distinct_hops(p@) && !p@.contains(source)) by {
                    assert(routes@[dst_i as int]@ == p@);
                }
                lemma_node_index_unique(nodes, dst_i as int, destination);
                assert forall|q: Seq<u32>|
                    is_route(nodes, source, q, destination) implies spec_route_cost(
                    nodes,
                    entries,
                    source,
                    p@,
                ) <= spec_route_cost(nodes, entries, source, q) by {
                    lemma_route_cost_lower(
                        nodes,
                        entries,
                        dist@,
                        visited@,
                        source,
                        src_i as int,
                        q,
                        destination,
                        dd,
                    );
                }
                assert(min_cost_route(nodes, entries, source, p@, destination));
            }
            Ok(p)
        } else {
            proof {
                if reachable(nodes, source, destination) {
                    let hops = choose|hops: Seq<u32>| is_route(nodes, source, hops, destination);
                    let ghost s = Set::new(
                        |id: u32| has_node(nodes, id) && dist@[index_of(nodes, id)] < UNREACHED,
                    );
                    assert(s.contains(source)) by {
                        lemma_node_index_unique(nodes, src_i as int, source);
                    }
                    assert forall|u: u32, v: u32|
                        s.contains(u) && edge(nodes, u, v) implies s.contains(v) by {
                        let iu = index_of(nodes, u);
                        assert(0 <= iu < n && nodes[iu].node_id == u);
                        assert(dist@[iu] < UNREACHED);
                        assert(visited@[iu]);
                        assert(node_at(nodes, u) == nodes[iu]);
                        assert(nodes[iu].neighbors@.contains(v));
                    }
                    lemma_route_closure(nodes, source, hops, destination, s);
                    assert(s.contains(destination));
                    lemma_node_index_unique(nodes, dst_i as int, destination);
                }
            }
            Err(RouteError::NoRoute)
        }
    }
}

/// A walk's cost is never negative: unknown endpoints price at the
/// positive infinite cost and known links are non-negative.
proof fn lemma_route_cost_nonneg(
    nodes: Seq<NetworkNode>,
    entries: Seq<RoutingEntry>,
    prev: u32,
    q: Seq<u32>,
)
    requires
        nodes_wf(nodes),
        routing::table_wf(entries),
    ensures
        spec_route_cost(nodes, entries, prev, q) >= 0,
    decreases q.len(),
{
    if q.len() > 0 {
        if has_node(nodes, prev) && has_node(nodes, q[0]) {
            lemma_link_cost_bound(nodes, entries, prev, q[0]);
        }
        lemma_route_cost_nonneg(nodes, entries, q[0], q.subrange(1, q.len() as int));
    }
}

/// One relaxation update keeps every search invariant: the relaxed
/// target gets a witness walk of exactly its new label, the walk stays
/// simple, avoids the source, runs through settled nodes, and every
/// ordering and closure fact survives.
#[verifier::rlimit(100)]
proof fn lemma_relax_update(
    nodes: Seq<NetworkNode>,
    entries: Seq<RoutingEntry>,
    source: u32,
    src_i: int,
    best: int,
    vi: int,
    t: int,
    b: u32,
    c: u64,
    nd: u128,
    visited: Seq<bool>,
    old_dist: Seq<u128>,
    old_routes: Seq<Vec<u32>>,
    new_dist: Seq<u128>,
    new_routes: Seq<Vec<u32>>,
)
    requires
        ids_sorted(nodes),
        nodes_wf(nodes),
        routing::table_wf(entries),
        old_dist.len() == nodes.len(),
        old_routes.len() == nodes.len(),
        visited.len() == nodes.len(),
        new_dist == old_dist.update(vi, nd),
        new_routes.len() == nodes.len(),
        forall|j: int| 0 <= j < nodes.len() && j != vi ==> new_routes[j] == old_routes[j],
        new_routes[vi]@ == old_routes[best]@.push(b),
        0 <= src_i < nodes.len(),
        0 <= best < nodes.len(),
        0 <= vi < nodes.len(),
        nodes[src_i].node_id == source,
        nodes[vi].node_id == b,
        visited[best],
        !visited[vi],
        visited[src_i],
        old_dist[src_i] == 0,
        0 <= t < nodes[best].neighbors@.len(),
        nodes[best].neighbors@[t] == b,
        c == spec_link_cost(nodes, entries, nodes[best].node_id, b),
        0 <= c <= MAX_LINK_COST,
        nd == old_dist[best] + c,
        nd < old_dist[vi],
        nd < UNREACHED,
        forall|j: int|
            #![trigger old_dist[j]]
            0 <= j < nodes.len() && visited[j] ==> old_dist[j] < UNREACHED && old_dist[j]
                <= count_true(visited) * MAX_LINK_COST && old_routes[j]@.len() <= count_true(
                visited,
            ),
        forall|j: int|
            #![trigger old_dist[j]]
            0 <= j < nodes.len() && old_dist[j] < UNREACHED ==> {
                &&& old_dist[j] <= (count_true(visited) + 1) * MAX_LINK_COST
                &&& is_route(nodes, source, old_routes[j]@, nodes[j].node_id)
                &&& old_routes[j]@.len() <= count_true(visited) + 1
                &&& (j != src_i ==> old_routes[j]@.len() >= 1)
            },
        forall|j: int|
            #![trigger old_routes[j]]
            0 <= j < nodes.len() && old_dist[j] < UNREACHED ==> old_dist[j] == spec_route_cost(
                nodes,
                entries,
                source,
                old_routes[j]@,
            ),
        forall|j: int|
            #![trigger old_routes[j]]
            0 <= j < nodes.len() && old_dist[j] < UNREACHED ==> {
                &&& distinct_hops(old_routes[j]@)
                &&& !old_routes[j]@.contains(source)
                &&& forall|m: int|
                    0 <= m < old_routes[j]@.len() - 1 ==> has_node(
                        nodes,
                        #[trigger] old_routes[j]@[m],
                    ) && visited[index_of(nodes, old_routes[j]@[m])]
            },
        forall|j: int, b2: u32|
            0 <= j < nodes.len() && visited[j] && j != best && (
            #[trigger] nodes[j].neighbors@.contains(b2)) && has_node(nodes, b2)
                ==> old_dist[index_of(nodes, b2)] as int <= old_dist[j] + spec_link_cost(
                nodes,
                entries,
                nodes[j].node_id,
                b2,
            ),
        forall|tt: int|
            0 <= tt < t && has_node(nodes, #[trigger] nodes[best].neighbors@[tt])
                ==> old_dist[index_of(nodes, nodes[best].neighbors@[tt])] as int <= old_dist[best]
                + spec_link_cost(nodes, entries, nodes[best].node_id, nodes[best].neighbors@[tt]),
        forall|j: int|
            0 <= j < nodes.len() && visited[j] ==> #[trigger] old_dist[j] <= old_dist[best],
        forall|k2: int|
            0 <= k2 < nodes.len() && !visited[k2] ==> old_dist[best] <= #[trigger] old_dist[k2],
    ensures
        new_dist[src_i] == 0,
        forall|j: int|
            #![trigger new_dist[j]]
            0 <= j < nodes.len() && visited[j] ==> new_dist[j] < UNREACHED && new_dist[j]
                <= count_true(visited) * MAX_LINK_COST && new_routes[j]@.len() <= count_true(
                visited,
            ),
        forall|j: int|
            #![trigger new_dist[j]]
            0 <= j < nodes.len() && new_dist[j] < UNREACHED ==> {
                &&& new_dist[j] <= (count_true(visited) + 1) * MAX_LINK_COST
                &&& is_route(nodes, source, new_routes[j]@, nodes[j].node_id)
                &&& new_routes[j]@.len() <= count_true(visited) + 1
                &&& (j != src_i ==> new_routes[j]@.len() >= 1)
            },
        forall|j: int|
            #![trigger new_routes[j]]
            0 <= j < nodes.len() && new_dist[j] < UNREACHED ==> new_dist[j] == spec_route_cost(
                nodes,
                entries,
                source,
                new_routes[j]@,
            ),
        forall|j: int|
            #![trigger new_routes[j]]
            0 <= j < nodes.len() && new_dist[j] < UNREACHED ==> {
                &&& distinct_hops(new_routes[j]@)
                &&& !new_routes[j]@.contains(source)
                &&& forall|m: int|
                    0 <= m < new_routes[j]@.len() - 1 ==> has_node(
                        nodes,
                        #[trigger] new_routes[j]@[m],
                    ) && visited[index_of(nodes, new_routes[j]@[m])]
            },
        forall|j: int, b2: u32|
            0 <= j < nodes.len() && visited[j] && j != best && (
            #[trigger] nodes[j].neighbors@.contains(b2)) && has_node(nodes, b2)
                ==> new_dist[index_of(nodes, b2)] as int <= new_dist[j] + spec_link_cost(
                nodes,
                entries,
                nodes[j].node_id,
                b2,
            ),
        forall|tt: int|
            0 <= tt < t + 1 && has_node(nodes, #[trigger] nodes[best].neighbors@[tt])
                ==> new_dist[index_of(nodes, nodes[best].neighbors@[tt])] as int <= new_dist[best]
                + spec_link_cost(nodes, entries, nodes[best].node_id, nodes[best].neighbors@[tt]),
        forall|j: int|
            0 <= j < nodes.len() && visited[j] ==> #[trigger] new_dist[j] <= new_dist[best],
        forall|k2: int|
            0 <= k2 < nodes.len() && !visited[k2] ==> new_dist[best] <= #[trigger] new_dist[k2],
{
    let u_id = nodes[best].node_id;
    lemma_node_index_unique(nodes, best, u_id);
    lemma_node_index_unique(nodes, vi, b);
    assert((count_true(visited) + 1) * MAX_LINK_COST == count_true(visited) * MAX_LINK_COST
        + MAX_LINK_COST) by (nonlinear_arith);
    
        assert(edge(nodes, u_id, b)) by {
            assert(nodes[best].neighbors@[t] == b);
            assert(nodes[best].neighbors@.contains(b));
            assert(node_at(nodes, u_id) == nodes[best]);
        }
        lemma_route_extend(
            nodes,
            source,
            old_routes[best]@,
            u_id,
            b,
        );
        lemma_route_cost_push(
            nodes,
            entries,
            source,
            old_routes[best]@,
            b,
        );
        assert(new_routes[vi]@ == old_routes[best]@.push(b));
        assert(old_dist[best] < UNREACHED);
        assert(old_routes[best]@.len() <= count_true(visited));
        assert(new_routes[vi]@.len() <= count_true(visited) + 1);
        // the witness walk behind `best` ends at
        // `best` itself, so its cost extends by
        // exactly this link
        assert(spec_route_cost(nodes, entries, source, new_routes[vi]@)
            == old_dist[best] + c) by {
            let ob = old_routes[best]@;
            if ob.len() > 0 {
                assert(ob[ob.len() - 1] == nodes[best].node_id);
            }
        }
        assert(vi != src_i) by {
            if vi == src_i {
                assert(nd < old_dist[src_i]);
            }
        }
        let ob = old_routes[best]@;
        let nv = new_routes[vi]@;
        assert(b != source) by {
            lemma_node_index_unique(nodes, src_i, source);
        }
        assert(ob.len() > 0 ==> ob[ob.len() - 1]
            == nodes[best].node_id);
        // every hop of the old walk is settled: the
        // interior by the shape clause, the endpoint
        // because `best` itself is settled
        assert forall|m: int|
            0 <= m < ob.len() implies has_node(nodes, #[trigger] ob[m])
            && visited[index_of(nodes, ob[m])] by {
            if m == ob.len() - 1 {
                assert(ob[m] == nodes[best].node_id);
                lemma_node_index_unique(
                    nodes,
                    best,
                    nodes[best].node_id,
                );
            }
        }
        assert forall|m: int|
            0 <= m < nv.len() - 1 implies has_node(
            nodes,
            #[trigger] nv[m],
        ) && visited[index_of(nodes, nv[m])] by {
            assert(nv[m] == ob[m]);
        }
        assert(distinct_hops(nv)) by {
            assert forall|m1: int, m2: int|
                0 <= m1 < m2 < nv.len() implies nv[m1] != nv[m2] by {
                if m2 < ob.len() {
                    assert(nv[m1] == ob[m1] && nv[m2] == ob[m2]);
                    assert(ob[m1] != ob[m2]);
                } else {
                    assert(nv[m2] == b);
                    assert(nv[m1] == ob[m1]);
                    if ob[m1] == b {
                        assert(visited[index_of(nodes, ob[m1])]);
                        assert(index_of(nodes, b) == vi);
                    }
                }
            }
        }
        assert(!nv.contains(source)) by {
            if nv.contains(source) {
                let m = choose|m: int|
                    0 <= m < nv.len() && nv[m] == source;
                if m < ob.len() {
                    assert(ob[m] == source);
                    assert(ob.contains(source));
                } else {
                    assert(nv[m] == b);
                }
            }
        }
        assert forall|j: int|
            #![trigger new_routes[j]]
            0 <= j < nodes.len() && new_dist[j] < UNREACHED && j != vi implies {
            &&& distinct_hops(new_routes[j]@)
            &&& !new_routes[j]@.contains(source)
            &&& forall|m: int|
                0 <= m < new_routes[j]@.len() - 1 ==> has_node(
                    nodes,
                    #[trigger] new_routes[j]@[m],
                ) && visited[index_of(nodes, new_routes[j]@[m])]
        } by {
            assert(new_routes[j] == old_routes[j]);
            assert(old_dist[j] < UNREACHED);
        }
        assert forall|j: int|
            #![trigger new_dist[j]]
            0 <= j < nodes.len() && visited[j] implies new_dist[j] < UNREACHED
            && new_dist[j] <= count_true(visited) * MAX_LINK_COST
            && new_routes[j]@.len() <= count_true(visited) by {
            assert(j != vi);
            assert(old_dist[j] < UNREACHED);
            assert(new_dist[j] == old_dist[j]);
            assert(new_routes[j] == old_routes[j]);
        }
        assert forall|k2: int|
            0 <= k2 < nodes.len() && !visited[k2] implies new_dist[best]
            <= #[trigger] new_dist[k2] by {
            if k2 != vi {
                assert(old_dist[best] <= old_dist[k2]);
            }
        }
        assert forall|j: int, b2: u32|
            0 <= j < nodes.len() && visited[j] && j != best && (
            #[trigger] nodes[j].neighbors@.contains(b2)) && has_node(
                nodes,
                b2,
            ) implies new_dist[index_of(nodes, b2)] as int <= new_dist[j]
            + spec_link_cost(nodes, entries, nodes[j].node_id, b2) by {
            assert(j != vi);
            assert(old_dist[index_of(nodes, b2)] as int <= old_dist[j]
                + spec_link_cost(nodes, entries, nodes[j].node_id, b2));
            assert(new_dist[index_of(nodes, b2)]
                <= old_dist[index_of(nodes, b2)]);
        }
        assert forall|tt: int|
            0 <= tt < t + 1 && has_node(
                nodes,
                #[trigger] nodes[best].neighbors@[tt],
            ) implies new_dist[index_of(
            nodes,
            nodes[best].neighbors@[tt],
        )] as int <= new_dist[best] + spec_link_cost(
            nodes,
            entries,
            u_id,
            nodes[best].neighbors@[tt],
        ) by {
            let bb = nodes[best].neighbors@[tt];
            if tt < t {
                assert(old_dist[index_of(nodes, bb)] as int
                    <= old_dist[best] + spec_link_cost(
                    nodes,
                    entries,
                    u_id,
                    bb,
                ));
                assert(new_dist[index_of(nodes, bb)] <= old_dist[index_of(
                    nodes,
                    bb,
                )]);
            } else {
                assert(index_of(nodes, bb) == vi);
            }
    }
}

/// Settling the cheapest frontier node keeps every search invariant:
/// the settled count grows by one, the node sits between the settled
/// region and the remaining frontier, and every walk's hops stay
/// settled.
#[verifier::rlimit(100)]
proof fn lemma_settle_step(
    nodes: Seq<NetworkNode>,
    source: u32,
    src_i: int,
    best: int,
    dist: Seq<u128>,
    routes: Seq<Vec<u32>>,
    old_visited: Seq<bool>,
    new_visited: Seq<bool>,
)
    requires
        ids_sorted(nodes),
        dist.len() == nodes.len(),
        routes.len() == nodes.len(),
        old_visited.len() == nodes.len(),
        new_visited == old_visited.update(best, true),
        0 <= src_i < nodes.len(),
        0 <= best < nodes.len(),
        nodes[src_i].node_id == source,
        !old_visited[best],
        dist[best] < UNREACHED,
        dist[src_i] == 0,
        forall|k: int| 0 <= k < nodes.len() && !old_visited[k] ==> #[trigger] dist[k]
            >= dist[best],
        !old_visited[src_i] ==> (forall|j: int| 0 <= j < nodes.len() ==> !old_visited[j]) && (
        forall|j: int|
            #![trigger dist[j]]
            0 <= j < nodes.len() && j != src_i ==> dist[j] == UNREACHED),
        forall|j: int|
            #![trigger dist[j]]
            0 <= j < nodes.len() && old_visited[j] ==> dist[j] < UNREACHED && dist[j]
                <= count_true(old_visited) * MAX_LINK_COST && routes[j]@.len() <= count_true(
                old_visited,
            ),
        forall|j: int|
            #![trigger dist[j]]
            0 <= j < nodes.len() && dist[j] < UNREACHED ==> dist[j] <= (count_true(old_visited)
                + 1) * MAX_LINK_COST && routes[j]@.len() <= count_true(old_visited) + 1,
        forall|j: int|
            #![trigger routes[j]]
            0 <= j < nodes.len() && dist[j] < UNREACHED ==> forall|m: int|
                0 <= m < routes[j]@.len() - 1 ==> has_node(nodes, #[trigger] routes[j]@[m])
                    && old_visited[index_of(nodes, routes[j]@[m])],
        forall|j: int, k2: int|
            0 <= j < nodes.len() && 0 <= k2 < nodes.len() && old_visited[j] && !old_visited[k2]
                ==> #[trigger] dist[j] <= #[trigger] dist[k2],
    ensures
        count_true(new_visited) == count_true(old_visited) + 1,
        0 <= count_true(old_visited) < nodes.len(),
        new_visited[best],
        new_visited[src_i],
        forall|j: int|
            #![trigger dist[j]]
            0 <= j < nodes.len() && new_visited[j] ==> dist[j] < UNREACHED && dist[j]
                <= count_true(new_visited) * MAX_LINK_COST && routes[j]@.len() <= count_true(
                new_visited,
            ),
        forall|j: int|
            #![trigger dist[j]]
            0 <= j < nodes.len() && dist[j] < UNREACHED ==> dist[j] <= (count_true(new_visited)
                + 1) * MAX_LINK_COST && routes[j]@.len() <= count_true(new_visited) + 1,
        forall|j: int|
            #![trigger routes[j]]
            0 <= j < nodes.len() && dist[j] < UNREACHED ==> forall|m: int|
                0 <= m < routes[j]@.len() - 1 ==> has_node(nodes, #[trigger] routes[j]@[m])
                    && new_visited[index_of(nodes, routes[j]@[m])],
        forall|j: int, k2: int|
            0 <= j < nodes.len() && 0 <= k2 < nodes.len() && new_visited[j] && !new_visited[k2]
                ==> #[trigger] dist[j] <= #[trigger] dist[k2],
        forall|j: int|
            0 <= j < nodes.len() && new_visited[j] ==> #[trigger] dist[j] <= dist[best],
        forall|k2: int|
            0 <= k2 < nodes.len() && !new_visited[k2] ==> dist[best] <= #[trigger] dist[k2],
{
    let n = nodes.len() as int;
    lemma_count_true_update(old_visited, best);
    lemma_count_true_not_full(old_visited, best);
    lemma_count_true_bounds(old_visited);
    assert(count_true(new_visited) == count_true(old_visited) + 1);
    assert(new_visited[src_i]) by {
        if src_i != best {
            if !old_visited[src_i] {
                assert(dist[best] == UNREACHED);
            }
        }
    }
    lemma_mul_le(count_true(old_visited), count_true(new_visited), MAX_LINK_COST as int);
    lemma_mul_le(count_true(old_visited) + 1, count_true(new_visited) + 1, MAX_LINK_COST as int);
    assert forall|j: int, k2: int|
        0 <= j < n && 0 <= k2 < n && new_visited[j] && !new_visited[k2]
            implies #[trigger] dist[j] <= #[trigger] dist[k2] by {
        if j == best {
            assert(dist[k2] >= dist[best]);
        } else {
            assert(old_visited[j] && !old_visited[k2]);
        }
    }
    assert forall|j: int|
        0 <= j < n && new_visited[j] implies #[trigger] dist[j] <= dist[best] by {
        if j != best {
            assert(old_visited[j] && !old_visited[best]);
        }
    }
    assert forall|j: int|
        #![trigger routes[j]]
        0 <= j < n && dist[j] < UNREACHED implies (forall|m: int|
        0 <= m < routes[j]@.len() - 1 ==> has_node(nodes, #[trigger] routes[j]@[m])
            && new_visited[index_of(nodes, routes[j]@[m])]) by {
        assert forall|m: int|
            0 <= m < routes[j]@.len() - 1 implies has_node(nodes, #[trigger] routes[j]@[m])
            && new_visited[index_of(nodes, routes[j]@[m])] by {
            assert(old_visited[index_of(nodes, routes[j]@[m])]);
        }
    }
}

proof fn lemma_count_true_zero(s: Seq<bool>)
    requires
        forall|j: int| 0 <= j < s.len() ==> !s[j],
    ensures
        count_true(s) == 0,
    decreases s.len(),
{
    if s.len() > 0 {
        lemma_count_true_zero(s.drop_last());
    }
}

} // verus!
