//! The distance-vector routing table.
//!
//! One global table maps each destination to the best known entry.  It is
//! rebuilt by relaxation and consumed only as a reliability hint by the
//! link cost model; packets are always forwarded along a freshly computed
//! route.

use vstd::prelude::*;

verus! {

/// Cost value standing for an unusable link (an unknown endpoint).
pub const INFINITE_COST: u64 = 0xffff_ffff_ffff_ffff;

/// Reliability of a freshly seeded one-hop entry, in thousandths.
pub const SEED_RELIABILITY: u32 = 900;

/// Hop counts must stay below this bound; it prevents routing loops.
pub const MAX_HOP_COUNT: u8 = 16;

/// Failure categories of the engine, all returned as values.
#[derive(Clone, Copy, Debug, PartialEq, Eq, Structural)]
pub enum RouteError {
    /// An operation referenced an unknown node id.
    NotFound,
    /// An operation was applied to the wrong node type.
    InvalidNode,
    /// No path exists between the requested endpoints.
    NoRoute,
    /// Forwarding consumed the whole hop budget.
    TtlExceeded,
}

impl RouteError {
    /// A short description of the failure.
    pub fn message(&self) -> (m: &'static str)
    {
        match self {
            RouteError::NotFound => "node not found",
            RouteError::InvalidNode => "wrong node type",
            RouteError::NoRoute => "no route found",
            RouteError::TtlExceeded => "TTL exceeded",
        }
    }
}

/// Best known way to reach `destination`.
#[derive(Clone, Copy, Debug, PartialEq, Eq, Structural)]
pub struct RoutingEntry {
    pub destination: u32,
    pub next_hop: u32,
    pub hop_count: u8,
    pub cost: u64,
    pub last_updated_ms: i64,
    pub reliability_millis: u32,
}

/// Reliability of an entry after `h` hops: the seed value decayed by the
/// factor 19/20 for every hop beyond the first, rounding down.
pub open spec fn decayed_reliability(h: int) -> int
    decreases h,
{
    if h <= 1 {
        900
    } else {
        decayed_reliability(h - 1) * 19 / 20
    }
}

/// Within the hop bound, decayed reliability loses at most 46
/// thousandths per hop and never leaves `(0, 900]`.
pub proof fn lemma_decayed_reliability_bounds(h: int)
    requires
        1 <= h <= 15,
    ensures
        910 - 46 * h <= decayed_reliability(h) <= 900,
    decreases h,
{
    if h == 1 {
    } else {
        lemma_decayed_reliability_bounds(h - 1);
        let d = decayed_reliability(h - 1);
        assert(d * 19 == 19 * d) by (nonlinear_arith);
        assert(19 * d >= 20 * (d - 46));
        vstd::arithmetic::div_mod::lemma_div_is_ordered(20 * (d - 46), 19 * d, 20);
        vstd::arithmetic::div_mod::lemma_div_by_multiple(d - 46, 20);
        assert(d * 19 <= d * 20) by (nonlinear_arith)
            requires
                d >= 0,
        ;
        vstd::arithmetic::div_mod::lemma_div_is_ordered(d * 19, d * 20, 20);
        vstd::arithmetic::div_mod::lemma_div_by_multiple(d, 20);
        assert(d * 20 == 20 * d) by (nonlinear_arith);
    }
}

/// Validity of one routing entry: the hop count respects the loop bound
/// and the reliability is exactly the decayed seed value.
pub open spec fn entry_wf(e: RoutingEntry) -> bool {
    &&& 1 <= e.hop_count < 16
    &&& e.reliability_millis == decayed_reliability(e.hop_count as int)
}

/// Entries are sorted by strictly increasing destination, so every
/// destination appears at most once.
pub open spec fn dests_sorted(es: Seq<RoutingEntry>) -> bool {
    forall|i: int, j: int|
        0 <= i < j < es.len() ==> es[i].destination < es[j].destination
}

/// Validity of the whole table.
pub open spec fn table_wf(es: Seq<RoutingEntry>) -> bool {
    &&& dests_sorted(es)
    &&& forall|i: int| 0 <= i < es.len() ==> entry_wf(#[trigger] es[i])
}

/// True when the table holds an entry for `id`.
pub open spec fn has_dest(es: Seq<RoutingEntry>, id: u32) -> bool {
    exists|i: int| 0 <= i < es.len() && es[i].destination == id
}

/// Index of the entry for `id`.
pub open spec fn entry_index(es: Seq<RoutingEntry>, id: u32) -> int {
    choose|i: int| 0 <= i < es.len() && es[i].destination == id
}

/// The entry for `id`.
pub open spec fn entry_at(es: Seq<RoutingEntry>, id: u32) -> RoutingEntry {
    es[entry_index(es, id)]
}

/// In a sorted table an index with a matching destination is the unique
/// one that `entry_index` denotes.
pub proof fn lemma_entry_index_unique(es: Seq<RoutingEntry>, i: int, id: u32)
    requires
        dests_sorted(es),
        0 <= i < es.len(),
        es[i].destination == id,
    ensures
        has_dest(es, id),
        entry_index(es, id) == i,
        entry_at(es, id) == es[i],
{
    assert(has_dest(es, id));
    let j = entry_index(es, id);
    if j < i {
        assert(es[j].destination < es[i].destination);
    } else if i < j {
        assert(es[i].destination < es[j].destination);
    }
}

/// Reliability hint consumed by the link cost model: the stored
/// reliability of the destination, or 1.0 when the table has no entry.
pub open spec fn spec_rel_hint(es: Seq<RoutingEntry>, id: u32) -> int {
    if has_dest(es, id) {
        entry_at(es, id).reliability_millis as int
    } else {
        1000
    }
}

/// The single global routing table.
#[derive(Clone, Debug)]
pub struct RoutingTable {
    pub entries: Vec<RoutingEntry>,
}

impl RoutingTable {
    /// Creates an empty table.
    pub fn new() -> (t: RoutingTable)
        ensures
            t.entries@ == Seq::<RoutingEntry>::empty(),
    {
        RoutingTable { entries: Vec::new() }
    }

    /// Finds the position of the entry for `id`, if any.
    pub fn find_entry(&self, id: u32) -> (r: Option<usize>)
        requires
            dests_sorted(self.entries@),
        ensures
            match r {
                Some(i) => {
                    &&& i < self.entries@.len()
                    &&& self.entries@[i as int].destination == id
                    &&& has_dest(self.entries@, id)
                    &&& entry_index(self.entries@, id) == i
                },
                None => !has_dest(self.entries@, id),
            },
    {
        let n = self.entries.len();
        let mut k: usize = 0;
        while k < n
            invariant
                k <= n,
                n == self.entries@.len(),
                dests_sorted(self.entries@),
                forall|j: int| 0 <= j < k ==> self.entries@[j].destination != id,
            decreases n - k,
        {
            if self.entries[k].destination == id {
                proof {
                    lemma_entry_index_unique(self.entries@, k as int, id);
                }
                return Some(k);
            }
            k += 1;
        }
        proof {
            if has_dest(self.entries@, id) {
                let i = entry_index(self.entries@, id);
                assert(self.entries@[i].destination == id);
            }
        }
        None
    }

    /// Inserts `e`, replacing any entry with the same destination and
    /// keeping the table sorted.
    pub fn upsert(&mut self, e: RoutingEntry)
        requires
            dests_sorted(old(self).entries@),
        ensures
            dests_sorted(final(self).entries@),
            forall|id: u32|
                #[trigger] has_dest(final(self).entries@, id) <==> (has_dest(
                    old(self).entries@,
                    id,
                ) || id == e.destination),
            has_dest(final(self).entries@, e.destination),
            entry_at(final(self).entries@, e.destination) == e,
            forall|id: u32|
                id != e.destination && #[trigger] has_dest(old(self).entries@, id) ==> entry_at(
                    final(self).entries@,
                    id,
                ) == entry_at(old(self).entries@, id),
            forall|k: int|
                0 <= k < final(self).entries@.len() ==> (#[trigger] final(self).entries@[k]) == e
                    || old(self).entries@.contains(final(self).entries@[k]),
    {
        let id = e.destination;
        let ghost before = self.entries@;
        let n = self.entries.len();
        let mut p: usize = 0;
        while p < n && self.entries[p].destination < id
            invariant
                p <= n,
                n == self.entries@.len(),
                self.entries@ == before,
                dests_sorted(self.entries@),
                forall|j: int| 0 <= j < p ==> self.entries@[j].destination < id,
            decreases n - p,
        {
            p += 1;
        }
        if p < n && self.entries[p].destination == id {
            self.entries.set(p, e);
            proof {
                assert(self.entries@ == before.update(p as int, e));
                lemma_entry_index_unique(self.entries@, p as int, id);
                assert forall|x: u32| #[trigger]
                    has_dest(self.entries@, x) implies (has_dest(before, x) || x == id) by {
                    let i = choose|i: int|
                        0 <= i < self.entries@.len() && self.entries@[i].destination == x;
                    if i != p {
                        assert(before[i].destination == x);
                    }
                }
                assert forall|x: u32| #[trigger]
                    has_dest(before, x) implies has_dest(self.entries@, x) by {
                    let i = choose|i: int| 0 <= i < before.len() && before[i].destination == x;
                    if i != p {
                        assert(self.entries@[i].destination == x);
                    } else {
                        assert(self.entries@[i].destination == id);
                        assert(before[p as int].destination == id);
                    }
                }
                assert forall|x: u32|
                    x != id && #[trigger] has_dest(before, x) implies entry_at(self.entries@, x)
                    == entry_at(before, x) by {
                    let i = choose|i: int| 0 <= i < before.len() && before[i].destination == x;
                    assert(i != p);
                    lemma_entry_index_unique(before, i, x);
                    lemma_entry_index_unique(self.entries@, i, x);
                }
                assert forall|k: int|
                    0 <= k < self.entries@.len() implies (#[trigger] self.entries@[k]) == e
                        || before.contains(self.entries@[k]) by {
                    if k != p {
                        assert(self.entries@[k] == before[k]);
                    }
                }
            }
        } else {
            proof {
                assert forall|j: int| p <= j < n implies id < self.entries@[j].destination by {
                    if j == p {
                    } else {
                        assert(self.entries@[p as int].destination < self.entries@[j].destination);
                    }
                }
            }
            self.entries.insert(p, e);
            proof {
                assert(self.entries@ == before.insert(p as int, e));
                assert forall|i: int, j: int|
                    0 <= i < j < self.entries@.len() implies self.entries@[i].destination
                    < self.entries@[j].destination by {
                    if i < p && j > p {
                        assert(self.entries@[i] == before[i]);
                        assert(self.entries@[j] == before[j - 1]);
                    }
                }
                lemma_entry_index_unique(self.entries@, p as int, id);
                assert forall|x: u32| #[trigger]
                    has_dest(self.entries@, x) implies (has_dest(before, x) || x == id) by {
                    let i = choose|i: int|
                        0 <= i < self.entries@.len() && self.entries@[i].destination == x;
                    if i < p {
                        assert(before[i].destination == x);
                    } else if i > p {
                        assert(before[i - 1].destination == x);
                    }
                }
                assert forall|x: u32| #[trigger]
                    has_dest(before, x) implies has_dest(self.entries@, x) by {
                    let i = choose|i: int| 0 <= i < before.len() && before[i].destination == x;
                    if i < p {
                        assert(self.entries@[i].destination == x);
                    } else {
                        assert(self.entries@[i + 1].destination == x);
                    }
                }
                assert forall|x: u32|
                    x != id && #[trigger] has_dest(before, x) implies entry_at(self.entries@, x)
                    == entry_at(before, x) by {
                    let i = choose|i: int| 0 <= i < before.len() && before[i].destination == x;
                    lemma_entry_index_unique(before, i, x);
                    if i < p {
                        lemma_entry_index_unique(self.entries@, i, x);
                    } else {
                        lemma_entry_index_unique(self.entries@, i + 1, x);
                    }
                }
                assert forall|k: int|
                    0 <= k < self.entries@.len() implies (#[trigger] self.entries@[k]) == e
                        || before.contains(self.entries@[k]) by {
                    if k < p {
                        assert(self.entries@[k] == before[k]);
                    } else if k > p {
                        assert(self.entries@[k] == before[k - 1]);
                    }
                }
            }
        }
    }

    /// The reliability hint for `id`, in thousandths.
    pub fn rel_hint(&self, id: u32) -> (r: u32)
        requires
            dests_sorted(self.entries@),
        ensures
            r == spec_rel_hint(self.entries@, id),
    {
        match self.find_entry(id) {
            Some(i) => self.entries[i].reliability_millis,
            None => 1000,
        }
    }
}

} // verus!
