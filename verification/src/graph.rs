//! The in-memory investigation graph: topology, hot payloads with their
//! last use, and an estimate of the memory they take, held under a budget by
//! evicting the payloads of the least recently used entities.

use vstd::prelude::*;
use crate::model::model_message;
use vstd::multiset::Multiset;
use crate::engine::opt_view;
use crate::model::{Batch, BatchView, ModelError, Node, NodeView, batch_check, now};
use crate::text::same_text;
use crate::topology::{
    Topology, topology_add_edge, topology_add_node, topology_edge_count, topology_edges,
    topology_has_vacancy, topology_new, topology_node_count, topology_nodes,
};

verus! {

/// An entity of the graph: its identifier, its payload while it is held in
/// memory, when it was last used, and the bytes its payload is reckoned at.
pub struct HotNode {
    pub id: String,
    pub payload: Option<Node>,
    pub touched: i64,
    payload_bytes: usize,
}

/// The mathematical value of a hot node, apart from its last use.
pub struct HotView {
    pub id: Seq<char>,
    pub payload: Option<NodeView>,
    pub payload_bytes: nat,
}

/// The mathematical value of a graph.
pub struct GraphView {
    pub nodes: Seq<HotView>,
    pub touched: Seq<i64>,
    pub edges: Seq<Seq<char>>,
    pub links: Multiset<(nat, nat, Seq<char>)>,
    pub budget: nat,
    pub ephemeral: bool,
    pub estimated: nat,
}

/// The bytes reckoned for all payloads.
pub open spec fn payload_total(nodes: Seq<HotView>) -> nat
    decreases nodes.len(),
{
    if nodes.len() == 0 {
        0
    } else {
        payload_total(nodes.drop_last()) + nodes.last().payload_bytes
    }
}

impl GraphView {
    /// The estimate is 320 bytes per entity, 200 per relationship and the
    /// bytes reckoned for the payloads held.
    pub open spec fn accounted(self) -> bool {
        self.estimated == 320 * self.nodes.len() + 200 * self.edges.len() + payload_total(self.nodes)
    }

    /// Whether an entity with this identifier is in the graph.
    pub open spec fn has(self, id: Seq<char>) -> bool {
        has_id(self.nodes, id)
    }
}

/// Whether some hot node has this identifier.
pub open spec fn has_id(nodes: Seq<HotView>, id: Seq<char>) -> bool {
    exists|i: int| 0 <= i < nodes.len() && nodes[i].id == id
}

/// The index of the entity with this identifier.
pub open spec fn index_of(nodes: Seq<HotView>, id: Seq<char>) -> int {
    choose|i: int| 0 <= i < nodes.len() && nodes[i].id == id
}

/// The in-memory graph.
pub struct Graph {
    topology: Topology,
    hot: Vec<HotNode>,
    edge_ids: Vec<String>,
    pub budget: usize,
    ephemeral: bool,
    estimated: usize,
}

/// The view of a hot node.
pub closed spec fn hot_view(h: HotNode) -> HotView {
    HotView { id: h.id@, payload: opt_view(h.payload), payload_bytes: h.payload_bytes as nat }
}

/// Why a batch is not admitted.
#[derive(Clone, Copy, Debug, PartialEq, Eq, Structural)]
pub enum GraphError {
    Model(ModelError),
    DanglingEdge,
    BudgetReached,
}

/// The message shown for a refusal.
pub open spec fn graph_message(e: GraphError) -> Seq<char> {
    match e {
        GraphError::Model(e) => model_message(e),
        GraphError::DanglingEdge => "dangling edge"@,
        GraphError::BudgetReached => "graph budget reached; reduce scope or raise budget"@,
    }
}

impl GraphError {
    /// The message shown for this refusal.
    pub fn message(&self) -> (m: &'static str)
        ensures
            m@ == graph_message(*self),
    {
        match self {
            GraphError::Model(e) => e.message(),
            GraphError::DanglingEdge => "dangling edge",
            GraphError::BudgetReached => "graph budget reached; reduce scope or raise budget",
        }
    }
}

impl View for Graph {
    type V = GraphView;

    closed spec fn view(&self) -> GraphView {
        GraphView {
            nodes: self.hot@.map_values(|h: HotNode| hot_view(h)),
            touched: self.hot@.map_values(|h: HotNode| h.touched),
            edges: self.edge_ids@.map_values(|s: String| s@),
            links: topology_edges(self.topology),
            budget: self.budget as nat,
            ephemeral: self.ephemeral,
            estimated: self.estimated as nat,
        }
    }
}

impl Graph {
    /// The graph's internal consistency: identifiers unique, the topology
    /// holding one node per entity at the same index and one edge per
    /// relationship, payload accounting exact.
    pub closed spec fn wf(&self) -> bool {
        let v = self@;
        &&& forall|i: int, j: int| 0 <= i < j < v.nodes.len() ==> (#[trigger] v.nodes[i]).id != (#[trigger] v.nodes[j]).id
        &&& forall|i: int, j: int| 0 <= i < j < v.edges.len() ==> #[trigger] v.edges[i] != #[trigger] v.edges[j]
        &&& forall|i: int| 0 <= i < v.nodes.len() ==> (#[trigger] v.nodes[i]).payload is None ==> v.nodes[i].payload_bytes == 0
        &&& forall|i: int| 0 <= i < v.nodes.len() ==> (#[trigger] v.nodes[i]).payload is Some ==> v.nodes[i].payload.unwrap().id == v.nodes[i].id
        &&& !topology_has_vacancy(self.topology)
        &&& topology_nodes(self.topology) == Map::new(|i: nat| i < v.nodes.len(), |i: nat| v.nodes[i as int].id)
        &&& topology_edges(self.topology).len() == v.edges.len()
        &&& v.accounted()
    }

    /// An empty graph with this memory budget; an ephemeral graph never evicts.
    pub fn new(budget: usize, ephemeral: bool) -> (g: Self)
        ensures
            g.wf(),
            g@.nodes.len() == 0,
            g@.edges.len() == 0,
            g@.budget == budget,
            g@.ephemeral == ephemeral,
            g@.estimated == 0,
    {
        let g = Graph { topology: topology_new(), hot: Vec::new(), edge_ids: Vec::new(), budget, ephemeral, estimated: 0 };
        assert(topology_nodes(g.topology) =~= Map::new(|i: nat| i < g@.nodes.len(), |i: nat| g@.nodes[i as int].id));
        g
    }

    /// The estimated bytes of the graph.
    pub fn estimated_bytes(&self) -> (n: usize)
        ensures
            n == self@.estimated,
    {
        self.estimated
    }

    /// The number of entities.
    pub fn node_count(&self) -> (n: usize)
        requires
            self.wf(),
        ensures
            n == self@.nodes.len(),
    {
        let n = topology_node_count(&self.topology);
        assert(topology_nodes(self.topology).dom() =~= Set::new(|i: nat| i < self@.nodes.len()));
        proof {
            lemma_prefix_set_len(self@.nodes.len());
        }
        n
    }

    /// The number of relationships.
    pub fn edge_count(&self) -> (n: usize)
        requires
            self.wf(),
        ensures
            n == self@.edges.len(),
    {
        topology_edge_count(&self.topology)
    }

    /// The index of the entity with identifier `id`.
    fn find(&self, id: &str) -> (r: Option<usize>)
        requires
            self.wf(),
        ensures
            r.is_some() == self@.has(id@),
            r.is_some() ==> r.unwrap() < self@.nodes.len() && self@.nodes[r.unwrap() as int].id == id@
                && r.unwrap() == index_of(self@.nodes, id@),
    {
        let mut i: usize = 0;
        while i < self.hot.len()
            invariant
                self.wf(),
                i <= self.hot.len(),
                forall|j: int| 0 <= j < i ==> (#[trigger] self@.nodes[j]).id != id@,
            decreases self.hot.len() - i,
        {
            if same_text(self.hot[i].id.as_str(), id) {
                assert(self@.nodes[i as int].id == id@);
                proof {
                    let k = index_of(self@.nodes, id@);
                    if k != i {
                        if k < i {
                            assert(self@.nodes[k].id != self@.nodes[i as int].id);
                        } else {
                            assert(self@.nodes[i as int].id != self@.nodes[k].id);
                        }
                    }
                }
                return Some(i);
            }
            i = i + 1;
        }
        None
    }
}

impl Graph {
    /// The payload of the entity `id` while it is held in memory; marks the
    /// entity as used now.
    pub fn get_hot(&mut self, id: &str) -> (r: Option<Node>)
        requires
            old(self).wf(),
        ensures
            final(self).wf(),
            final(self)@.nodes == old(self)@.nodes,
            final(self)@.edges == old(self)@.edges,
            final(self)@.links == old(self)@.links,
            final(self)@.budget == old(self)@.budget,
            final(self)@.ephemeral == old(self)@.ephemeral,
            final(self)@.estimated == old(self)@.estimated,
            final(self)@.touched.len() == old(self)@.touched.len(),
            forall|j: int| 0 <= j < old(self)@.touched.len() && !(old(self)@.has(id@) && j == index_of(old(self)@.nodes, id@))
                ==> #[trigger] final(self)@.touched[j] == old(self)@.touched[j],
            opt_view(r) == if old(self)@.has(id@) { old(self)@.nodes[index_of(old(self)@.nodes, id@)].payload } else { None },
    {
        match self.find(id) {
            None => None,
            Some(i) => {
                let ghost before = self@;
                let mut h = self.hot.remove(i);
                h.touched = now();
                let r = match &h.payload {
                    Some(n) => Some(n.duplicate()),
                    None => None,
                };
                self.hot.insert(i, h);
                assert(self@.nodes =~= before.nodes);
                assert(self@.edges =~= before.edges);
                assert(self@.touched =~= before.touched.update(i as int, h.touched));
                assert(topology_nodes(self.topology) =~= Map::new(|k: nat| k < self@.nodes.len(), |k: nat| self@.nodes[k as int].id));
                r
            },
        }
    }
}

/// Entity `i` was used before entity `j` (the earlier index first among equals).
pub open spec fn colder(touched: Seq<i64>, i: nat, j: nat) -> bool {
    touched[i as int] < touched[j as int] || (touched[i as int] == touched[j as int] && i < j)
}

/// `order` with `i` placed before the first entity it was used before.
pub open spec fn insert_cold(order: Seq<nat>, touched: Seq<i64>, i: nat) -> Seq<nat>
    decreases order.len(),
{
    if order.len() == 0 {
        seq![i]
    } else if colder(touched, i, order[0]) {
        seq![i] + order
    } else {
        seq![order[0]] + insert_cold(order.drop_first(), touched, i)
    }
}

/// The entities `0..n` from least to most recently used.
pub open spec fn cold_order(touched: Seq<i64>, n: nat) -> Seq<nat>
    decreases n,
{
    if n == 0 {
        seq![]
    } else {
        insert_cold(cold_order(touched, (n - 1) as nat), touched, (n - 1) as nat)
    }
}

/// A hot node whose payload has been dropped.
pub open spec fn without_payload(h: HotView) -> HotView {
    HotView { id: h.id, payload: None, payload_bytes: 0 }
}

/// Drops payloads along `order` until the estimate `current` leaves room for
/// `needed` bytes within `budget`, or the order is exhausted.
pub open spec fn evict(nodes: Seq<HotView>, order: Seq<nat>, current: nat, needed: nat, budget: nat) -> Seq<HotView>
    decreases order.len(),
{
    if order.len() == 0 || current + needed <= budget {
        nodes
    } else {
        let i = order[0] as int;
        if 0 <= i < nodes.len() && nodes[i].payload is Some {
            evict(
                nodes.update(i, without_payload(nodes[i])),
                order.drop_first(),
                if current >= nodes[i].payload_bytes { (current - nodes[i].payload_bytes) as nat } else { 0 },
                needed,
                budget,
            )
        } else {
            evict(nodes, order.drop_first(), current, needed, budget)
        }
    }
}

/// Edge `k` of the batch names an entity that is neither in the graph nor in the batch.
pub open spec fn dangling_at(g: GraphView, b: BatchView, k: int) -> bool {
    ||| (!g.has(b.edges[k].source) && !(exists|j: int| 0 <= j < b.nodes.len() && b.nodes[j].id == b.edges[k].source))
    ||| (!g.has(b.edges[k].target) && !(exists|j: int| 0 <= j < b.nodes.len() && b.nodes[j].id == b.edges[k].target))
}

/// Some edge of the batch names an entity that is neither in the graph nor in the batch.
pub open spec fn dangling(g: GraphView, b: BatchView) -> bool {
    exists|k: int| 0 <= k < b.edges.len() && #[trigger] dangling_at(g, b, k)
}

/// The bytes a batch is reckoned to need: four times its encoding, 320 per
/// entity and 200 per relationship.
pub open spec fn needed_bytes(b: BatchView, encoded_len: nat) -> nat {
    encoded_len * 4 + b.nodes.len() * 320 + b.edges.len() * 200
}

/// The hot nodes once admission has made room for `needed` bytes: payloads
/// of the least recently used entities are dropped, unless the graph is
/// ephemeral or already has room.
pub open spec fn admitted_nodes(g: GraphView, needed: nat) -> Seq<HotView> {
    if g.estimated + needed > g.budget && !g.ephemeral {
        evict(g.nodes, cold_order(g.touched, g.nodes.len()), g.estimated, needed, g.budget)
    } else {
        g.nodes
    }
}

proof fn lemma_insert_cold(order: Seq<nat>, touched: Seq<i64>, i: nat, p: int)
    requires
        0 <= p <= order.len(),
        forall|k: int| 0 <= k < p ==> !colder(touched, i, #[trigger] order[k]),
        p < order.len() ==> colder(touched, i, order[p]),
    ensures
        insert_cold(order, touched, i) == order.insert(p, i),
    decreases order.len(),
{
    if order.len() == 0 {
        assert(seq![i] =~= order.insert(p, i));
    } else if p == 0 {
        assert(seq![i] + order =~= order.insert(p, i));
    } else {
        let rest = order.drop_first();
        assert forall|k: int| 0 <= k < p - 1 implies !colder(touched, i, #[trigger] rest[k]) by {
            assert(rest[k] == order[k + 1]);
        }
        lemma_insert_cold(rest, touched, i, p - 1);
        assert(seq![order[0]] + rest.insert(p - 1, i) =~= order.insert(p, i));
    }
}

proof fn lemma_cold_order_bounds(touched: Seq<i64>, n: nat)
    ensures
        cold_order(touched, n).len() == n,
        forall|k: int| 0 <= k < n ==> #[trigger] cold_order(touched, n)[k] < n,
    decreases n,
{
    if n > 0 {
        lemma_cold_order_bounds(touched, (n - 1) as nat);
        lemma_insert_cold_bounds(cold_order(touched, (n - 1) as nat), touched, (n - 1) as nat, n);
    }
}

proof fn lemma_insert_cold_bounds(order: Seq<nat>, touched: Seq<i64>, i: nat, n: nat)
    requires
        i < n,
        forall|k: int| 0 <= k < order.len() ==> #[trigger] order[k] < n,
    ensures
        insert_cold(order, touched, i).len() == order.len() + 1,
        forall|k: int| 0 <= k < order.len() + 1 ==> #[trigger] insert_cold(order, touched, i)[k] < n,
    decreases order.len(),
{
    if order.len() > 0 && !colder(touched, i, order[0]) {
        let rest = order.drop_first();
        lemma_insert_cold_bounds(rest, touched, i, n);
        assert forall|k: int| 0 <= k < order.len() + 1 implies #[trigger] insert_cold(order, touched, i)[k] < n by {
            if k > 0 {
                assert(insert_cold(order, touched, i)[k] == insert_cold(rest, touched, i)[k - 1]);
            }
        }
    } else if order.len() > 0 {
        assert forall|k: int| 0 <= k < order.len() + 1 implies #[trigger] insert_cold(order, touched, i)[k] < n by {
            if k > 0 {
                assert((seq![i] + order)[k] == order[k - 1]);
            }
        }
    }
}

proof fn lemma_payload_total_drop(nodes: Seq<HotView>, i: int)
    requires
        0 <= i < nodes.len(),
    ensures
        payload_total(nodes.update(i, without_payload(nodes[i]))) + nodes[i].payload_bytes == payload_total(nodes),
    decreases nodes.len(),
{
    let u = nodes.update(i, without_payload(nodes[i]));
    if i == nodes.len() - 1 {
        assert(u.drop_last() =~= nodes.drop_last());
    } else {
        lemma_payload_total_drop(nodes.drop_last(), i);
        assert(u.drop_last() =~= nodes.drop_last().update(i, without_payload(nodes[i])));
    }
}

proof fn lemma_payload_total_bound(nodes: Seq<HotView>, i: int)
    requires
        0 <= i < nodes.len(),
    ensures
        nodes[i].payload_bytes <= payload_total(nodes),
{
    lemma_payload_total_drop(nodes, i);
}

/// Entities along `order` were last used no later than those after them.
pub open spec fn touched_sorted(order: Seq<nat>, touched: Seq<i64>) -> bool {
    forall|p: int, q: int| 0 <= p < q < order.len() ==> touched[#[trigger] order[p] as int] <= touched[#[trigger] order[q] as int]
}

/// Whether entity `k` is listed in `order`.
pub open spec fn listed(order: Seq<nat>, k: nat) -> bool {
    exists|p: int| 0 <= p < order.len() && order[p] == k
}

/// `insert_cold` places `i` somewhere in `order`, leaving the rest in order.
proof fn lemma_insert_cold_place(order: Seq<nat>, touched: Seq<i64>, i: nat) -> (p: int)
    ensures
        0 <= p <= order.len(),
        insert_cold(order, touched, i) == order.insert(p, i),
    decreases order.len(),
{
    if order.len() == 0 {
        assert(seq![i] =~= order.insert(0, i));
        0
    } else if colder(touched, i, order[0]) {
        assert(seq![i] + order =~= order.insert(0, i));
        0
    } else {
        let rest = order.drop_first();
        let q = lemma_insert_cold_place(rest, touched, i);
        assert(seq![order[0]] + rest.insert(q, i) =~= order.insert(q + 1, i));
        q + 1
    }
}

/// Inserting by `colder` keeps an order sorted by last use.
proof fn lemma_insert_cold_sorted(order: Seq<nat>, touched: Seq<i64>, i: nat)
    requires
        touched_sorted(order, touched),
    ensures
        touched_sorted(insert_cold(order, touched, i), touched),
    decreases order.len(),
{
    let r = insert_cold(order, touched, i);
    if order.len() == 0 {
    } else if colder(touched, i, order[0]) {
        assert forall|p: int, q: int| 0 <= p < q < r.len() implies touched[#[trigger] r[p] as int] <= touched[#[trigger] r[q] as int] by {
            if p == 0 {
                assert(r[q] == order[q - 1]);
                if q - 1 > 0 {
                    assert(touched[order[0] as int] <= touched[order[q - 1] as int]);
                }
            } else {
                assert(r[p] == order[p - 1] && r[q] == order[q - 1]);
            }
        }
    } else {
        let rest = order.drop_first();
        assert(touched_sorted(rest, touched)) by {
            assert forall|p: int, q: int| 0 <= p < q < rest.len() implies touched[#[trigger] rest[p] as int] <= touched[#[trigger] rest[q] as int] by {
                assert(rest[p] == order[p + 1] && rest[q] == order[q + 1]);
            }
        }
        lemma_insert_cold_sorted(rest, touched, i);
        let ins = insert_cold(rest, touched, i);
        let pos = lemma_insert_cold_place(rest, touched, i);
        assert(r == seq![order[0]] + ins);
        assert forall|p: int, q: int| 0 <= p < q < r.len() implies touched[#[trigger] r[p] as int] <= touched[#[trigger] r[q] as int] by {
            if p == 0 {
                assert(r[q] == ins[q - 1]);
                let k = q - 1;
                if k < pos {
                    assert(ins[k] == rest[k]);
                    assert(rest[k] == order[k + 1]);
                    assert(touched[order[0] as int] <= touched[order[k + 1] as int]);
                } else if k == pos {
                    assert(ins[k] == i);
                } else {
                    assert(ins[k] == rest[k - 1]);
                    assert(rest[k - 1] == order[k]);
                    assert(touched[order[0] as int] <= touched[order[k] as int]);
                }
            } else {
                assert(r[p] == ins[p - 1] && r[q] == ins[q - 1]);
            }
        }
    }
}

/// The least-to-most-recently-used order lists every entity `0..n`, sorted
/// by last use.
proof fn lemma_cold_order_sorted(touched: Seq<i64>, n: nat)
    ensures
        touched_sorted(cold_order(touched, n), touched),
        forall|k: nat| k < n ==> #[trigger] listed(cold_order(touched, n), k),
    decreases n,
{
    if n > 0 {
        let prev = cold_order(touched, (n - 1) as nat);
        lemma_cold_order_sorted(touched, (n - 1) as nat);
        lemma_insert_cold_sorted(prev, touched, (n - 1) as nat);
        let pos = lemma_insert_cold_place(prev, touched, (n - 1) as nat);
        let r = cold_order(touched, n);
        assert(r == prev.insert(pos, (n - 1) as nat));
        assert forall|k: nat| k < n implies #[trigger] listed(r, k) by {
            if k == n - 1 {
                assert(r[pos] == k);
            } else {
                assert(listed(prev, k));
                let p0 = choose|p: int| 0 <= p < prev.len() && prev[p] == k;
                if p0 < pos {
                    assert(r[p0] == k);
                } else {
                    assert(r[p0 + 1] == k);
                }
            }
        }
    }
}

/// Eviction only drops payloads: every entity is as it was, or without its payload.
proof fn lemma_evict_shape(nodes: Seq<HotView>, order: Seq<nat>, current: nat, needed: nat, budget: nat)
    ensures
        evict(nodes, order, current, needed, budget).len() == nodes.len(),
        forall|k: int| 0 <= k < nodes.len() ==> #[trigger] evict(nodes, order, current, needed, budget)[k] == nodes[k]
            || evict(nodes, order, current, needed, budget)[k] == without_payload(nodes[k]),
    decreases order.len(),
{
    if order.len() == 0 || current + needed <= budget {
    } else {
        let i = order[0] as int;
        if 0 <= i < nodes.len() && nodes[i].payload is Some {
            let u = nodes.update(i, without_payload(nodes[i]));
            let c = if current >= nodes[i].payload_bytes { (current - nodes[i].payload_bytes) as nat } else { 0 };
            lemma_evict_shape(u, order.drop_first(), c, needed, budget);
            assert forall|k: int| 0 <= k < nodes.len() implies #[trigger] evict(nodes, order, current, needed, budget)[k] == nodes[k]
                || evict(nodes, order, current, needed, budget)[k] == without_payload(nodes[k]) by {
                assert(evict(nodes, order, current, needed, budget) == evict(u, order.drop_first(), c, needed, budget));
                if k == i {
                    assert(without_payload(u[k]) == without_payload(nodes[k]));
                }
            }
        } else {
            lemma_evict_shape(nodes, order.drop_first(), current, needed, budget);
        }
    }
}

/// A payload that eviction drops is reached along `order` only after every
/// entity before it there has lost its payload.
proof fn lemma_evict_reached(nodes: Seq<HotView>, order: Seq<nat>, current: nat, needed: nat, budget: nat, x: int) -> (q: int)
    requires
        0 <= x < nodes.len(),
        forall|k: int| 0 <= k < order.len() ==> #[trigger] order[k] < nodes.len(),
        nodes[x].payload is Some,
        evict(nodes, order, current, needed, budget)[x].payload is None,
    ensures
        0 <= q < order.len(),
        order[q] == x,
        forall|p: int| 0 <= p < q ==> (#[trigger] evict(nodes, order, current, needed, budget)[order[p] as int]).payload is None,
    decreases order.len(),
{
    let r = evict(nodes, order, current, needed, budget);
    let rest = order.drop_first();
    assert forall|k: int| 0 <= k < rest.len() implies #[trigger] rest[k] < nodes.len() by {
        assert(rest[k] == order[k + 1]);
    }
    let i = order[0] as int;
    if nodes[i].payload is Some {
        let u = nodes.update(i, without_payload(nodes[i]));
        let c = if current >= nodes[i].payload_bytes { (current - nodes[i].payload_bytes) as nat } else { 0 };
        assert(r == evict(u, rest, c, needed, budget));
        if x == i {
            0
        } else {
            let q1 = lemma_evict_reached(u, rest, c, needed, budget, x);
            lemma_evict_shape(u, rest, c, needed, budget);
            assert(r[i] == u[i] || r[i] == without_payload(u[i]));
            assert forall|p: int| 0 <= p < q1 + 1 implies (#[trigger] r[order[p] as int]).payload is None by {
                if p > 0 {
                    assert(order[p] == rest[p - 1]);
                }
            }
            q1 + 1
        }
    } else {
        assert(r == evict(nodes, rest, current, needed, budget));
        let q1 = lemma_evict_reached(nodes, rest, current, needed, budget, x);
        lemma_evict_shape(nodes, rest, current, needed, budget);
        assert(r[i] == nodes[i] || r[i] == without_payload(nodes[i]));
        assert forall|p: int| 0 <= p < q1 + 1 implies (#[trigger] r[order[p] as int]).payload is None by {
            if p > 0 {
                assert(order[p] == rest[p - 1]);
            }
        }
        q1 + 1
    }
}

/// Whether admission dropped the payload of entity `x`.
pub open spec fn was_dropped(before: Seq<HotView>, after: Seq<HotView>, x: int) -> bool {
    0 <= x < before.len() && before[x].payload is Some && after[x].payload is None
}

/// Eviction stops as soon as there is room: unless nothing was dropped,
/// some dropped payload was still needed (without it the estimate left no
/// room); and unless room was made, every entity along `order` lost its
/// payload.
proof fn lemma_evict_outcome(nodes: Seq<HotView>, order: Seq<nat>, current: nat, needed: nat, budget: nat)
    requires
        forall|k: int| 0 <= k < order.len() ==> #[trigger] order[k] < nodes.len(),
        current >= payload_total(nodes),
    ensures
        ({
            let r = evict(nodes, order, current, needed, budget);
            let left = current - (payload_total(nodes) - payload_total(r));
            &&& payload_total(r) <= payload_total(nodes)
            &&& (r != nodes ==> exists|x: int| #[trigger] was_dropped(nodes, r, x) && left + nodes[x].payload_bytes + needed > budget)
            &&& (left + needed <= budget || forall|p: int| 0 <= p < order.len() ==> (#[trigger] r[order[p] as int]).payload is None)
        }),
    decreases order.len(),
{
    let r = evict(nodes, order, current, needed, budget);
    lemma_evict_shape(nodes, order, current, needed, budget);
    if order.len() == 0 || current + needed <= budget {
    } else {
        let rest = order.drop_first();
        assert forall|k: int| 0 <= k < rest.len() implies #[trigger] rest[k] < nodes.len() by {
            assert(rest[k] == order[k + 1]);
        }
        let i = order[0] as int;
        if nodes[i].payload is Some {
            let u = nodes.update(i, without_payload(nodes[i]));
            lemma_payload_total_drop(nodes, i);
            let c = (current - nodes[i].payload_bytes) as nat;
            assert(r == evict(u, rest, c, needed, budget));
            lemma_evict_outcome(u, rest, c, needed, budget);
            lemma_evict_shape(u, rest, c, needed, budget);
            if r == u {
                assert(was_dropped(nodes, r, i));
            } else {
                let x = choose|x: int| #[trigger] was_dropped(u, r, x) && (c - (payload_total(u) - payload_total(r))) + u[x].payload_bytes + needed > budget;
                assert(x != i);
                assert(was_dropped(nodes, r, x));
            }
            assert(r[i] == u[i] || r[i] == without_payload(u[i]));
            assert forall|p: int| 0 <= p < order.len() && !(c - (payload_total(u) - payload_total(r)) + needed <= budget)
                implies (#[trigger] r[order[p] as int]).payload is None by {
                if p > 0 {
                    assert(order[p] == rest[p - 1]);
                }
            }
        } else {
            assert(r == evict(nodes, rest, current, needed, budget));
            lemma_evict_outcome(nodes, rest, current, needed, budget);
            assert(r[i] == nodes[i] || r[i] == without_payload(nodes[i]));
            assert forall|p: int| 0 <= p < order.len() && !(current - (payload_total(nodes) - payload_total(r)) + needed <= budget)
                implies (#[trigger] r[order[p] as int]).payload is None by {
                if p > 0 {
                    assert(order[p] == rest[p - 1]);
                }
            }
        }
    }
}

/// Admission drops no more than it must: when it drops payloads, one of
/// them was still needed (the estimate without it leaves no room for the
/// batch); and when it cannot make room, it has dropped every payload.
pub proof fn law_eviction_stops_at_room(g: GraphView, needed: nat)
    requires
        g.accounted(),
    ensures
        ({
            let r = admitted_nodes(g, needed);
            let estimate = 320 * g.nodes.len() + 200 * g.edges.len() + payload_total(r);
            &&& (r != g.nodes ==> exists|x: int| #[trigger] was_dropped(g.nodes, r, x)
                && estimate + g.nodes[x].payload_bytes + needed > g.budget)
            &&& (!g.ephemeral && estimate + needed > g.budget ==> forall|k: int| 0 <= k < r.len() ==> (#[trigger] r[k]).payload is None)
        }),
{
    let n = g.nodes.len();
    let order = cold_order(g.touched, n);
    lemma_cold_order_bounds(g.touched, n);
    lemma_cold_order_sorted(g.touched, n);
    let r = admitted_nodes(g, needed);
    if g.estimated + needed > g.budget && !g.ephemeral {
        lemma_evict_outcome(g.nodes, order, g.estimated, needed, g.budget);
        lemma_evict_shape(g.nodes, order, g.estimated, needed, g.budget);
        assert forall|k: int| 0 <= k < r.len() && 320 * g.nodes.len() + 200 * g.edges.len() + payload_total(r) + needed > g.budget
            implies (#[trigger] r[k]).payload is None by {
            assert(listed(order, k as nat));
            let p = choose|p: int| 0 <= p < order.len() && order[p] == k as nat;
            assert(r[order[p] as int].payload is None);
        }
    } else if !g.ephemeral {
        assert forall|k: int| 0 <= k < r.len() && 320 * g.nodes.len() + 200 * g.edges.len() + payload_total(r) + needed > g.budget
            implies (#[trigger] r[k]).payload is None by {
        }
    }
}

/// Admission changes entities only by dropping payloads: each keeps its
/// identifier, and either keeps its payload or loses it (its bytes with it).
pub proof fn law_admission_only_drops_payloads(g: GraphView, needed: nat)
    ensures
        admitted_nodes(g, needed).len() == g.nodes.len(),
        forall|k: int| 0 <= k < g.nodes.len() ==> #[trigger] admitted_nodes(g, needed)[k] == g.nodes[k]
            || admitted_nodes(g, needed)[k] == (HotView { id: g.nodes[k].id, payload: None, payload_bytes: 0 }),
{
    lemma_evict_shape(g.nodes, cold_order(g.touched, g.nodes.len()), g.estimated, needed, g.budget);
}

/// Admission drops the payloads of the least recently used entities first:
/// when it drops the payload of entity `i`, every entity last used strictly
/// before `i` has no payload left either.
pub proof fn law_eviction_coldest_first(g: GraphView, needed: nat, i: int, j: int)
    requires
        g.touched.len() == g.nodes.len(),
        0 <= i < g.nodes.len(),
        0 <= j < g.nodes.len(),
        g.touched[j] < g.touched[i],
        g.nodes[i].payload is Some,
        admitted_nodes(g, needed)[i].payload is None,
    ensures
        admitted_nodes(g, needed)[j].payload is None,
{
    let n = g.nodes.len();
    let order = cold_order(g.touched, n);
    if g.estimated + needed > g.budget && !g.ephemeral {
        lemma_cold_order_bounds(g.touched, n);
        lemma_cold_order_sorted(g.touched, n);
        let r = evict(g.nodes, order, g.estimated, needed, g.budget);
        let q = lemma_evict_reached(g.nodes, order, g.estimated, needed, g.budget, i);
        assert(listed(order, j as nat));
        let pj = choose|p: int| 0 <= p < order.len() && order[p] == j as nat;
        if pj > q {
            assert(g.touched[order[q] as int] <= g.touched[order[pj] as int]);
        }
        assert(pj != q);
        assert(r[order[pj] as int].payload is None);
    }
}

impl Graph {
    /// The entity indices from least to most recently used.
    fn cold_indices(&self) -> (order: Vec<usize>)
        ensures
            order@.map_values(|x: usize| x as nat) == cold_order(self@.touched, self@.nodes.len()),
    {
        let mut order: Vec<usize> = Vec::new();
        let ghost t = self@.touched;
        let mut i: usize = 0;
        while i < self.hot.len()
            invariant
                t == self@.touched,
                t.len() == self.hot.len(),
                i <= self.hot.len(),
                order@.map_values(|x: usize| x as nat) == cold_order(t, i as nat),
            decreases self.hot.len() - i,
        {
            proof {
                lemma_cold_order_bounds(t, i as nat);
            }
            let ghost ov = order@.map_values(|x: usize| x as nat);
            assert forall|k: int| 0 <= k < order.len() implies #[trigger] order@[k] < i by {
                assert(ov[k] == order@[k] as nat);
            }
            let mut p: usize = 0;
            while p < order.len() && !(self.hot[i].touched < self.hot[order[p]].touched
                || (self.hot[i].touched == self.hot[order[p]].touched && i < order[p]))
                invariant
                    t == self@.touched,
                    t.len() == self.hot.len(),
                    i < self.hot.len(),
                    ov == order@.map_values(|x: usize| x as nat),
                    ov.len() == i,
                    forall|k: int| 0 <= k < i ==> #[trigger] ov[k] < i,
                    forall|k: int| 0 <= k < order.len() ==> #[trigger] order@[k] < i,
                    p <= order.len(),
                    forall|k: int| 0 <= k < p ==> !colder(t, i as nat, #[trigger] ov[k]),
                decreases order.len() - p,
            {
                assert(ov[p as int] == order@[p as int] as nat);
                p = p + 1;
            }
            proof {
                if p < order.len() {
                    assert(ov[p as int] == order@[p as int] as nat);
                }
                lemma_insert_cold(ov, t, i as nat, p as int);
            }
            order.insert(p, i);
            assert(order@.map_values(|x: usize| x as nat) =~= ov.insert(p as int, i as nat));
            i = i + 1;
        }
        order
    }
}

impl Graph {
    /// Drops payloads from the least recently used entity on, until `needed`
    /// more bytes fit within the budget.
    fn make_room(&mut self, needed: usize)
        requires
            old(self).wf(),
        ensures
            final(self).wf(),
            final(self)@.nodes == evict(old(self)@.nodes, cold_order(old(self)@.touched, old(self)@.nodes.len()), old(self)@.estimated, needed as nat, old(self)@.budget),
            final(self)@.touched == old(self)@.touched,
            final(self)@.edges == old(self)@.edges,
            final(self)@.links == old(self)@.links,
            final(self)@.budget == old(self)@.budget,
            final(self)@.ephemeral == old(self)@.ephemeral,
    {
        let order = self.cold_indices();
        let ghost ov = order@.map_values(|x: usize| x as nat);
        let ghost start = self@;
        proof {
            lemma_cold_order_bounds(start.touched, start.nodes.len());
        }
        assert(ov.skip(0) =~= ov);
        let mut j: usize = 0;
        while j < order.len() && !((self.estimated as u128) + (needed as u128) <= self.budget as u128)
            invariant
                self.wf(),
                ov == order@.map_values(|x: usize| x as nat),
                ov.len() == start.nodes.len(),
                forall|k: int| 0 <= k < ov.len() ==> #[trigger] ov[k] < start.nodes.len(),
                self@.nodes.len() == start.nodes.len(),
                self@.touched == start.touched,
                self@.edges == start.edges,
                self@.links == start.links,
                self@.budget == start.budget,
                self@.ephemeral == start.ephemeral,
                j <= order.len(),
                evict(start.nodes, ov, start.estimated, needed as nat, start.budget)
                    == evict(self@.nodes, ov.skip(j as int), self@.estimated, needed as nat, start.budget),
            decreases order.len() - j,
        {
            let i = order[j];
            assert(ov[j as int] == i as nat);
            let ghost before = self@;
            assert(ov.skip(j as int)[0] == i as nat);
            assert(ov.skip(j as int).drop_first() =~= ov.skip(j + 1));
            if self.hot[i].payload.is_some() {
                proof {
                    lemma_payload_total_drop(before.nodes, i as int);
                }
                let mut h = self.hot.remove(i);
                let pb = h.payload_bytes;
                h.payload = None;
                h.payload_bytes = 0;
                self.hot.insert(i, h);
                self.estimated = self.estimated - pb;
                assert(self@.nodes =~= before.nodes.update(i as int, without_payload(before.nodes[i as int])));
                assert(self@.touched =~= before.touched);
                assert(topology_nodes(self.topology) =~= Map::new(|k: nat| k < self@.nodes.len(), |k: nat| self@.nodes[k as int].id));
            }
            j = j + 1;
        }
        assert(ov.skip(j as int).len() == 0 ==> ov.skip(j as int) =~= Seq::<nat>::empty());
    }
}

/// Whether some node of the batch has identifier `id`.
fn batch_has(batch: &Batch, id: &str) -> (r: bool)
    ensures
        r == exists|j: int| 0 <= j < batch@.nodes.len() && batch@.nodes[j].id == id@,
{
    let mut j: usize = 0;
    while j < batch.nodes.len()
        invariant
            j <= batch.nodes.len(),
            forall|k: int| 0 <= k < j ==> (#[trigger] batch@.nodes[k]).id != id@,
        decreases batch.nodes.len() - j,
    {
        if same_text(batch.nodes[j].id.as_str(), id) {
            assert(batch@.nodes[j as int].id == id@);
            return true;
        }
        j = j + 1;
    }
    false
}

impl Graph {
    /// Decides whether `batch` may enter the graph: it must pass its own
    /// checks (`encoded_len` is the length of its JSON encoding, `node_lens`
    /// those of its nodes), every edge must name entities in the graph or
    /// the batch, and the estimate must leave room for what it needs. Unless
    /// the graph is ephemeral, payloads of the least recently used entities
    /// are dropped to make room first; they stay dropped even when the batch
    /// is then refused.
    pub fn admit_batch(&mut self, batch: &Batch, encoded_len: usize, node_lens: &Vec<usize>) -> (r: Result<(), GraphError>)
        requires
            old(self).wf(),
            node_lens.len() == batch.nodes.len(),
        ensures
            final(self).wf(),
            match batch_check(batch@, encoded_len as nat, node_lens@) {
                Err(e) => r == Err::<(), GraphError>(GraphError::Model(e)) && final(self)@ == old(self)@,
                Ok(()) => if dangling(old(self)@, batch@) {
                    r == Err::<(), GraphError>(GraphError::DanglingEdge) && final(self)@ == old(self)@
                } else {
                    let needed = needed_bytes(batch@, encoded_len as nat);
                    &&& final(self)@.nodes == admitted_nodes(old(self)@, needed)
                    &&& final(self)@.touched == old(self)@.touched
                    &&& final(self)@.edges == old(self)@.edges
                    &&& final(self)@.links == old(self)@.links
                    &&& final(self)@.budget == old(self)@.budget
                    &&& final(self)@.ephemeral == old(self)@.ephemeral
                    &&& (r is Ok <==> final(self)@.estimated + needed <= final(self)@.budget)
                    &&& (r is Err ==> r == Err::<(), GraphError>(GraphError::BudgetReached))
                }
            },
    {
        let checked = batch.validate(encoded_len, node_lens);
        if let Err(e) = checked {
            return Err(GraphError::Model(e));
        }
        assert(batch_check(batch@, encoded_len as nat, node_lens@) is Ok);
        let mut k: usize = 0;
        while k < batch.edges.len()
            invariant
                self.wf(),
                self@ == old(self)@,
                batch_check(batch@, encoded_len as nat, node_lens@) is Ok,
                k <= batch.edges.len(),
                forall|kk: int| 0 <= kk < k ==> !#[trigger] dangling_at(self@, batch@, kk),
            decreases batch.edges.len() - k,
        {
            let e = &batch.edges[k];
            assert(batch@.edges[k as int] == e@);
            let src_known = self.find(e.source.as_str()).is_some() || batch_has(batch, e.source.as_str());
            if !src_known {
                assert(dangling_at(self@, batch@, k as int));
                return Err(GraphError::DanglingEdge);
            }
            let tgt_known = self.find(e.target.as_str()).is_some() || batch_has(batch, e.target.as_str());
            if !tgt_known {
                assert(dangling_at(self@, batch@, k as int));
                return Err(GraphError::DanglingEdge);
            }
            assert(self@.has(batch@.edges[k as int].source) || exists|j: int| 0 <= j < batch@.nodes.len() && batch@.nodes[j].id == batch@.edges[k as int].source);
            assert(self@.has(batch@.edges[k as int].target) || exists|j: int| 0 <= j < batch@.nodes.len() && batch@.nodes[j].id == batch@.edges[k as int].target);
            assert(!dangling_at(self@, batch@, k as int));
            k = k + 1;
        }
        assert(!dangling(self@, batch@));
        assert(batch@.nodes.len() == batch.nodes.len() && batch@.edges.len() == batch.edges.len());
        assert(encoded_len <= 2 * 1024 * 1024 && batch.nodes.len() <= 512 && batch.edges.len() <= 2048);
        let needed = encoded_len * 4 + batch.nodes.len() * 320 + batch.edges.len() * 200;
        assert(needed as nat == needed_bytes(batch@, encoded_len as nat));
        if (self.estimated as u128) + (needed as u128) > self.budget as u128 && !self.ephemeral {
            self.make_room(needed);
        }
        if (self.estimated as u128) + (needed as u128) > self.budget as u128 {
            return Err(GraphError::BudgetReached);
        }
        Ok(())
    }
}

/// A node entered into the hot nodes: it replaces the payload of the entity
/// with its identifier, or joins as a new entity at the end.
pub open spec fn upsert_node(nodes: Seq<HotView>, n: NodeView, bytes: nat) -> Seq<HotView> {
    let h = HotView { id: n.id, payload: Some(n), payload_bytes: bytes };
    if exists|i: int| 0 <= i < nodes.len() && nodes[i].id == n.id {
        nodes.update(index_of(nodes, n.id), h)
    } else {
        nodes.push(h)
    }
}

/// The nodes of a batch entered in order; each payload is reckoned at three
/// times the length of its JSON encoding.
pub open spec fn apply_nodes(nodes: Seq<HotView>, batch: Seq<NodeView>, lens: Seq<usize>) -> Seq<HotView>
    decreases batch.len(),
{
    if batch.len() == 0 || lens.len() == 0 {
        nodes
    } else {
        apply_nodes(upsert_node(nodes, batch[0], (3 * lens[0]) as nat), batch.drop_first(), lens.drop_first())
    }
}

/// The relationships of a batch entered in order, each identifier once,
/// linking the indices of its two entities in `nodes`.
pub open spec fn apply_edges(edges: Seq<Seq<char>>, links: Multiset<(nat, nat, Seq<char>)>, nodes: Seq<HotView>, batch: Seq<crate::model::EdgeView>) -> (Seq<Seq<char>>, Multiset<(nat, nat, Seq<char>)>)
    decreases batch.len(),
{
    if batch.len() == 0 {
        (edges, links)
    } else {
        let e = batch[0];
        if edges.contains(e.id) {
            apply_edges(edges, links, nodes, batch.drop_first())
        } else {
            apply_edges(
                edges.push(e.id),
                links.insert((index_of(nodes, e.source) as nat, index_of(nodes, e.target) as nat, e.id)),
                nodes,
                batch.drop_first(),
            )
        }
    }
}

/// The most the estimate can grow by when these nodes enter.
pub open spec fn growth(lens: Seq<usize>) -> nat
    decreases lens.len(),
{
    if lens.len() == 0 {
        0
    } else {
        growth(lens.drop_last()) + 320 + (3 * lens.last()) as nat
    }
}

proof fn lemma_payload_total_update(nodes: Seq<HotView>, i: int, h: HotView)
    requires
        0 <= i < nodes.len(),
    ensures
        payload_total(nodes.update(i, h)) + nodes[i].payload_bytes == payload_total(nodes) + h.payload_bytes,
    decreases nodes.len(),
{
    let u = nodes.update(i, h);
    if i == nodes.len() - 1 {
        assert(u.drop_last() =~= nodes.drop_last());
    } else {
        lemma_payload_total_update(nodes.drop_last(), i, h);
        assert(u.drop_last() =~= nodes.drop_last().update(i, h));
    }
}

proof fn lemma_growth_step(lens: Seq<usize>, i: int)
    requires
        0 <= i < lens.len(),
    ensures
        growth(lens.take(i + 1)) == growth(lens.take(i)) + 320 + 3 * lens[i],
        growth(lens.take(i)) <= growth(lens),
    decreases lens.len(),
{
    assert(lens.take(i + 1).drop_last() =~= lens.take(i));
    if i + 1 < lens.len() {
        lemma_growth_step(lens.drop_last(), i);
        assert(lens.drop_last().take(i + 1) =~= lens.take(i + 1));
        assert(lens.drop_last().take(i) =~= lens.take(i));
        lemma_growth_le(lens.drop_last(), i + 1);
    } else {
        assert(lens.take(i + 1) =~= lens);
    }
}

proof fn lemma_growth_le(lens: Seq<usize>, k: int)
    requires
        0 <= k <= lens.len(),
    ensures
        growth(lens.take(k)) <= growth(lens),
    decreases lens.len(),
{
    if k == lens.len() {
        assert(lens.take(k) =~= lens);
    } else {
        lemma_growth_le(lens.drop_last(), k);
        assert(lens.drop_last().take(k) =~= lens.take(k));
    }
}

impl Graph {
    /// The index of the entity `id`, which is in the graph.
    fn index(&self, id: &str) -> (i: usize)
        requires
            self.wf(),
            self@.has(id@),
        ensures
            i < self@.nodes.len(),
            i == index_of(self@.nodes, id@),
    {
        match self.find(id) {
            Some(i) => i,
            None => {
                assert(false);
                0
            },
        }
    }

    /// Whether a relationship with this identifier is in the graph.
    fn has_edge(&self, id: &str) -> (r: bool)
        ensures
            r == self@.edges.contains(id@),
    {
        let mut k: usize = 0;
        while k < self.edge_ids.len()
            invariant
                k <= self.edge_ids.len(),
                forall|j: int| 0 <= j < k ==> #[trigger] self@.edges[j] != id@,
            decreases self.edge_ids.len() - k,
        {
            if same_text(self.edge_ids[k].as_str(), id) {
                assert(self@.edges[k as int] == id@);
                return true;
            }
            k = k + 1;
        }
        false
    }

    /// Enters a node; its payload is reckoned at `bytes`.
    fn upsert(&mut self, n: Node, bytes: usize)
        requires
            old(self).wf(),
            old(self)@.estimated + 320 + bytes <= usize::MAX,
            old(self)@.nodes.len() + 1 < 0xffff_ffff,
        ensures
            final(self).wf(),
            final(self)@.nodes == upsert_node(old(self)@.nodes, n@, bytes as nat),
            final(self)@.estimated <= old(self)@.estimated + 320 + bytes,
            final(self)@.touched.len() == final(self)@.nodes.len(),
            final(self)@.nodes.len() <= old(self)@.nodes.len() + 1,
            final(self)@.has(n@.id),
            forall|j: int| 0 <= j < old(self)@.nodes.len() ==> (#[trigger] final(self)@.nodes[j]).id == old(self)@.nodes[j].id,
            forall|j: int| 0 <= j < old(self)@.nodes.len() && old(self)@.nodes[j].id != n@.id
                ==> #[trigger] final(self)@.touched[j] == old(self)@.touched[j],
            final(self)@.edges == old(self)@.edges,
            final(self)@.links == old(self)@.links,
            final(self)@.budget == old(self)@.budget,
            final(self)@.ephemeral == old(self)@.ephemeral,
    {
        let ghost before = self@;
        let ghost hv = HotView { id: n@.id, payload: Some(n@), payload_bytes: bytes as nat };
        match self.find(n.id.as_str()) {
            Some(i) => {
                proof {
                    lemma_payload_total_update(before.nodes, i as int, hv);
                    lemma_payload_total_bound(before.nodes, i as int);
                }
                assert(self.hot@[i as int].payload_bytes as nat == before.nodes[i as int].payload_bytes);
                let old_hot = self.hot.remove(i);
                let h = HotNode { id: old_hot.id, payload: Some(n), touched: now(), payload_bytes: bytes };
                self.hot.insert(i, h);
                self.estimated = self.estimated - old_hot.payload_bytes + bytes;
                assert(self@.nodes =~= before.nodes.update(i as int, hv));
                assert(self@.edges =~= before.edges);
                assert(topology_nodes(self.topology) =~= Map::new(|k: nat| k < self@.nodes.len(), |k: nat| self@.nodes[k as int].id));
                assert forall|j: int| 0 <= j < before.nodes.len() && before.nodes[j].id != n@.id
                    implies #[trigger] self@.touched[j] == before.touched[j] by {
                    assert(j != i);
                }
                assert(self@.nodes[i as int].id == n@.id);
            },
            None => {
                proof {
                    lemma_prefix_set_len(before.nodes.len());
                    assert(topology_nodes(self.topology).dom() =~= Set::new(|k: nat| k < before.nodes.len()));
                }
                let idx = topology_add_node(&mut self.topology, n.id.clone());
                let h = HotNode { id: n.id.clone(), payload: Some(n), touched: now(), payload_bytes: bytes };
                self.hot.push(h);
                self.estimated = self.estimated + 320 + bytes;
                assert(self@.nodes =~= before.nodes.push(hv));
                assert(self@.edges =~= before.edges);
                assert(self@.nodes.drop_last() =~= before.nodes);
                assert(topology_nodes(self.topology) =~= Map::new(|k: nat| k < self@.nodes.len(), |k: nat| self@.nodes[k as int].id));
                assert forall|j: int| 0 <= j < before.nodes.len() implies #[trigger] self@.touched[j] == before.touched[j] by {
                    assert(self.hot@[j] == old(self).hot@[j]);
                }
                assert(self@.nodes[before.nodes.len() as int].id == n@.id);
            },
        }
    }

    /// Enters the nodes of `batch`, then its relationships not yet present,
    /// marking the entered entities as used now. `payload_lens[i]` is the
    /// length of the JSON encoding of `batch.nodes[i]`.
    pub fn apply(&mut self, batch: Batch, payload_lens: &Vec<usize>)
        requires
            old(self).wf(),
            payload_lens.len() == batch.nodes.len(),
            old(self)@.estimated + growth(payload_lens@) + 200 * batch.edges.len() <= usize::MAX,
            old(self)@.nodes.len() + batch.nodes.len() + 1 < 0xffff_ffff,
            old(self)@.edges.len() + batch.edges.len() + 1 < 0xffff_ffff,
            forall|k: int| 0 <= k < batch@.edges.len() ==> {
                &&& (old(self)@.has(#[trigger] batch@.edges[k].source) || exists|j: int| 0 <= j < batch@.nodes.len() && batch@.nodes[j].id == batch@.edges[k].source)
                &&& (old(self)@.has(batch@.edges[k].target) || exists|j: int| 0 <= j < batch@.nodes.len() && batch@.nodes[j].id == batch@.edges[k].target)
            },
        ensures
            final(self).wf(),
            final(self)@.nodes == apply_nodes(old(self)@.nodes, batch@.nodes, payload_lens@),
            (final(self)@.edges, final(self)@.links) == apply_edges(old(self)@.edges, old(self)@.links, final(self)@.nodes, batch@.edges),
            final(self)@.budget == old(self)@.budget,
            final(self)@.ephemeral == old(self)@.ephemeral,
            forall|j: int| 0 <= j < old(self)@.nodes.len() && !(exists|k: int| 0 <= k < batch@.nodes.len() && batch@.nodes[k].id == old(self)@.nodes[j].id)
                ==> #[trigger] final(self)@.touched[j] == old(self)@.touched[j],
    {
        let ghost start = self@;
        let ghost bv = batch@;
        let Batch { nodes, edges } = batch;
        let mut nodes = nodes;
        let mut edges = edges;
        let mut i: usize = 0;
        assert(bv.nodes.skip(0) =~= bv.nodes);
        assert(payload_lens@.skip(0) =~= payload_lens@);
        assert(payload_lens@.take(0) =~= Seq::<usize>::empty());
        while nodes.len() > 0
            invariant
                self.wf(),
                i + nodes.len() == bv.nodes.len(),
                payload_lens.len() == bv.nodes.len(),
                nodes@.map_values(|n: Node| n@) == bv.nodes.skip(i as int),
                apply_nodes(start.nodes, bv.nodes, payload_lens@)
                    == apply_nodes(self@.nodes, bv.nodes.skip(i as int), payload_lens@.skip(i as int)),
                self@.estimated <= start.estimated + growth(payload_lens@.take(i as int)),
                start.estimated + growth(payload_lens@) + 200 * bv.edges.len() <= usize::MAX,
                self@.nodes.len() <= start.nodes.len() + i,
                start.nodes.len() + bv.nodes.len() + 1 < 0xffff_ffff,
                self@.nodes.len() >= start.nodes.len(),
                self@.touched.len() == self@.nodes.len(),
                start.touched.len() == start.nodes.len(),
                forall|j: int| 0 <= j < start.nodes.len() ==> (#[trigger] self@.nodes[j]).id == start.nodes[j].id,
                forall|k: int| 0 <= k < i ==> self@.has(#[trigger] bv.nodes[k].id),
                forall|j: int| 0 <= j < start.nodes.len() && !(exists|k: int| 0 <= k < i && bv.nodes[k].id == start.nodes[j].id)
                    ==> #[trigger] self@.touched[j] == start.touched[j],
                self@.edges == start.edges,
                self@.links == start.links,
                self@.budget == start.budget,
                self@.ephemeral == start.ephemeral,
            decreases nodes.len(),
        {
            let n = nodes.remove(0);
            proof {
                lemma_growth_step(payload_lens@, i as int);
                lemma_growth_le(payload_lens@, i + 1);
            }
            assert(self@.estimated + 320 + 3 * payload_lens@[i as int] <= usize::MAX);
            let bytes = 3 * payload_lens[i];
            let ghost pre = self@;
            assert(bv.nodes.skip(i as int)[0] == n@);
            assert(bv.nodes.skip(i as int).drop_first() =~= bv.nodes.skip(i + 1));
            assert(payload_lens@.skip(i as int).drop_first() =~= payload_lens@.skip(i + 1));
            assert(payload_lens@.skip(i as int)[0] == payload_lens@[i as int]);
            self.upsert(n, bytes);
            assert(nodes@.map_values(|n: Node| n@) =~= bv.nodes.skip(i + 1));
            assert forall|k: int| 0 <= k < i + 1 implies self@.has(#[trigger] bv.nodes[k].id) by {
                if k < i {
                    assert(pre.has(bv.nodes[k].id));
                    let m = choose|m: int| 0 <= m < pre.nodes.len() && pre.nodes[m].id == bv.nodes[k].id;
                    assert(self@.nodes[m].id == bv.nodes[k].id);
                }
            }
            assert forall|j: int| 0 <= j < start.nodes.len() && !(exists|k: int| 0 <= k < i + 1 && bv.nodes[k].id == start.nodes[j].id)
                implies #[trigger] self@.touched[j] == start.touched[j] by {
                assert(bv.nodes[i as int].id != start.nodes[j].id);
                assert(pre.nodes[j].id == start.nodes[j].id);
            }
            i = i + 1;
        }
        let ghost final_nodes = self@.nodes;
        let ghost final_touched = self@.touched;
        assert(bv.nodes.skip(i as int).len() == 0);
        assert(i == bv.nodes.len());
        assert forall|m: int| 0 <= m < bv.edges.len() implies has_id(final_nodes, #[trigger] bv.edges[m].source) && has_id(final_nodes, bv.edges[m].target) by {
            if start.has(bv.edges[m].source) {
                let q = choose|q: int| 0 <= q < start.nodes.len() && start.nodes[q].id == bv.edges[m].source;
                assert(final_nodes[q].id == bv.edges[m].source);
            } else {
                let q = choose|q: int| 0 <= q < bv.nodes.len() && bv.nodes[q].id == bv.edges[m].source;
                assert(self@.has(bv.nodes[q].id));
            }
            if start.has(bv.edges[m].target) {
                let q = choose|q: int| 0 <= q < start.nodes.len() && start.nodes[q].id == bv.edges[m].target;
                assert(final_nodes[q].id == bv.edges[m].target);
            } else {
                let q = choose|q: int| 0 <= q < bv.nodes.len() && bv.nodes[q].id == bv.edges[m].target;
                assert(self@.has(bv.nodes[q].id));
            }
        }
        proof {
            lemma_growth_le(payload_lens@, i as int);
        }
        let mut k: usize = 0;
        assert(bv.edges.skip(0) =~= bv.edges);
        while edges.len() > 0
            invariant
                self.wf(),
                self@.nodes == final_nodes,
                k + edges.len() == bv.edges.len(),
                edges@.map_values(|e: crate::model::Edge| e@) == bv.edges.skip(k as int),
                apply_edges(start.edges, start.links, final_nodes, bv.edges)
                    == apply_edges(self@.edges, self@.links, final_nodes, bv.edges.skip(k as int)),
                self@.estimated + 200 * edges.len() <= usize::MAX,
                self@.edges.len() <= start.edges.len() + k,
                start.edges.len() + bv.edges.len() + 1 < 0xffff_ffff,
                forall|m: int| 0 <= m < bv.edges.len() ==> has_id(final_nodes, #[trigger] bv.edges[m].source) && has_id(final_nodes, bv.edges[m].target),
                self@.touched == final_touched,
                self@.budget == start.budget,
                self@.ephemeral == start.ephemeral,
                self@.touched.len() == self@.nodes.len(),
            decreases edges.len(),
        {
            let e = edges.remove(0);
            let ghost pre = self@;
            assert(bv.edges.skip(k as int)[0] == e@);
            assert(bv.edges.skip(k as int).drop_first() =~= bv.edges.skip(k + 1));
            if !self.has_edge(e.id.as_str()) {
                let a = self.index(e.source.as_str());
                let b = self.index(e.target.as_str());
                proof {
                    lemma_prefix_set_len(final_nodes.len());
                }
                assert(topology_nodes(self.topology).contains_key(a as nat));
                assert(topology_nodes(self.topology).contains_key(b as nat));
                self.edge_ids.push(e.id.clone());
                topology_add_edge(&mut self.topology, a, b, e.id);
                self.estimated = self.estimated + 200;
                assert(self@.edges =~= pre.edges.push(e@.id));
                assert(self@.nodes =~= pre.nodes);
            }
            assert(edges@.map_values(|e: crate::model::Edge| e@) =~= bv.edges.skip(k + 1));
            k = k + 1;
        }
        assert(bv.edges.skip(k as int).len() == 0);
    }
}

/// The set of naturals below `n` has `n` elements.
pub proof fn lemma_prefix_set_len(n: nat)
    ensures
        Set::new(|i: nat| i < n).len() == n,
        Set::new(|i: nat| i < n).finite(),
    decreases n,
{
    if n == 0 {
        assert(Set::new(|i: nat| i < n) =~= Set::<nat>::empty());
    } else {
        lemma_prefix_set_len((n - 1) as nat);
        assert(Set::new(|i: nat| i < n) =~= Set::new(|i: nat| i < (n - 1) as nat).insert((n - 1) as nat));
    }
}

/// The sum of some lengths.
pub open spec fn lens_total(lens: Seq<usize>) -> nat
    decreases lens.len(),
{
    if lens.len() == 0 {
        0
    } else {
        lens_total(lens.drop_last()) + lens.last() as nat
    }
}

proof fn lemma_growth_total(lens: Seq<usize>)
    ensures
        growth(lens) == 320 * lens.len() + 3 * lens_total(lens),
    decreases lens.len(),
{
    if lens.len() > 0 {
        lemma_growth_total(lens.drop_last());
    }
}

proof fn lemma_growth_first(lens: Seq<usize>)
    requires
        lens.len() > 0,
    ensures
        growth(lens) == 320 + 3 * lens[0] + growth(lens.drop_first()),
    decreases lens.len(),
{
    if lens.len() > 1 {
        lemma_growth_first(lens.drop_last());
        assert(lens.drop_last()[0] == lens[0]);
        assert(lens.drop_last().drop_first() =~= lens.drop_first().drop_last());
        assert(lens.drop_first().last() == lens.last());
        assert(growth(lens.drop_first()) == growth(lens.drop_first().drop_last()) + 320 + 3 * lens.drop_first().last());
        assert(growth(lens) == growth(lens.drop_last()) + 320 + 3 * lens.last());
    } else {
        assert(lens.drop_first().len() == 0);
        assert(lens.drop_last().len() == 0);
        assert(lens.last() == lens[0]);
        assert(growth(lens.drop_last()) == 0);
        assert(growth(lens.drop_first()) == 0);
        assert(growth(lens) == growth(lens.drop_last()) + 320 + 3 * lens.last());
    }
}

proof fn lemma_upsert_bound(nodes: Seq<HotView>, n: NodeView, bytes: nat)
    ensures
        320 * upsert_node(nodes, n, bytes).len() + payload_total(upsert_node(nodes, n, bytes))
            <= 320 * nodes.len() + payload_total(nodes) + 320 + bytes,
{
    let h = HotView { id: n.id, payload: Some(n), payload_bytes: bytes };
    if exists|i: int| 0 <= i < nodes.len() && nodes[i].id == n.id {
        let i = index_of(nodes, n.id);
        lemma_payload_total_update(nodes, i, h);
    } else {
        assert(nodes.push(h).drop_last() =~= nodes);
    }
}

proof fn lemma_apply_nodes_bound(nodes: Seq<HotView>, batch: Seq<NodeView>, lens: Seq<usize>)
    requires
        batch.len() == lens.len(),
    ensures
        320 * apply_nodes(nodes, batch, lens).len() + payload_total(apply_nodes(nodes, batch, lens))
            <= 320 * nodes.len() + payload_total(nodes) + growth(lens),
    decreases batch.len(),
{
    if batch.len() > 0 {
        let next = upsert_node(nodes, batch[0], (3 * lens[0]) as nat);
        lemma_upsert_bound(nodes, batch[0], (3 * lens[0]) as nat);
        lemma_apply_nodes_bound(next, batch.drop_first(), lens.drop_first());
        lemma_growth_first(lens);
    }
}

proof fn lemma_apply_edges_bound(
    edges: Seq<Seq<char>>,
    links: Multiset<(nat, nat, Seq<char>)>,
    nodes: Seq<HotView>,
    batch: Seq<crate::model::EdgeView>,
)
    ensures
        apply_edges(edges, links, nodes, batch).0.len() <= edges.len() + batch.len(),
    decreases batch.len(),
{
    if batch.len() > 0 {
        let e = batch[0];
        if edges.contains(e.id) {
            lemma_apply_edges_bound(edges, links, nodes, batch.drop_first());
        } else {
            lemma_apply_edges_bound(
                edges.push(e.id),
                links.insert((index_of(nodes, e.source) as nat, index_of(nodes, e.target) as nat, e.id)),
                nodes,
                batch.drop_first(),
            );
        }
    }
}

/// An admitted batch fits: once entered, the estimate (see `accounted`)
/// stays within the budget, provided the payloads of its nodes, each
/// reckoned at three times its encoding, take no more than the batch's own
/// encoding reckoned four times (as when the nodes' encodings lie within
/// the batch's).
pub proof fn law_admitted_batch_fits(g: GraphView, b: BatchView, encoded_len: nat, lens: Seq<usize>)
    requires
        g.accounted(),
        g.estimated + needed_bytes(b, encoded_len) <= g.budget,
        lens.len() == b.nodes.len(),
        3 * lens_total(lens) <= 4 * encoded_len,
    ensures
        ({
            let nodes = apply_nodes(g.nodes, b.nodes, lens);
            let edges = apply_edges(g.edges, g.links, nodes, b.edges).0;
            320 * nodes.len() + 200 * edges.len() + payload_total(nodes) <= g.budget
        }),
{
    let nodes = apply_nodes(g.nodes, b.nodes, lens);
    lemma_apply_nodes_bound(g.nodes, b.nodes, lens);
    lemma_apply_edges_bound(g.edges, g.links, nodes, b.edges);
    lemma_growth_total(lens);
}

/// No two hot nodes share an identifier.
pub open spec fn ids_distinct(nodes: Seq<HotView>) -> bool {
    forall|i: int, j: int| 0 <= i < j < nodes.len() ==> (#[trigger] nodes[i]).id != (#[trigger] nodes[j]).id
}

/// A consistent graph holds each identifier once.
pub proof fn lemma_graph_ids(g: &Graph)
    requires
        g.wf(),
    ensures
        ids_distinct(g@.nodes),
{
}

proof fn lemma_index_unique(nodes: Seq<HotView>, i: int)
    requires
        ids_distinct(nodes),
        0 <= i < nodes.len(),
    ensures
        has_id(nodes, nodes[i].id),
        index_of(nodes, nodes[i].id) == i,
{
    let k = index_of(nodes, nodes[i].id);
    assert(0 <= k < nodes.len() && nodes[k].id == nodes[i].id);
    if k < i {
        assert(nodes[k].id != nodes[i].id);
    } else if i < k {
        assert(nodes[i].id != nodes[k].id);
    }
}

proof fn lemma_upsert_facts(nodes: Seq<HotView>, n: NodeView, bytes: nat)
    requires
        ids_distinct(nodes),
    ensures
        ({
            let up = upsert_node(nodes, n, bytes);
            &&& ids_distinct(up)
            &&& has_id(up, n.id)
            &&& up[index_of(up, n.id)] == (HotView { id: n.id, payload: Some(n), payload_bytes: bytes })
            &&& forall|id: Seq<char>| id != n.id && #[trigger] has_id(nodes, id)
                ==> has_id(up, id) && up[index_of(up, id)] == nodes[index_of(nodes, id)]
        }),
{
    let h = HotView { id: n.id, payload: Some(n), payload_bytes: bytes };
    let up = upsert_node(nodes, n, bytes);
    if exists|i: int| 0 <= i < nodes.len() && nodes[i].id == n.id {
        let p = index_of(nodes, n.id);
        assert(up == nodes.update(p, h));
        assert(ids_distinct(up)) by {
            assert forall|i: int, j: int| 0 <= i < j < up.len() implies (#[trigger] up[i]).id != (#[trigger] up[j]).id by {
                assert(nodes[i].id != nodes[j].id);
            }
        }
        lemma_index_unique(up, p);
        assert forall|id: Seq<char>| id != n.id && #[trigger] has_id(nodes, id)
            implies has_id(up, id) && up[index_of(up, id)] == nodes[index_of(nodes, id)] by {
            let q = index_of(nodes, id);
            assert(up[q] == nodes[q]);
            lemma_index_unique(up, q);
        }
    } else {
        assert(up == nodes.push(h));
        assert(ids_distinct(up)) by {
            assert forall|i: int, j: int| 0 <= i < j < up.len() implies (#[trigger] up[i]).id != (#[trigger] up[j]).id by {
                if j < nodes.len() {
                    assert(nodes[i].id != nodes[j].id);
                } else {
                    assert(up[i] == nodes[i]);
                }
            }
        }
        lemma_index_unique(up, nodes.len() as int);
        assert forall|id: Seq<char>| id != n.id && #[trigger] has_id(nodes, id)
            implies has_id(up, id) && up[index_of(up, id)] == nodes[index_of(nodes, id)] by {
            let q = index_of(nodes, id);
            assert(up[q] == nodes[q]);
            lemma_index_unique(up, q);
        }
    }
}

proof fn lemma_apply_nodes_keeps(nodes: Seq<HotView>, batch: Seq<NodeView>, lens: Seq<usize>, id: Seq<char>)
    requires
        ids_distinct(nodes),
        has_id(nodes, id),
        batch.len() == lens.len(),
        forall|j: int| 0 <= j < batch.len() ==> (#[trigger] batch[j]).id != id,
    ensures
        ids_distinct(apply_nodes(nodes, batch, lens)),
        has_id(apply_nodes(nodes, batch, lens), id),
        apply_nodes(nodes, batch, lens)[index_of(apply_nodes(nodes, batch, lens), id)] == nodes[index_of(nodes, id)],
    decreases batch.len(),
{
    if batch.len() > 0 {
        let next = upsert_node(nodes, batch[0], (3 * lens[0]) as nat);
        lemma_upsert_facts(nodes, batch[0], (3 * lens[0]) as nat);
        assert(batch[0].id != id);
        assert forall|j: int| 0 <= j < batch.drop_first().len() implies (#[trigger] batch.drop_first()[j]).id != id by {
            assert(batch.drop_first()[j] == batch[j + 1]);
        }
        lemma_apply_nodes_keeps(next, batch.drop_first(), lens.drop_first(), id);
    }
}

/// What is entered is read back: once a batch is entered, the entity of
/// each of its nodes is held with that node as its payload, the last report
/// of an identifier in the batch winning.
pub proof fn law_entered_nodes_read_back(nodes: Seq<HotView>, batch: Seq<NodeView>, lens: Seq<usize>, k: int)
    requires
        ids_distinct(nodes),
        batch.len() == lens.len(),
        0 <= k < batch.len(),
        forall|j: int| k < j < batch.len() ==> (#[trigger] batch[j]).id != batch[k].id,
    ensures
        has_id(apply_nodes(nodes, batch, lens), batch[k].id),
        apply_nodes(nodes, batch, lens)[index_of(apply_nodes(nodes, batch, lens), batch[k].id)].payload == Some(batch[k]),
    decreases batch.len(),
{
    let next = upsert_node(nodes, batch[0], (3 * lens[0]) as nat);
    lemma_upsert_facts(nodes, batch[0], (3 * lens[0]) as nat);
    if k == 0 {
        assert forall|j: int| 0 <= j < batch.drop_first().len() implies (#[trigger] batch.drop_first()[j]).id != batch[0].id by {
            assert(batch.drop_first()[j] == batch[j + 1]);
        }
        lemma_apply_nodes_keeps(next, batch.drop_first(), lens.drop_first(), batch[0].id);
    } else {
        assert(batch.drop_first()[k - 1] == batch[k]);
        assert forall|j: int| k - 1 < j < batch.drop_first().len() implies (#[trigger] batch.drop_first()[j]).id != batch.drop_first()[k - 1].id by {
            assert(batch.drop_first()[j] == batch[j + 1]);
        }
        law_entered_nodes_read_back(next, batch.drop_first(), lens.drop_first(), k - 1);
    }
}

} // verus!
