//! Coalescing a batch within its transaction: each entity reported several
//! times becomes one node, merged onto what storage already holds for it.

use vstd::prelude::*;
use crate::model::{distinct_keys, law_merge_report_onto_node, lemma_pairs_map, merged, pairs_map, Node, NodeView};
use crate::text::{
    chars_of, less, lemma_text_less_asymmetric, lemma_text_less_irreflexive,
    lemma_text_less_total, lemma_text_less_transitive, text_less,
};

verus! {

/// The views of a sequence of nodes.
pub open spec fn node_views(v: Seq<Node>) -> Seq<NodeView> {
    v.map_values(|n: Node| n@)
}

/// Each node paired with its identifier.
pub open spec fn keyed(s: Seq<NodeView>) -> Seq<(Seq<char>, NodeView)> {
    s.map_values(|n: NodeView| (n.id, n))
}

/// The nodes keyed by identifier.
pub open spec fn by_id(s: Seq<NodeView>) -> Map<Seq<char>, NodeView> {
    pairs_map(keyed(s))
}

/// Identifiers strictly increase along the sequence.
pub open spec fn ids_sorted(s: Seq<NodeView>) -> bool {
    forall|i: int, j: int| 0 <= i < j < s.len() ==> text_less(#[trigger] s[i].id, #[trigger] s[j].id)
}

/// The view of an optional node.
pub open spec fn opt_view(o: Option<Node>) -> Option<NodeView> {
    match o {
        Some(n) => Some(n@),
        None => None,
    }
}

/// One report folded into the coalesced nodes: onto the node already
/// coalesced under its identifier, or else onto the stored node (or, when
/// nothing is stored, onto the report itself), kept under that node's
/// identifier.
pub open spec fn coalesce_step(m: Map<Seq<char>, NodeView>, n: NodeView, stored: Option<NodeView>) -> Map<Seq<char>, NodeView> {
    if m.contains_key(n.id) {
        m.insert(n.id, merged(m[n.id], n))
    } else {
        let base = match stored {
            Some(s) => s,
            None => n,
        };
        m.insert(base.id, merged(base, n))
    }
}

/// The first report `n` of an entity that storage holds as `s` is merged
/// onto the stored node: the report's attributes override the stored ones,
/// the stored node keeps the attributes the report lacks, its identity and
/// its layout, and a confidence set by analysis stays; no other coalesced
/// node changes.
pub proof fn law_first_report_merged_onto_stored(m: Map<Seq<char>, NodeView>, n: NodeView, s: NodeView)
    requires
        !m.contains_key(n.id),
        s.id == n.id,
    ensures
        coalesce_step(m, n, Some(s)).contains_key(n.id),
        coalesce_step(m, n, Some(s))[n.id].id == s.id,
        coalesce_step(m, n, Some(s))[n.id].kind == s.kind,
        coalesce_step(m, n, Some(s))[n.id].value == s.value,
        coalesce_step(m, n, Some(s))[n.id].x == s.x,
        coalesce_step(m, n, Some(s))[n.id].y == s.y,
        coalesce_step(m, n, Some(s))[n.id].attributes.dom() == s.attributes.dom().union(n.attributes.dom()),
        forall|k: Seq<char>| n.attributes.contains_key(k)
            ==> #[trigger] coalesce_step(m, n, Some(s))[n.id].attributes[k] == n.attributes[k],
        forall|k: Seq<char>| s.attributes.contains_key(k) && !n.attributes.contains_key(k)
            ==> #[trigger] coalesce_step(m, n, Some(s))[n.id].attributes[k] == s.attributes[k],
        s.confidence != crate::model::Confidence::Data ==> coalesce_step(m, n, Some(s))[n.id].confidence == s.confidence,
        forall|k: Seq<char>| k != n.id ==> (#[trigger] coalesce_step(m, n, Some(s)).contains_key(k) == m.contains_key(k)),
        forall|k: Seq<char>| k != n.id && m.contains_key(k) ==> #[trigger] coalesce_step(m, n, Some(s))[k] == m[k],
{
    law_merge_report_onto_node(s, n);
}

/// A later report `n` of an entity already coalesced is merged onto the
/// node coalesced so far in the same way: its attributes override, the
/// coalesced node keeps the rest, its identity and its layout; storage is
/// not consulted again, and no other coalesced node changes.
pub proof fn law_later_report_merged_onto_coalesced(m: Map<Seq<char>, NodeView>, n: NodeView, stored: Option<NodeView>)
    requires
        m.contains_key(n.id),
    ensures
        coalesce_step(m, n, stored) == coalesce_step(m, n, None),
        coalesce_step(m, n, stored)[n.id].id == m[n.id].id,
        coalesce_step(m, n, stored)[n.id].value == m[n.id].value,
        coalesce_step(m, n, stored)[n.id].x == m[n.id].x,
        coalesce_step(m, n, stored)[n.id].y == m[n.id].y,
        forall|k: Seq<char>| n.attributes.contains_key(k)
            ==> #[trigger] coalesce_step(m, n, stored)[n.id].attributes[k] == n.attributes[k],
        forall|k: Seq<char>| m[n.id].attributes.contains_key(k) && !n.attributes.contains_key(k)
            ==> #[trigger] coalesce_step(m, n, stored)[n.id].attributes[k] == m[n.id].attributes[k],
        coalesce_step(m, n, stored).dom() == m.dom(),
        forall|k: Seq<char>| k != n.id && m.contains_key(k) ==> #[trigger] coalesce_step(m, n, stored)[k] == m[k],
{
    law_merge_report_onto_node(m[n.id], n);
    assert(coalesce_step(m, n, stored).dom() =~= m.dom());
}

/// The first report `n` of an entity that storage does not hold becomes the
/// coalesced node as it is reported: its identity, attributes and layout.
pub proof fn law_first_report_unstored(m: Map<Seq<char>, NodeView>, n: NodeView)
    requires
        !m.contains_key(n.id),
    ensures
        coalesce_step(m, n, None).contains_key(n.id),
        coalesce_step(m, n, None)[n.id].id == n.id,
        coalesce_step(m, n, None)[n.id].value == n.value,
        coalesce_step(m, n, None)[n.id].attributes == n.attributes,
        coalesce_step(m, n, None)[n.id].x == n.x,
        coalesce_step(m, n, None)[n.id].y == n.y,
        coalesce_step(m, n, None)[n.id].confidence == n.confidence,
        coalesce_step(m, n, None)[n.id].timestamp == n.timestamp,
        forall|k: Seq<char>| k != n.id ==> (#[trigger] coalesce_step(m, n, None).contains_key(k) == m.contains_key(k)),
        forall|k: Seq<char>| k != n.id && m.contains_key(k) ==> #[trigger] coalesce_step(m, n, None)[k] == m[k],
{
    assert(n.attributes.union_prefer_right(n.attributes) =~= n.attributes);
}

/// Whether each stored node, where present, is the one storage holds under
/// its report's identifier.
pub open spec fn stored_match(nodes: Seq<NodeView>, stored: Seq<Option<NodeView>>) -> bool {
    &&& stored.len() == nodes.len()
    &&& forall|i: int| 0 <= i < nodes.len() ==> (#[trigger] stored[i] matches Some(s) ==> s.id == nodes[i].id)
}

/// Coalescing keeps exactly one node per reported identifier: an identifier
/// is coalesced if and only if some report carries it, and the node kept
/// under it carries that identifier.
pub proof fn law_coalesced_ids(nodes: Seq<NodeView>, stored: Seq<Option<NodeView>>)
    requires
        stored_match(nodes, stored),
    ensures
        forall|k: Seq<char>| #[trigger] coalesce_all(nodes, stored).contains_key(k)
            <==> exists|i: int| 0 <= i < nodes.len() && nodes[i].id == k,
        forall|k: Seq<char>| #[trigger] coalesce_all(nodes, stored).contains_key(k) ==> coalesce_all(nodes, stored)[k].id == k,
    decreases nodes.len(),
{
    if nodes.len() > 0 {
        let pn = nodes.drop_last();
        let ps = stored.drop_last();
        assert(stored_match(pn, ps)) by {
            assert forall|i: int| 0 <= i < pn.len() implies (#[trigger] ps[i] matches Some(s) ==> s.id == pn[i].id) by {
                assert(ps[i] == stored[i] && pn[i] == nodes[i]);
            }
        }
        law_coalesced_ids(pn, ps);
        let m = coalesce_all(pn, ps);
        let n = nodes.last();
        assert(stored[nodes.len() - 1] matches Some(s) ==> s.id == n.id);
        assert forall|k: Seq<char>| #[trigger] coalesce_all(nodes, stored).contains_key(k)
            <==> exists|i: int| 0 <= i < nodes.len() && nodes[i].id == k by {
            if exists|i: int| 0 <= i < nodes.len() && nodes[i].id == k {
                let i = choose|i: int| 0 <= i < nodes.len() && nodes[i].id == k;
                if i < nodes.len() - 1 {
                    assert(pn[i].id == k);
                }
            }
            if m.contains_key(k) {
                let i = choose|i: int| 0 <= i < pn.len() && pn[i].id == k;
                assert(nodes[i].id == k);
            }
        }
    }
}

proof fn lemma_sorted_distinct(s: Seq<NodeView>)
    requires
        ids_sorted(s),
    ensures
        distinct_keys(keyed(s)),
{
    assert forall|i: int, j: int| 0 <= i < j < keyed(s).len() implies (#[trigger] keyed(s)[i]).0 != (#[trigger] keyed(s)[j]).0 by {
        assert(text_less(s[i].id, s[j].id));
        if s[i].id == s[j].id {
            lemma_text_less_irreflexive(s[i].id);
        }
    }
}

/// What `by_id` holds of a sorted sequence.
proof fn lemma_by_id(s: Seq<NodeView>)
    requires
        ids_sorted(s),
    ensures
        forall|k: Seq<char>| #[trigger] by_id(s).contains_key(k) <==> exists|i: int| 0 <= i < s.len() && s[i].id == k,
        forall|i: int| 0 <= i < s.len() ==> #[trigger] by_id(s)[s[i].id] == s[i],
{
    lemma_sorted_distinct(s);
    lemma_pairs_map(keyed(s));
    assert forall|k: Seq<char>| #[trigger] by_id(s).contains_key(k) <==> exists|i: int| 0 <= i < s.len() && s[i].id == k by {
        if by_id(s).contains_key(k) {
            let i = choose|i: int| 0 <= i < keyed(s).len() && keyed(s)[i].0 == k;
            assert(s[i].id == k);
        }
        if exists|i: int| 0 <= i < s.len() && s[i].id == k {
            let i = choose|i: int| 0 <= i < s.len() && s[i].id == k;
            assert(keyed(s)[i].0 == k);
        }
    }
    assert forall|i: int| 0 <= i < s.len() implies #[trigger] by_id(s)[s[i].id] == s[i] by {
        assert(keyed(s)[i] == (s[i].id, s[i]));
        assert(pairs_map(keyed(s))[keyed(s)[i].0] == keyed(s)[i].1);
    }
}

/// Two sorted sequences with the same identifiers at the same nodes give the same map.
proof fn lemma_by_id_ext(s: Seq<NodeView>, m: Map<Seq<char>, NodeView>)
    requires
        ids_sorted(s),
        forall|k: Seq<char>| #[trigger] m.contains_key(k) <==> exists|i: int| 0 <= i < s.len() && s[i].id == k,
        forall|i: int| 0 <= i < s.len() ==> #[trigger] m[s[i].id] == s[i],
    ensures
        by_id(s) == m,
{
    lemma_by_id(s);
    assert forall|k: Seq<char>| #[trigger] by_id(s).contains_key(k) implies by_id(s)[k] == m[k] by {
        let i = choose|i: int| 0 <= i < s.len() && s[i].id == k;
        assert(by_id(s)[s[i].id] == s[i]);
        assert(m[s[i].id] == s[i]);
    }
    assert(by_id(s) =~= m);
}

/// The first position whose identifier does not order before `id`.
fn find_slot(v: &Vec<Node>, id: &Vec<char>) -> (k: usize)
    requires
        ids_sorted(node_views(v@)),
    ensures
        k <= v.len(),
        forall|i: int| 0 <= i < k ==> text_less(#[trigger] v@[i]@.id, id@),
        k < v.len() ==> !text_less(v@[k as int]@.id, id@),
{
    let mut k: usize = 0;
    while k < v.len() && less(&chars_of(v[k].id.as_str()), id)
        invariant
            k <= v.len(),
            forall|i: int| 0 <= i < k ==> text_less(#[trigger] v@[i]@.id, id@),
        decreases v.len() - k,
    {
        k = k + 1;
    }
    k
}

/// Nodes coalesced so far, one per identifier, kept in identifier order.
pub struct Coalescer {
    nodes: Vec<Node>,
}

impl View for Coalescer {
    type V = Map<Seq<char>, NodeView>;

    closed spec fn view(&self) -> Map<Seq<char>, NodeView> {
        by_id(node_views(self.nodes@))
    }
}

impl Coalescer {
    #[verifier::type_invariant]
    spec fn sorted(&self) -> bool {
        ids_sorted(node_views(self.nodes@))
    }

    /// Nothing coalesced yet.
    pub fn new() -> (c: Self)
        ensures
            c@ == Map::<Seq<char>, NodeView>::empty(),
    {
        let c = Coalescer { nodes: Vec::new() };
        assert(node_views(c.nodes@) =~= Seq::<NodeView>::empty());
        assert(by_id(Seq::<NodeView>::empty()) =~= Map::<Seq<char>, NodeView>::empty());
        c
    }

    /// Whether a node with this identifier has been coalesced.
    pub fn contains(&self, id: &str) -> (r: bool)
        ensures
            r == self@.contains_key(id@),
    {
        proof {
            use_type_invariant(self);
            lemma_by_id(node_views(self.nodes@));
        }
        let key = chars_of(id);
        let k = find_slot(&self.nodes, &key);
        let ghost s = node_views(self.nodes@);
        if k < self.nodes.len() && self.nodes[k].id.as_str().len() == id.len() && crate::text::same_text(self.nodes[k].id.as_str(), id) {
            assert(s[k as int].id == id@);
            true
        } else {
            assert forall|i: int| 0 <= i < s.len() implies s[i].id != id@ by {
                if i < k {
                    assert(text_less(s[i].id, id@));
                    lemma_text_less_irreflexive(id@);
                } else if i > k {
                    lemma_text_less_total(s[k as int].id, id@);
                    assert(text_less(s[k as int].id, s[i].id));
                    if s[i].id == id@ {
                        assert(text_less(id@, s[k as int].id) || s[k as int].id == id@);
                        lemma_text_less_asymmetric(s[k as int].id, id@);
                    }
                }
            }
            false
        }
    }

    /// Places `n` under its identifier, replacing a node held there.
    fn put(&mut self, n: Node)
        ensures
            final(self)@ == old(self)@.insert(n@.id, n@),
    {
        proof {
            use_type_invariant(&*self);
            lemma_by_id(node_views(self.nodes@));
        }
        let key = chars_of(n.id.as_str());
        let k = find_slot(&self.nodes, &key);
        let ghost s = node_views(self.nodes@);
        let ghost x = n@;
        let mut nodes: Vec<Node> = Vec::new();
        std::mem::swap(&mut nodes, &mut self.nodes);
        if k < nodes.len() && crate::text::same_text(nodes[k].id.as_str(), n.id.as_str()) {
            let _old = nodes.remove(k);
            nodes.insert(k, n);
            let ghost t = node_views(nodes@);
            assert(t =~= s.update(k as int, x));
            assert(ids_sorted(t)) by {
                assert forall|i: int, j: int| 0 <= i < j < t.len() implies text_less(#[trigger] t[i].id, #[trigger] t[j].id) by {
                    assert(text_less(s[i].id, s[j].id));
                }
            }
            proof {
                let m = by_id(s).insert(x.id, x);
                assert(s[k as int].id == x.id);
                assert forall|kk: Seq<char>| #[trigger] m.contains_key(kk) <==> exists|i: int| 0 <= i < t.len() && t[i].id == kk by {
                    if m.contains_key(kk) && kk != x.id {
                        assert(by_id(s).contains_key(kk));
                        let i = choose|i: int| 0 <= i < s.len() && s[i].id == kk;
                        assert(t[i].id == kk);
                    }
                    if kk == x.id {
                        assert(t[k as int].id == kk);
                    }
                    if exists|i: int| 0 <= i < t.len() && t[i].id == kk {
                        let i = choose|i: int| 0 <= i < t.len() && t[i].id == kk;
                        assert(s[i].id == kk);
                        assert(by_id(s).contains_key(kk));
                    }
                }
                assert forall|i: int| 0 <= i < t.len() implies #[trigger] m[t[i].id] == t[i] by {
                    if i != k {
                        assert(by_id(s)[s[i].id] == s[i]);
                        if s[i].id == x.id {
                            if i < k {
                                assert(text_less(s[i].id, s[k as int].id));
                            } else {
                                assert(text_less(s[k as int].id, s[i].id));
                            }
                            lemma_text_less_irreflexive(x.id);
                        }
                    }
                }
                lemma_by_id_ext(t, m);
            }
            self.nodes = nodes;
        } else {
            proof {
                if k < s.len() {
                    lemma_text_less_total(s[k as int].id, x.id);
                }
            }
            nodes.insert(k, n);
            let ghost t = node_views(nodes@);
            assert(t =~= s.insert(k as int, x));
            assert(ids_sorted(t)) by {
                assert forall|i: int, j: int| 0 <= i < j < t.len() implies text_less(#[trigger] t[i].id, #[trigger] t[j].id) by {
                    if j < k {
                        assert(text_less(s[i].id, s[j].id));
                    } else if j == k {
                        assert(text_less(s[i].id, x.id));
                    } else if i == k {
                        if j - 1 > k {
                            assert(text_less(s[k as int].id, s[j - 1].id));
                            lemma_text_less_transitive(x.id, s[k as int].id, s[j - 1].id);
                        }
                    } else if i < k {
                        assert(text_less(s[i].id, x.id));
                        if j - 1 > k {
                            assert(text_less(s[k as int].id, s[j - 1].id));
                            lemma_text_less_transitive(x.id, s[k as int].id, s[j - 1].id);
                        }
                        lemma_text_less_transitive(s[i].id, x.id, s[j - 1].id);
                    } else {
                        assert(text_less(s[i - 1].id, s[j - 1].id));
                    }
                }
            }
            proof {
                let m = by_id(s).insert(x.id, x);
                assert forall|i: int| 0 <= i < s.len() implies s[i].id != x.id by {
                    if i < k {
                        assert(text_less(s[i].id, x.id));
                        lemma_text_less_irreflexive(x.id);
                    } else {
                        assert(text_less(x.id, s[k as int].id));
                        if i > k {
                            assert(text_less(s[k as int].id, s[i].id));
                            lemma_text_less_transitive(x.id, s[k as int].id, s[i].id);
                        }
                        if s[i].id == x.id {
                            lemma_text_less_irreflexive(x.id);
                        }
                    }
                }
                assert forall|kk: Seq<char>| #[trigger] m.contains_key(kk) <==> exists|i: int| 0 <= i < t.len() && t[i].id == kk by {
                    if m.contains_key(kk) && kk != x.id {
                        assert(by_id(s).contains_key(kk));
                        let i = choose|i: int| 0 <= i < s.len() && s[i].id == kk;
                        if i < k {
                            assert(t[i].id == kk);
                        } else {
                            assert(t[i + 1].id == kk);
                        }
                    }
                    if kk == x.id {
                        assert(t[k as int].id == kk);
                    }
                    if exists|i: int| 0 <= i < t.len() && t[i].id == kk {
                        let i = choose|i: int| 0 <= i < t.len() && t[i].id == kk;
                        if i < k {
                            assert(s[i].id == kk);
                            assert(by_id(s).contains_key(kk));
                        } else if i > k {
                            assert(s[i - 1].id == kk);
                            assert(by_id(s).contains_key(kk));
                        }
                    }
                }
                assert forall|i: int| 0 <= i < t.len() implies #[trigger] m[t[i].id] == t[i] by {
                    if i < k {
                        assert(by_id(s)[s[i].id] == s[i]);
                    } else if i > k {
                        assert(by_id(s)[s[i - 1].id] == s[i - 1]);
                    }
                }
                lemma_by_id_ext(t, m);
            }
            self.nodes = nodes;
        }
    }

    /// A copy of the node coalesced under `id`, if any.
    pub fn get(&self, id: &str) -> (r: Option<Node>)
        ensures
            r.is_some() == self@.contains_key(id@),
            r.is_some() ==> r.unwrap()@ == self@[id@],
            r.is_some() ==> r.unwrap()@.id == id@,
    {
        proof {
            use_type_invariant(self);
            lemma_by_id(node_views(self.nodes@));
        }
        if !self.contains(id) {
            return None;
        }
        let key = chars_of(id);
        let k = find_slot(&self.nodes, &key);
        let ghost s = node_views(self.nodes@);
        assert(k < s.len() && s[k as int].id == id@) by {
            let i = choose|i: int| 0 <= i < s.len() && s[i].id == id@;
            if i < k {
                assert(text_less(s[i].id, id@));
                lemma_text_less_irreflexive(id@);
            } else if k == s.len() {
            } else if i > k {
                assert(text_less(s[k as int].id, s[i].id));
                lemma_text_less_total(s[k as int].id, id@);
                if s[k as int].id != id@ {
                    lemma_text_less_asymmetric(s[k as int].id, id@);
                }
            }
        }
        assert(by_id(s)[s[k as int].id] == s[k as int]);
        Some(self.nodes[k].duplicate())
    }

    /// Folds the report `n` in: see `coalesce_step`. `stored` is what
    /// storage holds under the report's identifier; it is consulted only when
    /// no node has been coalesced under that identifier yet.
    pub fn add(&mut self, n: Node, stored: Option<Node>)
        ensures
            final(self)@ == coalesce_step(old(self)@, n@, opt_view(stored)),
    {
        match self.get(n.id.as_str()) {
            Some(mut base) => {
                base.merge(n);
                self.put(base);
            },
            None => {
                let mut base = match stored {
                    Some(s) => s,
                    None => n.duplicate(),
                };
                base.merge(n);
                self.put(base);
            },
        }
    }

    /// The coalesced nodes, in identifier order.
    pub fn into_nodes(self) -> (r: Vec<Node>)
        ensures
            ids_sorted(node_views(r@)),
            by_id(node_views(r@)) == self@,
    {
        proof {
            use_type_invariant(&self);
        }
        self.nodes
    }
}

/// Folds all reports, in order, into coalesced nodes.
pub open spec fn coalesce_all(nodes: Seq<NodeView>, stored: Seq<Option<NodeView>>) -> Map<Seq<char>, NodeView>
    decreases nodes.len(),
{
    if nodes.len() == 0 {
        Map::empty()
    } else {
        coalesce_step(coalesce_all(nodes.drop_last(), stored.drop_last()), nodes.last(), stored.last())
    }
}

/// Coalesces the reports `nodes` of one batch: one node per identifier, in
/// identifier order, each the merge of the stored node (if `stored[i]`, the
/// node storage holds under `nodes[i]`'s identifier, is present) and every
/// report of that entity in order.
pub fn coalesce(nodes: Vec<Node>, stored: Vec<Option<Node>>) -> (r: Vec<Node>)
    requires
        stored.len() == nodes.len(),
    ensures
        ids_sorted(node_views(r@)),
        by_id(node_views(r@)) == coalesce_all(node_views(nodes@), stored@.map_values(|o: Option<Node>| opt_view(o))),
{
    let ghost nv = node_views(nodes@);
    let ghost sv = stored@.map_values(|o: Option<Node>| opt_view(o));
    let mut c = Coalescer::new();
    let mut i: usize = 0;
    while i < nodes.len()
        invariant
            stored.len() == nodes.len(),
            i <= nodes.len(),
            nv == node_views(nodes@),
            sv == stored@.map_values(|o: Option<Node>| opt_view(o)),
            c@ == coalesce_all(nv.take(i as int), sv.take(i as int)),
        decreases nodes.len() - i,
    {
        let n = nodes[i].duplicate();
        let s = match &stored[i] {
            Some(x) => Some(x.duplicate()),
            None => None,
        };
        assert(opt_view(s) == sv[i as int]);
        assert(nv.take(i + 1).drop_last() =~= nv.take(i as int));
        assert(sv.take(i + 1).drop_last() =~= sv.take(i as int));
        c.add(n, s);
        i = i + 1;
    }
    let ghost count = nv.len();
    assert(nv.take(count as int) =~= nv);
    assert(sv.take(count as int) =~= sv);
    c.into_nodes()
}

} // verus!
