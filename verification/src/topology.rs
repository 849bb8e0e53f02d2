//! The directed multigraph that holds the investigation's structure, kept in
//! a `petgraph` stable graph: node weights are entity identifiers, edge
//! weights are relationship identifiers.

use vstd::prelude::*;
use vstd::multiset::Multiset;
use petgraph::stable_graph::StableGraph;
use petgraph::Directed;

verus! {

#[verifier::external_type_specification]
#[verifier::external_body]
#[verifier::reject_recursive_types(N)]
#[verifier::reject_recursive_types(E)]
#[verifier::reject_recursive_types(Ty)]
#[verifier::reject_recursive_types(Ix)]
pub struct ExStableGraph<N, E, Ty, Ix>(StableGraph<N, E, Ty, Ix>);

#[verifier::external_type_specification]
#[verifier::external_body]
pub struct ExDirected(Directed);

/// The graph type of the topology.
pub type Topology = StableGraph<String, String, Directed, u32>;

/// The occupied node slots of a topology: index to node weight.
pub uninterp spec fn topology_nodes(g: Topology) -> Map<nat, Seq<char>>;

/// The edges of a topology: source index, target index and edge weight.
pub uninterp spec fn topology_edges(g: Topology) -> Multiset<(nat, nat, Seq<char>)>;

/// Whether the topology has a vacant node slot (left by a removal), which
/// the next added node would take.
pub uninterp spec fn topology_has_vacancy(g: Topology) -> bool;

/// `StableGraph::new`: no nodes, no edges, no vacant slot.
#[verifier::external_body]
pub(crate) fn topology_new() -> (g: Topology)
    ensures
        topology_nodes(g).dom().is_empty(),
        topology_edges(g).len() == 0,
        !topology_has_vacancy(g),
{
    StableGraph::new()
}

/// `StableGraph::add_node`. Without a vacant slot the new node takes the
/// index after the last slot, which is the number of nodes; with one it
/// takes a free index. The graph panics at `u32::MAX` slots, which
/// `requires` leaves out.
#[verifier::external_body]
pub(crate) fn topology_add_node(g: &mut Topology, weight: String) -> (i: usize)
    requires
        topology_has_vacancy(*old(g)) || topology_nodes(*old(g)).dom().len() < 0xffff_ffffnat,
    ensures
        !topology_nodes(*old(g)).contains_key(i as nat),
        topology_nodes(*final(g)) == topology_nodes(*old(g)).insert(i as nat, weight@),
        topology_edges(*final(g)) == topology_edges(*old(g)),
        !topology_has_vacancy(*old(g)) ==> i == topology_nodes(*old(g)).dom().len()
            && !topology_has_vacancy(*final(g)),
{
    g.add_node(weight).index()
}

/// `StableGraph::add_edge` from node `a` to node `b`. It panics when either
/// index is not an occupied node or at `u32::MAX` edge slots, which
/// `requires` leaves out.
#[verifier::external_body]
pub(crate) fn topology_add_edge(g: &mut Topology, a: usize, b: usize, weight: String)
    requires
        topology_nodes(*old(g)).contains_key(a as nat),
        topology_nodes(*old(g)).contains_key(b as nat),
        topology_edges(*old(g)).len() < 0xffff_ffffnat,
    ensures
        topology_nodes(*final(g)) == topology_nodes(*old(g)),
        topology_edges(*final(g)) == topology_edges(*old(g)).insert((a as nat, b as nat, weight@)),
        topology_has_vacancy(*final(g)) == topology_has_vacancy(*old(g)),
{
    g.add_edge(petgraph::stable_graph::NodeIndex::new(a), petgraph::stable_graph::NodeIndex::new(b), weight);
}

/// `StableGraph::node_count`.
#[verifier::external_body]
pub(crate) fn topology_node_count(g: &Topology) -> (n: usize)
    ensures
        n == topology_nodes(*g).dom().len(),
{
    g.node_count()
}

/// `StableGraph::edge_count`.
#[verifier::external_body]
pub(crate) fn topology_edge_count(g: &Topology) -> (n: usize)
    ensures
        n == topology_edges(*g).len(),
{
    g.edge_count()
}

} // verus!
