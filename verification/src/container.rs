//! The graph container: `petgraph`'s stable directed graph, and what this
//! crate assumes of it.
//!
//! The container numbers its nodes and its edges and keeps a number valid
//! until the item is removed.  A node carries its key and its payload; an
//! edge carries its payload.  The functions named `graph_...` are not
//! proved: each calls the container and states what its source shows.  The
//! rest of the crate is proved against what they state.

use vstd::prelude::*;
use petgraph::stable_graph::{EdgeIndex, NodeIndex, StableGraph};
use petgraph::visit::{EdgeRef, IntoEdgeReferences, IntoNodeReferences};
use petgraph::{Directed, Direction};
use crate::bytes::{bytes_copy, bytes_in};

verus! {

/// `petgraph::stable_graph::StableGraph`, as a type whose values are carried
/// about and handed to the functions below; nothing inside it is visible.
#[verifier::external_type_specification]
#[verifier::external_body]
#[verifier::reject_recursive_types(N)]
#[verifier::reject_recursive_types(E)]
#[verifier::reject_recursive_types(Ty)]
#[verifier::reject_recursive_types(Ix)]
pub struct ExStableGraph<N, E, Ty, Ix>(StableGraph<N, E, Ty, Ix>);

/// `petgraph::Directed`, the marker of a graph whose edges have a direction.
#[verifier::external_type_specification]
#[verifier::external_body]
pub struct ExDirected(Directed);

/// The container as this crate uses it: a node carries its key and its
/// payload, an edge its payload.
pub type PayloadGraph = StableGraph<(Vec<u8>, Vec<u8>), Vec<u8>, Directed, u32>;

/// The nodes that a container holds: for each node number in use, the key
/// and the payload of the node.
pub uninterp spec fn graph_nodes(
    g: StableGraph<(Vec<u8>, Vec<u8>), Vec<u8>, Directed, u32>,
) -> Map<int, (Seq<u8>, Seq<u8>)>;

/// The edges that a container holds: for each edge number in use, the number
/// of the source node, the number of the target node and the payload.
pub uninterp spec fn graph_edges(
    g: StableGraph<(Vec<u8>, Vec<u8>), Vec<u8>, Directed, u32>,
) -> Map<int, (int, int, Seq<u8>)>;

/// The nodes of a container, as a mathematical value.
pub type NodeMap = Map<int, (Seq<u8>, Seq<u8>)>;

/// The edges of a container, as a mathematical value.
pub type EdgeMap = Map<int, (int, int, Seq<u8>)>;

/// The end of an edge that a question is about.
#[derive(Debug, Clone, Copy, PartialEq, Eq)]
pub enum Side {
    /// The end at which an edge arrives.
    Incoming,
    /// The end from which an edge leaves.
    Outgoing,
}

/// Edge `e` is in use and leads from node `from` to node `to`.
pub open spec fn joins(edges: EdgeMap, e: int, from: int, to: int) -> bool {
    edges.contains_key(e) && edges[e].0 == from && edges[e].1 == to
}

/// Edge `e` is in use and has node `slot` at the given end.
pub open spec fn ends_at(edges: EdgeMap, e: int, slot: int, side: Side) -> bool {
    edges.contains_key(e) && match side {
        Side::Incoming => edges[e].1 == slot,
        Side::Outgoing => edges[e].0 == slot,
    }
}

/// Some edge has node `slot` at the given end.
pub open spec fn has_edge_at(edges: EdgeMap, slot: int, side: Side) -> bool {
    exists|e: int| ends_at(edges, e, slot, side)
}

/// `via` lists every edge that leaves node `slot`, each once, and `targets`
/// lists, in the same order, the node to which each of them leads.
pub open spec fn leaves_by(edges: EdgeMap, slot: int, targets: Seq<u32>, via: Seq<int>) -> bool {
    &&& via.len() == targets.len()
    &&& via.no_duplicates()
    &&& forall|i: int| 0 <= i < via.len() ==> joins(edges, #[trigger] via[i], slot, targets[i] as int)
    &&& forall|e: int| ends_at(edges, e, slot, Side::Outgoing) ==> via.contains(e)
}

/// The edges that do not touch node `slot`.
pub open spec fn edges_avoiding(edges: EdgeMap, slot: int) -> EdgeMap {
    edges.restrict(Set::new(|e: int| edges[e].0 != slot && edges[e].1 != slot))
}

/// The edges that have both ends among `kept`.
pub open spec fn edges_among(edges: EdgeMap, kept: Set<int>) -> EdgeMap {
    edges.restrict(Set::new(|e: int| kept.contains(edges[e].0) && kept.contains(edges[e].1)))
}

/// A whitelist admits `item`: there is no list, or the list holds it.
pub open spec fn admits(list: Option<Seq<Seq<u8>>>, item: Seq<u8>) -> bool {
    match list {
        Some(l) => l.contains(item),
        None => true,
    }
}

/// The numbers of the nodes whose payload the whitelist admits.
pub open spec fn admitted_nodes(nodes: NodeMap, list: Option<Seq<Seq<u8>>>) -> Set<int> {
    Set::new(|s: int| nodes.contains_key(s) && admits(list, nodes[s].1))
}

/// The numbers of the edges that join two admitted nodes and whose payload
/// the edge whitelist admits.
pub open spec fn admitted_edges(
    nodes: NodeMap,
    edges: EdgeMap,
    node_list: Option<Seq<Seq<u8>>>,
    edge_list: Option<Seq<Seq<u8>>>,
) -> Set<int> {
    Set::new(
        |e: int|
            edges.contains_key(e) && admitted_nodes(nodes, node_list).contains(edges[e].0)
                && admitted_nodes(nodes, node_list).contains(edges[e].1) && admits(
                edge_list,
                edges[e].2,
            ),
    )
}

/// The numbers in a list, as a set.
pub open spec fn slot_set(slots: Seq<u32>) -> Set<int> {
    Set::new(|s: int| exists|i: int| 0 <= i < slots.len() && slots[i] == s)
}

/// A copy of a node for a filtered graph, where the whitelist admits its
/// payload.
pub fn keep_node(list: &Option<Vec<Vec<u8>>>, node: &(Vec<u8>, Vec<u8>)) -> (kept: Option<
    (Vec<u8>, Vec<u8>),
>)
    ensures
        kept.is_some() == admits(list.deep_view(), node.1@),
        kept matches Some(copy) ==> copy.0@ == node.0@ && copy.1@ == node.1@,
{
    let wanted = match list {
        Some(l) => {
            let found = bytes_in(l, &node.1);
            proof {
                let dl = l.deep_view();
                if found {
                    let i = choose|i: int| 0 <= i < l.len() && l@[i]@ == node.1@;
                    assert(dl[i] == node.1@);
                }
                if dl.contains(node.1@) {
                    let i = choose|i: int| 0 <= i < dl.len() && dl[i] == node.1@;
                    assert(l@[i]@ == node.1@);
                }
            }
            found
        },
        None => true,
    };
    if wanted {
        Some((bytes_copy(&node.0), bytes_copy(&node.1)))
    } else {
        None
    }
}

/// A copy of an edge payload for a filtered graph, where the whitelist
/// admits it.
pub fn keep_edge(list: &Option<Vec<Vec<u8>>>, edge: &Vec<u8>) -> (kept: Option<Vec<u8>>)
    ensures
        kept.is_some() == admits(list.deep_view(), edge@),
        kept matches Some(copy) ==> copy@ == edge@,
{
    let wanted = match list {
        Some(l) => {
            let found = bytes_in(l, edge);
            proof {
                let dl = l.deep_view();
                if found {
                    let i = choose|i: int| 0 <= i < l.len() && l@[i]@ == edge@;
                    assert(dl[i] == edge@);
                }
                if dl.contains(edge@) {
                    let i = choose|i: int| 0 <= i < dl.len() && dl[i] == edge@;
                    assert(l@[i]@ == edge@);
                }
            }
            found
        },
        None => true,
    };
    if wanted {
        Some(bytes_copy(edge))
    } else {
        None
    }
}

/// Whether a list of node numbers holds `slot`.
pub fn slot_listed(slots: &Vec<u32>, slot: u32) -> (listed: bool)
    ensures
        listed == slot_set(slots@).contains(slot as int),
{
    let mut i: usize = 0;
    while i < slots.len()
        invariant
            i <= slots.len(),
            forall|j: int| 0 <= j < i ==> slots@[j] != slot,
        decreases slots.len() - i,
    {
        if slots[i] == slot {
            return true;
        }
        i += 1;
    }
    false
}

/// `StableGraph::default`: a container without nodes and without edges.
#[verifier::external_body]
pub(crate) fn graph_empty() -> (g: PayloadGraph)
    ensures
        graph_nodes(g).dom() == Set::<int>::empty(),
        graph_edges(g).dom() == Set::<int>::empty(),
{
    StableGraph::default()
}

/// `StableGraph::node_count`: how many nodes the container holds.
#[verifier::external_body]
pub(crate) fn graph_node_count(g: &PayloadGraph) -> (count: usize)
    ensures
        count == graph_nodes(*g).len(),
{
    g.node_count()
}

/// `StableGraph::add_node`: puts a node under a number that was not in use
/// and returns the number.  The container panics when it cannot number one
/// more node, which the precondition excludes.
#[verifier::external_body]
pub(crate) fn graph_add_node(
    g: &mut PayloadGraph,
    key: Vec<u8>,
    payload: Vec<u8>,
) -> (slot: u32)
    requires
        graph_nodes(*old(g)).len() < u32::MAX,
    ensures
        !graph_nodes(*old(g)).contains_key(slot as int),
        graph_nodes(*final(g)) == graph_nodes(*old(g)).insert(slot as int, (key@, payload@)),
        graph_edges(*final(g)) == graph_edges(*old(g)),
{
    g.add_node((key, payload)).index() as u32
}

/// `StableGraph::edge_count`: how many edges the container holds.
#[verifier::external_body]
pub(crate) fn graph_edge_count(g: &PayloadGraph) -> (count: usize)
    ensures
        count == graph_edges(*g).len(),
{
    g.edge_count()
}

/// `StableGraph::remove_node`: takes the node out, with every edge that
/// touches it, and returns what it carried; `None`, and nothing changed,
/// where the number is not in use.
#[verifier::external_body]
pub(crate) fn graph_remove_node(g: &mut PayloadGraph, slot: u32) -> (removed: Option<
    (Vec<u8>, Vec<u8>),
>)
    ensures
        removed.is_some() == graph_nodes(*old(g)).contains_key(slot as int),
        removed matches Some(w) ==> (w.0@, w.1@) == graph_nodes(*old(g))[slot as int],
        removed.is_some() ==> graph_nodes(*final(g)) == graph_nodes(*old(g)).remove(slot as int),
        removed.is_some() ==> graph_edges(*final(g)) == edges_avoiding(
            graph_edges(*old(g)),
            slot as int,
        ),
        removed.is_none() ==> graph_nodes(*final(g)) == graph_nodes(*old(g)),
        removed.is_none() ==> graph_edges(*final(g)) == graph_edges(*old(g)),
{
    g.remove_node(NodeIndex::new(slot as usize))
}

/// `StableGraph::add_edge`: puts an edge under a number that was not in
/// use and returns the number.  The container panics where an end is no
/// node or where it cannot number one more edge, which the preconditions
/// exclude.  It accepts a second edge between the same two nodes.
#[verifier::external_body]
pub(crate) fn graph_add_edge(g: &mut PayloadGraph, from: u32, to: u32, payload: Vec<u8>) -> (slot:
    u32)
    requires
        graph_nodes(*old(g)).contains_key(from as int),
        graph_nodes(*old(g)).contains_key(to as int),
        graph_edges(*old(g)).len() < u32::MAX,
    ensures
        !graph_edges(*old(g)).contains_key(slot as int),
        graph_edges(*final(g)) == graph_edges(*old(g)).insert(
            slot as int,
            (from as int, to as int, payload@),
        ),
        graph_nodes(*final(g)) == graph_nodes(*old(g)),
{
    g.add_edge(NodeIndex::new(from as usize), NodeIndex::new(to as usize), payload).index() as u32
}

/// `StableGraph::remove_edge`: takes the edge out and returns its payload;
/// `None`, and nothing changed, where the number is not in use.
#[verifier::external_body]
pub(crate) fn graph_remove_edge(g: &mut PayloadGraph, slot: u32) -> (removed: Option<Vec<u8>>)
    ensures
        removed.is_some() == graph_edges(*old(g)).contains_key(slot as int),
        removed matches Some(w) ==> w@ == graph_edges(*old(g))[slot as int].2,
        graph_edges(*final(g)) == graph_edges(*old(g)).remove(slot as int),
        graph_nodes(*final(g)) == graph_nodes(*old(g)),
{
    g.remove_edge(EdgeIndex::new(slot as usize))
}

/// `StableGraph::find_edge`: the number of an edge from `from` to `to`, or
/// `None` where there is none.
#[verifier::external_body]
pub(crate) fn graph_find_edge(g: &PayloadGraph, from: u32, to: u32) -> (found: Option<u32>)
    ensures
        found matches Some(e) ==> joins(graph_edges(*g), e as int, from as int, to as int),
        found.is_none() ==> forall|e: int| !joins(graph_edges(*g), e, from as int, to as int),
{
    g.find_edge(NodeIndex::new(from as usize), NodeIndex::new(to as usize)).map(
        |e| e.index() as u32,
    )
}

/// `StableGraph::node_weight`: a copy of what the node carries, or `None`
/// where the number is not in use.
#[verifier::external_body]
pub(crate) fn graph_node_weight(g: &PayloadGraph, slot: u32) -> (weight: Option<
    (Vec<u8>, Vec<u8>),
>)
    ensures
        weight.is_some() == graph_nodes(*g).contains_key(slot as int),
        weight matches Some(w) ==> (w.0@, w.1@) == graph_nodes(*g)[slot as int],
{
    g.node_weight(NodeIndex::new(slot as usize)).cloned()
}

/// `StableGraph::edge_weight`: a copy of the edge's payload, or `None`
/// where the number is not in use.
#[verifier::external_body]
pub(crate) fn graph_edge_weight(g: &PayloadGraph, slot: u32) -> (weight: Option<Vec<u8>>)
    ensures
        weight.is_some() == graph_edges(*g).contains_key(slot as int),
        weight matches Some(w) ==> w@ == graph_edges(*g)[slot as int].2,
{
    g.edge_weight(EdgeIndex::new(slot as usize)).cloned()
}

/// `node_references` of a `StableGraph`: every node once, by rising
/// number, each with its number, its key and its payload.
#[verifier::external_body]
pub(crate) fn graph_node_list(g: &PayloadGraph) -> (list: Vec<(u32, Vec<u8>, Vec<u8>)>)
    ensures
        forall|i: int|
            0 <= i < list.len() ==> graph_nodes(*g).contains_key(#[trigger] list[i].0 as int),
        forall|i: int|
            0 <= i < list.len() ==> graph_nodes(*g)[list[i].0 as int] == (
                (#[trigger] list[i]).1@,
                list[i].2@,
            ),
        forall|i: int, j: int| 0 <= i < j < list.len() ==> list[i].0 < list[j].0,
        forall|s: int|
            graph_nodes(*g).contains_key(s) ==> exists|i: int|
                0 <= i < list.len() && list[i].0 == s,
{
    g.node_references().map(|(i, w)| (i.index() as u32, w.0.clone(), w.1.clone())).collect()
}

/// `edge_references` of a `StableGraph`: every edge once, by rising
/// number, each with its number, the numbers of its two ends and its
/// payload.
#[verifier::external_body]
pub(crate) fn graph_edge_list(g: &PayloadGraph) -> (list: Vec<(u32, u32, u32, Vec<u8>)>)
    ensures
        forall|i: int|
            0 <= i < list.len() ==> graph_edges(*g).contains_key(#[trigger] list[i].0 as int),
        forall|i: int|
            0 <= i < list.len() ==> graph_edges(*g)[list[i].0 as int] == (
                (#[trigger] list[i]).1 as int,
                list[i].2 as int,
                list[i].3@,
            ),
        forall|i: int, j: int| 0 <= i < j < list.len() ==> list[i].0 < list[j].0,
        forall|e: int|
            graph_edges(*g).contains_key(e) ==> exists|i: int|
                0 <= i < list.len() && list[i].0 == e,
{
    g.edge_references().map(
        |e| (e.id().index() as u32, e.source().index() as u32, e.target().index() as u32, e.weight().clone()),
    ).collect()
}

/// `StableGraph::neighbors`: for each edge that leaves the node, once, the
/// number of the node it leads to.
#[verifier::external_body]
pub(crate) fn graph_neighbors(g: &PayloadGraph, slot: u32) -> (targets: Vec<u32>)
    requires
        graph_nodes(*g).contains_key(slot as int),
    ensures
        exists|via: Seq<int>| leaves_by(graph_edges(*g), slot as int, targets@, via),
{
    g.neighbors(NodeIndex::new(slot as usize)).map(|n| n.index() as u32).collect()
}

/// `StableGraph::externals`: by rising number, the nodes at which no edge
/// arrives (`Incoming`) or from which none leaves (`Outgoing`).
#[verifier::external_body]
pub(crate) fn graph_externals(g: &PayloadGraph, side: Side) -> (slots: Vec<u32>)
    ensures
        forall|i: int|
            0 <= i < slots.len() ==> graph_nodes(*g).contains_key(#[trigger] slots[i] as int)
                && !has_edge_at(graph_edges(*g), slots[i] as int, side),
        forall|i: int, j: int| 0 <= i < j < slots.len() ==> slots[i] < slots[j],
        forall|s: int|
            graph_nodes(*g).contains_key(s) && !has_edge_at(graph_edges(*g), s, side)
                ==> exists|i: int| 0 <= i < slots.len() && slots[i] == s,
{
    let direction = match side {
        Side::Incoming => Direction::Incoming,
        Side::Outgoing => Direction::Outgoing,
    };
    g.externals(direction).map(|n| n.index() as u32).collect()
}

/// `Clone` of a `StableGraph`: a container with the same nodes and edges
/// under the same numbers.
#[verifier::external_body]
pub(crate) fn graph_clone(g: &PayloadGraph) -> (copy: PayloadGraph)
    ensures
        graph_nodes(copy) == graph_nodes(*g),
        graph_edges(copy) == graph_edges(*g),
{
    g.clone()
}

/// `StableGraph::filter_map` with `keep_node` and `keep_edge`: a container
/// with the nodes that the node whitelist admits and the edges between them
/// that the edge whitelist admits, each under the number it had.
#[verifier::external_body]
pub(crate) fn graph_filter(
    g: &PayloadGraph,
    node_list: &Option<Vec<Vec<u8>>>,
    edge_list: &Option<Vec<Vec<u8>>>,
) -> (sub: PayloadGraph)
    ensures
        graph_nodes(sub) == graph_nodes(*g).restrict(
            admitted_nodes(graph_nodes(*g), node_list.deep_view()),
        ),
        graph_edges(sub) == graph_edges(*g).restrict(
            admitted_edges(
                graph_nodes(*g),
                graph_edges(*g),
                node_list.deep_view(),
                edge_list.deep_view(),
            ),
        ),
{
    g.filter_map(|_, node| keep_node(node_list, node), |_, edge| keep_edge(edge_list, edge))
}

/// `StableGraph::retain_nodes` with `slot_listed`: takes out every node
/// whose number is not in `keep`, with every edge that touches one of them.
#[verifier::external_body]
pub(crate) fn graph_retain(g: &mut PayloadGraph, keep: &Vec<u32>)
    ensures
        graph_nodes(*final(g)) == graph_nodes(*old(g)).restrict(slot_set(keep@)),
        graph_edges(*final(g)) == edges_among(graph_edges(*old(g)), slot_set(keep@)),
{
    g.retain_nodes(|_, n| slot_listed(keep, n.index() as u32))
}

} // verus!
