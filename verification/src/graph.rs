//! The directed graph of keyed nodes.
//!
//! A node is found by its key; an edge by the keys of its two ends.  The
//! container numbers its nodes, and `nodes_map` says under which number each
//! key lives.  What the graph is, to its callers, is two maps: from keys to
//! node payloads and from pairs of keys to edge payloads.

use vstd::prelude::*;
use vstd::set_lib::lemma_map_size;
use vstd::string::StringExecFns;
use crate::bytes::{bytes_copy, bytes_eq};
use crate::container::{
    admits, edges_among, edges_avoiding, ends_at, graph_add_edge, graph_add_node, graph_clone,
    graph_edge_count, graph_edge_list, graph_edge_weight, graph_edges, graph_empty,
    graph_externals, graph_filter, graph_find_edge, graph_neighbors, graph_node_count,
    graph_node_list, graph_node_weight, graph_nodes, graph_remove_edge, graph_remove_node,
    graph_retain, has_edge_at, joins, leaves_by, slot_set, EdgeMap, NodeMap, PayloadGraph, Side,
};
use crate::error::StoreError;
use crate::mutation::{GraphMutation, MutationView};
use crate::query::{GraphQuery, GraphResponse, ResponseView};

verus! {

/// A graph as a mathematical value: its nodes by key, and its edges by the
/// keys of their source and target.
pub struct GraphView {
    pub nodes: Map<Seq<u8>, Seq<u8>>,
    pub edges: Map<(Seq<u8>, Seq<u8>), Seq<u8>>,
}

impl GraphView {
    /// The graph without nodes.
    pub open spec fn empty() -> GraphView {
        GraphView { nodes: Map::empty(), edges: Map::empty() }
    }

    /// Every edge joins two nodes of the graph, and the graph is finite.
    pub open spec fn valid(self) -> bool {
        &&& self.nodes.dom().finite()
        &&& self.edges.dom().finite()
        &&& forall|p: (Seq<u8>, Seq<u8>)| #[trigger]
            self.edges.contains_key(p) ==> self.nodes.contains_key(p.0) && self.nodes.contains_key(
                p.1,
            )
    }

    /// The graph with one node more, or with another payload under `key`.
    pub open spec fn with_node(self, key: Seq<u8>, node: Seq<u8>) -> GraphView {
        GraphView { nodes: self.nodes.insert(key, node), edges: self.edges }
    }

    /// The graph without the node under `key` and without the edges that
    /// touch it.
    pub open spec fn without_node(self, key: Seq<u8>) -> GraphView {
        GraphView {
            nodes: self.nodes.remove(key),
            edges: self.edges.restrict(Set::new(|p: (Seq<u8>, Seq<u8>)| p.0 != key && p.1 != key)),
        }
    }

    /// The graph with an edge from `from` to `to`.
    pub open spec fn with_edge(self, from: Seq<u8>, to: Seq<u8>, edge: Seq<u8>) -> GraphView {
        GraphView { nodes: self.nodes, edges: self.edges.insert((from, to), edge) }
    }

    /// The graph without the edge from `from` to `to`.
    pub open spec fn without_edge(self, from: Seq<u8>, to: Seq<u8>) -> GraphView {
        GraphView { nodes: self.nodes, edges: self.edges.remove((from, to)) }
    }

    /// The error with which the graph turns a mutation down, or `None`
    /// where it accepts it.
    pub open spec fn rejects(self, m: MutationView) -> Option<StoreError> {
        match m {
            MutationView::AddNode(key, _) => if self.nodes.contains_key(key) {
                Some(StoreError::ConflictDuplicateNode)
            } else if self.nodes.dom().len() >= u32::MAX {
                Some(StoreError::NodeNotCreated)
            } else {
                None
            },
            MutationView::RemoveNode(key) => if self.nodes.contains_key(key) {
                None
            } else {
                Some(StoreError::NodeNotFound)
            },
            MutationView::AddEdge(from, to, _) => if self.edges.contains_key((from, to)) {
                Some(StoreError::ConflictDuplicateEdge)
            } else if !self.nodes.contains_key(from) || !self.nodes.contains_key(to) {
                Some(StoreError::NodeNotFound)
            } else if self.edges.dom().len() >= u32::MAX {
                Some(StoreError::EdgeNotCreated)
            } else {
                None
            },
            MutationView::RemoveEdge(from, to) => if self.edges.contains_key((from, to)) {
                None
            } else {
                Some(StoreError::EdgeNotFound)
            },
        }
    }

    /// The graph after a mutation: changed where the graph accepts it, the
    /// same where it turns it down.
    pub open spec fn apply(self, m: MutationView) -> GraphView {
        if self.rejects(m).is_some() {
            self
        } else {
            match m {
                MutationView::AddNode(key, node) => self.with_node(key, node),
                MutationView::RemoveNode(key) => self.without_node(key),
                MutationView::AddEdge(from, to, edge) => self.with_edge(from, to, edge),
                MutationView::RemoveEdge(from, to) => self.without_edge(from, to),
            }
        }
    }

    /// The answer to a mutation that the graph accepts: the node that was
    /// added or removed, the edge that was removed, nothing for an edge that
    /// was added.
    pub open spec fn reply(self, m: MutationView) -> ResponseView {
        match m {
            MutationView::AddNode(_, node) => ResponseView::Node(node),
            MutationView::RemoveNode(key) => ResponseView::Node(self.nodes[key]),
            MutationView::AddEdge(..) => ResponseView::Empty,
            MutationView::RemoveEdge(from, to) => ResponseView::Edge(self.edges[(from, to)]),
        }
    }

    /// The graph after a sequence of mutations, each applied to what the
    /// ones before it left.
    pub open spec fn apply_all(self, ms: Seq<MutationView>) -> GraphView
        decreases ms.len(),
    {
        if ms.len() == 0 {
            self
        } else {
            self.apply_all(ms.drop_last()).apply(ms.last())
        }
    }
}

/// Some node in use carries `key`.
pub open spec fn has_key(nodes: NodeMap, key: Seq<u8>) -> bool {
    exists|s: int| nodes.contains_key(s) && nodes[s].0 == key
}

/// The number of a node that carries `key`.
pub open spec fn slot_of_key(nodes: NodeMap, key: Seq<u8>) -> int {
    choose|s: int| nodes.contains_key(s) && nodes[s].0 == key
}

/// Edge `e` is in use and joins the node with key `from` to the node with
/// key `to`.
pub open spec fn links(nodes: NodeMap, edges: EdgeMap, e: int, from: Seq<u8>, to: Seq<u8>) -> bool {
    &&& edges.contains_key(e)
    &&& nodes.contains_key(edges[e].0)
    &&& nodes.contains_key(edges[e].1)
    &&& nodes[edges[e].0].0 == from
    &&& nodes[edges[e].1].0 == to
}

/// Some edge joins the node with key `from` to the node with key `to`.
pub open spec fn has_link(nodes: NodeMap, edges: EdgeMap, from: Seq<u8>, to: Seq<u8>) -> bool {
    exists|e: int| links(nodes, edges, e, from, to)
}

/// The number of an edge between the nodes with these keys.
pub open spec fn link_of(nodes: NodeMap, edges: EdgeMap, from: Seq<u8>, to: Seq<u8>) -> int {
    choose|e: int| links(nodes, edges, e, from, to)
}

/// What a container holds, read as a graph of keyed nodes.
pub open spec fn image(nodes: NodeMap, edges: EdgeMap) -> GraphView {
    GraphView {
        nodes: Map::new(|k: Seq<u8>| has_key(nodes, k), |k: Seq<u8>| nodes[slot_of_key(nodes, k)].1),
        edges: Map::new(
            |p: (Seq<u8>, Seq<u8>)| has_link(nodes, edges, p.0, p.1),
            |p: (Seq<u8>, Seq<u8>)| edges[link_of(nodes, edges, p.0, p.1)].2,
        ),
    }
}

/// A container holds a graph of keyed nodes: no key twice, every edge
/// between two nodes in use, no two edges between the same two nodes, and
/// finitely many of each.
pub open spec fn sound(nodes: NodeMap, edges: EdgeMap) -> bool {
    &&& nodes.dom().finite()
    &&& edges.dom().finite()
    &&& forall|s: int, t: int|
        nodes.contains_key(s) && nodes.contains_key(t) && nodes[s].0 == nodes[t].0 ==> s == t
    &&& forall|e: int| #[trigger]
        edges.contains_key(e) ==> nodes.contains_key(edges[e].0) && nodes.contains_key(edges[e].1)
    &&& forall|e: int, f: int|
        edges.contains_key(e) && edges.contains_key(f) && edges[e].0 == edges[f].0 && edges[e].1
            == edges[f].1 ==> e == f
}

/// In a sound container the node that carries a key is the only one.
pub proof fn lemma_slot_unique(nodes: NodeMap, edges: EdgeMap, s: int)
    requires
        sound(nodes, edges),
        nodes.contains_key(s),
    ensures
        has_key(nodes, nodes[s].0),
        slot_of_key(nodes, nodes[s].0) == s,
        image(nodes, edges).nodes.contains_key(nodes[s].0),
        image(nodes, edges).nodes[nodes[s].0] == nodes[s].1,
{
}

/// In a sound container the edge between two keys is the only one.
pub proof fn lemma_link_unique(nodes: NodeMap, edges: EdgeMap, e: int)
    requires
        sound(nodes, edges),
        edges.contains_key(e),
    ensures
        links(nodes, edges, e, nodes[edges[e].0].0, nodes[edges[e].1].0),
        has_link(nodes, edges, nodes[edges[e].0].0, nodes[edges[e].1].0),
        link_of(nodes, edges, nodes[edges[e].0].0, nodes[edges[e].1].0) == e,
        image(nodes, edges).edges.contains_key((nodes[edges[e].0].0, nodes[edges[e].1].0)),
        image(nodes, edges).edges[(nodes[edges[e].0].0, nodes[edges[e].1].0)] == edges[e].2,
{
    let from = nodes[edges[e].0].0;
    let to = nodes[edges[e].1].0;
    assert(links(nodes, edges, e, from, to));
    let f = link_of(nodes, edges, from, to);
    assert(links(nodes, edges, f, from, to));
    assert(edges[f].0 == edges[e].0);
    assert(edges[f].1 == edges[e].1);
}

/// A node of the graph lives under the number that its key chooses.
pub proof fn lemma_key_slot(nodes: NodeMap, edges: EdgeMap, key: Seq<u8>)
    requires
        sound(nodes, edges),
        has_key(nodes, key),
    ensures
        nodes.contains_key(slot_of_key(nodes, key)),
        nodes[slot_of_key(nodes, key)].0 == key,
{
}

/// An edge of the graph lives under the number that its two keys choose.
pub proof fn lemma_keys_link(nodes: NodeMap, edges: EdgeMap, from: Seq<u8>, to: Seq<u8>)
    requires
        sound(nodes, edges),
        has_link(nodes, edges, from, to),
    ensures
        links(nodes, edges, link_of(nodes, edges, from, to), from, to),
        has_key(nodes, from),
        has_key(nodes, to),
        joins(
            edges,
            link_of(nodes, edges, from, to),
            slot_of_key(nodes, from),
            slot_of_key(nodes, to),
        ),
{
    let e = link_of(nodes, edges, from, to);
    lemma_slot_unique(nodes, edges, edges[e].0);
    lemma_slot_unique(nodes, edges, edges[e].1);
}

/// The graph that a sound container holds is valid, and has as many nodes
/// and edges as the container.
pub proof fn lemma_image_valid(nodes: NodeMap, edges: EdgeMap)
    requires
        sound(nodes, edges),
    ensures
        image(nodes, edges).valid(),
        image(nodes, edges).nodes.dom().len() == nodes.dom().len(),
        image(nodes, edges).edges.dom().len() == edges.dom().len(),
{
    let view = image(nodes, edges);
    let key_at = |s: int| nodes[s].0;
    assert(nodes.dom().map(key_at) =~= view.nodes.dom()) by {
        assert forall|k: Seq<u8>| view.nodes.dom().contains(k) implies nodes.dom().map(
            key_at,
        ).contains(k) by {
            let s = slot_of_key(nodes, k);
            assert(nodes.dom().contains(s) && key_at(s) == k);
        }
    }
    assert(vstd::relations::injective_on(key_at, nodes.dom()));
    lemma_map_size(nodes.dom(), view.nodes.dom(), key_at);
    let pair_at = |e: int| (nodes[edges[e].0].0, nodes[edges[e].1].0);
    assert(edges.dom().map(pair_at) =~= view.edges.dom()) by {
        assert forall|p: (Seq<u8>, Seq<u8>)| view.edges.dom().contains(p) implies edges.dom().map(
            pair_at,
        ).contains(p) by {
            let e = link_of(nodes, edges, p.0, p.1);
            assert(edges.dom().contains(e) && pair_at(e) == p);
        }
        assert forall|p: (Seq<u8>, Seq<u8>)| edges.dom().map(pair_at).contains(
            p,
        ) implies view.edges.dom().contains(p) by {
            let e = choose|e: int| edges.dom().contains(e) && pair_at(e) == p;
            lemma_link_unique(nodes, edges, e);
        }
    }
    assert(vstd::relations::injective_on(pair_at, edges.dom())) by {
        assert forall|e: int, f: int|
            edges.dom().contains(e) && edges.dom().contains(f) && pair_at(e) == pair_at(
                f,
            ) implies e == f by {
            lemma_link_unique(nodes, edges, e);
            lemma_link_unique(nodes, edges, f);
        }
    }
    lemma_map_size(edges.dom(), view.edges.dom(), pair_at);
    assert forall|p: (Seq<u8>, Seq<u8>)| #[trigger] view.edges.contains_key(p) implies view.nodes.contains_key(
        p.0,
    ) && view.nodes.contains_key(p.1) by {
        lemma_keys_link(nodes, edges, p.0, p.1);
    }
}


/// Keeping some nodes, and some of the edges between them, keeps a sound
/// container sound, and what it then holds is the graph cut down to the
/// keys and pairs of keys that were kept.
pub proof fn lemma_image_sub(
    nodes: NodeMap,
    edges: EdgeMap,
    keep_nodes: Set<int>,
    keep_edges: Set<int>,
    keys: Set<Seq<u8>>,
    pairs: Set<(Seq<u8>, Seq<u8>)>,
)
    requires
        sound(nodes, edges),
        forall|s: int|
            nodes.contains_key(s) ==> (keep_nodes.contains(s) <==> keys.contains(nodes[s].0)),
        forall|e: int| #[trigger]
            edges.contains_key(e) ==> (keep_edges.contains(e) <==> keep_nodes.contains(edges[e].0)
                && keep_nodes.contains(edges[e].1) && pairs.contains(
                (nodes[edges[e].0].0, nodes[edges[e].1].0),
            )),
    ensures
        sound(nodes.restrict(keep_nodes), edges.restrict(keep_edges)),
        image(nodes.restrict(keep_nodes), edges.restrict(keep_edges)) == (GraphView {
            nodes: image(nodes, edges).nodes.restrict(keys),
            edges: image(nodes, edges).edges.restrict(
                Set::new(
                    |p: (Seq<u8>, Seq<u8>)|
                        keys.contains(p.0) && keys.contains(p.1) && pairs.contains(p),
                ),
            ),
        }),
{
    let n2 = nodes.restrict(keep_nodes);
    let e2 = edges.restrict(keep_edges);
    let v = image(nodes, edges);
    let v2 = image(n2, e2);
    let pair_set = Set::new(
        |p: (Seq<u8>, Seq<u8>)| keys.contains(p.0) && keys.contains(p.1) && pairs.contains(p),
    );
    assert(n2.dom() =~= nodes.dom().intersect(keep_nodes));
    assert(e2.dom() =~= edges.dom().intersect(keep_edges));
    vstd::set_lib::lemma_len_intersect(nodes.dom(), keep_nodes);
    vstd::set_lib::lemma_len_intersect(edges.dom(), keep_edges);
    assert(sound(n2, e2));
    assert forall|k: Seq<u8>| v2.nodes.contains_key(k) <==> v.nodes.restrict(keys).contains_key(
        k,
    ) by {
        if has_key(n2, k) {
            let s = slot_of_key(n2, k);
            assert(nodes.contains_key(s) && nodes[s].0 == k);
        }
        if has_key(nodes, k) && keys.contains(k) {
            let s = slot_of_key(nodes, k);
            assert(n2.contains_key(s) && n2[s].0 == k);
        }
    }
    assert forall|k: Seq<u8>| v2.nodes.contains_key(k) implies v2.nodes[k] == v.nodes.restrict(
        keys,
    )[k] by {
        let s = slot_of_key(n2, k);
        lemma_slot_unique(nodes, edges, s);
    }
    assert(v2.nodes =~= v.nodes.restrict(keys));
    assert forall|p: (Seq<u8>, Seq<u8>)|
        v2.edges.contains_key(p) <==> v.edges.restrict(pair_set).contains_key(p) by {
        if has_link(n2, e2, p.0, p.1) {
            let e = link_of(n2, e2, p.0, p.1);
            assert(links(nodes, edges, e, p.0, p.1));
        }
        if has_link(nodes, edges, p.0, p.1) && pair_set.contains(p) {
            let e = link_of(nodes, edges, p.0, p.1);
            assert(links(n2, e2, e, p.0, p.1));
        }
    }
    assert forall|p: (Seq<u8>, Seq<u8>)| v2.edges.contains_key(p) implies v2.edges[p]
        == v.edges.restrict(pair_set)[p] by {
        let e = link_of(n2, e2, p.0, p.1);
        lemma_link_unique(nodes, edges, e);
    }
    assert(v2.edges =~= v.edges.restrict(pair_set));
}

/// A key that no node carries, put under a number that is not in use, adds
/// one node to the graph and changes nothing else.
pub proof fn lemma_image_add_node(
    nodes: NodeMap,
    edges: EdgeMap,
    s: int,
    key: Seq<u8>,
    node: Seq<u8>,
)
    requires
        sound(nodes, edges),
        !nodes.contains_key(s),
        !has_key(nodes, key),
    ensures
        sound(nodes.insert(s, (key, node)), edges),
        image(nodes.insert(s, (key, node)), edges) == image(nodes, edges).with_node(key, node),
{
    let n2 = nodes.insert(s, (key, node));
    let v = image(nodes, edges);
    let v2 = image(n2, edges);
    assert(sound(n2, edges));
    assert forall|k: Seq<u8>| v2.nodes.contains_key(k) <==> v.nodes.insert(
        key,
        node,
    ).contains_key(k) by {
        if has_key(n2, k) {
            let t = slot_of_key(n2, k);
            if t != s {
                assert(nodes.contains_key(t) && nodes[t].0 == k);
            }
        }
        if has_key(nodes, k) {
            let t = slot_of_key(nodes, k);
            assert(n2.contains_key(t) && n2[t].0 == k);
        }
        if k == key {
            assert(n2.contains_key(s) && n2[s].0 == k);
        }
    }
    assert forall|k: Seq<u8>| v2.nodes.contains_key(k) implies v2.nodes[k] == v.nodes.insert(
        key,
        node,
    )[k] by {
        let t = slot_of_key(n2, k);
        lemma_slot_unique(n2, edges, t);
        if t != s {
            lemma_slot_unique(nodes, edges, t);
        }
    }
    assert(v2.nodes =~= v.nodes.insert(key, node));
    assert forall|p: (Seq<u8>, Seq<u8>)| v2.edges.contains_key(p) <==> v.edges.contains_key(p) by {
        if has_link(n2, edges, p.0, p.1) {
            let e = link_of(n2, edges, p.0, p.1);
            assert(links(nodes, edges, e, p.0, p.1));
        }
        if has_link(nodes, edges, p.0, p.1) {
            let e = link_of(nodes, edges, p.0, p.1);
            assert(links(n2, edges, e, p.0, p.1));
        }
    }
    assert forall|p: (Seq<u8>, Seq<u8>)| v2.edges.contains_key(p) implies v2.edges[p]
        == v.edges[p] by {
        let e = link_of(n2, edges, p.0, p.1);
        assert(links(nodes, edges, e, p.0, p.1));
        lemma_link_unique(nodes, edges, e);
    }
    assert(v2.edges =~= v.edges);
}

/// Taking a node out of a sound container, with the edges that touch it,
/// takes its key and those edges out of the graph.
pub proof fn lemma_image_remove_node(nodes: NodeMap, edges: EdgeMap, s: int)
    requires
        sound(nodes, edges),
        nodes.contains_key(s),
    ensures
        sound(nodes.remove(s), edges_avoiding(edges, s)),
        image(nodes.remove(s), edges_avoiding(edges, s)) == image(nodes, edges).without_node(
            nodes[s].0,
        ),
{
    let key = nodes[s].0;
    let keep_nodes = Set::new(|t: int| t != s);
    let keep_edges = Set::new(|e: int| edges[e].0 != s && edges[e].1 != s);
    let keys = Set::new(|k: Seq<u8>| k != key);
    let pairs = Set::new(|p: (Seq<u8>, Seq<u8>)| true);
    assert forall|t: int| nodes.contains_key(t) implies (keep_nodes.contains(t) <==> keys.contains(
        nodes[t].0,
    )) by {
        if t != s && nodes[t].0 == key {
            assert(false);
        }
    }
    lemma_image_sub(nodes, edges, keep_nodes, keep_edges, keys, pairs);
    assert(nodes.remove(s) =~= nodes.restrict(keep_nodes));
    assert(edges_avoiding(edges, s) =~= edges.restrict(keep_edges));
    let v = image(nodes, edges);
    let r = image(nodes.remove(s), edges_avoiding(edges, s));
    assert(r.nodes =~= v.without_node(key).nodes);
    assert(r.edges =~= v.without_node(key).edges);
}

/// An edge between two nodes that no edge joins yet, put under a number
/// that is not in use, adds that edge to the graph and changes nothing else.
pub proof fn lemma_image_add_edge(
    nodes: NodeMap,
    edges: EdgeMap,
    e: int,
    a: int,
    b: int,
    w: Seq<u8>,
)
    requires
        sound(nodes, edges),
        !edges.contains_key(e),
        nodes.contains_key(a),
        nodes.contains_key(b),
        forall|f: int| !joins(edges, f, a, b),
    ensures
        sound(nodes, edges.insert(e, (a, b, w))),
        image(nodes, edges.insert(e, (a, b, w))) == image(nodes, edges).with_edge(
            nodes[a].0,
            nodes[b].0,
            w,
        ),
{
    let e2 = edges.insert(e, (a, b, w));
    let v = image(nodes, edges);
    let v2 = image(nodes, e2);
    let pair = (nodes[a].0, nodes[b].0);
    assert(sound(nodes, e2)) by {
        assert forall|f: int, g: int|
            e2.contains_key(f) && e2.contains_key(g) && e2[f].0 == e2[g].0 && e2[f].1
                == e2[g].1 implies f == g by {
            if f == e && g != e {
                assert(joins(edges, g, a, b));
            }
            if g == e && f != e {
                assert(joins(edges, f, a, b));
            }
        }
    }
    assert(v2.nodes =~= v.nodes);
    assert forall|p: (Seq<u8>, Seq<u8>)| v2.edges.contains_key(p) <==> v.edges.insert(
        pair,
        w,
    ).contains_key(p) by {
        if has_link(nodes, e2, p.0, p.1) {
            let f = link_of(nodes, e2, p.0, p.1);
            if f != e {
                assert(links(nodes, edges, f, p.0, p.1));
            }
        }
        if has_link(nodes, edges, p.0, p.1) {
            let f = link_of(nodes, edges, p.0, p.1);
            assert(links(nodes, e2, f, p.0, p.1));
        }
        if p == pair {
            assert(links(nodes, e2, e, p.0, p.1));
        }
    }
    assert forall|p: (Seq<u8>, Seq<u8>)| v2.edges.contains_key(p) implies v2.edges[p]
        == v.edges.insert(pair, w)[p] by {
        let f = link_of(nodes, e2, p.0, p.1);
        lemma_link_unique(nodes, e2, f);
        if f != e {
            assert(links(nodes, edges, f, p.0, p.1));
            lemma_link_unique(nodes, edges, f);
            if p == pair {
                lemma_slot_unique(nodes, edges, a);
                lemma_slot_unique(nodes, edges, b);
                lemma_slot_unique(nodes, edges, edges[f].0);
                lemma_slot_unique(nodes, edges, edges[f].1);
                assert(joins(edges, f, a, b));
            }
        } else {
            lemma_link_unique(nodes, e2, e);
        }
    }
    assert(v2.edges =~= v.edges.insert(pair, w));
}

/// Taking an edge out of a sound container takes it out of the graph and
/// changes nothing else.
pub proof fn lemma_image_remove_edge(nodes: NodeMap, edges: EdgeMap, e: int)
    requires
        sound(nodes, edges),
        edges.contains_key(e),
    ensures
        sound(nodes, edges.remove(e)),
        image(nodes, edges.remove(e)) == image(nodes, edges).without_edge(
            nodes[edges[e].0].0,
            nodes[edges[e].1].0,
        ),
{
    let pair = (nodes[edges[e].0].0, nodes[edges[e].1].0);
    let keep_nodes = Set::new(|t: int| true);
    let keep_edges = Set::new(|f: int| f != e);
    let keys = Set::new(|k: Seq<u8>| true);
    let pairs = Set::new(|p: (Seq<u8>, Seq<u8>)| p != pair);
    lemma_link_unique(nodes, edges, e);
    assert forall|f: int| #[trigger] edges.contains_key(f) implies (keep_edges.contains(f)
        <==> keep_nodes.contains(edges[f].0) && keep_nodes.contains(edges[f].1) && pairs.contains(
        (nodes[edges[f].0].0, nodes[edges[f].1].0),
    )) by {
        lemma_link_unique(nodes, edges, f);
    }
    lemma_image_sub(nodes, edges, keep_nodes, keep_edges, keys, pairs);
    assert(nodes.restrict(keep_nodes) =~= nodes);
    assert(edges.restrict(keep_edges) =~= edges.remove(e));
    let v = image(nodes, edges);
    let r = image(nodes, edges.remove(e));
    assert(r.nodes =~= v.nodes);
    assert(r.edges =~= v.edges.remove(pair));
}

/// `items` holds the values of `m`: `keys` names every key of `m` once, and
/// `items` holds, in the same order, the value under each.
pub open spec fn lists_values<K>(items: Seq<Seq<u8>>, keys: Seq<K>, m: Map<K, Seq<u8>>) -> bool {
    &&& keys.len() == items.len()
    &&& keys.no_duplicates()
    &&& forall|i: int|
        0 <= i < keys.len() ==> m.contains_key(#[trigger] keys[i]) && m[keys[i]] == items[i]
    &&& forall|k: K| m.contains_key(k) ==> keys.contains(k)
}

/// `items` holds the value under each key of `m`, once, in some order.
pub open spec fn lists_map<K>(items: Seq<Seq<u8>>, m: Map<K, Seq<u8>>) -> bool {
    exists|keys: Seq<K>| lists_values(items, keys, m)
}

/// No edge of the graph has the node under `key` at the given end.
pub open spec fn free_at(view: GraphView, key: Seq<u8>, side: Side) -> bool {
    match side {
        Side::Incoming => forall|from: Seq<u8>| !view.edges.contains_key((from, key)),
        Side::Outgoing => forall|to: Seq<u8>| !view.edges.contains_key((key, to)),
    }
}

/// The nodes of the graph that have no edge at the given end: with
/// `Incoming` its sources, with `Outgoing` its sinks.
pub open spec fn externals_of(view: GraphView, side: Side) -> Map<Seq<u8>, Seq<u8>> {
    view.nodes.restrict(Set::new(|k: Seq<u8>| free_at(view, k, side)))
}

/// The nodes to which an edge leads from the node under `key`.
pub open spec fn neighbors_of(view: GraphView, key: Seq<u8>) -> Map<Seq<u8>, Seq<u8>> {
    Map::new(|to: Seq<u8>| view.edges.contains_key((key, to)), |to: Seq<u8>| view.nodes[to])
}

/// The keys in a list, as a set.
pub open spec fn key_set(keys: Seq<Vec<u8>>) -> Set<Seq<u8>> {
    Set::new(|k: Seq<u8>| exists|i: int| 0 <= i < keys.len() && keys[i]@ == k)
}

/// The graph cut down to the nodes under `keys` and the edges between them.
pub open spec fn retained(view: GraphView, keys: Set<Seq<u8>>) -> GraphView {
    GraphView {
        nodes: view.nodes.restrict(keys),
        edges: view.edges.restrict(
            Set::new(|p: (Seq<u8>, Seq<u8>)| keys.contains(p.0) && keys.contains(p.1)),
        ),
    }
}

/// The graph cut down to the nodes whose payload the node whitelist admits
/// and the edges between them whose payload the edge whitelist admits.
pub open spec fn filtered(
    view: GraphView,
    node_list: Option<Seq<Seq<u8>>>,
    edge_list: Option<Seq<Seq<u8>>>,
) -> GraphView {
    GraphView {
        nodes: view.nodes.restrict(Set::new(|k: Seq<u8>| admits(node_list, view.nodes[k]))),
        edges: view.edges.restrict(
            Set::new(
                |p: (Seq<u8>, Seq<u8>)|
                    admits(node_list, view.nodes[p.0]) && admits(node_list, view.nodes[p.1])
                        && admits(edge_list, view.edges[p]),
            ),
        ),
    }
}

/// What a container holds, read as a graph of keyed nodes.
pub open spec fn graph_image(g: PayloadGraph) -> GraphView {
    image(graph_nodes(g), graph_edges(g))
}

/// A node list holds a node under `slot`.
pub open spec fn lists_slot(nodes: Seq<(u32, Vec<u8>, Vec<u8>)>, slot: u32) -> bool {
    exists|a: int| 0 <= a < nodes.len() && nodes[a].0 == slot
}

/// Both ends of edge `i` of an edge list are in the node list.
pub open spec fn ends_listed(
    nodes: Seq<(u32, Vec<u8>, Vec<u8>)>,
    edges: Seq<(u32, u32, u32, Vec<u8>)>,
    i: int,
) -> bool {
    lists_slot(nodes, edges[i].1) && lists_slot(nodes, edges[i].2)
}

/// Edges `i` and `j` of an edge list join the same two nodes.
pub open spec fn same_ends(edges: Seq<(u32, u32, u32, Vec<u8>)>, i: int, j: int) -> bool {
    edges[i].1 == edges[j].1 && edges[i].2 == edges[j].2
}

/// The graph.
#[derive(Debug)]
pub struct Graph {
    inner: PayloadGraph,
    nodes_map: Vec<(Vec<u8>, u32)>,
}

/// `index` says, for every node in use, once, under which number its key
/// lives.
pub open spec fn indexed(nodes: NodeMap, index: Seq<(Vec<u8>, u32)>) -> bool {
    &&& forall|i: int|
        0 <= i < index.len() ==> nodes.contains_key((#[trigger] index[i]).1 as int)
            && nodes[index[i].1 as int].0 == index[i].0@
    &&& forall|i: int, j: int| 0 <= i < j < index.len() ==> index[i].1 != index[j].1
    &&& forall|s: int|
        nodes.contains_key(s) ==> exists|i: int| 0 <= i < index.len() && index[i].1 == s
}

impl View for Graph {
    type V = GraphView;

    closed spec fn view(&self) -> GraphView {
        image(graph_nodes(self.inner), graph_edges(self.inner))
    }
}

impl Default for Graph {
    fn default() -> (graph: Graph)
        ensures
            graph.wf(),
            graph@ == GraphView::empty(),
    {
        Graph::new()
    }
}

impl Clone for Graph {
    fn clone(&self) -> (copy: Graph)
        ensures
            self.wf() ==> copy.wf() && copy@ == self@,
    {
        let inner = graph_clone(&self.inner);
        let mut nodes_map: Vec<(Vec<u8>, u32)> = Vec::new();
        let mut i: usize = 0;
        while i < self.nodes_map.len()
            invariant
                i <= self.nodes_map.len(),
                nodes_map.len() == i,
                forall|j: int|
                    0 <= j < i ==> (#[trigger] nodes_map[j]).0@ == self.nodes_map[j].0@
                        && nodes_map[j].1 == self.nodes_map[j].1,
            decreases self.nodes_map.len() - i,
        {
            nodes_map.push((bytes_copy(&self.nodes_map[i].0), self.nodes_map[i].1));
            i += 1;
        }
        let copy = Graph { inner, nodes_map };
        proof {
            if self.wf() {
                let nodes = graph_nodes(self.inner);
                let index = copy.nodes_map@;
                assert forall|j: int| 0 <= j < index.len() implies nodes.contains_key(
                    (#[trigger] index[j]).1 as int,
                ) && nodes[index[j].1 as int].0 == index[j].0@ by {
                    assert(index[j].1 == self.nodes_map[j].1);
                }
                assert forall|j: int, k: int| 0 <= j < k < index.len() implies index[j].1
                    != index[k].1 by {
                    assert(index[j].1 == self.nodes_map[j].1);
                    assert(index[k].1 == self.nodes_map[k].1);
                }
                assert forall|s: int| nodes.contains_key(s) implies exists|j: int|
                    0 <= j < index.len() && index[j].1 == s by {
                    let j = choose|j: int|
                        0 <= j < self.nodes_map.len() && self.nodes_map[j].1 == s;
                    assert(index[j].1 == s);
                }
            }
        }
        copy
    }
}

impl Graph {
    /// The container holds a graph of keyed nodes and the index agrees with
    /// it.
    pub closed spec fn wf(&self) -> bool {
        &&& sound(graph_nodes(self.inner), graph_edges(self.inner))
        &&& indexed(graph_nodes(self.inner), self.nodes_map@)
    }

    /// The number under which the container keeps the node with this key.
    pub closed spec fn slot(&self, key: Seq<u8>) -> int {
        slot_of_key(graph_nodes(self.inner), key)
    }

    /// A well-formed graph is valid: every edge joins two of its nodes.
    pub proof fn lemma_valid(&self)
        requires
            self.wf(),
        ensures
            self@.valid(),
    {
        lemma_image_valid(graph_nodes(self.inner), graph_edges(self.inner));
    }

    /// The graph without nodes.
    pub fn new() -> (graph: Graph)
        ensures
            graph.wf(),
            graph@ == GraphView::empty(),
    {
        let inner = graph_empty();
        let graph = Graph { inner, nodes_map: Vec::new() };
        proof {
            let nodes = graph_nodes(graph.inner);
            let edges = graph_edges(graph.inner);
            assert(nodes.dom().finite());
            assert(edges.dom().finite());
            assert(graph@.nodes =~= Map::<Seq<u8>, Seq<u8>>::empty());
            assert(graph@.edges =~= Map::<(Seq<u8>, Seq<u8>), Seq<u8>>::empty());
        }
        graph
    }

    /// Where in the index the entry for `key` stands.
    fn find(&self, key: &Vec<u8>) -> (found: Option<usize>)
        requires
            self.wf(),
        ensures
            match found {
                Some(i) => {
                    &&& i < self.nodes_map.len()
                    &&& self.nodes_map[i as int].0@ == key@
                    &&& self@.nodes.contains_key(key@)
                    &&& self.slot(key@) == self.nodes_map[i as int].1
                },
                None => !self@.nodes.contains_key(key@),
            },
    {
        let ghost nodes = graph_nodes(self.inner);
        let ghost edges = graph_edges(self.inner);
        let mut i: usize = 0;
        while i < self.nodes_map.len()
            invariant
                self.wf(),
                nodes == graph_nodes(self.inner),
                edges == graph_edges(self.inner),
                i <= self.nodes_map.len(),
                forall|j: int| 0 <= j < i ==> self.nodes_map[j].0@ != key@,
            decreases self.nodes_map.len() - i,
        {
            if bytes_eq(&self.nodes_map[i].0, key) {
                proof {
                    lemma_slot_unique(nodes, edges, self.nodes_map[i as int].1 as int);
                }
                return Some(i);
            }
            i += 1;
        }
        proof {
            if has_key(nodes, key@) {
                let s = slot_of_key(nodes, key@);
                let j = choose|j: int| 0 <= j < self.nodes_map.len() && self.nodes_map[j].1 == s;
                assert(self.nodes_map[j].0@ == key@);
            }
        }
        None
    }

    /// Whether the graph has a node under `key`.
    pub fn has_node(&self, key: &Vec<u8>) -> (has: Result<bool, StoreError>)
        requires
            self.wf(),
        ensures
            has matches Ok(b) && b == self@.nodes.contains_key(key@),
    {
        Ok(self.find(key).is_some())
    }

    /// The number under which the container keeps the node with this key,
    /// or `NodeNotFound`.
    pub fn get_node_index(&self, key: &Vec<u8>) -> (index: Result<u32, StoreError>)
        requires
            self.wf(),
        ensures
            match index {
                Ok(slot) => self@.nodes.contains_key(key@) && slot == self.slot(key@),
                Err(e) => !self@.nodes.contains_key(key@) && e == StoreError::NodeNotFound,
            },
    {
        match self.find(key) {
            Some(i) => Ok(self.nodes_map[i].1),
            None => Err(StoreError::NodeNotFound),
        }
    }

    /// The payload of the node under `key`, or `NodeNotFound`.
    pub fn get_node(&self, key: &Vec<u8>) -> (node: Result<Vec<u8>, StoreError>)
        requires
            self.wf(),
        ensures
            match node {
                Ok(n) => self@.nodes.contains_key(key@) && n@ == self@.nodes[key@],
                Err(e) => !self@.nodes.contains_key(key@) && e == StoreError::NodeNotFound,
            },
    {
        let slot = self.get_node_index(key)?;
        proof {
            lemma_key_slot(graph_nodes(self.inner), graph_edges(self.inner), key@);
        }
        match graph_node_weight(&self.inner, slot) {
            Some(weight) => Ok(weight.1),
            None => Err(StoreError::NodeNotFound),
        }
    }

    /// Adds a node.  `ConflictDuplicateNode` where the key is taken;
    /// `NodeNotCreated` where the graph cannot hold one node more.
    pub fn add_node(&mut self, key: Vec<u8>, node: Vec<u8>) -> (added: Result<Vec<u8>, StoreError>)
        requires
            old(self).wf(),
        ensures
            final(self).wf(),
            match added {
                Ok(n) => {
                    &&& !old(self)@.nodes.contains_key(key@)
                    &&& old(self)@.nodes.dom().len() < u32::MAX
                    &&& final(self)@ == old(self)@.with_node(key@, node@)
                    &&& n@ == node@
                },
                Err(e) => {
                    &&& final(self)@ == old(self)@
                    &&& if old(self)@.nodes.contains_key(key@) {
                        e == StoreError::ConflictDuplicateNode
                    } else {
                        old(self)@.nodes.dom().len() >= u32::MAX && e == StoreError::NodeNotCreated
                    }
                },
            },
    {
        let ghost nodes = graph_nodes(self.inner);
        let ghost edges = graph_edges(self.inner);
        if self.find(&key).is_some() {
            return Err(StoreError::ConflictDuplicateNode);
        }
        proof {
            lemma_image_valid(nodes, edges);
        }
        if graph_node_count(&self.inner) >= u32::MAX as usize {
            return Err(StoreError::NodeNotCreated);
        }
        let returned = bytes_copy(&node);
        let listed = bytes_copy(&key);
        let slot = graph_add_node(&mut self.inner, key, node);
        self.nodes_map.push((listed, slot));
        proof {
            lemma_image_add_node(nodes, edges, slot as int, key@, node@);
            let n2 = graph_nodes(self.inner);
            let index = self.nodes_map@;
            let last = index.len() - 1;
            assert forall|s: int| n2.contains_key(s) implies exists|i: int|
                0 <= i < index.len() && index[i].1 == s by {
                if s == slot {
                    assert(index[last].1 == s);
                } else {
                    let i = choose|i: int|
                        0 <= i < old(self).nodes_map.len() && old(self).nodes_map[i].1 == s;
                    assert(index[i].1 == s);
                }
            }
        }
        Ok(returned)
    }

    /// Removes the node under `key` and every edge that touches it, and
    /// returns its payload.  `NodeNotFound` where there is no such node.
    pub fn remove_node(&mut self, key: Vec<u8>) -> (removed: Result<Vec<u8>, StoreError>)
        requires
            old(self).wf(),
        ensures
            final(self).wf(),
            match removed {
                Ok(n) => {
                    &&& old(self)@.nodes.contains_key(key@)
                    &&& n@ == old(self)@.nodes[key@]
                    &&& final(self)@ == old(self)@.without_node(key@)
                },
                Err(e) => {
                    &&& !old(self)@.nodes.contains_key(key@)
                    &&& final(self)@ == old(self)@
                    &&& e == StoreError::NodeNotFound
                },
            },
    {
        let ghost nodes = graph_nodes(self.inner);
        let ghost edges = graph_edges(self.inner);
        let at = match self.find(&key) {
            Some(i) => i,
            None => { return Err(StoreError::NodeNotFound); },
        };
        let slot = self.nodes_map[at].1;
        proof {
            lemma_key_slot(nodes, edges, key@);
            lemma_slot_unique(nodes, edges, slot as int);
            lemma_image_remove_node(nodes, edges, slot as int);
        }
        let weight = graph_remove_node(&mut self.inner, slot);
        let ghost before = self.nodes_map@;
        self.nodes_map.remove(at);
        proof {
            let n2 = graph_nodes(self.inner);
            let index = self.nodes_map@;
            assert forall|i: int| 0 <= i < index.len() implies n2.contains_key(
                (#[trigger] index[i]).1 as int,
            ) && n2[index[i].1 as int].0 == index[i].0@ by {
                if i < at {
                    assert(index[i] == before[i]);
                } else {
                    assert(index[i] == before[i + 1]);
                }
            }
            assert forall|s: int| n2.contains_key(s) implies exists|i: int|
                0 <= i < index.len() && index[i].1 == s by {
                let j = choose|j: int| 0 <= j < before.len() && before[j].1 == s;
                if j < at {
                    assert(index[j].1 == s);
                } else {
                    assert(index[j - 1].1 == s);
                }
            }
        }
        match weight {
            Some(w) => Ok(w.1),
            None => Err(StoreError::NodeNotDeleted),
        }
    }

    /// The number of the edge from `from` to `to`, where there is one.
    fn find_link(&self, from: &Vec<u8>, to: &Vec<u8>) -> (found: Option<u32>)
        requires
            self.wf(),
        ensures
            match found {
                Some(e) => {
                    &&& self@.edges.contains_key((from@, to@))
                    &&& graph_edges(self.inner).contains_key(e as int)
                    &&& graph_edges(self.inner)[e as int].2 == self@.edges[(from@, to@)]
                    &&& links(
                        graph_nodes(self.inner),
                        graph_edges(self.inner),
                        e as int,
                        from@,
                        to@,
                    )
                },
                None => !self@.edges.contains_key((from@, to@)),
            },
    {
        let ghost nodes = graph_nodes(self.inner);
        let ghost edges = graph_edges(self.inner);
        let a = match self.find(from) {
            Some(i) => self.nodes_map[i].1,
            None => {
                proof {
                    if has_link(nodes, edges, from@, to@) {
                        lemma_keys_link(nodes, edges, from@, to@);
                    }
                }
                return None;
            },
        };
        let b = match self.find(to) {
            Some(i) => self.nodes_map[i].1,
            None => {
                proof {
                    if has_link(nodes, edges, from@, to@) {
                        lemma_keys_link(nodes, edges, from@, to@);
                    }
                }
                return None;
            },
        };
        proof {
            lemma_key_slot(nodes, edges, from@);
            lemma_key_slot(nodes, edges, to@);
        }
        match graph_find_edge(&self.inner, a, b) {
            Some(e) => {
                proof {
                    lemma_link_unique(nodes, edges, e as int);
                }
                Some(e)
            },
            None => {
                proof {
                    if has_link(nodes, edges, from@, to@) {
                        lemma_keys_link(nodes, edges, from@, to@);
                        assert(joins(edges, link_of(nodes, edges, from@, to@), a as int, b as int));
                    }
                }
                None
            },
        }
    }

    /// The payload of the edge from `from` to `to`, or `EdgeNotFound`.
    pub fn get_edge(&self, from: &Vec<u8>, to: &Vec<u8>) -> (edge: Result<Vec<u8>, StoreError>)
        requires
            self.wf(),
        ensures
            match edge {
                Ok(w) => self@.edges.contains_key((from@, to@)) && w@ == self@.edges[(from@, to@)],
                Err(e) => !self@.edges.contains_key((from@, to@)) && e == StoreError::EdgeNotFound,
            },
    {
        let e = match self.find_link(from, to) {
            Some(e) => e,
            None => { return Err(StoreError::EdgeNotFound); },
        };
        match graph_edge_weight(&self.inner, e) {
            Some(w) => Ok(w),
            None => Err(StoreError::EdgeNotFound),
        }
    }

    /// Adds an edge from the node under `from` to the node under `to`.
    /// `ConflictDuplicateEdge` where there is one already; `NodeNotFound`
    /// where an end is missing; `EdgeNotCreated` where the graph cannot hold
    /// one edge more.
    pub fn add_edge(&mut self, from: Vec<u8>, to: Vec<u8>, edge: Vec<u8>) -> (added: Result<
        (),
        StoreError,
    >)
        requires
            old(self).wf(),
        ensures
            final(self).wf(),
            match added {
                Ok(_) => {
                    &&& !old(self)@.edges.contains_key((from@, to@))
                    &&& old(self)@.nodes.contains_key(from@)
                    &&& old(self)@.nodes.contains_key(to@)
                    &&& old(self)@.edges.dom().len() < u32::MAX
                    &&& final(self)@ == old(self)@.with_edge(from@, to@, edge@)
                },
                Err(e) => {
                    &&& final(self)@ == old(self)@
                    &&& if old(self)@.edges.contains_key((from@, to@)) {
                        e == StoreError::ConflictDuplicateEdge
                    } else if !old(self)@.nodes.contains_key(from@) || !old(self)@.nodes.contains_key(
                        to@,
                    ) {
                        e == StoreError::NodeNotFound
                    } else {
                        old(self)@.edges.dom().len() >= u32::MAX && e == StoreError::EdgeNotCreated
                    }
                },
            },
    {
        let ghost nodes = graph_nodes(self.inner);
        let ghost edges = graph_edges(self.inner);
        if self.find_link(&from, &to).is_some() {
            return Err(StoreError::ConflictDuplicateEdge);
        }
        let a = self.get_node_index(&from)?;
        let b = self.get_node_index(&to)?;
        proof {
            lemma_image_valid(nodes, edges);
            lemma_key_slot(nodes, edges, from@);
            lemma_key_slot(nodes, edges, to@);
        }
        if graph_edge_count(&self.inner) >= u32::MAX as usize {
            return Err(StoreError::EdgeNotCreated);
        }
        proof {
            assert forall|f: int| !joins(edges, f, a as int, b as int) by {
                if joins(edges, f, a as int, b as int) {
                    lemma_link_unique(nodes, edges, f);
                }
            }
        }
        let e = graph_add_edge(&mut self.inner, a, b, edge);
        proof {
            lemma_image_add_edge(nodes, edges, e as int, a as int, b as int, edge@);
        }
        Ok(())
    }

    /// Removes the edge from `from` to `to` and returns its payload.
    /// `EdgeNotFound` where there is no such edge.
    pub fn remove_edge(&mut self, from: Vec<u8>, to: Vec<u8>) -> (removed: Result<
        Vec<u8>,
        StoreError,
    >)
        requires
            old(self).wf(),
        ensures
            final(self).wf(),
            match removed {
                Ok(w) => {
                    &&& old(self)@.edges.contains_key((from@, to@))
                    &&& w@ == old(self)@.edges[(from@, to@)]
                    &&& final(self)@ == old(self)@.without_edge(from@, to@)
                },
                Err(e) => {
                    &&& !old(self)@.edges.contains_key((from@, to@))
                    &&& final(self)@ == old(self)@
                    &&& e == StoreError::EdgeNotFound
                },
            },
    {
        let ghost nodes = graph_nodes(self.inner);
        let ghost edges = graph_edges(self.inner);
        let e = match self.find_link(&from, &to) {
            Some(e) => e,
            None => { return Err(StoreError::EdgeNotFound); },
        };
        proof {
            lemma_image_remove_edge(nodes, edges, e as int);
        }
        match graph_remove_edge(&mut self.inner, e) {
            Some(w) => Ok(w),
            None => Err(StoreError::EdgeNotFound),
        }
    }

    /// The payloads of the nodes under the given numbers, in that order.
    fn payloads_at(&self, slots: &Vec<u32>) -> (out: Vec<Vec<u8>>)
        requires
            self.wf(),
            forall|i: int|
                0 <= i < slots.len() ==> graph_nodes(self.inner).contains_key(
                    #[trigger] slots[i] as int,
                ),
        ensures
            out.len() == slots.len(),
            forall|i: int|
                0 <= i < out.len() ==> (#[trigger] out[i])@ == graph_nodes(
                    self.inner,
                )[slots[i] as int].1,
    {
        let mut out: Vec<Vec<u8>> = Vec::new();
        let mut i: usize = 0;
        while i < slots.len()
            invariant
                i <= slots.len(),
                out.len() == i,
                forall|j: int|
                    0 <= j < slots.len() ==> graph_nodes(self.inner).contains_key(
                        #[trigger] slots[j] as int,
                    ),
                forall|j: int|
                    0 <= j < i ==> (#[trigger] out[j])@ == graph_nodes(
                        self.inner,
                    )[slots[j] as int].1,
            decreases slots.len() - i,
        {
            assert(graph_nodes(self.inner).contains_key(slots[i as int] as int));
            match graph_node_weight(&self.inner, slots[i]) {
                Some(weight) => {
                    out.push(weight.1);
                },
                None => {
                    out.push(Vec::new());
                },
            }
            i += 1;
        }
        out
    }

    /// The payload of every node, each once.
    pub fn get_nodes(&self) -> (nodes: Result<Vec<Vec<u8>>, StoreError>)
        requires
            self.wf(),
        ensures
            nodes matches Ok(list) && lists_map(list.deep_view(), self@.nodes),
    {
        let ghost nodes = graph_nodes(self.inner);
        let ghost edges = graph_edges(self.inner);
        let list = graph_node_list(&self.inner);
        let mut out: Vec<Vec<u8>> = Vec::new();
        let mut i: usize = 0;
        while i < list.len()
            invariant
                i <= list.len(),
                out.len() == i,
                forall|j: int| 0 <= j < i ==> (#[trigger] out[j])@ == list[j].2@,
            decreases list.len() - i,
        {
            out.push(bytes_copy(&list[i].2));
            i += 1;
        }
        proof {
            let keys = Seq::new(list.len() as nat, |j: int| list[j].1@);
            let items = out.deep_view();
            assert forall|j: int| 0 <= j < keys.len() implies self@.nodes.contains_key(
                #[trigger] keys[j],
            ) && self@.nodes[keys[j]] == items[j] by {
                assert(nodes.contains_key(list[j].0 as int));
                assert(nodes[list[j].0 as int] == (list[j].1@, list[j].2@));
                lemma_slot_unique(nodes, edges, list[j].0 as int);
                assert(items[j] == out[j]@);
            }
            assert forall|j: int, k: int|
                0 <= j < keys.len() && 0 <= k < keys.len() && j != k implies keys[j] != keys[k] by {
                assert(nodes.contains_key(list[j].0 as int));
                assert(nodes.contains_key(list[k].0 as int));
                assert(nodes[list[j].0 as int] == (list[j].1@, list[j].2@));
                assert(nodes[list[k].0 as int] == (list[k].1@, list[k].2@));
                if j < k {
                    assert(list[j].0 < list[k].0);
                } else {
                    assert(list[k].0 < list[j].0);
                }
            }
            assert forall|k: Seq<u8>| self@.nodes.contains_key(k) implies keys.contains(k) by {
                let s = slot_of_key(nodes, k);
                let j = choose|j: int| 0 <= j < list.len() && list[j].0 == s;
                assert(nodes[list[j].0 as int] == (list[j].1@, list[j].2@));
                assert(keys[j] == k);
            }
            assert(lists_values(items, keys, self@.nodes));
        }
        Ok(out)
    }

    /// The payload of every edge, each once.
    pub fn get_edges(&self) -> (edges: Result<Vec<Vec<u8>>, StoreError>)
        requires
            self.wf(),
        ensures
            edges matches Ok(list) && lists_map(list.deep_view(), self@.edges),
    {
        let ghost nodes = graph_nodes(self.inner);
        let ghost edges = graph_edges(self.inner);
        let list = graph_edge_list(&self.inner);
        let mut out: Vec<Vec<u8>> = Vec::new();
        let mut i: usize = 0;
        while i < list.len()
            invariant
                i <= list.len(),
                out.len() == i,
                forall|j: int| 0 <= j < i ==> (#[trigger] out[j])@ == list[j].3@,
            decreases list.len() - i,
        {
            out.push(bytes_copy(&list[i].3));
            i += 1;
        }
        proof {
            let keys = Seq::new(
                list.len() as nat,
                |j: int| (nodes[list[j].1 as int].0, nodes[list[j].2 as int].0),
            );
            let items = out.deep_view();
            assert forall|j: int| 0 <= j < keys.len() implies self@.edges.contains_key(
                #[trigger] keys[j],
            ) && self@.edges[keys[j]] == items[j] by {
                assert(edges.contains_key(list[j].0 as int));
                assert(edges[list[j].0 as int] == (list[j].1 as int, list[j].2 as int, list[j].3@));
                lemma_link_unique(nodes, edges, list[j].0 as int);
                assert(items[j] == out[j]@);
            }
            assert forall|j: int, k: int|
                0 <= j < keys.len() && 0 <= k < keys.len() && j != k implies keys[j] != keys[k] by {
                assert(edges.contains_key(list[j].0 as int));
                assert(edges.contains_key(list[k].0 as int));
                assert(edges[list[j].0 as int] == (list[j].1 as int, list[j].2 as int, list[j].3@));
                assert(edges[list[k].0 as int] == (list[k].1 as int, list[k].2 as int, list[k].3@));
                lemma_link_unique(nodes, edges, list[j].0 as int);
                lemma_link_unique(nodes, edges, list[k].0 as int);
                if j < k {
                    assert(list[j].0 < list[k].0);
                } else {
                    assert(list[k].0 < list[j].0);
                }
            }
            assert forall|p: (Seq<u8>, Seq<u8>)| self@.edges.contains_key(p) implies keys.contains(
                p,
            ) by {
                lemma_keys_link(nodes, edges, p.0, p.1);
                let e = link_of(nodes, edges, p.0, p.1);
                let j = choose|j: int| 0 <= j < list.len() && list[j].0 == e;
                assert(edges[list[j].0 as int] == (list[j].1 as int, list[j].2 as int, list[j].3@));
                assert(keys[j] == p);
            }
            assert(lists_values(items, keys, self@.edges));
        }
        Ok(out)
    }

    /// The payloads of the nodes to which an edge leads from the node under
    /// `key`, each once.  `NodeNotFound` where there is no such node.
    pub fn get_neighbors(&self, key: &Vec<u8>) -> (neighbors: Result<Vec<Vec<u8>>, StoreError>)
        requires
            self.wf(),
        ensures
            match neighbors {
                Ok(list) => self@.nodes.contains_key(key@) && lists_map(
                    list.deep_view(),
                    neighbors_of(self@, key@),
                ),
                Err(e) => !self@.nodes.contains_key(key@) && e == StoreError::NodeNotFound,
            },
    {
        let ghost nodes = graph_nodes(self.inner);
        let ghost edges = graph_edges(self.inner);
        let slot = self.get_node_index(key)?;
        proof {
            lemma_key_slot(nodes, edges, key@);
        }
        let targets = graph_neighbors(&self.inner, slot);
        let ghost via = choose|via: Seq<int>| leaves_by(edges, slot as int, targets@, via);
        assert forall|i: int| 0 <= i < targets.len() implies nodes.contains_key(
            #[trigger] targets[i] as int,
        ) by {
            assert(joins(edges, via[i], slot as int, targets[i] as int));
        }
        let out = self.payloads_at(&targets);
        proof {
            let keys = Seq::new(targets.len() as nat, |j: int| nodes[targets[j] as int].0);
            let items = out.deep_view();
            let m = neighbors_of(self@, key@);
            assert forall|j: int| 0 <= j < keys.len() implies m.contains_key(#[trigger] keys[j])
                && m[keys[j]] == items[j] by {
                assert(joins(edges, via[j], slot as int, targets[j] as int));
                lemma_link_unique(nodes, edges, via[j]);
                lemma_slot_unique(nodes, edges, targets[j] as int);
                assert(items[j] == out[j]@);
            }
            assert forall|j: int, k: int|
                0 <= j < keys.len() && 0 <= k < keys.len() && j != k implies keys[j] != keys[k] by {
                assert(joins(edges, via[j], slot as int, targets[j] as int));
                assert(joins(edges, via[k], slot as int, targets[k] as int));
                if keys[j] == keys[k] {
                    assert(targets[j] == targets[k]);
                    assert(via[j] == via[k]);
                }
            }
            assert forall|to: Seq<u8>| m.contains_key(to) implies keys.contains(to) by {
                lemma_keys_link(nodes, edges, key@, to);
                let e = link_of(nodes, edges, key@, to);
                assert(ends_at(edges, e, slot as int, Side::Outgoing));
                assert(via.contains(e));
                let j = choose|j: int| 0 <= j < via.len() && via[j] == e;
                assert(joins(edges, via[j], slot as int, targets[j] as int));
                assert(keys[j] == to);
            }
            assert(lists_values(items, keys, m));
        }
        Ok(out)
    }

    /// The payloads of the nodes without an edge at the given end.
    fn get_external_nodes(&self, side: Side) -> (found: Vec<Vec<u8>>)
        requires
            self.wf(),
        ensures
            lists_map(found.deep_view(), externals_of(self@, side)),
    {
        let ghost nodes = graph_nodes(self.inner);
        let ghost edges = graph_edges(self.inner);
        let slots = graph_externals(&self.inner, side);
        let out = self.payloads_at(&slots);
        proof {
            let keys = Seq::new(slots.len() as nat, |j: int| nodes[slots[j] as int].0);
            let items = out.deep_view();
            let m = externals_of(self@, side);
            assert forall|s: int| nodes.contains_key(s) implies (has_edge_at(edges, s, side)
                <==> !free_at(self@, nodes[s].0, side)) by {
                lemma_slot_unique(nodes, edges, s);
                if has_edge_at(edges, s, side) {
                    let e = choose|e: int| ends_at(edges, e, s, side);
                    lemma_link_unique(nodes, edges, e);
                }
                if !free_at(self@, nodes[s].0, side) {
                    match side {
                        Side::Incoming => {
                            let from = choose|from: Seq<u8>|
                                self@.edges.contains_key((from, nodes[s].0));
                            lemma_keys_link(nodes, edges, from, nodes[s].0);
                            let e = link_of(nodes, edges, from, nodes[s].0);
                            assert(ends_at(edges, e, s, side));
                        },
                        Side::Outgoing => {
                            let to = choose|to: Seq<u8>| self@.edges.contains_key((nodes[s].0, to));
                            lemma_keys_link(nodes, edges, nodes[s].0, to);
                            let e = link_of(nodes, edges, nodes[s].0, to);
                            assert(ends_at(edges, e, s, side));
                        },
                    }
                }
            }
            assert forall|j: int| 0 <= j < keys.len() implies m.contains_key(#[trigger] keys[j])
                && m[keys[j]] == items[j] by {
                assert(nodes.contains_key(slots[j] as int));
                lemma_slot_unique(nodes, edges, slots[j] as int);
                assert(items[j] == out[j]@);
            }
            assert forall|j: int, k: int|
                0 <= j < keys.len() && 0 <= k < keys.len() && j != k implies keys[j] != keys[k] by {
                assert(nodes.contains_key(slots[j] as int));
                assert(nodes.contains_key(slots[k] as int));
                if j < k {
                    assert(slots[j] < slots[k]);
                } else {
                    assert(slots[k] < slots[j]);
                }
            }
            assert forall|k: Seq<u8>| m.contains_key(k) implies keys.contains(k) by {
                let s = slot_of_key(nodes, k);
                lemma_key_slot(nodes, edges, k);
                let j = choose|j: int| 0 <= j < slots.len() && slots[j] == s;
                assert(keys[j] == k);
            }
            assert(lists_values(items, keys, m));
        }
        out
    }

    /// The payloads of the nodes at which no edge arrives, each once.
    pub fn get_source_nodes(&self) -> (sources: Result<Vec<Vec<u8>>, StoreError>)
        requires
            self.wf(),
        ensures
            sources matches Ok(list) && lists_map(
                list.deep_view(),
                externals_of(self@, Side::Incoming),
            ),
    {
        Ok(self.get_external_nodes(Side::Incoming))
    }

    /// The payloads of the nodes from which no edge leaves, each once.
    pub fn get_sink_nodes(&self) -> (sinks: Result<Vec<Vec<u8>>, StoreError>)
        requires
            self.wf(),
        ensures
            sinks matches Ok(list) && lists_map(
                list.deep_view(),
                externals_of(self@, Side::Outgoing),
            ),
    {
        Ok(self.get_external_nodes(Side::Outgoing))
    }

    /// A copy of the container, with every node and edge of the graph, each
    /// node under the number that `get_node_index` gives for its key.
    pub fn get_graph(&self) -> (graph: Result<PayloadGraph, StoreError>)
        requires
            self.wf(),
        ensures
            graph matches Ok(g) && graph_image(g) == self@ && sound(
                graph_nodes(g),
                graph_edges(g),
            ) && forall|k: Seq<u8>|
                self@.nodes.contains_key(k) ==> graph_nodes(g).contains_key(
                    #[trigger] self.slot(k),
                ) && graph_nodes(g)[self.slot(k)] == (k, self@.nodes[k]),
    {
        let copy = graph_clone(&self.inner);
        proof {
            let nodes = graph_nodes(self.inner);
            let edges = graph_edges(self.inner);
            assert forall|k: Seq<u8>| self@.nodes.contains_key(k) implies nodes.contains_key(
                #[trigger] self.slot(k),
            ) && nodes[self.slot(k)] == (k, self@.nodes[k]) by {
                lemma_key_slot(nodes, edges, k);
                lemma_slot_unique(nodes, edges, self.slot(k));
            }
        }
        Ok(copy)
    }

    /// A container with the nodes whose payload is in `include_nodes` and
    /// the edges between them whose payload is in `include_edges`.  A list
    /// that is not given admits every payload.
    pub fn filter_graph(
        &self,
        include_nodes: Option<Vec<Vec<u8>>>,
        include_edges: Option<Vec<Vec<u8>>>,
    ) -> (graph: Result<PayloadGraph, StoreError>)
        requires
            self.wf(),
        ensures
            graph matches Ok(g) && graph_image(g) == filtered(
                self@,
                include_nodes.deep_view(),
                include_edges.deep_view(),
            ) && sound(graph_nodes(g), graph_edges(g)),
    {
        let ghost nodes = graph_nodes(self.inner);
        let ghost edges = graph_edges(self.inner);
        let ghost node_list = include_nodes.deep_view();
        let ghost edge_list = include_edges.deep_view();
        let sub = match (&include_nodes, &include_edges) {
            (None, None) => graph_clone(&self.inner),
            _ => graph_filter(&self.inner, &include_nodes, &include_edges),
        };
        proof {
            let view = self@;
            let keep_nodes = crate::container::admitted_nodes(nodes, node_list);
            let keep_edges = crate::container::admitted_edges(nodes, edges, node_list, edge_list);
            let keys = Set::new(|k: Seq<u8>| admits(node_list, view.nodes[k]));
            let pairs = Set::new(|p: (Seq<u8>, Seq<u8>)| admits(edge_list, view.edges[p]));
            assert forall|s: int| nodes.contains_key(s) implies (keep_nodes.contains(s)
                <==> keys.contains(nodes[s].0)) by {
                lemma_slot_unique(nodes, edges, s);
            }
            assert forall|e: int| #[trigger] edges.contains_key(e) implies (keep_edges.contains(e)
                <==> keep_nodes.contains(edges[e].0) && keep_nodes.contains(edges[e].1)
                && pairs.contains((nodes[edges[e].0].0, nodes[edges[e].1].0))) by {
                lemma_link_unique(nodes, edges, e);
            }
            lemma_image_sub(nodes, edges, keep_nodes, keep_edges, keys, pairs);
            if include_nodes.is_none() && include_edges.is_none() {
                assert(nodes.restrict(keep_nodes) =~= nodes);
                assert(edges.restrict(keep_edges) =~= edges);
            }
            let r = graph_image(sub);
            let want = filtered(view, node_list, edge_list);
            assert(r.nodes =~= want.nodes);
            assert forall|p: (Seq<u8>, Seq<u8>)| r.edges.contains_key(p) <==> want.edges.contains_key(
                p,
            ) by {
                if view.edges.contains_key(p) {
                    lemma_keys_link(nodes, edges, p.0, p.1);
                    lemma_key_slot(nodes, edges, p.0);
                    lemma_key_slot(nodes, edges, p.1);
                }
            }
            assert(r.edges =~= want.edges);
        }
        Ok(sub)
    }

    /// The numbers of the nodes under the given keys; a key without a node
    /// contributes none.
    fn get_node_indices(&self, keys: &Vec<Vec<u8>>) -> (slots: Vec<u32>)
        requires
            self.wf(),
        ensures
            forall|s: int|
                graph_nodes(self.inner).contains_key(s) ==> (slot_set(slots@).contains(s)
                    <==> key_set(keys@).contains(graph_nodes(self.inner)[s].0)),
    {
        let ghost nodes = graph_nodes(self.inner);
        let ghost edges = graph_edges(self.inner);
        let mut slots: Vec<u32> = Vec::new();
        let mut i: usize = 0;
        while i < keys.len()
            invariant
                self.wf(),
                nodes == graph_nodes(self.inner),
                edges == graph_edges(self.inner),
                i <= keys.len(),
                forall|s: int|
                    nodes.contains_key(s) ==> (slot_set(slots@).contains(s) <==> key_set(
                        keys@.subrange(0, i as int),
                    ).contains(nodes[s].0)),
            decreases keys.len() - i,
        {
            let ghost before = slots@;
            let found = self.find(&keys[i]);
            if let Some(at) = found {
                slots.push(self.nodes_map[at].1);
            }
            proof {
                let seen = keys@.subrange(0, i as int);
                let next = keys@.subrange(0, i + 1);
                assert forall|s: int| nodes.contains_key(s) implies (slot_set(slots@).contains(s)
                    <==> key_set(next).contains(nodes[s].0)) by {
                    lemma_slot_unique(nodes, edges, s);
                    if slot_set(slots@).contains(s) {
                        let j = choose|j: int| 0 <= j < slots.len() && slots[j] == s;
                        if j < before.len() {
                            assert(before[j] == s);
                            assert(slot_set(before).contains(s));
                            let k = choose|k: int| 0 <= k < seen.len() && seen[k]@ == nodes[s].0;
                            assert(next[k]@ == nodes[s].0);
                        } else {
                            assert(next[i as int]@ == nodes[s].0);
                        }
                    }
                    if key_set(next).contains(nodes[s].0) {
                        let k = choose|k: int| 0 <= k < next.len() && next[k]@ == nodes[s].0;
                        if k < i {
                            assert(seen[k]@ == nodes[s].0);
                            assert(key_set(seen).contains(nodes[s].0));
                            let j = choose|j: int| 0 <= j < before.len() && before[j] == s;
                            assert(slots[j] == s);
                        } else {
                            lemma_key_slot(nodes, edges, keys[i as int]@);
                            assert(slots[slots.len() - 1] == s);
                        }
                    }
                }
            }
            i += 1;
        }
        assert(keys@.subrange(0, keys.len() as int) =~= keys@);
        slots
    }

    /// A container with the nodes under the given keys and the edges between
    /// them.  A key without a node is passed over.
    pub fn retain_nodes(&self, nodes_to_retain: Vec<Vec<u8>>) -> (graph: Result<
        PayloadGraph,
        StoreError,
    >)
        requires
            self.wf(),
        ensures
            graph matches Ok(g) && graph_image(g) == retained(self@, key_set(nodes_to_retain@))
                && sound(graph_nodes(g), graph_edges(g)),
    {
        let ghost nodes = graph_nodes(self.inner);
        let ghost edges = graph_edges(self.inner);
        let mut kept = graph_clone(&self.inner);
        let slots = self.get_node_indices(&nodes_to_retain);
        graph_retain(&mut kept, &slots);
        proof {
            let keep_nodes = slot_set(slots@);
            let keep_edges = Set::new(
                |e: int| keep_nodes.contains(edges[e].0) && keep_nodes.contains(edges[e].1),
            );
            let keys = key_set(nodes_to_retain@);
            let pairs = Set::new(|p: (Seq<u8>, Seq<u8>)| true);
            lemma_image_sub(nodes, edges, keep_nodes, keep_edges, keys, pairs);
            assert(edges_among(edges, keep_nodes) =~= edges.restrict(keep_edges));
            let r = graph_image(kept);
            let want = retained(self@, keys);
            assert(r.nodes =~= want.nodes);
            assert(r.edges =~= want.edges);
        }
        Ok(kept)
    }

    /// Applies a mutation.  The graph changes where it accepts the mutation
    /// and stays as it is where it turns it down.
    pub fn handle(&mut self, msg: GraphMutation) -> (answer: Result<GraphResponse, StoreError>)
        requires
            old(self).wf(),
        ensures
            final(self).wf(),
            final(self)@ == old(self)@.apply(msg@),
            match answer {
                Ok(response) => old(self)@.rejects(msg@).is_none() && response@ == old(
                    self,
                )@.reply(msg@),
                Err(e) => old(self)@.rejects(msg@) == Some(e),
            },
    {
        match msg {
            GraphMutation::AddEdge((from, to, edge)) => {
                self.add_edge(from, to, edge)?;
                Ok(GraphResponse::Empty)
            },
            GraphMutation::RemoveEdge((from, to)) => {
                let edge = self.remove_edge(from, to)?;
                Ok(GraphResponse::Edge(edge))
            },
            GraphMutation::AddNode((key, node)) => {
                let node = self.add_node(key, node)?;
                Ok(GraphResponse::Node(node))
            },
            GraphMutation::RemoveNode(key) => {
                let node = self.remove_node(key)?;
                Ok(GraphResponse::Node(node))
            },
        }
    }

    /// Answers a question.
    pub fn handle_query(&self, msg: GraphQuery) -> (answer: Result<GraphResponse, StoreError>)
        requires
            self.wf(),
        ensures
            match msg {
                GraphQuery::GetGraph => answer matches Ok(GraphResponse::Graph(g)) && graph_image(
                    g,
                ) == self@,
                GraphQuery::FilterGraph((nodes, edges)) => answer matches Ok(
                    GraphResponse::Graph(g),
                ) && graph_image(g) == filtered(self@, nodes.deep_view(), edges.deep_view()),
                GraphQuery::RetainNodes(keys) => answer matches Ok(GraphResponse::Graph(g))
                    && graph_image(g) == retained(self@, key_set(keys@)),
                GraphQuery::GetNeighbors(key) => if self@.nodes.contains_key(key@) {
                    answer matches Ok(GraphResponse::Nodes(list)) && lists_map(
                        list.deep_view(),
                        neighbors_of(self@, key@),
                    )
                } else {
                    answer matches Err(e) && e == StoreError::NodeNotFound
                },
                GraphQuery::GetEdge((from, to)) => if self@.edges.contains_key((from@, to@)) {
                    answer matches Ok(GraphResponse::Edge(e)) && e@ == self@.edges[(from@, to@)]
                } else {
                    answer matches Err(e) && e == StoreError::EdgeNotFound
                },
                GraphQuery::GetEdges => answer matches Ok(GraphResponse::Edges(list)) && lists_map(
                    list.deep_view(),
                    self@.edges,
                ),
                GraphQuery::HasNode(key) => answer matches Ok(GraphResponse::Bool(b)) && b
                    == self@.nodes.contains_key(key@),
                GraphQuery::GetNode(key) => if self@.nodes.contains_key(key@) {
                    answer matches Ok(GraphResponse::Node(n)) && n@ == self@.nodes[key@]
                } else {
                    answer matches Err(e) && e == StoreError::NodeNotFound
                },
                GraphQuery::GetNodes => answer matches Ok(GraphResponse::Nodes(list)) && lists_map(
                    list.deep_view(),
                    self@.nodes,
                ),
                GraphQuery::GetNodeIndex(key) => if self@.nodes.contains_key(key@) {
                    answer matches Ok(GraphResponse::NodeIndex(slot)) && slot == self.slot(key@)
                } else {
                    answer matches Err(e) && e == StoreError::NodeNotFound
                },
                GraphQuery::GetSourceNodes => answer matches Ok(GraphResponse::Nodes(list))
                    && lists_map(list.deep_view(), externals_of(self@, Side::Incoming)),
                GraphQuery::GetSinkNodes => answer matches Ok(GraphResponse::Nodes(list))
                    && lists_map(list.deep_view(), externals_of(self@, Side::Outgoing)),
            },
    {
        match msg {
            GraphQuery::GetGraph => {
                let graph = self.get_graph()?;
                Ok(GraphResponse::Graph(graph))
            },
            GraphQuery::FilterGraph((include_nodes, include_edges)) => {
                let graph = self.filter_graph(include_nodes, include_edges)?;
                Ok(GraphResponse::Graph(graph))
            },
            GraphQuery::RetainNodes(nodes_to_retain) => {
                let graph = self.retain_nodes(nodes_to_retain)?;
                Ok(GraphResponse::Graph(graph))
            },
            GraphQuery::GetNeighbors(key) => {
                let nodes = self.get_neighbors(&key)?;
                Ok(GraphResponse::Nodes(nodes))
            },
            GraphQuery::GetEdge((from, to)) => {
                let edge = self.get_edge(&from, &to)?;
                Ok(GraphResponse::Edge(edge))
            },
            GraphQuery::GetEdges => {
                let edges = self.get_edges()?;
                Ok(GraphResponse::Edges(edges))
            },
            GraphQuery::HasNode(key) => {
                let has = self.has_node(&key)?;
                Ok(GraphResponse::Bool(has))
            },
            GraphQuery::GetNode(key) => {
                let node = self.get_node(&key)?;
                Ok(GraphResponse::Node(node))
            },
            GraphQuery::GetNodes => {
                let nodes = self.get_nodes()?;
                Ok(GraphResponse::Nodes(nodes))
            },
            GraphQuery::GetNodeIndex(key) => {
                let node_index = self.get_node_index(&key)?;
                Ok(GraphResponse::NodeIndex(node_index))
            },
            GraphQuery::GetSourceNodes => {
                let nodes = self.get_source_nodes()?;
                Ok(GraphResponse::Nodes(nodes))
            },
            GraphQuery::GetSinkNodes => {
                let nodes = self.get_sink_nodes()?;
                Ok(GraphResponse::Nodes(nodes))
            },
        }
    }

    /// Whether no two nodes of a list carry the same key.
    fn distinct_keys(list: &Vec<(u32, Vec<u8>, Vec<u8>)>) -> (distinct: bool)
        ensures
            distinct == forall|i: int, j: int|
                0 <= i < j < list.len() ==> list[i].1@ != list[j].1@,
    {
        let mut j: usize = 0;
        while j < list.len()
            invariant
                j <= list.len(),
                forall|a: int, b: int| 0 <= a < b < j ==> list[a].1@ != list[b].1@,
            decreases list.len() - j,
        {
            let mut i: usize = 0;
            while i < j
                invariant
                    i <= j < list.len(),
                    forall|a: int| 0 <= a < i ==> list[a].1@ != list[j as int].1@,
                decreases j - i,
            {
                if bytes_eq(&list[i].1, &list[j].1) {
                    return false;
                }
                i += 1;
            }
            j += 1;
        }
        true
    }

    /// Whether a node list holds a node under `slot`.
    fn listed(list: &Vec<(u32, Vec<u8>, Vec<u8>)>, slot: u32) -> (found: bool)
        ensures
            found == lists_slot(list@, slot),
    {
        let mut i: usize = 0;
        while i < list.len()
            invariant
                i <= list.len(),
                forall|a: int| 0 <= a < i ==> list[a].0 != slot,
            decreases list.len() - i,
        {
            if list[i].0 == slot {
                return true;
            }
            i += 1;
        }
        false
    }

    /// Whether every edge of a list joins two nodes of the node list, and
    /// no two edges join the same two nodes.
    fn proper_edges(nodes: &Vec<(u32, Vec<u8>, Vec<u8>)>, edges: &Vec<(u32, u32, u32, Vec<u8>)>) -> (proper:
        bool)
        ensures
            proper == ((forall|i: int|
                0 <= i < edges.len() ==> #[trigger] ends_listed(nodes@, edges@, i)) && (forall|
                i: int,
                j: int,
            | 0 <= i < j < edges.len() ==> !#[trigger] same_ends(edges@, i, j))),
    {
        let mut j: usize = 0;
        while j < edges.len()
            invariant
                j <= edges.len(),
                forall|i: int| 0 <= i < j ==> #[trigger] ends_listed(nodes@, edges@, i),
                forall|a: int, b: int| 0 <= a < b < j ==> !#[trigger] same_ends(edges@, a, b),
            decreases edges.len() - j,
        {
            if !Graph::listed(nodes, edges[j].1) || !Graph::listed(nodes, edges[j].2) {
                assert(!ends_listed(nodes@, edges@, j as int));
                return false;
            }
            let mut i: usize = 0;
            while i < j
                invariant
                    i <= j < edges.len(),
                    forall|a: int| 0 <= a < i ==> !#[trigger] same_ends(edges@, a, j as int),
                decreases j - i,
            {
                if edges[i].1 == edges[j].1 && edges[i].2 == edges[j].2 {
                    assert(same_ends(edges@, i as int, j as int));
                    return false;
                }
                i += 1;
            }
            j += 1;
        }
        true
    }

    /// The index of a container: for each node its key and its number.
    fn get_nodes_map_from_graph(list: &Vec<(u32, Vec<u8>, Vec<u8>)>) -> (index: Vec<(Vec<u8>, u32)>)
        ensures
            index.len() == list.len(),
            forall|i: int|
                0 <= i < index.len() ==> (#[trigger] index[i]).0@ == list[i].1@ && index[i].1
                    == list[i].0,
    {
        let mut index: Vec<(Vec<u8>, u32)> = Vec::new();
        let mut i: usize = 0;
        while i < list.len()
            invariant
                i <= list.len(),
                index.len() == i,
                forall|j: int|
                    0 <= j < i ==> (#[trigger] index[j]).0@ == list[j].1@ && index[j].1
                        == list[j].0,
            decreases list.len() - i,
        {
            index.push((bytes_copy(&list[i].1), list[i].0));
            i += 1;
        }
        index
    }

    /// The graph that a container holds, as it was loaded from an image.
    /// `FileDecodeError` where the container holds no graph of keyed nodes:
    /// a key twice, an edge that lacks an end, or two edges between the
    /// same two nodes.
    pub fn from_graph(inner: PayloadGraph) -> (graph: Result<Graph, StoreError>)
        ensures
            match graph {
                Ok(g) => sound(graph_nodes(inner), graph_edges(inner)) && g.wf() && g@
                    == graph_image(inner),
                Err(e) => {
                    &&& !sound(graph_nodes(inner), graph_edges(inner))
                    &&& e matches StoreError::FileDecodeError(text)
                    &&& text@ == "image holds no graph of keyed nodes"@
                },
            },
    {
        let ghost nodes = graph_nodes(inner);
        let ghost edges = graph_edges(inner);
        let node_list = graph_node_list(&inner);
        let edge_list = graph_edge_list(&inner);
        let keys_ok = Graph::distinct_keys(&node_list);
        let edges_ok = Graph::proper_edges(&node_list, &edge_list);
        if !keys_ok || !edges_ok {
            proof {
                if !keys_ok {
                    let (i, j) = choose|i: int, j: int|
                        0 <= i < j < node_list.len() && node_list[i].1@ == node_list[j].1@;
                    assert(nodes.contains_key(node_list[i].0 as int));
                    assert(nodes.contains_key(node_list[j].0 as int));
                    assert(nodes[node_list[i].0 as int] == (node_list[i].1@, node_list[i].2@));
                    assert(nodes[node_list[j].0 as int] == (node_list[j].1@, node_list[j].2@));
                    assert(node_list[i].0 < node_list[j].0);
                } else {
                    if exists|i: int, j: int|
                        0 <= i < j < edge_list.len() && #[trigger] same_ends(edge_list@, i, j) {
                        let (i, j) = choose|i: int, j: int|
                            0 <= i < j < edge_list.len() && #[trigger] same_ends(edge_list@, i, j);
                        assert(edges.contains_key(edge_list[i].0 as int));
                        assert(edges.contains_key(edge_list[j].0 as int));
                        assert(edges[edge_list[i].0 as int] == (
                            edge_list[i].1 as int,
                            edge_list[i].2 as int,
                            edge_list[i].3@,
                        ));
                        assert(edges[edge_list[j].0 as int] == (
                            edge_list[j].1 as int,
                            edge_list[j].2 as int,
                            edge_list[j].3@,
                        ));
                        assert(edge_list[i].0 < edge_list[j].0);
                    } else {
                        let i = choose|i: int|
                            0 <= i < edge_list.len() && !#[trigger] ends_listed(
                                node_list@,
                                edge_list@,
                                i,
                            );
                        let e = edge_list[i].0 as int;
                        assert(edges.contains_key(edge_list[i].0 as int));
                        assert(edges[edge_list[i].0 as int] == (
                            edge_list[i].1 as int,
                            edge_list[i].2 as int,
                            edge_list[i].3@,
                        ));
                        if nodes.contains_key(edges[e].0) && nodes.contains_key(edges[e].1) {
                            let a = choose|a: int|
                                0 <= a < node_list.len() && node_list[a].0 == edges[e].0;
                            let b = choose|b: int|
                                0 <= b < node_list.len() && node_list[b].0 == edges[e].1;
                            assert(node_list[a].0 == edge_list[i].1);
                            assert(node_list[b].0 == edge_list[i].2);
                            assert(lists_slot(node_list@, edge_list[i].1));
                            assert(lists_slot(node_list@, edge_list[i].2));
                        }
                    }
                }
            }
            return Err(
                StoreError::FileDecodeError(String::from_str("image holds no graph of keyed nodes")),
            );
        }
        let nodes_map = Graph::get_nodes_map_from_graph(&node_list);
        proof {
            let node_slots = Seq::new(node_list.len() as nat, |i: int| node_list[i].0 as int);
            assert(nodes.dom() =~= node_slots.to_set()) by {
                assert forall|s: int| nodes.dom().contains(s) implies node_slots.to_set().contains(
                    s,
                ) by {
                    let i = choose|i: int| 0 <= i < node_list.len() && node_list[i].0 == s;
                    assert(node_slots[i] == s);
                }
                assert forall|s: int| node_slots.to_set().contains(s) implies nodes.dom().contains(
                    s,
                ) by {
                    let i = choose|i: int| 0 <= i < node_slots.len() && node_slots[i] == s;
                    assert(nodes.contains_key(node_list[i].0 as int));
                }
            }
            vstd::seq_lib::seq_to_set_is_finite(node_slots);
            let edge_slots = Seq::new(edge_list.len() as nat, |i: int| edge_list[i].0 as int);
            assert(edges.dom() =~= edge_slots.to_set()) by {
                assert forall|s: int| edges.dom().contains(s) implies edge_slots.to_set().contains(
                    s,
                ) by {
                    let i = choose|i: int| 0 <= i < edge_list.len() && edge_list[i].0 == s;
                    assert(edge_slots[i] == s);
                }
                assert forall|s: int| edge_slots.to_set().contains(s) implies edges.dom().contains(
                    s,
                ) by {
                    let i = choose|i: int| 0 <= i < edge_slots.len() && edge_slots[i] == s;
                    assert(edges.contains_key(edge_list[i].0 as int));
                }
            }
            vstd::seq_lib::seq_to_set_is_finite(edge_slots);
            assert forall|s: int, t: int|
                nodes.contains_key(s) && nodes.contains_key(t) && nodes[s].0
                    == nodes[t].0 implies s == t by {
                let i = choose|i: int| 0 <= i < node_list.len() && node_list[i].0 == s;
                let j = choose|j: int| 0 <= j < node_list.len() && node_list[j].0 == t;
                assert(nodes[node_list[i].0 as int] == (node_list[i].1@, node_list[i].2@));
                assert(nodes[node_list[j].0 as int] == (node_list[j].1@, node_list[j].2@));
                if i < j {
                    assert(node_list[i].1@ != node_list[j].1@);
                }
                if j < i {
                    assert(node_list[j].1@ != node_list[i].1@);
                }
            }
            assert forall|e: int| #[trigger] edges.contains_key(e) implies nodes.contains_key(
                edges[e].0,
            ) && nodes.contains_key(edges[e].1) by {
                let i = choose|i: int| 0 <= i < edge_list.len() && edge_list[i].0 == e;
                assert(edges[edge_list[i].0 as int] == (
                    edge_list[i].1 as int,
                    edge_list[i].2 as int,
                    edge_list[i].3@,
                ));
                assert(ends_listed(node_list@, edge_list@, i));
                let a = choose|a: int| 0 <= a < node_list.len() && node_list[a].0 == edge_list[i].1;
                let b = choose|b: int| 0 <= b < node_list.len() && node_list[b].0 == edge_list[i].2;
                assert(nodes.contains_key(node_list[a].0 as int));
                assert(nodes.contains_key(node_list[b].0 as int));
            }
            assert forall|e: int, f: int|
                edges.contains_key(e) && edges.contains_key(f) && edges[e].0 == edges[f].0
                    && edges[e].1 == edges[f].1 implies e == f by {
                let i = choose|i: int| 0 <= i < edge_list.len() && edge_list[i].0 == e;
                let j = choose|j: int| 0 <= j < edge_list.len() && edge_list[j].0 == f;
                assert(edges[edge_list[i].0 as int] == (
                    edge_list[i].1 as int,
                    edge_list[i].2 as int,
                    edge_list[i].3@,
                ));
                assert(edges[edge_list[j].0 as int] == (
                    edge_list[j].1 as int,
                    edge_list[j].2 as int,
                    edge_list[j].3@,
                ));
                if i < j {
                    assert(!same_ends(edge_list@, i, j));
                }
                if j < i {
                    assert(!same_ends(edge_list@, j, i));
                }
            }
            assert(sound(nodes, edges));
            let index = nodes_map@;
            assert forall|i: int| 0 <= i < index.len() implies nodes.contains_key(
                (#[trigger] index[i]).1 as int,
            ) && nodes[index[i].1 as int].0 == index[i].0@ by {
                assert(nodes.contains_key(node_list[i].0 as int));
                assert(nodes[node_list[i].0 as int] == (node_list[i].1@, node_list[i].2@));
            }
            assert forall|i: int, j: int| 0 <= i < j < index.len() implies index[i].1
                != index[j].1 by {
                assert(node_list[i].0 < node_list[j].0);
            }
            assert forall|s: int| nodes.contains_key(s) implies exists|i: int|
                0 <= i < index.len() && index[i].1 == s by {
                let i = choose|i: int| 0 <= i < node_list.len() && node_list[i].0 == s;
                assert(index[i].1 == s);
            }
        }
        Ok(Graph { inner, nodes_map })
    }
}

} // verus!
