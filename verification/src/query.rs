//! The questions that the graph answers, and its answers.

use vstd::prelude::*;
use crate::container::{graph_edges, graph_nodes, PayloadGraph};
use crate::error::StoreError;
use crate::graph::{image, GraphView};

verus! {

/// A question to the graph.  None of them changes it.
#[derive(Debug)]
pub enum GraphQuery {
    /// The whole graph.
    GetGraph,
    /// The graph cut down to the listed node payloads and edge payloads.
    FilterGraph((Option<Vec<Vec<u8>>>, Option<Vec<Vec<u8>>>)),
    /// The graph cut down to the nodes under the listed keys.
    RetainNodes(Vec<Vec<u8>>),
    /// The nodes to which an edge leads from the node under this key.
    GetNeighbors(Vec<u8>),
    /// The edge from the first key to the second.
    GetEdge((Vec<u8>, Vec<u8>)),
    /// Every edge.
    GetEdges,
    /// Whether there is a node under this key.
    HasNode(Vec<u8>),
    /// The node under this key.
    GetNode(Vec<u8>),
    /// Every node.
    GetNodes,
    /// The number under which the container keeps the node with this key.
    GetNodeIndex(Vec<u8>),
    /// The nodes at which no edge arrives.
    GetSourceNodes,
    /// The nodes from which no edge leaves.
    GetSinkNodes,
}

/// An answer of the graph, to a question or to a mutation.
#[derive(Debug)]
pub enum GraphResponse {
    Empty,
    Bool(bool),
    Node(Vec<u8>),
    Nodes(Vec<Vec<u8>>),
    NodeIndex(u32),
    Edge(Vec<u8>),
    Edges(Vec<Vec<u8>>),
    Key(Vec<u8>),
    Keys(Vec<Vec<u8>>),
    Graph(PayloadGraph),
}

/// An answer as a mathematical value.
pub enum ResponseView {
    Empty,
    Bool(bool),
    Node(Seq<u8>),
    Nodes(Seq<Seq<u8>>),
    NodeIndex(u32),
    Edge(Seq<u8>),
    Edges(Seq<Seq<u8>>),
    Key(Seq<u8>),
    Keys(Seq<Seq<u8>>),
    Graph(GraphView),
}

impl View for GraphResponse {
    type V = ResponseView;

    open spec fn view(&self) -> ResponseView {
        match self {
            GraphResponse::Empty => ResponseView::Empty,
            GraphResponse::Bool(b) => ResponseView::Bool(*b),
            GraphResponse::Node(n) => ResponseView::Node(n@),
            GraphResponse::Nodes(list) => ResponseView::Nodes(list.deep_view()),
            GraphResponse::NodeIndex(slot) => ResponseView::NodeIndex(*slot),
            GraphResponse::Edge(e) => ResponseView::Edge(e@),
            GraphResponse::Edges(list) => ResponseView::Edges(list.deep_view()),
            GraphResponse::Key(k) => ResponseView::Key(k@),
            GraphResponse::Keys(list) => ResponseView::Keys(list.deep_view()),
            GraphResponse::Graph(g) => ResponseView::Graph(image(graph_nodes(*g), graph_edges(*g))),
        }
    }
}

impl GraphResponse {
    /// The node in the answer, or `otherwise` where the answer holds none.
    pub fn into_node(self, otherwise: StoreError) -> (node: Result<Vec<u8>, StoreError>)
        ensures
            match self {
                GraphResponse::Node(n) => node == Ok::<Vec<u8>, StoreError>(n),
                _ => node == Err::<Vec<u8>, StoreError>(otherwise),
            },
    {
        match self {
            GraphResponse::Node(n) => Ok(n),
            _ => Err(otherwise),
        }
    }

    /// The nodes in the answer, or `otherwise` where the answer holds none.
    pub fn into_nodes(self, otherwise: StoreError) -> (nodes: Result<Vec<Vec<u8>>, StoreError>)
        ensures
            match self {
                GraphResponse::Nodes(list) => nodes == Ok::<Vec<Vec<u8>>, StoreError>(list),
                _ => nodes == Err::<Vec<Vec<u8>>, StoreError>(otherwise),
            },
    {
        match self {
            GraphResponse::Nodes(list) => Ok(list),
            _ => Err(otherwise),
        }
    }

    /// The edge in the answer, or `otherwise` where the answer holds none.
    pub fn into_edge(self, otherwise: StoreError) -> (edge: Result<Vec<u8>, StoreError>)
        ensures
            match self {
                GraphResponse::Edge(e) => edge == Ok::<Vec<u8>, StoreError>(e),
                _ => edge == Err::<Vec<u8>, StoreError>(otherwise),
            },
    {
        match self {
            GraphResponse::Edge(e) => Ok(e),
            _ => Err(otherwise),
        }
    }

    /// The edges in the answer, or `otherwise` where the answer holds none.
    pub fn into_edges(self, otherwise: StoreError) -> (edges: Result<Vec<Vec<u8>>, StoreError>)
        ensures
            match self {
                GraphResponse::Edges(list) => edges == Ok::<Vec<Vec<u8>>, StoreError>(list),
                _ => edges == Err::<Vec<Vec<u8>>, StoreError>(otherwise),
            },
    {
        match self {
            GraphResponse::Edges(list) => Ok(list),
            _ => Err(otherwise),
        }
    }

    /// The truth value in the answer, or `otherwise` where it holds none.
    pub fn into_bool(self, otherwise: StoreError) -> (flag: Result<bool, StoreError>)
        ensures
            match self {
                GraphResponse::Bool(b) => flag == Ok::<bool, StoreError>(b),
                _ => flag == Err::<bool, StoreError>(otherwise),
            },
    {
        match self {
            GraphResponse::Bool(b) => Ok(b),
            _ => Err(otherwise),
        }
    }

    /// The node number in the answer, or `otherwise` where it holds none.
    pub fn into_node_index(self, otherwise: StoreError) -> (slot: Result<u32, StoreError>)
        ensures
            match self {
                GraphResponse::NodeIndex(s) => slot == Ok::<u32, StoreError>(s),
                _ => slot == Err::<u32, StoreError>(otherwise),
            },
    {
        match self {
            GraphResponse::NodeIndex(s) => Ok(s),
            _ => Err(otherwise),
        }
    }

    /// The container in the answer, or `otherwise` where it holds none.
    pub fn into_graph(self, otherwise: StoreError) -> (graph: Result<PayloadGraph, StoreError>)
        ensures
            match self {
                GraphResponse::Graph(g) => graph == Ok::<PayloadGraph, StoreError>(g),
                _ => graph == Err::<PayloadGraph, StoreError>(otherwise),
            },
    {
        match self {
            GraphResponse::Graph(g) => Ok(g),
            _ => Err(otherwise),
        }
    }
}

} // verus!
