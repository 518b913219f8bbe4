use graph_db::container::Side;
use graph_db::error::StoreError;
use graph_db::graph::Graph;
use graph_db::mutation::GraphMutation;
use graph_db::query::{GraphQuery, GraphResponse};

fn key(id: u64) -> Vec<u8> {
    id.to_le_bytes().to_vec()
}

fn node(id: u64) -> Vec<u8> {
    let mut bytes = id.to_le_bytes().to_vec();
    bytes.extend_from_slice(b"node");
    bytes
}

fn edge(weight: u64) -> Vec<u8> {
    weight.to_le_bytes().to_vec()
}

fn sorted(mut list: Vec<Vec<u8>>) -> Vec<Vec<u8>> {
    list.sort();
    list
}

fn four_nodes_one_edge() -> Graph {
    let mut graph = Graph::new();
    for id in 1..=4 {
        graph.add_node(key(id), node(id)).unwrap();
    }
    graph.add_edge(key(1), key(3), edge(14)).unwrap();
    graph
}

#[test]
fn single_node_is_added_listed_and_removed() {
    let mut graph = Graph::new();
    assert_eq!(graph.get_nodes().unwrap(), Vec::<Vec<u8>>::new());
    assert_eq!(graph.add_node(key(1), node(1)), Ok(node(1)));
    assert_eq!(graph.get_nodes().unwrap(), vec![node(1)]);
    assert_eq!(graph.remove_node(key(1)), Ok(node(1)));
    assert_eq!(graph.get_nodes().unwrap(), Vec::<Vec<u8>>::new());
}

#[test]
fn second_add_under_one_key_is_a_conflict() {
    let mut graph = Graph::new();
    graph.add_node(key(1), node(1)).unwrap();
    assert_eq!(graph.add_node(key(1), node(7)), Err(StoreError::ConflictDuplicateNode));
    assert_eq!(graph.get_node(&key(1)), Ok(node(1)));
}

#[test]
fn test_store_from_env_ok() {
    let mut graph = Graph::new();
    graph.add_node(key(11), node(11)).unwrap();
    graph.add_node(key(12), node(12)).unwrap();
    let nodes = graph.get_nodes().unwrap();
    assert_eq!(nodes.len(), 2);
}

#[test]
fn test_store_add_node_duplicate_key_nok() {
    let mut graph = Graph::new();
    graph.add_node(key(5), node(5)).unwrap();
    assert_eq!(graph.add_node(key(5), node(5)), Err(StoreError::ConflictDuplicateNode));
}

#[test]
fn test_store_add_node_duplicate_combined_key_nok() {
    let mut combined = b"some label".to_vec();
    combined.extend_from_slice(&[7u8; 16]);
    let mut graph = Graph::new();
    graph.add_node(combined.clone(), b"first".to_vec()).unwrap();
    let result = graph.add_node(combined, b"second".to_vec());
    assert_eq!(result, Err(StoreError::ConflictDuplicateNode));
}

#[test]
fn remove_then_readd_keeps_the_new_payload() {
    let mut graph = Graph::new();
    assert_eq!(graph.add_node(key(9), node(9)), Ok(node(9)));
    assert_eq!(graph.remove_node(key(9)), Ok(node(9)));
    assert_eq!(graph.add_node(key(9), node(90)), Ok(node(90)));
    assert_eq!(graph.get_node(&key(9)), Ok(node(90)));
}

#[test]
fn retain_nodes_keeps_the_listed_nodes_and_the_edges_between_them() {
    let graph = four_nodes_one_edge();
    let kept = graph.retain_nodes(vec![key(1), key(3)]).unwrap();
    assert_eq!(kept.node_count(), 2);
    assert_eq!(kept.edge_count(), 1);
    let kept = Graph::from_graph(kept).unwrap();
    assert_eq!(sorted(kept.get_nodes().unwrap()), sorted(vec![node(1), node(3)]));
    assert_eq!(kept.get_edge(&key(1), &key(3)), Ok(edge(14)));

    let kept = graph.retain_nodes(vec![key(1), key(2)]).unwrap();
    assert_eq!(kept.node_count(), 2);
    assert_eq!(kept.edge_count(), 0);
    let kept = Graph::from_graph(kept).unwrap();
    assert_eq!(sorted(kept.get_nodes().unwrap()), sorted(vec![node(1), node(2)]));
    assert_eq!(kept.get_edges().unwrap(), Vec::<Vec<u8>>::new());
}

#[test]
fn retain_nodes_passes_over_unknown_keys() {
    let graph = four_nodes_one_edge();
    let kept = graph.retain_nodes(vec![key(4), key(77)]).unwrap();
    assert_eq!(kept.node_count(), 1);
    assert_eq!(kept.edge_count(), 0);
}

#[test]
fn remove_node_takes_its_edges_along() {
    let mut graph = four_nodes_one_edge();
    graph.add_edge(key(2), key(1), edge(21)).unwrap();
    graph.add_edge(key(2), key(4), edge(24)).unwrap();
    assert_eq!(graph.remove_node(key(1)), Ok(node(1)));
    assert_eq!(graph.get_edges().unwrap(), vec![edge(24)]);
    assert_eq!(graph.get_edge(&key(1), &key(3)), Err(StoreError::EdgeNotFound));
    assert_eq!(graph.get_edge(&key(2), &key(1)), Err(StoreError::EdgeNotFound));
    assert_eq!(graph.get_edge(&key(2), &key(4)), Ok(edge(24)));
}

#[test]
fn add_edge_names_each_failure() {
    let mut graph = four_nodes_one_edge();
    assert_eq!(graph.add_edge(key(1), key(3), edge(99)), Err(StoreError::ConflictDuplicateEdge));
    assert_eq!(graph.add_edge(key(1), key(9), edge(1)), Err(StoreError::NodeNotFound));
    assert_eq!(graph.add_edge(key(9), key(1), edge(1)), Err(StoreError::NodeNotFound));
    assert_eq!(graph.add_edge(key(3), key(1), edge(31)), Ok(()));
    assert_eq!(graph.get_edge(&key(1), &key(3)), Ok(edge(14)));
    assert_eq!(graph.get_edge(&key(3), &key(1)), Ok(edge(31)));
}

#[test]
fn remove_edge_returns_the_payload_once() {
    let mut graph = four_nodes_one_edge();
    assert_eq!(graph.remove_edge(key(1), key(3)), Ok(edge(14)));
    assert_eq!(graph.remove_edge(key(1), key(3)), Err(StoreError::EdgeNotFound));
    assert_eq!(graph.remove_edge(key(8), key(3)), Err(StoreError::EdgeNotFound));
    assert_eq!(graph.get_nodes().unwrap().len(), 4);
}

#[test]
fn missing_nodes_are_reported() {
    let mut graph = Graph::new();
    assert_eq!(graph.remove_node(key(1)), Err(StoreError::NodeNotFound));
    assert_eq!(graph.get_node(&key(1)), Err(StoreError::NodeNotFound));
    assert_eq!(graph.get_neighbors(&key(1)), Err(StoreError::NodeNotFound));
    assert_eq!(graph.get_node_index(&key(1)), Err(StoreError::NodeNotFound));
    assert_eq!(graph.has_node(&key(1)), Ok(false));
    graph.add_node(key(1), node(1)).unwrap();
    assert_eq!(graph.has_node(&key(1)), Ok(true));
    assert!(graph.get_node_index(&key(1)).is_ok());
}

#[test]
fn neighbors_sources_and_sinks() {
    let mut graph = four_nodes_one_edge();
    graph.add_edge(key(1), key(2), edge(12)).unwrap();
    graph.add_edge(key(2), key(3), edge(23)).unwrap();
    assert_eq!(sorted(graph.get_neighbors(&key(1)).unwrap()), sorted(vec![node(2), node(3)]));
    assert_eq!(graph.get_neighbors(&key(3)).unwrap(), Vec::<Vec<u8>>::new());
    assert_eq!(sorted(graph.get_source_nodes().unwrap()), sorted(vec![node(1), node(4)]));
    assert_eq!(sorted(graph.get_sink_nodes().unwrap()), sorted(vec![node(3), node(4)]));
    assert_eq!(sorted(graph.get_edges().unwrap()), sorted(vec![edge(12), edge(14), edge(23)]));
}

#[test]
fn filter_graph_keeps_what_the_lists_admit() {
    let mut graph = four_nodes_one_edge();
    graph.add_edge(key(1), key(2), edge(12)).unwrap();
    graph.add_edge(key(2), key(4), edge(24)).unwrap();

    let all = graph.filter_graph(None, None).unwrap();
    assert_eq!((all.node_count(), all.edge_count()), (4, 3));

    let some = graph.filter_graph(Some(vec![node(3), node(1), node(2)]), None).unwrap();
    assert_eq!((some.node_count(), some.edge_count()), (3, 2));
    let some = Graph::from_graph(some).unwrap();
    assert_eq!(sorted(some.get_edges().unwrap()), sorted(vec![edge(12), edge(14)]));

    let some = graph.filter_graph(None, Some(vec![edge(24), edge(14)])).unwrap();
    assert_eq!((some.node_count(), some.edge_count()), (4, 2));

    let some = graph
        .filter_graph(Some(vec![node(2), node(1)]), Some(vec![edge(14), edge(12)]))
        .unwrap();
    assert_eq!((some.node_count(), some.edge_count()), (2, 1));
    let some = Graph::from_graph(some).unwrap();
    assert_eq!(some.get_edge(&key(1), &key(2)), Ok(edge(12)));

    let none = graph.filter_graph(Some(vec![]), None).unwrap();
    assert_eq!((none.node_count(), none.edge_count()), (0, 0));
}

#[test]
fn get_graph_copies_the_whole_graph() {
    let graph = four_nodes_one_edge();
    let copy = graph.get_graph().unwrap();
    assert_eq!((copy.node_count(), copy.edge_count()), (4, 1));
    let copy = Graph::from_graph(copy).unwrap();
    assert_eq!(copy.get_node(&key(4)), Ok(node(4)));
    assert_eq!(copy.get_edge(&key(1), &key(3)), Ok(edge(14)));
}

#[test]
fn from_graph_refuses_a_key_twice_and_an_edge_twice() {
    let mut image = Graph::new().get_graph().unwrap();
    let a = image.add_node((key(1), node(1)));
    let b = image.add_node((key(2), node(2)));
    image.add_edge(a, b, edge(1));
    assert!(Graph::from_graph(image.clone()).is_ok());

    let mut doubled = image.clone();
    doubled.add_edge(a, b, edge(2));
    assert_eq!(
        Graph::from_graph(doubled).err(),
        Some(StoreError::FileDecodeError("image holds no graph of keyed nodes".to_string()))
    );

    image.add_node((key(1), node(3)));
    assert!(matches!(Graph::from_graph(image), Err(StoreError::FileDecodeError(_))));
}

#[test]
fn handle_applies_each_mutation_and_answers() {
    let mut graph = Graph::new();
    let added = graph.handle(GraphMutation::AddNode((key(1), node(1)))).unwrap();
    assert!(matches!(added, GraphResponse::Node(n) if n == node(1)));
    graph.handle(GraphMutation::AddNode((key(2), node(2)))).unwrap();
    let linked = graph.handle(GraphMutation::AddEdge((key(1), key(2), edge(5)))).unwrap();
    assert!(matches!(linked, GraphResponse::Empty));
    let again = graph.handle(GraphMutation::AddEdge((key(1), key(2), edge(5))));
    assert_eq!(again.err(), Some(StoreError::ConflictDuplicateEdge));
    let unlinked = graph.handle(GraphMutation::RemoveEdge((key(1), key(2)))).unwrap();
    assert!(matches!(unlinked, GraphResponse::Edge(e) if e == edge(5)));
    let removed = graph.handle(GraphMutation::RemoveNode(key(2))).unwrap();
    assert!(matches!(removed, GraphResponse::Node(n) if n == node(2)));
    let missing = graph.handle(GraphMutation::RemoveNode(key(2)));
    assert_eq!(missing.err(), Some(StoreError::NodeNotFound));
    assert_eq!(graph.get_nodes().unwrap(), vec![node(1)]);
}

#[test]
fn a_mutation_applied_twice_is_as_applied_once() {
    let mut once = four_nodes_one_edge();
    let mut twice = four_nodes_one_edge();
    let mutations = vec![
        GraphMutation::AddNode((key(5), node(5))),
        GraphMutation::AddEdge((key(5), key(1), edge(51))),
        GraphMutation::RemoveEdge((key(1), key(3))),
        GraphMutation::RemoveNode(key(2)),
    ];
    for m in mutations {
        let _ = once.handle(m.clone());
        let _ = twice.handle(m.clone());
        let _ = twice.handle(m);
    }
    assert_eq!(sorted(once.get_nodes().unwrap()), sorted(twice.get_nodes().unwrap()));
    assert_eq!(sorted(once.get_edges().unwrap()), sorted(twice.get_edges().unwrap()));
    assert_eq!(sorted(once.get_nodes().unwrap()), sorted(vec![node(1), node(3), node(4), node(5)]));
    assert_eq!(once.get_edges().unwrap(), vec![edge(51)]);
}

#[test]
fn handle_query_answers_each_question() {
    let graph = four_nodes_one_edge();
    assert!(matches!(graph.handle_query(GraphQuery::HasNode(key(1))), Ok(GraphResponse::Bool(true))));
    assert!(matches!(graph.handle_query(GraphQuery::HasNode(key(8))), Ok(GraphResponse::Bool(false))));
    assert!(matches!(graph.handle_query(GraphQuery::GetNode(key(2))), Ok(GraphResponse::Node(n)) if n == node(2)));
    assert_eq!(graph.handle_query(GraphQuery::GetNode(key(8))).err(), Some(StoreError::NodeNotFound));
    assert!(matches!(graph.handle_query(GraphQuery::GetNodes), Ok(GraphResponse::Nodes(n)) if n.len() == 4));
    assert!(matches!(graph.handle_query(GraphQuery::GetEdges), Ok(GraphResponse::Edges(e)) if e == vec![edge(14)]));
    assert!(matches!(graph.handle_query(GraphQuery::GetEdge((key(1), key(3)))), Ok(GraphResponse::Edge(e)) if e == edge(14)));
    assert_eq!(graph.handle_query(GraphQuery::GetEdge((key(3), key(1)))).err(), Some(StoreError::EdgeNotFound));
    assert!(matches!(graph.handle_query(GraphQuery::GetNeighbors(key(1))), Ok(GraphResponse::Nodes(n)) if n == vec![node(3)]));
    assert!(matches!(graph.handle_query(GraphQuery::GetSourceNodes), Ok(GraphResponse::Nodes(n)) if n.len() == 3));
    assert!(matches!(graph.handle_query(GraphQuery::GetSinkNodes), Ok(GraphResponse::Nodes(n)) if n.len() == 3));
    assert!(matches!(graph.handle_query(GraphQuery::GetNodeIndex(key(1))), Ok(GraphResponse::NodeIndex(_))));
    assert!(matches!(graph.handle_query(GraphQuery::GetGraph), Ok(GraphResponse::Graph(g)) if g.node_count() == 4));
    assert!(matches!(
        graph.handle_query(GraphQuery::RetainNodes(vec![key(1), key(3)])),
        Ok(GraphResponse::Graph(g)) if g.node_count() == 2 && g.edge_count() == 1
    ));
    assert!(matches!(
        graph.handle_query(GraphQuery::FilterGraph((Some(vec![node(1)]), None))),
        Ok(GraphResponse::Graph(g)) if g.node_count() == 1 && g.edge_count() == 0
    ));
}

#[test]
fn responses_give_what_they_hold_or_the_fallback() {
    assert_eq!(GraphResponse::Node(node(1)).into_node(StoreError::NodeNotCreated), Ok(node(1)));
    assert_eq!(GraphResponse::Empty.into_node(StoreError::NodeNotCreated), Err(StoreError::NodeNotCreated));
    assert_eq!(GraphResponse::Edge(edge(1)).into_edge(StoreError::EdgeNotDeleted), Ok(edge(1)));
    assert_eq!(GraphResponse::Bool(true).into_edge(StoreError::EdgeNotDeleted), Err(StoreError::EdgeNotDeleted));
    assert_eq!(GraphResponse::Nodes(vec![node(1)]).into_nodes(StoreError::NodeNotFound), Ok(vec![node(1)]));
    assert_eq!(GraphResponse::Edges(vec![edge(1)]).into_edges(StoreError::EdgeNotFound), Ok(vec![edge(1)]));
    assert_eq!(GraphResponse::Bool(false).into_bool(StoreError::NodeNotFound), Ok(false));
    assert_eq!(GraphResponse::NodeIndex(3).into_node_index(StoreError::NodeNotFound), Ok(3));
    assert_eq!(GraphResponse::Empty.into_graph(StoreError::GraphNotFound).err(), Some(StoreError::GraphNotFound));
    assert_eq!(Side::Incoming, Side::Incoming);
}

#[test]
fn a_copy_of_a_graph_is_its_own() {
    let graph = four_nodes_one_edge();
    let mut copy = graph.clone();
    copy.remove_node(key(1)).unwrap();
    assert_eq!(graph.get_nodes().unwrap().len(), 4);
    assert_eq!(graph.get_edges().unwrap(), vec![edge(14)]);
    assert_eq!(sorted(copy.get_nodes().unwrap()), sorted(vec![node(2), node(3), node(4)]));
    assert_eq!(copy.get_edges().unwrap().len(), 0);
    assert_eq!(copy.get_node(&key(3)), Ok(node(3)));
    assert_eq!(Graph::default().get_nodes().unwrap().len(), 0);
}

#[test]
fn a_node_number_names_the_node_in_the_copy_of_the_container() {
    let graph = four_nodes_one_edge();
    let slot = graph.get_node_index(&key(3)).unwrap();
    let copy = graph.get_graph().unwrap();
    let weight = copy.node_weight(petgraph::stable_graph::NodeIndex::new(slot as usize)).unwrap();
    assert_eq!(weight, &(key(3), node(3)));
}
