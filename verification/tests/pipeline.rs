use graph_db::error::StoreError;
use graph_db::graph::Graph;
use graph_db::mutation::GraphMutation;
use graph_db::mutations_log::{InitializeMutationsLog, MutationsLog};
use graph_db::mutations_log_store::{MutationsLogMutation, MutationsLogQuery, MutationsLogStore};
use graph_db::query::GraphResponse;
use graph_db::remotes::Remotes;
use graph_db::server::{GraphMutationRequest, GraphServer, MutationsLogRequest};
use graph_db::sorting::{hash_precedes, sort_log};

fn key(id: u64) -> Vec<u8> {
    id.to_le_bytes().to_vec()
}

fn node(id: u64) -> Vec<u8> {
    let mut bytes = id.to_le_bytes().to_vec();
    bytes.extend_from_slice(b"node");
    bytes
}

fn add(id: u64) -> GraphMutation {
    GraphMutation::AddNode((key(id), node(id)))
}

fn sorted(mut list: Vec<Vec<u8>>) -> Vec<Vec<u8>> {
    list.sort();
    list
}

fn fresh(tag: &str) -> MutationsLog {
    MutationsLog::new(tag.to_string(), Graph::new(), MutationsLogStore::new())
}

fn entry(hash: &str, mutation: GraphMutation) -> MutationsLogMutation {
    MutationsLogMutation { hash: hash.to_string(), mutation }
}

fn hashes(entries: &[MutationsLogMutation]) -> Vec<String> {
    entries.iter().map(|e| e.hash.clone()).collect()
}

/// One local mutation on a node without reachable peers.
fn mutate(log: &mut MutationsLog, remotes: &Remotes, m: GraphMutation) -> Result<GraphResponse, StoreError> {
    let proposed = log.propose(m)?;
    let sample = remotes.sample();
    let acks: Vec<Result<(), StoreError>> = sample.iter().map(|_| Ok(())).collect();
    log.complete(proposed, Remotes::replicated(&acks))
}

#[test]
fn test_database_initialization() {
    let log = fresh("node0001");
    let nodes = log.graph().get_nodes().unwrap();
    assert_eq!(nodes.len(), 0);
}

#[test]
fn test_basic_single_process() {
    let mut log = fresh("node0001");
    let remotes = Remotes::new(2);
    mutate(&mut log, &remotes, add(1)).unwrap();
    mutate(&mut log, &remotes, add(2)).unwrap();
    mutate(&mut log, &remotes, GraphMutation::AddEdge((key(1), key(2), vec![1]))).unwrap();
    let graph = log.graph().get_graph().unwrap();
    assert_eq!(graph.edge_count(), 1);
    assert_eq!(graph.node_count(), 2);

    mutate(&mut log, &remotes, GraphMutation::RemoveNode(key(1))).unwrap();
    mutate(&mut log, &remotes, GraphMutation::RemoveNode(key(2))).unwrap();
    let graph = log.graph().get_graph().unwrap();
    assert_eq!(graph.edge_count(), 0);
    assert_eq!(graph.node_count(), 0);

    for id in 11..=14 {
        mutate(&mut log, &remotes, add(id)).unwrap();
    }
    let graph = log.graph().get_graph().unwrap();
    assert_eq!(graph.edge_count(), 0);
    assert_eq!(graph.node_count(), 4);

    let kept = log.graph().retain_nodes(vec![key(11), key(13)]).unwrap();
    assert_eq!(kept.edge_count(), 0);
    assert_eq!(kept.node_count(), 2);

    mutate(&mut log, &remotes, GraphMutation::AddEdge((key(11), key(13), vec![14]))).unwrap();
    let kept = log.graph().retain_nodes(vec![key(11), key(13)]).unwrap();
    assert_eq!(kept.edge_count(), 1);
    assert_eq!(kept.node_count(), 2);

    let kept = log.graph().retain_nodes(vec![key(11), key(12)]).unwrap();
    assert_eq!(kept.edge_count(), 0);
    assert_eq!(kept.node_count(), 2);

    for id in 11..=14 {
        mutate(&mut log, &remotes, GraphMutation::RemoveNode(key(id))).unwrap();
    }
    for id in 11..=14 {
        mutate(&mut log, &remotes, GraphMutation::AddNode((key(id), node(id + 100)))).unwrap();
    }
    mutate(&mut log, &remotes, GraphMutation::AddEdge((key(11), key(13), vec![15]))).unwrap();
    let kept = log.graph().retain_nodes(vec![key(11), key(13)]).unwrap();
    assert_eq!(kept.edge_count(), 1);
    assert_eq!(kept.node_count(), 2);
}

#[test]
fn a_mutation_that_was_logged_is_not_taken_up_again() {
    let mut log = fresh("node0001");
    let remotes = Remotes::new(2);
    mutate(&mut log, &remotes, add(1)).unwrap();
    mutate(&mut log, &remotes, GraphMutation::RemoveNode(key(1))).unwrap();
    let hash = add(1).get_hash("node0001");
    assert_eq!(mutate(&mut log, &remotes, add(1)).err(), Some(StoreError::WriteLogError(hash)));
    assert_eq!(log.graph().get_nodes().unwrap().len(), 0);
    mutate(&mut log, &remotes, GraphMutation::AddNode((key(1), node(10)))).unwrap();
    assert_eq!(log.graph().get_node(&key(1)), Ok(node(10)));
}

#[test]
fn a_proposal_is_appended_uncommitted_and_pending() {
    let mut log = fresh("node0001");
    let proposed = log.propose(add(1)).unwrap();
    assert_eq!(proposed.hash, add(1).get_hash("node0001"));
    assert_eq!(proposed.mutation, add(1));
    assert!(!log.is_committed(&proposed.hash));
    assert!(log.is_pending(&proposed.hash));
    assert_eq!(log.graph().get_nodes().unwrap().len(), 0);
    let scan = log.handle_query(MutationsLogQuery::full()).unwrap();
    assert_eq!(hashes(&scan), vec![proposed.hash.clone()]);
}

#[test]
fn the_same_proposal_cannot_be_appended_twice() {
    let mut log = fresh("node0001");
    let proposed = log.propose(add(1)).unwrap();
    assert_eq!(log.propose(add(1)).err(), Some(StoreError::WriteLogError(proposed.hash.clone())));
    log.complete(proposed.clone(), Ok(())).unwrap();
    assert_eq!(log.propose(add(1)).err(), Some(StoreError::WriteLogError(proposed.hash.clone())));
    assert!(log.is_committed(&proposed.hash));
    assert!(!log.is_pending(&proposed.hash));
}

#[test]
fn an_acknowledged_proposal_is_committed_and_applied() {
    let mut log = fresh("node0001");
    let proposed = log.propose(add(1)).unwrap();
    let answer = log.complete(proposed.clone(), Ok(())).unwrap();
    assert!(matches!(answer, GraphResponse::Node(n) if n == node(1)));
    assert!(log.is_committed(&proposed.hash));
    assert!(!log.is_pending(&proposed.hash));
    assert_eq!(log.graph().get_nodes().unwrap(), vec![node(1)]);
}

#[test]
fn a_proposal_that_was_not_replicated_stays_uncommitted() {
    let mut log = fresh("node0001");
    let proposed = log.propose(add(1)).unwrap();
    let failure = Remotes::replicated(&vec![Ok(()), Err(StoreError::ClientError)]);
    let answer = log.complete(proposed.clone(), failure.clone());
    assert_eq!(answer.err(), failure.err());
    assert!(!log.is_committed(&proposed.hash));
    assert!(log.is_pending(&proposed.hash));
    assert_eq!(log.graph().get_nodes().unwrap().len(), 0);
}

#[test]
fn a_proposal_that_the_graph_turns_down_is_committed_all_the_same() {
    let mut log = fresh("node0001");
    let proposed = log.propose(GraphMutation::RemoveNode(key(1))).unwrap();
    let answer = log.complete(proposed.clone(), Ok(()));
    assert_eq!(answer.err(), Some(StoreError::NodeNotFound));
    assert!(log.is_committed(&proposed.hash));
    assert!(!log.is_pending(&proposed.hash));
}

#[test]
fn a_mutation_from_a_peer_is_committed_at_once() {
    let mut log = fresh("node0002");
    let hash = add(1).get_hash("node0001");
    let answer = log.handle(entry(&hash, add(1))).unwrap();
    assert!(matches!(answer, GraphResponse::Node(n) if n == node(1)));
    assert!(log.is_committed(&hash));
    assert_eq!(log.graph().get_nodes().unwrap(), vec![node(1)]);
}

#[test]
fn the_same_mutation_received_twice_is_as_received_once() {
    let mut log = fresh("node0002");
    let hash = add(1).get_hash("node0001");
    log.handle(entry(&hash, add(1))).unwrap();
    let again = log.handle(entry(&hash, add(1)));
    assert_eq!(again.err(), Some(StoreError::ConflictDuplicateNode));
    assert!(log.is_committed(&hash));
    assert_eq!(log.graph().get_nodes().unwrap(), vec![node(1)]);
    assert_eq!(log.handle_query(MutationsLogQuery::full()).unwrap().len(), 1);
}

#[test]
fn commit_mutation_writes_the_log_and_the_graph() {
    let mut store = MutationsLogStore::new();
    let mut graph = Graph::new();
    let answer = MutationsLog::commit_mutation(&mut store, &mut graph, entry("h1", add(1))).unwrap();
    assert!(matches!(answer, GraphResponse::Node(n) if n == node(1)));
    assert!(store.is_committed(&"h1".to_string()));
    assert_eq!(graph.get_nodes().unwrap(), vec![node(1)]);
}

#[test]
fn the_log_store_appends_once_and_commits_often() {
    let mut store = MutationsLogStore::new();
    let h = "h1".to_string();
    assert_eq!(store.append(h.clone(), add(1)), Ok(()));
    assert!(store.contains(&h));
    assert!(!store.is_committed(&h));
    assert_eq!(store.append(h.clone(), add(1)), Err(StoreError::WriteLogError(h.clone())));
    assert_eq!(store.commit(h.clone(), add(1)), Ok(()));
    assert!(store.is_committed(&h));
    assert_eq!(store.commit(h.clone(), add(1)), Ok(()));
    assert_eq!(store.commit("h2".to_string(), add(2)), Ok(()));
    assert!(store.is_committed(&"h2".to_string()));
    assert_eq!(store.append("h2".to_string(), add(2)), Err(StoreError::WriteLogError("h2".to_string())));
    let scan = store.scan_all();
    assert_eq!(hashes(&scan), vec!["h1".to_string(), "h2".to_string()]);
    assert_eq!(scan[1].mutation, add(2));
    assert_eq!(store.handle(entry("h3", add(3))), Ok(()));
    assert_eq!(store.handle_query(MutationsLogQuery::Full).unwrap().len(), 3);
}

#[test]
fn the_log_path_lies_under_the_store_path() {
    assert_eq!(MutationsLogStore::log_path(&Some("data".to_string())), "data/log.sqlite");
    assert_eq!(MutationsLogStore::log_path(&None), "data/graph_store/log");
}

#[test]
fn hashes_are_ordered_as_strings() {
    let cases = [("a", "b"), ("a", "aa"), ("", "a"), ("ab", "b"), ("a1", "a2"), ("z", "é")];
    for (small, large) in cases {
        assert!(hash_precedes(&small.to_string(), &large.to_string()));
        assert!(!hash_precedes(&large.to_string(), &small.to_string()));
        assert!(!hash_precedes(&small.to_string(), &small.to_string()));
        assert!(small < large);
    }
}

#[test]
fn a_sorted_log_holds_each_hash_once_by_rising_hash() {
    let entries = vec![
        entry("c", add(3)),
        entry("a", add(1)),
        entry("c", add(33)),
        entry("b", add(2)),
        entry("a", add(11)),
    ];
    let sorted = sort_log(&entries);
    assert_eq!(hashes(&sorted), vec!["a", "b", "c"]);
    assert_eq!(sorted[0].mutation, add(1));
    assert_eq!(sorted[2].mutation, add(3));
    assert_eq!(sort_log(&vec![]).len(), 0);
}

#[test]
fn scans_in_any_order_sort_to_the_same_log() {
    let mut first = MutationsLogStore::new();
    let mut second = MutationsLogStore::new();
    for id in [3u64, 1, 2] {
        first.commit(add(id).get_hash("node0001"), add(id)).unwrap();
    }
    for id in [2u64, 3, 1] {
        second.commit(add(id).get_hash("node0001"), add(id)).unwrap();
    }
    let a = sort_log(&first.scan_all());
    let b = sort_log(&second.scan_all());
    assert_eq!(hashes(&a), hashes(&b));
    assert_eq!(a.len(), 3);
    let mut expected = hashes(&a);
    expected.sort();
    assert_eq!(hashes(&a), expected);
}

#[test]
fn merged_logs_are_sorted_and_hold_each_hash_once() {
    let merged = Remotes::merge_logs(vec![
        Ok(vec![entry("b", add(2)), entry("a", add(1))]),
        Ok(vec![]),
        Ok(vec![entry("a", add(1)), entry("c", add(3))]),
    ])
    .unwrap();
    assert_eq!(hashes(&merged), vec!["a", "b", "c"]);
    let failed = Remotes::merge_logs(vec![
        Ok(vec![entry("b", add(2))]),
        Err(StoreError::ParseError),
        Err(StoreError::ClientError),
    ]);
    assert_eq!(failed.err(), Some(StoreError::ParseError));
}

#[test]
fn test_basic_two_processes() {
    let mut log1 = fresh("node0001");
    let mut log2 = fresh("node0002");
    let server2 = GraphServer::new("127.0.0.1:4001".to_string());

    let proposed = log1.propose(add(42)).unwrap();
    let request = proposed.clone().try_into().unwrap();
    let ack = server2.graph_mutation(&mut log2, request);
    let acks = vec![ack.map(|_| ()).map_err(|_| StoreError::ClientError)];
    log1.complete(proposed, Remotes::replicated(&acks)).unwrap();

    let nodes1 = log1.graph().get_nodes().unwrap();
    let nodes2 = log2.graph().get_nodes().unwrap();
    assert_eq!(nodes1.len(), 1);
    assert_eq!(nodes2.len(), 1);
    assert_eq!(nodes1, nodes2);

    let remotes = Remotes::new(2);
    mutate(&mut log1, &remotes, GraphMutation::RemoveNode(key(42))).unwrap();
    assert_eq!(log1.graph().get_nodes().unwrap().len(), 0);
    mutate(&mut log1, &remotes, GraphMutation::AddNode((key(42), node(43)))).unwrap();
    assert_eq!(log1.graph().get_nodes().unwrap().len(), 1);
}

#[test]
fn test_initial_data_synchronization() {
    let mut log1 = fresh("node0001");
    let remotes1 = Remotes::new(2);
    mutate(&mut log1, &remotes1, add(1)).unwrap();
    mutate(&mut log1, &remotes1, add(2)).unwrap();

    let server1 = GraphServer::new("127.0.0.1:4000".to_string());
    let response = server1.sync_mutations_log(&log1, MutationsLogRequest {}).unwrap();
    let merged = Remotes::merge_logs(vec![response.into_log()]).unwrap();

    let mut log2 = fresh("node0002");
    assert_eq!(log2.initialize(InitializeMutationsLog, merged), Ok(()));
    let nodes2 = log2.graph().get_nodes().unwrap();
    assert_eq!(sorted(nodes2), sorted(vec![node(1), node(2)]));

    let server2 = GraphServer::new("127.0.0.1:4001".to_string());
    let proposed = log1.propose(add(3)).unwrap();
    let ack = server2.graph_mutation(&mut log2, proposed.clone().try_into().unwrap());
    assert!(ack.is_ok());
    log1.complete(proposed, Ok(())).unwrap();

    let nodes1 = log1.graph().get_nodes().unwrap();
    let nodes2 = log2.graph().get_nodes().unwrap();
    assert_eq!(nodes1.len(), 3);
    assert_eq!(nodes2.len(), 3);
    for n in nodes1 {
        assert!(nodes2.contains(&n))
    }
}

#[test]
fn an_acknowledged_mutation_is_read_back_from_the_peer() {
    let mut log1 = fresh("node0001");
    let mut log2 = fresh("node0002");
    let server2 = GraphServer::new("127.0.0.1:4001".to_string());
    let proposed = log1.propose(add(7)).unwrap();
    server2.graph_mutation(&mut log2, proposed.clone().try_into().unwrap()).unwrap();
    log1.complete(proposed.clone(), Ok(())).unwrap();
    let read = server2.sync_mutations_log(&log2, MutationsLogRequest {}).unwrap().into_log().unwrap();
    assert_eq!(read.len(), 1);
    assert_eq!(read[0].hash, proposed.hash);
    assert_eq!(read[0].mutation, proposed.mutation);
}

#[test]
fn the_endpoint_refuses_bytes_that_encode_nothing() {
    let mut log = fresh("node0002");
    let server = GraphServer::new("127.0.0.1:4001".to_string());
    let request = GraphMutationRequest { hash: "h".to_string(), graph_mutation: vec![1] };
    let status = server.graph_mutation(&mut log, request).err().unwrap();
    assert_eq!(status.message, "Serde: bytes encode no mutation");
    assert_eq!(log.handle_query(MutationsLogQuery::full()).unwrap().len(), 0);
}

#[test]
fn the_endpoint_acknowledges_a_replay_that_the_graph_turns_down() {
    let mut log = fresh("node0002");
    let server = GraphServer::new("127.0.0.1:4001".to_string());
    let e = entry("h", add(1));
    assert!(server.graph_mutation(&mut log, e.clone().try_into().unwrap()).is_ok());
    assert!(server.graph_mutation(&mut log, e.try_into().unwrap()).is_ok());
    assert_eq!(log.graph().get_nodes().unwrap(), vec![node(1)]);
    assert!(log.is_committed(&"h".to_string()));
}

#[test]
fn catch_up_replays_by_rising_hash_and_keeps_what_fails_pending() {
    let mut log = fresh("node0002");
    log.handle(entry("m", add(5))).unwrap();
    let entries = vec![
        entry("b", GraphMutation::AddEdge((key(1), key(2), vec![9]))),
        entry("a", add(1)),
        entry("c", add(2)),
        entry("m", GraphMutation::RemoveNode(key(5))),
        entry("d", GraphMutation::RemoveNode(key(1))),
    ];
    assert_eq!(log.initialize(InitializeMutationsLog, entries), Ok(()));
    assert_eq!(sorted(log.graph().get_nodes().unwrap()), sorted(vec![node(2), node(5)]));
    assert_eq!(log.graph().get_edges().unwrap().len(), 0);
    for h in ["a", "b", "c", "d", "m"] {
        assert!(log.is_committed(&h.to_string()));
    }
    assert!(log.is_pending(&"b".to_string()));
    assert!(!log.is_pending(&"a".to_string()));
    assert!(!log.is_pending(&"d".to_string()));
    assert!(!log.is_pending(&"m".to_string()));
}

#[test]
fn catching_up_twice_is_as_catching_up_once() {
    let entries = || {
        vec![
            entry("b", GraphMutation::AddEdge((key(1), key(2), vec![9]))),
            entry("a", add(1)),
            entry("c", add(2)),
            entry("d", GraphMutation::RemoveNode(key(1))),
        ]
    };
    let mut once = fresh("node0002");
    let mut twice = fresh("node0002");
    once.initialize(InitializeMutationsLog, entries()).unwrap();
    twice.initialize(InitializeMutationsLog, entries()).unwrap();
    twice.initialize(InitializeMutationsLog, entries()).unwrap();
    assert_eq!(once.graph().get_nodes().unwrap(), twice.graph().get_nodes().unwrap());
    assert_eq!(twice.graph().get_nodes().unwrap(), vec![node(2)]);
    for h in ["a", "b", "c", "d"] {
        assert_eq!(once.is_pending(&h.to_string()), twice.is_pending(&h.to_string()));
        assert!(twice.is_committed(&h.to_string()));
    }
    assert!(twice.is_pending(&"b".to_string()));
}

#[test]
fn replicate_names_the_peers_and_conclude_ends_the_proposal() {
    let mut log = fresh("node0001");
    let mut remotes = Remotes::new(1);
    remotes.put("http://a".to_string(), Ok(vec![]));
    remotes.put("http://b".to_string(), Ok(vec![]));
    remotes.put("http://c".to_string(), Err(StoreError::ClientError));
    let plan = log.replicate(&remotes, add(1)).unwrap();
    assert_eq!(plan.entry.hash, add(1).get_hash("node0001"));
    assert_eq!(plan.broadcast, vec!["http://a".to_string(), "http://b".to_string()]);
    assert_eq!(plan.quorum.len(), 1);
    assert!(plan.broadcast.contains(&plan.quorum[0]));
    let hash = plan.entry.hash.clone();
    let refused = log.conclude(plan, &vec![Err(StoreError::ClientSendError)]);
    assert_eq!(
        refused.err(),
        Some(StoreError::SyncError("acknowledged by 0 of 1 sampled peers".to_string()))
    );
    assert!(!log.is_committed(&hash));
    assert!(log.is_pending(&hash));
    assert_eq!(
        log.replicate(&remotes, add(1)).err(),
        Some(StoreError::WriteLogError(hash.clone()))
    );

    let plan = log.replicate(&remotes, add(2)).unwrap();
    let hash = plan.entry.hash.clone();
    let answer = log.conclude(plan, &vec![Ok(())]).unwrap();
    assert!(matches!(answer, GraphResponse::Node(n) if n == node(2)));
    assert!(log.is_committed(&hash));
    assert!(!log.is_pending(&hash));
}
