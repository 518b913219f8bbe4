use graph_db::config::{address_from_parts, are_urls, is_url, DatabaseConfig};
use graph_db::error::StoreError;
use graph_db::remotes::{InitializeRemotes, QuorumOutcome, Remotes, SyncRemotesMessage};
use graph_db::server::{GraphServer, RemotesLogRequest};
use graph_db::store::GraphStore;
use graph_db::text::{decimal, parse_count, split_at_commas};

fn text(s: &str) -> String {
    s.to_string()
}

fn view(list: &[(&str, bool)]) -> Vec<(String, bool)> {
    list.iter().map(|(a, b)| (a.to_string(), *b)).collect()
}

fn gossip(from: &str, list: &[(&str, bool)]) -> SyncRemotesMessage {
    SyncRemotesMessage { from: text(from), flat_remotes_log: view(list) }
}

fn table() -> Remotes {
    let mut remotes = Remotes::new(2);
    remotes.put(text("http://a"), Ok(view(&[("http://b", true)])));
    remotes.put(text("http://b"), Err(StoreError::ClientError));
    remotes.put(text("http://c"), Ok(vec![]));
    remotes.put(text("http://d"), Ok(vec![]));
    remotes
}

#[test]
fn a_known_sender_is_updated_and_an_unknown_one_needs_a_dial() {
    let mut remotes = Remotes::new(2);
    assert!(!remotes.knows(&text("http://a")));
    let answer = remotes.handle(gossip("http://a", &[("http://x", true)]), false).unwrap();
    assert_eq!(answer, vec![]);
    assert!(!remotes.knows(&text("http://a")));

    let answer = remotes.handle(gossip("http://a", &[("http://x", true)]), true).unwrap();
    assert_eq!(answer, view(&[("http://a", true)]));
    assert!(remotes.knows(&text("http://a")));

    let answer = remotes.handle(gossip("http://a", &[]), false).unwrap();
    assert_eq!(answer, view(&[("http://a", true)]));
}

#[test]
fn the_same_gossip_twice_is_as_once() {
    let mut once = table();
    let mut twice = table();
    once.handle(gossip("http://b", &[("http://a", true)]), false).unwrap();
    twice.handle(gossip("http://b", &[("http://a", true)]), false).unwrap();
    let second = twice.handle(gossip("http://b", &[("http://a", true)]), false).unwrap();
    assert_eq!(once.flat_remotes_log(), second);
    assert_eq!(
        second,
        view(&[("http://a", true), ("http://b", true), ("http://c", true), ("http://d", true)])
    );
    assert_eq!(once.reachable(), twice.reachable());
}

#[test]
fn the_flat_view_flags_the_peers_whose_exchange_failed() {
    let remotes = table();
    assert_eq!(
        remotes.flat_remotes_log(),
        view(&[("http://a", true), ("http://b", false), ("http://c", true), ("http://d", true)])
    );
    assert_eq!(remotes.reachable(), vec![text("http://a"), text("http://c"), text("http://d")]);
    assert_eq!(
        remotes.addresses(),
        vec![text("http://a"), text("http://b"), text("http://c"), text("http://d")]
    );
}

#[test]
fn the_sample_has_the_replication_factor_or_all_reachable_peers() {
    let remotes = table();
    for _ in 0..50 {
        let sample = remotes.sample();
        assert_eq!(sample.len(), 2);
        assert_ne!(sample[0], sample[1]);
        for address in &sample {
            assert!(remotes.reachable().contains(address));
        }
    }
    let mut few = Remotes::new(5);
    few.put(text("http://a"), Ok(vec![]));
    few.put(text("http://b"), Err(StoreError::ClientError));
    assert_eq!(few.sample(), vec![text("http://a")]);
    let mut none = Remotes::new(0);
    none.put(text("http://a"), Ok(vec![]));
    assert_eq!(none.sample(), Vec::<String>::new());
}

#[test]
fn every_reachable_peer_is_sampled_sooner_or_later() {
    let remotes = table();
    let mut seen = std::collections::BTreeSet::new();
    for _ in 0..400 {
        for address in remotes.sample() {
            seen.insert(address);
        }
    }
    assert_eq!(seen.len(), 3);
}

#[test]
fn with_no_reachable_peer_a_mutation_counts_as_replicated() {
    let remotes = Remotes::new(2);
    assert_eq!(remotes.sample(), Vec::<String>::new());
    assert_eq!(Remotes::replicated(&vec![]), Ok(()));
    assert_eq!(QuorumOutcome::tally(&vec![]), QuorumOutcome::NoPeersAvailable);
    assert_eq!(QuorumOutcome::NoPeersAvailable.into_result(), Ok(()));
}

#[test]
fn a_mutation_is_replicated_when_every_sampled_peer_acknowledged() {
    assert_eq!(Remotes::replicated(&vec![Ok(()), Ok(())]), Ok(()));
    assert_eq!(QuorumOutcome::tally(&vec![Ok(()), Ok(())]), QuorumOutcome::AllAcked);
    let acks = vec![Ok(()), Err(StoreError::ClientError), Ok(())];
    assert_eq!(QuorumOutcome::tally(&acks), QuorumOutcome::PartialAcked(2, 3));
    assert_eq!(
        Remotes::replicated(&acks),
        Err(StoreError::SyncError(text("acknowledged by 2 of 3 sampled peers")))
    );
    assert_eq!(
        QuorumOutcome::PartialAcked(0, 12).into_result(),
        Err(StoreError::SyncError(text("acknowledged by 0 of 12 sampled peers")))
    );
}

#[test]
fn the_first_exchange_makes_the_table_anew() {
    let start = InitializeRemotes {
        initial_addresses: vec![text("http://a"), text("http://b")],
        server_address: text("http://me"),
    };
    let msg = start.announcement(&vec![text("http://a")]);
    assert_eq!(msg.from, "http://me");
    assert_eq!(msg.flat_remotes_log, view(&[("http://a", true)]));

    let mut remotes = table();
    remotes.install(&vec![
        (text("http://a"), Err(StoreError::ClientError)),
        (text("http://z"), Ok(view(&[("http://me", true)]))),
        (text("http://a"), Ok(vec![])),
    ]);
    assert_eq!(remotes.flat_remotes_log(), view(&[("http://a", true), ("http://z", true)]));
}

#[test]
fn the_endpoint_answers_gossip_with_its_own_view() {
    let server = GraphServer::new(text("http://me"));
    let mut remotes = table();
    let request = RemotesLogRequest { from_server: text("http://new"), remotes_log: vec![] };
    let response = server.sync_remotes(&mut remotes, request, true).unwrap();
    assert_eq!(response.from_server, "http://me");
    assert_eq!(response.remotes_log.len(), 5);
    assert_eq!(response.remotes_log[4], (text("http://new"), true));
}

#[test]
fn numbers_are_written_in_decimal() {
    assert_eq!(decimal(0), "0");
    assert_eq!(decimal(7), "7");
    assert_eq!(decimal(4000), "4000");
    assert_eq!(decimal(u64::MAX), "18446744073709551615");
}

#[test]
fn counts_are_read_as_the_standard_library_reads_them() {
    let max = usize::MAX.to_string();
    let over = format!("{}0", max);
    let cases = ["0", "2", "0012", "+5", "", "+", "-1", "1a", " 1", "1 ", "++1", "٣", max.as_str(), over.as_str(), "99999999999999999999999999"];
    for case in cases {
        assert_eq!(parse_count(case), case.parse::<usize>().ok());
    }
    assert_eq!(parse_count("0012"), Some(12));
    assert_eq!(parse_count("+5"), Some(5));
    assert_eq!(parse_count("1a"), None);
}

#[test]
fn texts_are_cut_at_commas_as_the_standard_library_cuts_them() {
    for case in ["", "a", "a,b", ",", "a,,b,", ",a", "é,ü", "http://a:1,http://b:2"] {
        let expected: Vec<String> = case.split(',').map(String::from).collect();
        assert_eq!(split_at_commas(case), expected);
    }
    assert_eq!(split_at_commas("a,,b,"), vec!["a", "", "b", ""]);
}

#[test]
fn urls_are_told_from_other_texts() {
    assert!(is_url("http://127.0.0.1:4000"));
    assert!(is_url("unix:/run/foo.socket"));
    assert!(!is_url("127.0.0.1:4000x/"));
    assert!(!is_url(""));
    assert!(!is_url("/just/a/path"));
    assert!(are_urls(&vec![]));
    assert!(are_urls(&vec![text("http://a"), text("https://b:1")]));
    assert!(!are_urls(&vec![text("http://a"), text("b")]));
}

#[test]
fn the_default_configuration() {
    let config = DatabaseConfig::default();
    assert_eq!(config.server_url(), "");
    assert_eq!(config.initial_remote_addresses(), &Vec::<String>::new());
    assert_eq!(config.store_path(), &None);
    assert_eq!(config.sync_with_remotes(), 2);
    assert_eq!(config.server_address(), Err(StoreError::ParseError));
    let none = DatabaseConfig::init(None, None, None, None, None).unwrap();
    assert_eq!(none.sync_with_remotes(), 2);
    assert_eq!(none.server_url(), "");
}

#[test]
fn a_configuration_is_loaded_from_valid_settings() {
    let config = DatabaseConfig::init(
        Some(text("http://127.0.0.1:4000")),
        Some(text("http://127.0.0.1:4001,http://127.0.0.1:4002")),
        Some(text("test-data/node1")),
        Some(text("3")),
        Some(text("node0001")),
    )
    .unwrap();
    assert_eq!(config.server_url(), "http://127.0.0.1:4000");
    assert_eq!(
        config.initial_remote_addresses(),
        &vec![text("http://127.0.0.1:4001"), text("http://127.0.0.1:4002")]
    );
    assert_eq!(config.store_path(), &Some(text("test-data/node1")));
    assert_eq!(config.sync_with_remotes(), 3);
    assert_eq!(config.node_id(), "node0001");
    assert_eq!(config.server_address(), Ok(text("127.0.0.1:4000")));
}

#[test]
fn each_invalid_setting_is_a_parse_error() {
    let ok = || Some(text("http://127.0.0.1:4000"));
    assert_eq!(DatabaseConfig::init(Some(text("nonsense")), None, None, None, None).err(), Some(StoreError::ParseError));
    assert_eq!(DatabaseConfig::init(ok(), Some(text("http://a,b")), None, None, None).err(), Some(StoreError::ParseError));
    assert_eq!(DatabaseConfig::init(ok(), Some(text("")), None, None, None).err(), Some(StoreError::ParseError));
    assert_eq!(DatabaseConfig::init(ok(), None, None, Some(text("two")), None).err(), Some(StoreError::ParseError));
    assert_eq!(DatabaseConfig::init(ok(), None, None, None, Some(text("short"))).err(), Some(StoreError::ParseError));
    assert_eq!(DatabaseConfig::init(ok(), None, None, None, Some(text("ninechars"))).err(), Some(StoreError::ParseError));
    assert!(DatabaseConfig::init(ok(), None, None, None, Some(text("éééééééé"))).is_ok());
}

#[test]
fn setters_validate_and_leave_the_rest_alone() {
    let mut config = DatabaseConfig::default();
    assert_eq!(config.set_server_url(text("not a url")), Err(StoreError::ParseError));
    assert_eq!(config.server_url(), "");
    assert_eq!(config.set_server_url(text("http://localhost:4000")), Ok(()));
    assert_eq!(config.server_url(), "http://localhost:4000");
    assert_eq!(config.set_initial_remote_addresses(vec![text("x")]), Err(StoreError::ParseError));
    assert_eq!(config.initial_remote_addresses().len(), 0);
    assert_eq!(config.set_initial_remote_addresses(vec![text("http://127.0.0.1:4000")]), Ok(()));
    assert_eq!(config.initial_remote_addresses(), &vec![text("http://127.0.0.1:4000")]);
    config.set_store_path(text("test-data/x"));
    assert_eq!(config.store_path(), &Some(text("test-data/x")));
    assert_eq!(config.server_url(), "http://localhost:4000");
    assert_eq!(config.sync_with_remotes(), 2);
    assert_eq!(config.server_address(), Ok(text("localhost:4000")));
}

#[test]
fn the_server_address_needs_a_host_and_a_port() {
    let mut config = DatabaseConfig::default();
    config.set_server_url(text("http://127.0.0.1")).unwrap();
    assert_eq!(config.server_address(), Err(StoreError::ParseError));
    config.set_server_url(text("http://127.0.0.1:80")).unwrap();
    assert_eq!(config.server_address(), Err(StoreError::ParseError));
    config.set_server_url(text("unix:/run/foo.socket")).unwrap();
    assert_eq!(config.server_address(), Err(StoreError::ParseError));
    config.set_server_url(text("http://example.com:65535/path")).unwrap();
    assert_eq!(config.server_address(), Ok(text("example.com:65535")));
}

#[test]
fn a_node_without_a_tag_draws_eight_letters_and_digits() {
    let config = DatabaseConfig::default();
    let first = config.node_id();
    assert_eq!(first.chars().count(), 8);
    assert!(first.chars().all(|c| c.is_ascii_alphanumeric()));
    let mut differs = false;
    for _ in 0..20 {
        differs = differs || config.node_id() != first;
    }
    assert!(differs);
}

#[test]
fn the_image_of_the_graph_lies_in_the_store() {
    assert_eq!(GraphStore::get_filepath("data/graph_store"), "data/graph_store/data.bin");
    assert_eq!(GraphStore::get_filepath(""), "/data.bin");
    let store = GraphStore::new(Some(text("test-data/n1"))).unwrap();
    assert_eq!(store.store_path(), "test-data/n1");
    assert_eq!(store.filepath(), "test-data/n1/data.bin");
    assert_eq!(GraphStore::new(None).unwrap().store_path(), "data/graph_store");
    assert_eq!(GraphStore::default().filepath(), "data/graph_store/data.bin");
}

#[test]
fn an_address_is_host_colon_port() {
    assert_eq!(address_from_parts(Some((Some(text("localhost")), Some(4000)))), Ok(text("localhost:4000")));
    assert_eq!(address_from_parts(Some((Some(text("::1")), Some(0)))), Ok(text("::1:0")));
    assert_eq!(address_from_parts(Some((Some(text("h")), Some(65535)))), Ok(text("h:65535")));
    assert_eq!(address_from_parts(Some((None, Some(80)))), Err(StoreError::ParseError));
    assert_eq!(address_from_parts(Some((Some(text("h")), None))), Err(StoreError::ParseError));
    assert_eq!(address_from_parts(None), Err(StoreError::ParseError));
}

#[test]
fn a_configuration_is_made_from_judged_settings() {
    let config = DatabaseConfig::load(
        Some(text("anything")),
        true,
        Some(vec![text("a"), text("b")]),
        true,
        None,
        Some(text("+7")),
        Some(text("abcdefgh")),
    )
    .unwrap();
    assert_eq!(config.server_url(), "anything");
    assert_eq!(config.initial_remote_addresses(), &vec![text("a"), text("b")]);
    assert_eq!(config.store_path(), &None);
    assert_eq!(config.sync_with_remotes(), 7);
    assert_eq!(config.node_id(), "abcdefgh");

    let refused = |url_ok, remotes_ok, count: &str, id: &str| {
        DatabaseConfig::load(
            Some(text("u")),
            url_ok,
            Some(vec![]),
            remotes_ok,
            None,
            Some(text(count)),
            Some(text(id)),
        )
        .err()
    };
    assert_eq!(refused(true, true, "1", "abcdefgh"), None);
    assert_eq!(refused(false, true, "1", "abcdefgh"), Some(StoreError::ParseError));
    assert_eq!(refused(true, false, "1", "abcdefgh"), Some(StoreError::ParseError));
    assert_eq!(refused(true, true, "", "abcdefgh"), Some(StoreError::ParseError));
    assert_eq!(refused(true, true, "1", "abcdefg"), Some(StoreError::ParseError));
    let unset = DatabaseConfig::load(None, false, None, false, Some(text("p")), None, None).unwrap();
    assert_eq!(unset.sync_with_remotes(), 2);
    assert_eq!(unset.store_path(), &Some(text("p")));
}
