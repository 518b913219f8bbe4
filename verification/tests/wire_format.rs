use graph_db::digest::{hash_text, push_hex};
use graph_db::error::StoreError;
use graph_db::mutation::GraphMutation;
use graph_db::mutations_log_store::MutationsLogMutation;
use graph_db::server::{GraphMutationRequest, MutationsLogResponse};

fn samples() -> Vec<GraphMutation> {
    vec![
        GraphMutation::AddEdge((vec![1], vec![2, 2], vec![3, 3, 3])),
        GraphMutation::RemoveEdge((vec![], vec![9])),
        GraphMutation::AddNode((vec![1], vec![2, 3])),
        GraphMutation::RemoveNode(vec![0xff; 300]),
    ]
}

#[test]
fn add_node_is_written_as_tag_and_two_frames() {
    let bytes = GraphMutation::AddNode((vec![1], vec![2, 3])).encode();
    assert_eq!(
        bytes,
        vec![2, 0, 0, 0, 1, 0, 0, 0, 0, 0, 0, 0, 1, 2, 0, 0, 0, 0, 0, 0, 0, 2, 3]
    );
}

#[test]
fn each_variant_has_its_tag() {
    assert_eq!(GraphMutation::AddEdge((vec![], vec![], vec![])).encode()[..4], [0, 0, 0, 0]);
    assert_eq!(GraphMutation::RemoveEdge((vec![], vec![])).encode()[..4], [1, 0, 0, 0]);
    assert_eq!(GraphMutation::AddNode((vec![], vec![])).encode()[..4], [2, 0, 0, 0]);
    assert_eq!(
        GraphMutation::RemoveNode(vec![]).encode(),
        vec![3, 0, 0, 0, 0, 0, 0, 0, 0, 0, 0, 0]
    );
}

#[test]
fn decoding_undoes_encoding() {
    for m in samples() {
        let bytes = m.encode();
        assert_eq!(GraphMutation::decode(&bytes), Some(m.clone()));
        assert_eq!(GraphMutation::try_from(bytes.clone()), Ok(m.clone()));
        assert_eq!(m.try_into(), Ok(bytes));
    }
}

#[test]
fn encoding_undoes_decoding() {
    let bytes = vec![1, 0, 0, 0, 2, 0, 0, 0, 0, 0, 0, 0, 7, 8, 0, 0, 0, 0, 0, 0, 0, 0];
    let m = GraphMutation::decode(&bytes).unwrap();
    assert_eq!(m, GraphMutation::RemoveEdge((vec![7, 8], vec![])));
    assert_eq!(m.encode(), bytes);
}

#[test]
fn bytes_that_encode_nothing_are_refused() {
    let good = GraphMutation::AddNode((vec![1], vec![2, 3])).encode();
    let mut long = good.clone();
    long.push(0);
    let mut unknown = good.clone();
    unknown[0] = 4;
    let cases: Vec<Vec<u8>> = vec![
        vec![],
        vec![2, 0, 0],
        good[..good.len() - 1].to_vec(),
        good[..12].to_vec(),
        long,
        unknown,
        vec![3, 0, 0, 0, 255, 255, 255, 255, 255, 255, 255, 255],
    ];
    for bytes in cases {
        assert_eq!(GraphMutation::decode(&bytes), None);
        assert_eq!(
            GraphMutation::try_from(bytes),
            Err(StoreError::WriteLogError(String::new()))
        );
    }
}

#[test]
fn hex_is_lower_case_two_digits_per_byte() {
    let mut text = String::from("x");
    push_hex(&mut text, &[0x00, 0x0a, 0xab, 0xff, 0x10]);
    assert_eq!(text, "x000aabff10");
}

#[test]
fn the_hash_is_the_tag_and_the_md5_of_the_encoding() {
    for m in samples() {
        let expected = format!("node0001{:x}", md5::compute(m.encode()));
        let hash = m.get_hash("node0001");
        assert_eq!(hash, expected);
        assert_eq!(hash.len(), 40);
    }
    let empty = GraphMutation::RemoveNode(vec![]);
    assert_eq!(
        empty.get_hash("abcdefgh"),
        format!("abcdefgh{:x}", md5::compute([3u8, 0, 0, 0, 0, 0, 0, 0, 0, 0, 0, 0]))
    );
}

#[test]
fn the_hash_is_stable_and_tells_tags_and_mutations_apart() {
    let m = GraphMutation::AddNode((vec![1], vec![2]));
    let other = GraphMutation::AddNode((vec![1], vec![3]));
    assert_eq!(m.get_hash("aaaaaaaa"), m.clone().get_hash("aaaaaaaa"));
    assert_ne!(m.get_hash("aaaaaaaa"), m.get_hash("bbbbbbbb"));
    assert_ne!(m.get_hash("aaaaaaaa"), other.get_hash("aaaaaaaa"));
    assert_eq!(&m.get_hash("aaaaaaaa")[8..], &m.get_hash("bbbbbbbb")[8..]);
}

#[test]
fn an_entry_goes_into_a_request_and_back() {
    let m = GraphMutation::AddEdge((vec![1], vec![2], vec![3]));
    let entry = MutationsLogMutation { hash: "h".to_string(), mutation: m.clone() };
    let request = entry.try_into().unwrap();
    assert_eq!(request.hash, "h");
    assert_eq!(request.graph_mutation, m.encode());
    let back = MutationsLogMutation::try_from(request).unwrap();
    assert_eq!(back.hash, "h");
    assert_eq!(back.mutation, m);
}

#[test]
fn a_request_with_bad_bytes_is_a_serde_error() {
    let request = GraphMutationRequest { hash: "h".to_string(), graph_mutation: vec![9, 9] };
    assert_eq!(
        MutationsLogMutation::try_from(request).err(),
        Some(StoreError::Serde("bytes encode no mutation".to_string()))
    );
}

#[test]
fn a_log_goes_onto_the_wire_and_back() {
    let entries: Vec<MutationsLogMutation> = samples()
        .into_iter()
        .map(|m| MutationsLogMutation { hash: m.get_hash("node0001"), mutation: m })
        .collect();
    let response = MutationsLogResponse::from_log(&entries);
    assert_eq!(response.mutations_log.len(), 4);
    assert_eq!(response.mutations_log[2].0, entries[2].hash);
    assert_eq!(response.mutations_log[2].1, entries[2].mutation.encode());
    let back = response.into_log().unwrap();
    assert_eq!(back.len(), 4);
    for (a, b) in back.iter().zip(entries.iter()) {
        assert_eq!(a.hash, b.hash);
        assert_eq!(a.mutation, b.mutation);
    }
}

#[test]
fn a_log_with_a_bad_entry_is_a_parse_error() {
    let response = MutationsLogResponse {
        mutations_log: vec![
            ("a".to_string(), GraphMutation::RemoveNode(vec![1]).encode()),
            ("b".to_string(), vec![1, 2, 3]),
        ],
    };
    assert_eq!(response.into_log().err(), Some(StoreError::ParseError));
}

#[test]
fn errors_are_rendered_with_their_text() {
    assert_eq!(StoreError::NodeNotFound.to_string(), "NodeNotFound");
    assert_eq!(StoreError::ConflictDuplicateEdge.kind_name(), "ConflictDuplicateEdge");
    assert_eq!(StoreError::WriteLogError("dup".to_string()).to_string(), "WriteLogError: dup");
    assert_eq!(StoreError::Serde(String::new()).to_string(), "Serde: ");
    assert_eq!(StoreError::SyncError("x".to_string()).clone(), StoreError::SyncError("x".to_string()));
}

#[test]
fn a_hash_is_the_tag_and_the_digest_in_hex() {
    assert_eq!(hash_text("node0001", &[0xd4, 0x1d, 0x8c, 0xd9]), "node0001d41d8cd9");
    assert_eq!(hash_text("", &[]), "");
    assert_eq!(hash_text("t", &[0x0f; 16]).len(), 33);
}
