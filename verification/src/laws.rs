//! What holds of the pipeline as a whole: laws that relate several of its
//! functions, each stated over the values that their contracts speak of.

use vstd::prelude::*;
use crate::digest::hash_of;
use crate::graph::GraphView;
use crate::mutation::{lemma_parse_encoded, MutationView};
use crate::mutations_log::LogState;
use crate::mutations_log_store::{scan_of, LogView};
use crate::remotes::{gossiped, outcome_of, FlatView, PeersView, QuorumOutcome};
use crate::server::{decodable, decoded_log, encoded_log};

verus! {

/// A mutation applied twice in a row leaves the graph as applying it once
/// does: the second time the graph turns it down.
pub proof fn lemma_apply_twice(graph: GraphView, m: MutationView)
    ensures
        graph.apply(m).apply(m) == graph.apply(m),
{
    if graph.rejects(m).is_none() {
        let after = graph.apply(m);
        match m {
            MutationView::AddNode(key, node) => {
                assert(after.nodes.contains_key(key));
            },
            MutationView::RemoveNode(key) => {
                assert(!after.nodes.contains_key(key));
            },
            MutationView::AddEdge(from, to, edge) => {
                assert(after.edges.contains_key((from, to)));
            },
            MutationView::RemoveEdge(from, to) => {
                assert(!after.edges.contains_key((from, to)));
            },
        }
        assert(after.rejects(m).is_some());
    }
}

/// A mutation leaves a valid graph valid: every edge still joins two nodes
/// of the graph.
pub proof fn lemma_apply_valid(graph: GraphView, m: MutationView)
    requires
        graph.valid(),
    ensures
        graph.apply(m).valid(),
{
    let after = graph.apply(m);
    if graph.rejects(m).is_none() {
        match m {
            MutationView::AddNode(key, node) => {},
            MutationView::RemoveNode(key) => {
                let kept = Set::new(|p: (Seq<u8>, Seq<u8>)| p.0 != key && p.1 != key);
                assert(after.edges.dom() =~= graph.edges.dom().intersect(kept));
                vstd::set_lib::lemma_len_intersect(graph.edges.dom(), kept);
            },
            MutationView::AddEdge(from, to, edge) => {},
            MutationView::RemoveEdge(from, to) => {},
        }
    }
}

/// The same mutation received twice under the same hash leaves the node as
/// receiving it once does: the log, the graph and the pending set.
pub proof fn lemma_commit_twice(state: LogState, entry: (Seq<char>, MutationView))
    ensures
        state.commit(entry).commit(entry) == state.commit(entry),
{
    let once = state.commit(entry);
    let twice = once.commit(entry);
    lemma_apply_twice(state.graph, entry.1);
    assert(twice.log =~= once.log);
    assert(twice.pending =~= once.pending);
}

/// A committed entry is committed in the log, whatever the graph answered,
/// and every scan of the log returns it: its hash with its mutation.
pub proof fn lemma_committed_is_read_back(
    state: LogState,
    entry: (Seq<char>, MutationView),
    scan: Seq<(Seq<char>, MutationView)>,
)
    requires
        scan_of(scan, state.commit(entry).log),
    ensures
        state.commit(entry).committed(entry.0),
        scan.contains(entry),
{
    let log = state.commit(entry).log;
    assert(log.contains_key(entry.0));
    let i = choose|i: int| 0 <= i < scan.len() && scan[i].0 == entry.0;
    assert(log[scan[i].0].0 == scan[i].1);
    assert(scan[i] == entry);
}

/// A log that is written to the wire and read back is the same log: each
/// entry keeps its hash and its mutation.
pub proof fn lemma_log_round_trip(entries: Seq<(Seq<char>, MutationView)>)
    requires
        forall|i: int| 0 <= i < entries.len() ==> (#[trigger] entries[i]).1.framable(),
    ensures
        decodable(encoded_log(entries)),
        decoded_log(encoded_log(entries)) == entries,
{
    let wire = encoded_log(entries);
    assert forall|i: int| 0 <= i < wire.len() implies crate::mutation::parse_mutation(
        (#[trigger] wire[i]).1,
    ) == Some(entries[i].1) by {
        lemma_parse_encoded(entries[i].1);
    }
    assert(decoded_log(wire) =~= entries);
}

/// The hash of a mutation depends on the tag of the proposing node and on
/// the mutation alone, and begins with the tag.
pub proof fn lemma_hash_stable(
    first_tag: Seq<char>,
    second_tag: Seq<char>,
    first: MutationView,
    second: MutationView,
)
    requires
        first_tag == second_tag,
        first == second,
    ensures
        hash_of(first_tag, first) == hash_of(second_tag, second),
        hash_of(first_tag, first).subrange(0, first_tag.len() as int) == first_tag,
{
    assert(hash_of(first_tag, first).subrange(0, first_tag.len() as int) =~= first_tag);
}

/// The same gossip message taken in twice leaves the table of peers as
/// taking it in once does.
pub proof fn lemma_gossip_twice(peers: PeersView, from: Seq<char>, view: FlatView, connected: bool)
    ensures
        gossiped(gossiped(peers, from, view, connected), from, view, connected) == gossiped(
            peers,
            from,
            view,
            connected,
        ),
{
    let once = gossiped(peers, from, view, connected);
    let twice = gossiped(once, from, view, connected);
    assert(twice =~= once);
}

/// With no peer sampled a mutation counts as replicated.
pub proof fn lemma_no_peers_replicated()
    ensures
        outcome_of(Seq::<Result<(), crate::error::StoreError>>::empty())
            == QuorumOutcome::NoPeersAvailable,
        QuorumOutcome::NoPeersAvailable.replicated(),
{
}

/// An entry can be appended once only, and committed as often as it comes:
/// after an append the log holds the hash, so that a second append is
/// refused, and a commit leaves the entry committed whether the log held
/// the hash or not.
pub proof fn lemma_append_once_commit_often(
    log: LogView,
    hash: Seq<char>,
    m: MutationView,
)
    ensures
        log.insert(hash, (m, false)).contains_key(hash),
        log.insert(hash, (m, true)).contains_key(hash),
        log.insert(hash, (m, true))[hash].1,
        log.insert(hash, (m, false)).insert(hash, (m, true)) == log.insert(hash, (m, true)),
{
    assert(log.insert(hash, (m, false)).insert(hash, (m, true)) =~= log.insert(hash, (m, true)));
}

/// A replayed entry is committed, and what was committed stays committed.
pub proof fn lemma_replay_commits(
    state: LogState,
    entry: (Seq<char>, MutationView),
    hash: Seq<char>,
)
    ensures
        state.replay(entry).committed(entry.0),
        state.committed(hash) ==> state.replay(entry).committed(hash),
{
}

/// After a log was replayed each of its entries is committed, and so is
/// whatever was committed before.
pub proof fn lemma_replay_all_commits(
    state: LogState,
    entries: Seq<(Seq<char>, MutationView)>,
    hash: Seq<char>,
)
    ensures
        state.committed(hash) ==> state.replay_all(entries).committed(hash),
        (exists|i: int| 0 <= i < entries.len() && entries[i].0 == hash) ==> state.replay_all(
            entries,
        ).committed(hash),
    decreases entries.len(),
{
    if entries.len() > 0 {
        let front = entries.drop_last();
        lemma_replay_all_commits(state, front, hash);
        lemma_replay_commits(state.replay_all(front), entries.last(), hash);
        if exists|i: int| 0 <= i < entries.len() && entries[i].0 == hash {
            let i = choose|i: int| 0 <= i < entries.len() && entries[i].0 == hash;
            if i < front.len() {
                assert(front[i].0 == hash);
            }
        }
    }
}

/// Entries that are all committed are passed over: replaying them changes
/// nothing.
pub proof fn lemma_replay_settled(state: LogState, entries: Seq<(Seq<char>, MutationView)>)
    requires
        forall|i: int| 0 <= i < entries.len() ==> state.committed((#[trigger] entries[i]).0),
    ensures
        state.replay_all(entries) == state,
    decreases entries.len(),
{
    if entries.len() > 0 {
        let front = entries.drop_last();
        assert forall|i: int| 0 <= i < front.len() implies state.committed(
            (#[trigger] front[i]).0,
        ) by {
            assert(front[i] == entries[i]);
        }
        lemma_replay_settled(state, front);
        assert(state.committed(entries[entries.len() - 1].0));
    }
}

/// Catching up twice with the same log is as catching up once: the second
/// time every entry is committed and is passed over.
pub proof fn lemma_replay_twice(state: LogState, entries: Seq<(Seq<char>, MutationView)>)
    ensures
        state.replay_all(entries).replay_all(entries) == state.replay_all(entries),
{
    let once = state.replay_all(entries);
    assert forall|i: int| 0 <= i < entries.len() implies once.committed(
        (#[trigger] entries[i]).0,
    ) by {
        lemma_replay_all_commits(state, entries, entries[i].0);
    }
    lemma_replay_settled(once, entries);
}

} // verus!
