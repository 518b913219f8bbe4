//! The peers of a node, and the choice of the peers to which a mutation is
//! handed.
//!
//! For each peer the table holds what the peer last said of its own peers,
//! or the error with which the last exchange with it ended.  A peer counts
//! as reachable while the table holds a view for it.  A mutation is handed
//! to a random sample of the reachable peers, as many as the replication
//! factor asks for or all of them where there are fewer, and counts as
//! replicated when every one of the sample has acknowledged it.  With no
//! reachable peer the sample is empty and the mutation counts as replicated.

use vstd::prelude::*;
use vstd::string::StringExecFns;
use rand::seq::SliceRandom;
use crate::error::StoreError;
use crate::mutation::MutationView;
use crate::mutations_log_store::{entry_views, MutationsLogMutation};
use crate::sorting::{sort_log, sorted_log_of};
use crate::text::{decimal, decimal_of};

verus! {

/// What a node says of its peers: for each address whether the node
/// reaches it.
pub type FlatView = Seq<(Seq<char>, bool)>;

/// The peers of a node as a mathematical value: under each address the view
/// that the peer gave, or the error of the last exchange.
pub type PeersView = Map<Seq<char>, Result<FlatView, StoreError>>;

/// A list of addresses with flags, as a mathematical value.
pub open spec fn flat_of(list: Seq<(String, bool)>) -> FlatView {
    Seq::new(list.len(), |i: int| (list[i].0@, list[i].1))
}

/// A list of addresses, as a mathematical value.
pub open spec fn texts_of(list: Seq<String>) -> Seq<Seq<char>> {
    Seq::new(list.len(), |i: int| list[i]@)
}

/// What an exchange with a peer left, as a mathematical value.
pub open spec fn log_of(remotes_log: Result<Vec<(String, bool)>, StoreError>) -> Result<
    FlatView,
    StoreError,
> {
    match remotes_log {
        Ok(list) => Ok(flat_of(list@)),
        Err(e) => Err(e),
    }
}

/// The gossip message: who sends it, and what the sender says of its peers.
#[derive(Debug)]
pub struct SyncRemotesMessage {
    pub from: String,
    pub flat_remotes_log: Vec<(String, bool)>,
}

/// The message that starts the first exchange with the peers.
#[derive(Debug)]
pub struct InitializeRemotes {
    pub initial_addresses: Vec<String>,
    pub server_address: String,
}

/// One peer in the table.
#[derive(Debug)]
pub struct RemotesEntry {
    pub address: String,
    pub remotes_log: Result<Vec<(String, bool)>, StoreError>,
}

/// Some entry stands under `address`.
pub open spec fn has_peer(entries: Seq<RemotesEntry>, address: Seq<char>) -> bool {
    exists|i: int| 0 <= i < entries.len() && entries[i].address@ == address
}

/// The place of an entry under `address`.
pub open spec fn peer_at(entries: Seq<RemotesEntry>, address: Seq<char>) -> int {
    choose|i: int| 0 <= i < entries.len() && entries[i].address@ == address
}

/// The entries read as a map from addresses.
pub open spec fn peers_of(entries: Seq<RemotesEntry>) -> PeersView {
    Map::new(
        |a: Seq<char>| has_peer(entries, a),
        |a: Seq<char>| log_of(entries[peer_at(entries, a)].remotes_log),
    )
}

/// The table after a gossip message from `from`: the sender stands in it
/// with the view that it sent, if it stood there before or could be
/// reached now; otherwise the table is as it was.
pub open spec fn gossiped(peers: PeersView, from: Seq<char>, view: FlatView, connected: bool) -> PeersView {
    if peers.contains_key(from) || connected {
        peers.insert(from, Ok(view))
    } else {
        peers
    }
}

/// `flat` says of every peer in the table, once, whether it is reachable.
pub open spec fn flat_view_of(flat: FlatView, peers: PeersView) -> bool {
    &&& forall|i: int|
        0 <= i < flat.len() ==> peers.contains_key((#[trigger] flat[i]).0) && flat[i].1
            == peers[flat[i].0].is_ok()
    &&& forall|i: int, j: int| 0 <= i < j < flat.len() ==> flat[i].0 != flat[j].0
    &&& forall|a: Seq<char>|
        peers.contains_key(a) ==> exists|i: int| 0 <= i < flat.len() && flat[i].0 == a
}

/// The peer under `address` is in the table and reachable.
pub open spec fn reachable_in(peers: PeersView, address: Seq<char>) -> bool {
    peers.contains_key(address) && peers[address].is_ok()
}

/// `list` names every reachable peer once.
pub open spec fn lists_reachable(list: Seq<Seq<char>>, peers: PeersView) -> bool {
    &&& list.no_duplicates()
    &&& forall|i: int| 0 <= i < list.len() ==> reachable_in(peers, #[trigger] list[i])
    &&& forall|a: Seq<char>| reachable_in(peers, a) ==> list.contains(a)
}

/// The reachable peers of a table.
pub open spec fn reachable_set(peers: PeersView) -> Set<Seq<char>> {
    Set::new(|a: Seq<char>| reachable_in(peers, a))
}

/// `chosen` holds the candidates at `places`, which are as many different
/// places as were asked for, or as there are candidates where that is less.
pub open spec fn chosen_at(
    candidates: Seq<Seq<char>>,
    amount: int,
    chosen: Seq<Seq<char>>,
    places: Seq<int>,
) -> bool {
    &&& places.len() == chosen.len()
    &&& chosen.len() == if amount <= candidates.len() {
        amount
    } else {
        candidates.len() as int
    }
    &&& places.no_duplicates()
    &&& forall|i: int|
        0 <= i < places.len() ==> 0 <= #[trigger] places[i] < candidates.len() && chosen[i]
            == candidates[places[i]]
}

/// `SliceRandom::choose_multiple` of `rand`, with the generator of the
/// thread: copies of `amount` candidates from different places, or of all
/// of them where there are fewer.  Which places, and in which order, is left
/// to chance; the crate draws them uniformly, which no clause here says.
#[verifier::external_body]
fn choose_multiple(candidates: &Vec<String>, amount: usize) -> (chosen: Vec<String>)
    ensures
        exists|places: Seq<int>|
            chosen_at(texts_of(candidates@), amount as int, texts_of(chosen@), places),
{
    candidates.choose_multiple(&mut rand::thread_rng(), amount).cloned().collect()
}

/// How the sampled peers answered.
#[derive(Debug, Clone, Copy, PartialEq, Eq)]
pub enum QuorumOutcome {
    /// Every sampled peer acknowledged.
    AllAcked,
    /// Only so many of so many sampled peers acknowledged.
    PartialAcked(usize, usize),
    /// No peer was sampled, because none is reachable.
    NoPeersAvailable,
}

/// How many of the answers are acknowledgements.
pub open spec fn acked(acks: Seq<Result<(), StoreError>>) -> nat
    decreases acks.len(),
{
    if acks.len() == 0 {
        0
    } else {
        acked(acks.drop_last()) + if acks.last().is_ok() {
            1nat
        } else {
            0nat
        }
    }
}

/// The outcome of a round of answers.
pub open spec fn outcome_of(acks: Seq<Result<(), StoreError>>) -> QuorumOutcome {
    if acks.len() == 0 {
        QuorumOutcome::NoPeersAvailable
    } else if acked(acks) == acks.len() {
        QuorumOutcome::AllAcked
    } else {
        QuorumOutcome::PartialAcked(acked(acks) as usize, acks.len() as usize)
    }
}

/// No more answers acknowledge than there are, and all do exactly where
/// each does.
pub proof fn lemma_acked(acks: Seq<Result<(), StoreError>>)
    ensures
        acked(acks) <= acks.len(),
        acked(acks) == acks.len() <==> forall|i: int| 0 <= i < acks.len() ==> acks[i].is_ok(),
    decreases acks.len(),
{
    if acks.len() > 0 {
        let front = acks.drop_last();
        lemma_acked(front);
        if acked(acks) == acks.len() {
            assert forall|i: int| 0 <= i < acks.len() implies acks[i].is_ok() by {
                if i < front.len() {
                    assert(front[i] == acks[i]);
                }
            }
        }
        if forall|i: int| 0 <= i < acks.len() ==> acks[i].is_ok() {
            assert forall|i: int| 0 <= i < front.len() implies front[i].is_ok() by {
                assert(front[i] == acks[i]);
            }
        }
    }
}

impl QuorumOutcome {
    /// The mutation counts as replicated: every sampled peer acknowledged,
    /// or there was none to sample.
    pub open spec fn replicated(self) -> bool {
        !(self is PartialAcked)
    }

    /// What the text of the error says: how many of how many peers
    /// acknowledged.
    pub open spec fn shortfall(acknowledged: nat, sampled: nat) -> Seq<char> {
        "acknowledged by "@ + decimal_of(acknowledged) + " of "@ + decimal_of(sampled)
            + " sampled peers"@
    }

    /// The outcome of a round of answers, one from each sampled peer.
    pub fn tally(acks: &Vec<Result<(), StoreError>>) -> (outcome: QuorumOutcome)
        ensures
            outcome == outcome_of(acks@),
    {
        let mut count: usize = 0;
        let mut i: usize = 0;
        while i < acks.len()
            invariant
                i <= acks.len(),
                count == acked(acks@.subrange(0, i as int)),
                count <= i,
            decreases acks.len() - i,
        {
            proof {
                let upto = acks@.subrange(0, i + 1);
                assert(upto.drop_last() =~= acks@.subrange(0, i as int));
                assert(upto.last() == acks@[i as int]);
            }
            if acks[i].is_ok() {
                count += 1;
            }
            i += 1;
        }
        assert(acks@.subrange(0, acks.len() as int) =~= acks@);
        if acks.len() == 0 {
            QuorumOutcome::NoPeersAvailable
        } else if count == acks.len() {
            QuorumOutcome::AllAcked
        } else {
            QuorumOutcome::PartialAcked(count, acks.len())
        }
    }

    /// `Ok` where the mutation counts as replicated; otherwise `SyncError`
    /// with a text that says how many peers acknowledged.
    pub fn into_result(self) -> (replicated: Result<(), StoreError>)
        ensures
            match self {
                QuorumOutcome::PartialAcked(acknowledged, sampled) => replicated matches Err(
                    StoreError::SyncError(text),
                ) && text@ == QuorumOutcome::shortfall(acknowledged as nat, sampled as nat),
                _ => replicated.is_ok(),
            },
    {
        match self {
            QuorumOutcome::PartialAcked(acknowledged, sampled) => {
                let mut text = String::from_str("acknowledged by ");
                text.append(decimal(acknowledged as u64).as_str());
                text.append(" of ");
                text.append(decimal(sampled as u64).as_str());
                text.append(" sampled peers");
                Err(StoreError::SyncError(text))
            },
            _ => Ok(()),
        }
    }
}

/// The entries of several logs, one log after the other.
pub open spec fn joined(logs: Seq<Seq<(Seq<char>, MutationView)>>) -> Seq<(Seq<char>, MutationView)>
    decreases logs.len(),
{
    if logs.len() == 0 {
        Seq::empty()
    } else {
        joined(logs.drop_last()) + logs.last()
    }
}

/// The logs that the peers sent, as mathematical values; a peer that sent
/// an error counts as an empty log.
pub open spec fn logs_of(replies: Seq<Result<Vec<MutationsLogMutation>, StoreError>>) -> Seq<
    Seq<(Seq<char>, MutationView)>,
> {
    Seq::new(
        replies.len(),
        |i: int|
            match replies[i] {
                Ok(log) => entry_views(log@),
                Err(_) => Seq::empty(),
            },
    )
}

/// The table that the answers to the first exchange make: each peer that
/// answered, with what it answered; of two answers under one address the
/// later.
pub open spec fn installed(
    replies: Seq<(String, Result<Vec<(String, bool)>, StoreError>)>,
) -> PeersView
    decreases replies.len(),
{
    if replies.len() == 0 {
        PeersView::empty()
    } else {
        installed(replies.drop_last()).insert(replies.last().0@, log_of(replies.last().1))
    }
}

impl InitializeRemotes {
    /// The gossip message of the first exchange: it comes from this node
    /// and names as reachable every peer that could be dialled.
    pub fn announcement(&self, connected: &Vec<String>) -> (msg: SyncRemotesMessage)
        ensures
            msg.from@ == self.server_address@,
            flat_of(msg.flat_remotes_log@) == Seq::new(
                connected.len() as nat,
                |i: int| (connected[i]@, true),
            ),
    {
        let mut flat: Vec<(String, bool)> = Vec::new();
        let mut i: usize = 0;
        while i < connected.len()
            invariant
                i <= connected.len(),
                flat.len() == i,
                forall|j: int| 0 <= j < i ==> (#[trigger] flat[j]).0@ == connected[j]@ && flat[j].1,
            decreases connected.len() - i,
        {
            flat.push((connected[i].clone(), true));
            i += 1;
        }
        assert(flat_of(flat@) =~= Seq::new(connected.len() as nat, |i: int| (connected[i]@, true)));
        SyncRemotesMessage { from: self.server_address.clone(), flat_remotes_log: flat }
    }
}

/// A copy of a list of addresses with flags.
pub fn flat_copy(list: &Vec<(String, bool)>) -> (copy: Vec<(String, bool)>)
    ensures
        flat_of(copy@) == flat_of(list@),
{
    let mut copy: Vec<(String, bool)> = Vec::new();
    let mut i: usize = 0;
    while i < list.len()
        invariant
            i <= list.len(),
            copy.len() == i,
            forall|j: int| 0 <= j < i ==> copy[j].0@ == list[j].0@ && copy[j].1 == list[j].1,
        decreases list.len() - i,
    {
        copy.push((list[i].0.clone(), list[i].1));
        i += 1;
    }
    assert(flat_of(copy@) =~= flat_of(list@));
    copy
}

/// A copy of what an exchange with a peer left.
pub fn log_copy(remotes_log: &Result<Vec<(String, bool)>, StoreError>) -> (copy: Result<
    Vec<(String, bool)>,
    StoreError,
>)
    ensures
        log_of(copy) == log_of(*remotes_log),
{
    match remotes_log {
        Ok(list) => Ok(flat_copy(list)),
        Err(e) => Err(e.clone()),
    }
}

/// The peers of a node.
#[derive(Debug)]
pub struct Remotes {
    remotes: Vec<RemotesEntry>,
    sync_with_n: usize,
}

impl View for Remotes {
    type V = PeersView;

    closed spec fn view(&self) -> PeersView {
        peers_of(self.remotes@)
    }
}

impl Remotes {
    /// No address stands in the table twice.
    pub closed spec fn wf(&self) -> bool {
        forall|i: int, j: int|
            0 <= i < j < self.remotes.len() ==> self.remotes[i].address@ != self.remotes[j].address@
    }

    /// The replication factor: to how many peers a mutation is handed at
    /// most.
    pub closed spec fn factor(&self) -> nat {
        self.sync_with_n as nat
    }

    /// A table without peers.
    pub fn new(sync_with_n: usize) -> (remotes: Remotes)
        ensures
            remotes.wf(),
            remotes@ == PeersView::empty(),
            remotes.factor() == sync_with_n,
    {
        let remotes = Remotes { remotes: Vec::new(), sync_with_n };
        assert(remotes@ =~= PeersView::empty());
        remotes
    }

    /// The place of the entry under `address`.
    fn position(&self, address: &String) -> (found: Option<usize>)
        requires
            self.wf(),
        ensures
            match found {
                Some(i) => {
                    &&& i < self.remotes.len()
                    &&& self.remotes[i as int].address@ == address@
                    &&& self@.contains_key(address@)
                    &&& self@[address@] == log_of(self.remotes[i as int].remotes_log)
                },
                None => !self@.contains_key(address@),
            },
    {
        let mut i: usize = 0;
        while i < self.remotes.len()
            invariant
                self.wf(),
                i <= self.remotes.len(),
                forall|j: int| 0 <= j < i ==> self.remotes[j].address@ != address@,
            decreases self.remotes.len() - i,
        {
            if self.remotes[i].address == *address {
                assert(has_peer(self.remotes@, address@));
                assert(peer_at(self.remotes@, address@) == i);
                return Some(i);
            }
            i += 1;
        }
        None
    }

    /// Whether the table holds a peer under `address`.  A sender that it
    /// does not hold has to be dialled before its message is handled.
    pub fn knows(&self, address: &String) -> (known: bool)
        requires
            self.wf(),
        ensures
            known == self@.contains_key(address@),
    {
        self.position(address).is_some()
    }

    /// Puts a peer in the table, in place of the entry under its address if
    /// there was one.
    pub fn put(&mut self, address: String, remotes_log: Result<Vec<(String, bool)>, StoreError>)
        requires
            old(self).wf(),
        ensures
            final(self).wf(),
            final(self).factor() == old(self).factor(),
            final(self)@ == old(self)@.insert(address@, log_of(remotes_log)),
    {
        let ghost before = self.remotes@;
        let ghost value = log_of(remotes_log);
        match self.position(&address) {
            Some(i) => {
                self.remotes.set(i, RemotesEntry { address, remotes_log });
                proof {
                    let after = self.remotes@;
                    assert forall|a: Seq<char>| has_peer(after, a) <==> has_peer(before, a) by {
                        if has_peer(after, a) {
                            let j = peer_at(after, a);
                            assert(before[j].address@ == a);
                        }
                        if has_peer(before, a) {
                            let j = peer_at(before, a);
                            assert(after[j].address@ == a);
                        }
                    }
                    assert forall|a: Seq<char>| has_peer(after, a) implies peers_of(after)[a]
                        == peers_of(before).insert(address@, value)[a] by {
                        let j = peer_at(after, a);
                        let k = peer_at(before, a);
                        assert(before[j].address@ == a);
                        assert(j == k);
                    }
                    assert(peers_of(after) =~= peers_of(before).insert(address@, value));
                }
            },
            None => {
                self.remotes.push(RemotesEntry { address, remotes_log });
                proof {
                    let after = self.remotes@;
                    let last = after.len() - 1;
                    assert forall|a: Seq<char>| has_peer(after, a) <==> (has_peer(before, a) || a
                        == address@) by {
                        if has_peer(after, a) {
                            let j = peer_at(after, a);
                            if j < last {
                                assert(before[j].address@ == a);
                            }
                        }
                        if has_peer(before, a) {
                            let j = peer_at(before, a);
                            assert(after[j].address@ == a);
                        }
                        if a == address@ {
                            assert(after[last].address@ == a);
                        }
                    }
                    assert forall|a: Seq<char>| has_peer(after, a) implies peers_of(after)[a]
                        == peers_of(before).insert(address@, value)[a] by {
                        let j = peer_at(after, a);
                        if a != address@ {
                            let k = peer_at(before, a);
                            assert(after[k].address@ == a);
                            assert(j == k);
                        } else {
                            assert(after[last].address@ == a);
                            assert(j == last);
                        }
                    }
                    assert(peers_of(after) =~= peers_of(before).insert(address@, value));
                }
            },
        }
    }

    /// What this node says of its peers: each address once, with whether
    /// the peer is reachable.
    pub fn flat_remotes_log(&self) -> (flat: Vec<(String, bool)>)
        requires
            self.wf(),
        ensures
            flat_view_of(flat_of(flat@), self@),
    {
        let mut flat: Vec<(String, bool)> = Vec::new();
        let mut i: usize = 0;
        while i < self.remotes.len()
            invariant
                i <= self.remotes.len(),
                flat.len() == i,
                forall|j: int|
                    0 <= j < i ==> (#[trigger] flat[j]).0@ == self.remotes[j].address@ && flat[j].1
                        == self.remotes[j].remotes_log.is_ok(),
            decreases self.remotes.len() - i,
        {
            flat.push((self.remotes[i].address.clone(), self.remotes[i].remotes_log.is_ok()));
            i += 1;
        }
        proof {
            let entries = self.remotes@;
            let view = flat_of(flat@);
            assert forall|j: int| 0 <= j < view.len() implies self@.contains_key(
                (#[trigger] view[j]).0,
            ) && view[j].1 == self@[view[j].0].is_ok() by {
                assert(flat[j].0@ == entries[j].address@);
                assert(has_peer(entries, entries[j].address@));
                assert(peer_at(entries, entries[j].address@) == j);
            }
            assert forall|j: int, k: int| 0 <= j < k < view.len() implies view[j].0
                != view[k].0 by {
                assert(flat[j].0@ == entries[j].address@);
                assert(flat[k].0@ == entries[k].address@);
            }
            assert forall|a: Seq<char>| self@.contains_key(a) implies exists|j: int|
                0 <= j < view.len() && view[j].0 == a by {
                let j = peer_at(entries, a);
                assert(flat[j].0@ == entries[j].address@);
                assert(view[j].0 == a);
            }
        }
        flat
    }

    /// Takes in a gossip message.  The sender stands in the table with the
    /// view that it sent, if it stood there before or if `connected` says
    /// that it could be dialled; an unknown sender that cannot be dialled
    /// is left out.  The answer is what this node then says of its peers.
    pub fn handle(&mut self, msg: SyncRemotesMessage, connected: bool) -> (answer: Result<
        Vec<(String, bool)>,
        StoreError,
    >)
        requires
            old(self).wf(),
        ensures
            final(self).wf(),
            final(self).factor() == old(self).factor(),
            final(self)@ == gossiped(
                old(self)@,
                msg.from@,
                flat_of(msg.flat_remotes_log@),
                connected,
            ),
            answer matches Ok(flat) && flat_view_of(flat_of(flat@), final(self)@),
    {
        let SyncRemotesMessage { from, flat_remotes_log } = msg;
        if self.knows(&from) || connected {
            self.put(from, Ok(flat_remotes_log));
        }
        Ok(self.flat_remotes_log())
    }

    /// The addresses of the reachable peers, each once: to these a mutation
    /// is broadcast.
    pub fn reachable(&self) -> (list: Vec<String>)
        requires
            self.wf(),
        ensures
            lists_reachable(texts_of(list@), self@),
    {
        let ghost entries = self.remotes@;
        let mut list: Vec<String> = Vec::new();
        let ghost mut from: Seq<int> = Seq::empty();
        let mut i: usize = 0;
        while i < self.remotes.len()
            invariant
                self.wf(),
                entries == self.remotes@,
                i <= self.remotes.len(),
                from.len() == list.len(),
                forall|j: int|
                    0 <= j < from.len() ==> 0 <= #[trigger] from[j] < i && list[j]@
                        == entries[from[j]].address@ && entries[from[j]].remotes_log.is_ok(),
                forall|j: int, k: int| 0 <= j < k < from.len() ==> from[j] < from[k],
                forall|k: int|
                    0 <= k < i && (#[trigger] entries[k]).remotes_log.is_ok() ==> from.contains(k),
            decreases self.remotes.len() - i,
        {
            if self.remotes[i].remotes_log.is_ok() {
                list.push(self.remotes[i].address.clone());
                proof {
                    let ghost before = from;
                    from = from.push(i as int);
                    assert forall|k: int|
                        0 <= k < i + 1 && (#[trigger] entries[k]).remotes_log.is_ok() implies from.contains(
                        k,
                    ) by {
                        if k < i {
                            let j = choose|j: int| 0 <= j < before.len() && before[j] == k;
                            assert(from[j] == k);
                        } else {
                            assert(from[from.len() - 1] == k);
                        }
                    }
                }
            }
            i += 1;
        }
        proof {
            let names = texts_of(list@);
            assert forall|j: int| 0 <= j < names.len() implies reachable_in(
                self@,
                #[trigger] names[j],
            ) by {
                let k = from[j];
                assert(has_peer(entries, entries[k].address@));
                assert(peer_at(entries, entries[k].address@) == k);
            }
            assert forall|j: int, k: int|
                0 <= j < names.len() && 0 <= k < names.len() && j != k implies names[j]
                != names[k] by {
                if j < k {
                    assert(from[j] < from[k]);
                } else {
                    assert(from[k] < from[j]);
                }
            }
            assert forall|a: Seq<char>| reachable_in(self@, a) implies names.contains(a) by {
                let k = peer_at(entries, a);
                assert(entries[k].remotes_log.is_ok());
                let j = choose|j: int| 0 <= j < from.len() && from[j] == k;
                assert(names[j] == a);
            }
        }
        list
    }

    /// The addresses of all peers, each once: from these the logs are
    /// fetched at start.
    pub fn addresses(&self) -> (list: Vec<String>)
        requires
            self.wf(),
        ensures
            texts_of(list@).no_duplicates(),
            forall|a: Seq<char>| self@.contains_key(a) <==> texts_of(list@).contains(a),
    {
        let ghost entries = self.remotes@;
        let mut list: Vec<String> = Vec::new();
        let mut i: usize = 0;
        while i < self.remotes.len()
            invariant
                i <= self.remotes.len(),
                list.len() == i,
                forall|j: int| 0 <= j < i ==> (#[trigger] list[j])@ == self.remotes[j].address@,
            decreases self.remotes.len() - i,
        {
            list.push(self.remotes[i].address.clone());
            i += 1;
        }
        proof {
            let names = texts_of(list@);
            assert forall|j: int, k: int|
                0 <= j < names.len() && 0 <= k < names.len() && j != k implies names[j]
                != names[k] by {
                assert(list[j]@ == entries[j].address@);
                assert(list[k]@ == entries[k].address@);
            }
            assert forall|a: Seq<char>| self@.contains_key(a) <==> names.contains(a) by {
                if self@.contains_key(a) {
                    let j = peer_at(entries, a);
                    assert(list[j]@ == entries[j].address@);
                    assert(names[j] == a);
                }
                if names.contains(a) {
                    let j = choose|j: int| 0 <= j < names.len() && names[j] == a;
                    assert(list[j]@ == entries[j].address@);
                    assert(has_peer(entries, a));
                }
            }
        }
        list
    }

    /// The peers to which a mutation is handed for acknowledgement: a
    /// random sample of the reachable peers, as many as the replication
    /// factor or all of them where there are fewer, none of them twice.
    pub fn sample(&self) -> (chosen: Vec<String>)
        requires
            self.wf(),
        ensures
            texts_of(chosen@).no_duplicates(),
            forall|i: int|
                0 <= i < chosen.len() ==> reachable_in(self@, #[trigger] texts_of(chosen@)[i]),
            reachable_set(self@).finite(),
            chosen.len() == if self.factor() <= reachable_set(self@).len() {
                self.factor()
            } else {
                reachable_set(self@).len()
            },
    {
        let candidates = self.reachable();
        let chosen = choose_multiple(&candidates, self.sync_with_n);
        proof {
            let names = texts_of(candidates@);
            let picked = texts_of(chosen@);
            let places = choose|places: Seq<int>|
                chosen_at(names, self.sync_with_n as int, picked, places);
            assert forall|i: int, j: int|
                0 <= i < picked.len() && 0 <= j < picked.len() && i != j implies picked[i]
                != picked[j] by {
                assert(picked[i] == names[places[i]]);
                assert(picked[j] == names[places[j]]);
            }
            assert forall|i: int| 0 <= i < chosen.len() implies reachable_in(
                self@,
                #[trigger] picked[i],
            ) by {
                assert(picked[i] == names[places[i]]);
            }
            assert(names.to_set() =~= reachable_set(self@));
            names.unique_seq_to_set();
            vstd::seq_lib::seq_to_set_is_finite(names);
        }
        chosen
    }

    /// Whether a mutation counts as replicated after the sampled peers have
    /// answered: `Ok` where each of them acknowledged, also where none was
    /// sampled; otherwise `SyncError`.
    pub fn replicated(acks: &Vec<Result<(), StoreError>>) -> (replicated: Result<(), StoreError>)
        ensures
            replicated.is_ok() <==> forall|i: int| 0 <= i < acks.len() ==> acks[i].is_ok(),
            replicated matches Err(e) ==> e matches StoreError::SyncError(text) && text@
                == QuorumOutcome::shortfall(acked(acks@), acks.len() as nat),
    {
        proof {
            lemma_acked(acks@);
        }
        QuorumOutcome::tally(acks).into_result()
    }

    /// Makes the table anew from the answers to the first exchange.
    pub fn install(&mut self, replies: &Vec<(String, Result<Vec<(String, bool)>, StoreError>)>)
        requires
            old(self).wf(),
        ensures
            final(self).wf(),
            final(self).factor() == old(self).factor(),
            final(self)@ == installed(replies@),
    {
        self.remotes = Vec::new();
        assert(self@ =~= PeersView::empty());
        let mut i: usize = 0;
        while i < replies.len()
            invariant
                self.wf(),
                self.factor() == old(self).factor(),
                i <= replies.len(),
                self@ == installed(replies@.subrange(0, i as int)),
            decreases replies.len() - i,
        {
            proof {
                let upto = replies@.subrange(0, i + 1);
                assert(upto.drop_last() =~= replies@.subrange(0, i as int));
                assert(upto.last() == replies@[i as int]);
            }
            self.put(replies[i].0.clone(), log_copy(&replies[i].1));
            i += 1;
        }
        assert(replies@.subrange(0, replies.len() as int) =~= replies@);
    }

    /// The logs of the peers made into one: `Err` with the first error
    /// where a peer sent one; otherwise every entry that a peer sent, by
    /// rising hash, each hash once.
    pub fn merge_logs(replies: Vec<Result<Vec<MutationsLogMutation>, StoreError>>) -> (merged:
        Result<Vec<MutationsLogMutation>, StoreError>)
        ensures
            match merged {
                Ok(log) => {
                    &&& forall|i: int| 0 <= i < replies.len() ==> replies[i].is_ok()
                    &&& sorted_log_of(entry_views(log@), joined(logs_of(replies@)))
                },
                Err(e) => exists|i: int|
                    0 <= i < replies.len() && replies[i] == Err::<
                        Vec<MutationsLogMutation>,
                        StoreError,
                    >(e) && forall|j: int| 0 <= j < i ==> replies[j].is_ok(),
            },
    {
        let mut all: Vec<MutationsLogMutation> = Vec::new();
        let mut i: usize = 0;
        while i < replies.len()
            invariant
                i <= replies.len(),
                forall|j: int| 0 <= j < i ==> replies[j].is_ok(),
                entry_views(all@) == joined(logs_of(replies@).subrange(0, i as int)),
            decreases replies.len() - i,
        {
            let ghost before = entry_views(all@);
            match &replies[i] {
                Ok(log) => {
                    let mut k: usize = 0;
                    while k < log.len()
                        invariant
                            k <= log.len(),
                            entry_views(all@) == before + entry_views(log@).subrange(0, k as int),
                        decreases log.len() - k,
                    {
                        let ghost prev = entry_views(all@);
                        let ghost held = all@;
                        let copy = log[k].clone();
                        all.push(copy);
                        proof {
                            let now = entry_views(all@);
                            assert(now.len() == prev.len() + 1);
                            assert forall|j: int| 0 <= j < prev.len() implies now[j] == prev[j] by {
                                assert(all@[j] == held[j]);
                            }
                            assert(now[prev.len() as int] == log@[k as int]@);
                            assert(entry_views(log@)[k as int] == log@[k as int]@);
                            assert(now =~= before + entry_views(log@).subrange(0, k + 1));
                        }
                        k += 1;
                    }
                    proof {
                        assert(entry_views(log@).subrange(0, log.len() as int) =~= entry_views(
                            log@,
                        ));
                        let upto = logs_of(replies@).subrange(0, i + 1);
                        assert(upto.drop_last() =~= logs_of(replies@).subrange(0, i as int));
                        assert(upto.last() == entry_views(log@));
                    }
                },
                Err(e) => {
                    return Err(e.clone());
                },
            }
            i += 1;
        }
        assert(logs_of(replies@).subrange(0, replies.len() as int) =~= logs_of(replies@));
        Ok(sort_log(&all))
    }
}

} // verus!
