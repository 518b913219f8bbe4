//! The orchestrator of the mutation pipeline.
//!
//! A mutation that a caller proposes is hashed and appended to the log, not
//! yet committed.  The program then offers it to the peers.  Once the sampled
//! peers have all acknowledged, the entry is committed and applied to the
//! graph; where they have not, the caller gets the error and the entry stays
//! as it is, uncommitted and pending.  A mutation that a peer sends is
//! committed and applied at once.  At start the logs of the peers are
//! replayed in the order of hashes.

use vstd::prelude::*;
use crate::digest::hash_of;
use crate::error::StoreError;
use crate::graph::{Graph, GraphView};
use crate::mutation::{GraphMutation, MutationView};
use crate::mutations_log_store::{
    entry_views, scan_of, LogView, MutationsLogMutation, MutationsLogQuery, MutationsLogStore,
};
use crate::query::GraphResponse;
use crate::remotes::{
    acked, lists_reachable, reachable_in, reachable_set, texts_of, QuorumOutcome, Remotes,
};
use crate::sorting::{sort_log, sorted_log_of};

verus! {

/// The message that starts the catch-up at start.
#[derive(Debug, Clone, Copy, PartialEq, Eq)]
pub struct InitializeMutationsLog;

/// What the program has to do for a proposal that was taken up: send the
/// entry to every peer in `broadcast` without waiting, send it to every
/// peer in `quorum` and collect their answers.
#[derive(Debug)]
pub struct Replication {
    /// The entry that was appended to the log.
    pub entry: MutationsLogMutation,
    /// Every reachable peer, each once.
    pub broadcast: Vec<String>,
    /// The sample of reachable peers whose acknowledgement is awaited.
    pub quorum: Vec<String>,
}

/// What the orchestrator holds, as a mathematical value.
pub struct LogState {
    /// The graph.
    pub graph: GraphView,
    /// The log: under each hash the mutation and whether it is committed.
    pub log: LogView,
    /// The pending set: entries appended but not yet committed, and entries
    /// that the graph turned down during catch-up.
    pub pending: Map<Seq<char>, MutationView>,
}

impl LogState {
    /// The state after an entry was committed: the log holds it as
    /// committed, the graph has been asked to apply it, and it is pending
    /// no more.
    pub open spec fn commit(self, entry: (Seq<char>, MutationView)) -> LogState {
        LogState {
            graph: self.graph.apply(entry.1),
            log: self.log.insert(entry.0, (entry.1, true)),
            pending: self.pending.remove(entry.0),
        }
    }

    /// The state after an entry was appended on a proposal: the log holds it
    /// as uncommitted and it is pending.
    pub open spec fn append(self, entry: (Seq<char>, MutationView)) -> LogState {
        LogState {
            graph: self.graph,
            log: self.log.insert(entry.0, (entry.1, false)),
            pending: self.pending.insert(entry.0, entry.1),
        }
    }

    /// The log holds a committed entry under `hash`.
    pub open spec fn committed(self, hash: Seq<char>) -> bool {
        self.log.contains_key(hash) && self.log[hash].1
    }

    /// The state after one entry of a peer's log was replayed: an entry
    /// that the log holds as committed is passed over; any other is
    /// committed, and stays pending where the graph turns it down.
    pub open spec fn replay(self, entry: (Seq<char>, MutationView)) -> LogState {
        if self.committed(entry.0) {
            self
        } else if self.graph.rejects(entry.1).is_some() {
            LogState {
                graph: self.graph,
                log: self.log.insert(entry.0, (entry.1, true)),
                pending: self.pending.insert(entry.0, entry.1),
            }
        } else {
            self.commit(entry)
        }
    }

    /// The state after a sequence of entries was replayed, one after the
    /// other.
    pub open spec fn replay_all(self, entries: Seq<(Seq<char>, MutationView)>) -> LogState
        decreases entries.len(),
    {
        if entries.len() == 0 {
            self
        } else {
            self.replay_all(entries.drop_last()).replay(entries.last())
        }
    }
}

/// The orchestrator: the graph, the log and the pending set of one node.
pub struct MutationsLog {
    node_id: String,
    graph: Graph,
    mutations_log_store: MutationsLogStore,
    pending_mutations_log: MutationsLogStore,
    origin: Ghost<GraphView>,
    applied: Ghost<Seq<MutationView>>,
    settled: Ghost<Set<Seq<char>>>,
}

impl View for MutationsLog {
    type V = LogState;

    closed spec fn view(&self) -> LogState {
        LogState {
            graph: self.graph@,
            log: self.mutations_log_store@,
            pending: self.pending_mutations_log@.map_values(|row: (MutationView, bool)| row.0),
        }
    }
}

impl MutationsLog {
    /// The tag of this node, with which the hashes of its proposals begin.
    pub closed spec fn tag(&self) -> Seq<char> {
        self.node_id@
    }

    /// The graph with which this orchestrator was made.
    pub closed spec fn origin(&self) -> GraphView {
        self.origin@
    }

    /// The mutations that the graph was asked to apply since then, in order.
    pub closed spec fn applied(&self) -> Seq<MutationView> {
        self.applied@
    }

    /// The hashes that the log held as committed when this orchestrator was
    /// made.
    pub closed spec fn settled(&self) -> Set<Seq<char>> {
        self.settled@
    }

    /// The parts are well formed; the graph is what the applied mutations
    /// made of the graph at the start; and every entry that was committed
    /// since the start is among the applied mutations.
    pub closed spec fn wf(&self) -> bool {
        &&& self.graph.wf()
        &&& self.mutations_log_store.wf()
        &&& self.pending_mutations_log.wf()
        &&& self.graph@ == self.origin@.apply_all(self.applied@)
        &&& forall|h: Seq<char>| #[trigger]
            self.mutations_log_store@.contains_key(h) && self.mutations_log_store@[h].1
                ==> self.settled@.contains(h) || self.applied@.contains(
                self.mutations_log_store@[h].0,
            )
    }

    /// The graph reflects every committed entry: it is the graph of the
    /// start after a sequence of mutations among which the mutation of each
    /// entry committed since the start occurs.
    pub proof fn lemma_committed_applied(&self, hash: Seq<char>)
        requires
            self.wf(),
            self@.committed(hash),
            !self.settled().contains(hash),
        ensures
            self@.graph == self.origin().apply_all(self.applied()),
            self.applied().contains(self@.log[hash].0),
    {
    }

    /// An orchestrator over a graph and a log.
    pub fn new(node_id: String, graph: Graph, mutations_log_store: MutationsLogStore) -> (log:
        MutationsLog)
        requires
            graph.wf(),
            mutations_log_store.wf(),
        ensures
            log.wf(),
            log.tag() == node_id@,
            log@.graph == graph@,
            log@.log == mutations_log_store@,
            log@.pending == Map::<Seq<char>, MutationView>::empty(),
            log.origin() == graph@,
            log.applied() == Seq::<MutationView>::empty(),
            forall|h: Seq<char>| log.settled().contains(h) <==> log@.committed(h),
    {
        let ghost origin = graph@;
        let ghost settled = Set::new(
            |h: Seq<char>| mutations_log_store@.contains_key(h) && mutations_log_store@[h].1,
        );
        let log = MutationsLog {
            node_id,
            graph,
            mutations_log_store,
            pending_mutations_log: MutationsLogStore::new(),
            origin: Ghost(origin),
            applied: Ghost(Seq::empty()),
            settled: Ghost(settled),
        };
        assert(log@.pending =~= Map::<Seq<char>, MutationView>::empty());
        log
    }

    /// The graph, for questions.
    pub fn graph(&self) -> (graph: &Graph)
        requires
            self.wf(),
        ensures
            graph.wf(),
            graph@ == self@.graph,
    {
        &self.graph
    }

    /// Whether the log holds a committed entry under `hash`.
    pub fn is_committed(&self, hash: &String) -> (committed: bool)
        requires
            self.wf(),
        ensures
            committed == self@.committed(hash@),
    {
        self.mutations_log_store.is_committed(hash)
    }

    /// Whether an entry under `hash` is pending.
    pub fn is_pending(&self, hash: &String) -> (pending: bool)
        requires
            self.wf(),
        ensures
            pending == self@.pending.contains_key(hash@),
    {
        self.pending_mutations_log.contains(hash)
    }

    /// Takes up a mutation that a caller proposes: hashes it under the tag
    /// of this node and appends it to the log, uncommitted and pending.
    /// `WriteLogError` with the hash, and nothing changed, where the log
    /// holds an entry under that hash already.
    pub fn propose(&mut self, mutation: GraphMutation) -> (proposed: Result<
        MutationsLogMutation,
        StoreError,
    >)
        requires
            old(self).wf(),
        ensures
            final(self).wf(),
            final(self).tag() == old(self).tag(),
            final(self).origin() == old(self).origin(),
            final(self).applied() == old(self).applied(),
            final(self).settled() == old(self).settled(),
            match proposed {
                Ok(entry) => {
                    &&& entry@ == (hash_of(old(self).tag(), mutation@), mutation@)
                    &&& !old(self)@.log.contains_key(entry@.0)
                    &&& final(self)@ == old(self)@.append(entry@)
                },
                Err(e) => {
                    &&& old(self)@.log.contains_key(hash_of(old(self).tag(), mutation@))
                    &&& final(self)@ == old(self)@
                    &&& e matches StoreError::WriteLogError(h)
                    &&& h@ == hash_of(old(self).tag(), mutation@)
                },
            },
    {
        let hash = mutation.get_hash(self.node_id.as_str());
        self.mutations_log_store.append(hash.clone(), mutation.clone())?;
        self.pending_mutations_log.put(hash.clone(), mutation.clone(), false);
        proof {
            assert(self@.pending =~= old(self)@.pending.insert(hash@, mutation@));
        }
        Ok(MutationsLogMutation { hash, mutation })
    }

    /// Commits an entry in the log and applies its mutation to the graph.
    /// The answer is the graph's; the entry is committed whatever the graph
    /// answers.
    pub fn commit_mutation(
        mutations_log_store: &mut MutationsLogStore,
        graph: &mut Graph,
        graph_mutation_log_entry: MutationsLogMutation,
    ) -> (answer: Result<GraphResponse, StoreError>)
        requires
            old(mutations_log_store).wf(),
            old(graph).wf(),
        ensures
            final(mutations_log_store).wf(),
            final(graph).wf(),
            final(mutations_log_store)@ == old(mutations_log_store)@.insert(
                graph_mutation_log_entry.hash@,
                (graph_mutation_log_entry.mutation@, true),
            ),
            final(graph)@ == old(graph)@.apply(graph_mutation_log_entry.mutation@),
            match answer {
                Ok(response) => old(graph)@.rejects(graph_mutation_log_entry.mutation@).is_none()
                    && response@ == old(graph)@.reply(graph_mutation_log_entry.mutation@),
                Err(e) => old(graph)@.rejects(graph_mutation_log_entry.mutation@) == Some(e),
            },
    {
        let MutationsLogMutation { hash, mutation } = graph_mutation_log_entry;
        mutations_log_store.commit(hash, mutation.clone())?;
        graph.handle(mutation)
    }

    /// Commits an entry and applies it: what the node does with a mutation
    /// that a peer sends, and with its own once the peers have
    /// acknowledged.  The entry is pending no more, whatever the graph
    /// answers.
    pub fn handle(&mut self, msg: MutationsLogMutation) -> (answer: Result<
        GraphResponse,
        StoreError,
    >)
        requires
            old(self).wf(),
        ensures
            final(self).wf(),
            final(self).tag() == old(self).tag(),
            final(self).origin() == old(self).origin(),
            final(self).applied() == old(self).applied().push(msg.mutation@),
            final(self).settled() == old(self).settled(),
            final(self)@ == old(self)@.commit(msg@),
            final(self)@.committed(msg.hash@),
            match answer {
                Ok(response) => old(self)@.graph.rejects(msg.mutation@).is_none() && response@
                    == old(self)@.graph.reply(msg.mutation@),
                Err(e) => old(self)@.graph.rejects(msg.mutation@) == Some(e),
            },
    {
        let hash = msg.hash.clone();
        let ghost entry = msg@;
        let answer = Self::commit_mutation(&mut self.mutations_log_store, &mut self.graph, msg);
        self.pending_mutations_log.take(&hash);
        proof {
            self.applied@ = self.applied@.push(entry.1);
            let before = old(self).applied@;
            let after = self.applied@;
            assert(after.drop_last() =~= before);
            assert(after.last() == entry.1);
            assert(self@.pending =~= old(self)@.pending.remove(entry.0));
            assert forall|h: Seq<char>| #[trigger]
                self.mutations_log_store@.contains_key(h)
                    && self.mutations_log_store@[h].1 implies self.settled@.contains(h)
                || after.contains(self.mutations_log_store@[h].0) by {
                if h == entry.0 {
                    assert(after[after.len() - 1] == entry.1);
                } else {
                    assert(old(self).mutations_log_store@.contains_key(h));
                    if !self.settled@.contains(h) {
                        let m = old(self).mutations_log_store@[h].0;
                        let i = choose|i: int| 0 <= i < before.len() && before[i] == m;
                        assert(after[i] == m);
                    }
                }
            }
        }
        answer
    }

    /// Ends a proposal once the peers have answered.  Where they have all
    /// acknowledged, the entry is committed and applied, and the answer is
    /// the graph's.  Where they have not, the caller gets their error and
    /// nothing changes: the entry stays uncommitted and pending.
    pub fn complete(&mut self, entry: MutationsLogMutation, replicated: Result<(), StoreError>) -> (answer:
        Result<GraphResponse, StoreError>)
        requires
            old(self).wf(),
        ensures
            final(self).wf(),
            final(self).tag() == old(self).tag(),
            final(self).origin() == old(self).origin(),
            final(self).settled() == old(self).settled(),
            match replicated {
                Ok(_) => {
                    &&& final(self)@ == old(self)@.commit(entry@)
                    &&& final(self).applied() == old(self).applied().push(entry.mutation@)
                    &&& match answer {
                        Ok(response) => old(self)@.graph.rejects(entry.mutation@).is_none()
                            && response@ == old(self)@.graph.reply(entry.mutation@),
                        Err(e) => old(self)@.graph.rejects(entry.mutation@) == Some(e),
                    }
                },
                Err(e) => {
                    &&& final(self)@ == old(self)@
                    &&& final(self).applied() == old(self).applied()
                    &&& answer == Err::<GraphResponse, StoreError>(e)
                },
            },
            answer.is_ok() ==> final(self)@.committed(entry.hash@),
    {
        match replicated {
            Ok(_) => self.handle(entry),
            Err(e) => Err(e),
        }
    }

    /// Every entry of the log, each once.
    pub fn handle_query(&self, msg: MutationsLogQuery) -> (answer: Result<
        Vec<MutationsLogMutation>,
        StoreError,
    >)
        requires
            self.wf(),
        ensures
            answer matches Ok(entries) && scan_of(entry_views(entries@), self@.log),
    {
        self.mutations_log_store.handle_query(msg)
    }

    /// Replays one entry of a peer's log.
    fn replay(&mut self, entry: &MutationsLogMutation)
        requires
            old(self).wf(),
        ensures
            final(self).wf(),
            final(self).tag() == old(self).tag(),
            final(self).origin() == old(self).origin(),
            final(self).settled() == old(self).settled(),
            final(self)@ == old(self)@.replay(entry@),
    {
        if self.mutations_log_store.is_committed(&entry.hash) {
            return ;
        }
        let ghost before = self@;
        let answer = self.handle(entry.clone());
        if answer.is_err() {
            let ghost between = self@;
            assert(between.pending == before.pending.remove(entry@.0));
            self.pending_mutations_log.put(entry.hash.clone(), entry.mutation.clone(), false);
            proof {
                assert(self@.pending =~= between.pending.insert(entry@.0, entry@.1));
                assert(self@.pending =~= before.pending.insert(entry@.0, entry@.1));
            }
        }
    }

    /// Catches up with the logs of the peers at start: puts the entries in
    /// the order of hashes and replays them.  An entry that the log holds as
    /// committed is passed over; any other is committed, and stays pending
    /// where the graph turns it down.
    pub fn initialize(&mut self, _msg: InitializeMutationsLog, entries: Vec<MutationsLogMutation>) -> (done:
        Result<(), StoreError>)
        requires
            old(self).wf(),
        ensures
            final(self).wf(),
            final(self).tag() == old(self).tag(),
            final(self).origin() == old(self).origin(),
            final(self).settled() == old(self).settled(),
            done.is_ok(),
            exists|sorted: Seq<(Seq<char>, MutationView)>|
                sorted_log_of(sorted, entry_views(entries@)) && final(self)@ == old(
                    self,
                )@.replay_all(sorted),
    {
        let sorted = sort_log(&entries);
        let ghost views = entry_views(sorted@);
        let mut i: usize = 0;
        while i < sorted.len()
            invariant
                i <= sorted.len(),
                views == entry_views(sorted@),
                self.wf(),
                self.tag() == old(self).tag(),
                self.origin() == old(self).origin(),
                self.settled() == old(self).settled(),
                self@ == old(self)@.replay_all(views.subrange(0, i as int)),
            decreases sorted.len() - i,
        {
            self.replay(&sorted[i]);
            proof {
                let upto = views.subrange(0, i + 1);
                assert(upto.drop_last() =~= views.subrange(0, i as int));
                assert(upto.last() == sorted[i as int]@);
            }
            i += 1;
        }
        assert(views.subrange(0, sorted.len() as int) =~= views);
        Ok(())
    }

    /// Takes up a mutation that a caller proposes, and says to whom it goes:
    /// the entry is appended as `propose` appends it, every reachable peer
    /// is to get it, and a random sample of them, as many as the replication
    /// factor or all where there are fewer, is to acknowledge it.
    /// `WriteLogError`, and nothing changed, where the log holds the hash.
    pub fn replicate(&mut self, remotes: &Remotes, msg: GraphMutation) -> (plan: Result<
        Replication,
        StoreError,
    >)
        requires
            old(self).wf(),
            remotes.wf(),
        ensures
            final(self).wf(),
            final(self).tag() == old(self).tag(),
            final(self).origin() == old(self).origin(),
            final(self).applied() == old(self).applied(),
            final(self).settled() == old(self).settled(),
            match plan {
                Ok(r) => {
                    &&& r.entry@ == (hash_of(old(self).tag(), msg@), msg@)
                    &&& !old(self)@.log.contains_key(r.entry@.0)
                    &&& final(self)@ == old(self)@.append(r.entry@)
                    &&& lists_reachable(texts_of(r.broadcast@), remotes@)
                    &&& texts_of(r.quorum@).no_duplicates()
                    &&& forall|i: int|
                        0 <= i < r.quorum.len() ==> reachable_in(
                            remotes@,
                            #[trigger] texts_of(r.quorum@)[i],
                        )
                    &&& r.quorum.len() == if remotes.factor() <= reachable_set(remotes@).len() {
                        remotes.factor()
                    } else {
                        reachable_set(remotes@).len()
                    }
                },
                Err(e) => {
                    &&& old(self)@.log.contains_key(hash_of(old(self).tag(), msg@))
                    &&& final(self)@ == old(self)@
                    &&& e matches StoreError::WriteLogError(h)
                    &&& h@ == hash_of(old(self).tag(), msg@)
                },
            },
    {
        let entry = self.propose(msg)?;
        let broadcast = remotes.reachable();
        let quorum = remotes.sample();
        Ok(Replication { entry, broadcast, quorum })
    }

    /// Ends a proposal with the answers of the sampled peers, one for each.
    /// Where each of them acknowledged, also where none was sampled, the
    /// entry is committed and applied and the answer is the graph's.
    /// Otherwise the answer is `SyncError` and nothing changes: the entry
    /// stays uncommitted and pending.
    pub fn conclude(&mut self, plan: Replication, acks: &Vec<Result<(), StoreError>>) -> (answer:
        Result<GraphResponse, StoreError>)
        requires
            old(self).wf(),
        ensures
            final(self).wf(),
            final(self).tag() == old(self).tag(),
            final(self).origin() == old(self).origin(),
            final(self).settled() == old(self).settled(),
            if forall|i: int| 0 <= i < acks.len() ==> acks[i].is_ok() {
                &&& final(self)@ == old(self)@.commit(plan.entry@)
                &&& final(self).applied() == old(self).applied().push(plan.entry@.1)
                &&& match answer {
                    Ok(response) => old(self)@.graph.rejects(plan.entry@.1).is_none() && response@
                        == old(self)@.graph.reply(plan.entry@.1),
                    Err(e) => old(self)@.graph.rejects(plan.entry@.1) == Some(e),
                }
            } else {
                &&& final(self)@ == old(self)@
                &&& final(self).applied() == old(self).applied()
                &&& answer matches Err(StoreError::SyncError(text))
                &&& text@ == QuorumOutcome::shortfall(acked(acks@), acks.len() as nat)
            },
            answer.is_ok() ==> final(self)@.committed(plan.entry@.0),
    {
        let replicated = Remotes::replicated(acks);
        self.complete(plan.entry, replicated)
    }
}

} // verus!
