//! The three calls that a node answers for its peers, as decisions on
//! plain values: a mutation to commit, a gossip message, a request for the
//! log.  The transport hands the requests in and carries the answers out.

use vstd::prelude::*;
use vstd::string::StringExecFns;
use crate::error::StoreError;
use crate::mutation::{mutation_bytes, parse_mutation, GraphMutation, MutationView};
use crate::mutations_log::MutationsLog;
use crate::mutations_log_store::{entry_views, scan_of, MutationsLogMutation, MutationsLogQuery};
use crate::remotes::{flat_of, flat_view_of, gossiped, Remotes, SyncRemotesMessage};

verus! {

/// A mutation on the wire: its hash and its encoding.
#[derive(Debug)]
pub struct GraphMutationRequest {
    pub hash: String,
    pub graph_mutation: Vec<u8>,
}

/// The acknowledgement of a mutation.
#[derive(Debug, Clone, Copy, PartialEq, Eq)]
pub struct GraphMutationResponse {}

/// A gossip message on the wire.
#[derive(Debug)]
pub struct RemotesLogRequest {
    pub from_server: String,
    pub remotes_log: Vec<(String, bool)>,
}

/// The answer to a gossip message.
#[derive(Debug)]
pub struct RemotesLogResponse {
    pub from_server: String,
    pub remotes_log: Vec<(String, bool)>,
}

/// The request for the log.
#[derive(Debug, Clone, Copy, PartialEq, Eq)]
pub struct MutationsLogRequest {}

/// The log on the wire: each entry as its hash and the encoding of its
/// mutation.
#[derive(Debug)]
pub struct MutationsLogResponse {
    pub mutations_log: Vec<(String, Vec<u8>)>,
}

/// The internal-error status with which a call fails.
#[derive(Debug)]
pub struct Status {
    pub message: String,
}

/// The entries of a log on the wire, as mathematical values.
pub open spec fn wire_of(list: Seq<(String, Vec<u8>)>) -> Seq<(Seq<char>, Seq<u8>)> {
    Seq::new(list.len(), |i: int| (list[i].0@, list[i].1@))
}

/// The wire form of a list of entries.
pub open spec fn encoded_log(entries: Seq<(Seq<char>, MutationView)>) -> Seq<(Seq<char>, Seq<u8>)> {
    Seq::new(entries.len(), |i: int| (entries[i].0, mutation_bytes(entries[i].1)))
}

/// Every entry on the wire encodes a mutation.
pub open spec fn decodable(wire: Seq<(Seq<char>, Seq<u8>)>) -> bool {
    forall|i: int| 0 <= i < wire.len() ==> parse_mutation((#[trigger] wire[i]).1).is_some()
}

/// The entries that a log on the wire encodes.
pub open spec fn decoded_log(wire: Seq<(Seq<char>, Seq<u8>)>) -> Seq<(Seq<char>, MutationView)> {
    Seq::new(wire.len(), |i: int| (wire[i].0, parse_mutation(wire[i].1).unwrap()))
}

impl MutationsLogMutation {
    /// The entry that a request carries, or `Serde` where its bytes encode
    /// no mutation.
    pub fn try_from(request: GraphMutationRequest) -> (entry: Result<
        MutationsLogMutation,
        StoreError,
    >)
        ensures
            match entry {
                Ok(e) => parse_mutation(request.graph_mutation@) == Some(e@.1) && e@.0
                    == request.hash@,
                Err(e) => {
                    &&& parse_mutation(request.graph_mutation@).is_none()
                    &&& e matches StoreError::Serde(text)
                    &&& text@ == "bytes encode no mutation"@
                },
            },
    {
        let GraphMutationRequest { hash, graph_mutation } = request;
        match GraphMutation::decode(&graph_mutation) {
            Some(mutation) => Ok(MutationsLogMutation { hash, mutation }),
            None => Err(StoreError::Serde(String::from_str("bytes encode no mutation"))),
        }
    }

    /// The request that carries this entry.  It is always `Ok`.
    pub fn try_into(self) -> (request: Result<GraphMutationRequest, StoreError>)
        ensures
            request matches Ok(r) && r.hash@ == self@.0 && r.graph_mutation@ == mutation_bytes(
                self@.1,
            ) && parse_mutation(r.graph_mutation@) == Some(self@.1),
    {
        let graph_mutation = self.mutation.encode();
        Ok(GraphMutationRequest { hash: self.hash, graph_mutation })
    }
}

impl MutationsLogResponse {
    /// The wire form of a log.
    pub fn from_log(entries: &Vec<MutationsLogMutation>) -> (response: MutationsLogResponse)
        ensures
            wire_of(response.mutations_log@) == encoded_log(entry_views(entries@)),
            decodable(wire_of(response.mutations_log@)),
            decoded_log(wire_of(response.mutations_log@)) == entry_views(entries@),
    {
        let mut list: Vec<(String, Vec<u8>)> = Vec::new();
        let mut i: usize = 0;
        while i < entries.len()
            invariant
                i <= entries.len(),
                list.len() == i,
                forall|j: int|
                    0 <= j < i ==> (#[trigger] list[j]).0@ == entries[j].hash@ && list[j].1@
                        == mutation_bytes(entries[j].mutation@) && parse_mutation(list[j].1@)
                        == Some(entries[j].mutation@),
            decreases entries.len() - i,
        {
            list.push((entries[i].hash.clone(), entries[i].mutation.encode()));
            i += 1;
        }
        proof {
            let wire = wire_of(list@);
            assert(wire =~= encoded_log(entry_views(entries@)));
            assert forall|j: int| 0 <= j < wire.len() implies parse_mutation(
                (#[trigger] wire[j]).1,
            ).is_some() by {
                assert(list[j].1@ == wire[j].1);
            }
            assert(decoded_log(wire) =~= entry_views(entries@)) by {
                assert forall|j: int| 0 <= j < wire.len() implies decoded_log(wire)[j]
                    == entry_views(entries@)[j] by {
                    assert(list[j].1@ == wire[j].1);
                    assert(parse_mutation(list[j].1@) == Some(entries[j].mutation@));
                }
            }
        }
        MutationsLogResponse { mutations_log: list }
    }

    /// The log that a response carries, or `ParseError` where one of its
    /// entries encodes no mutation.
    pub fn into_log(self) -> (log: Result<Vec<MutationsLogMutation>, StoreError>)
        ensures
            match log {
                Ok(entries) => decodable(wire_of(self.mutations_log@)) && entry_views(entries@)
                    == decoded_log(wire_of(self.mutations_log@)),
                Err(e) => !decodable(wire_of(self.mutations_log@)) && e == StoreError::ParseError,
            },
    {
        let ghost wire = wire_of(self.mutations_log@);
        let mut entries: Vec<MutationsLogMutation> = Vec::new();
        let mut i: usize = 0;
        while i < self.mutations_log.len()
            invariant
                wire == wire_of(self.mutations_log@),
                i <= self.mutations_log.len(),
                entries.len() == i,
                forall|j: int|
                    0 <= j < i ==> parse_mutation(wire[j].1) == Some((#[trigger] entries[j])@.1)
                        && entries[j]@.0 == wire[j].0,
            decreases self.mutations_log.len() - i,
        {
            assert(wire[i as int] == (self.mutations_log[i as int].0@, self.mutations_log[i as int].1@));
            match GraphMutation::decode(&self.mutations_log[i].1) {
                Some(mutation) => {
                    entries.push(
                        MutationsLogMutation { hash: self.mutations_log[i].0.clone(), mutation },
                    );
                },
                None => {
                    return Err(StoreError::ParseError);
                },
            }
            i += 1;
        }
        proof {
            assert forall|j: int| 0 <= j < wire.len() implies parse_mutation(
                (#[trigger] wire[j]).1,
            ).is_some() by {
                assert(parse_mutation(wire[j].1) == Some(entries[j]@.1));
            }
            assert(entry_views(entries@) =~= decoded_log(wire)) by {
                assert forall|j: int| 0 <= j < wire.len() implies entry_views(entries@)[j]
                    == decoded_log(wire)[j] by {
                    assert(parse_mutation(wire[j].1) == Some(entries[j]@.1));
                }
            }
        }
        Ok(entries)
    }
}

/// The endpoint of a node: what it answers to its peers.
#[derive(Debug)]
pub struct GraphServer {
    server_address: String,
}

impl GraphServer {
    /// The address under which the node answers.
    pub closed spec fn address(&self) -> Seq<char> {
        self.server_address@
    }

    /// The endpoint of the node at `server_address`.
    pub fn new(server_address: String) -> (server: GraphServer)
        ensures
            server.address() == server_address@,
    {
        GraphServer { server_address }
    }

    /// Takes a mutation from a peer.  Where the bytes encode a mutation the
    /// entry is committed and applied, and the call succeeds whatever the
    /// graph answers.  Where they encode none the call fails with an
    /// internal-error status and nothing changes.
    pub fn graph_mutation(&self, mutations_log: &mut MutationsLog, request: GraphMutationRequest) -> (answer:
        Result<GraphMutationResponse, Status>)
        requires
            old(mutations_log).wf(),
        ensures
            final(mutations_log).wf(),
            final(mutations_log).tag() == old(mutations_log).tag(),
            match parse_mutation(request.graph_mutation@) {
                Some(m) => answer.is_ok() && final(mutations_log)@ == old(mutations_log)@.commit(
                    (request.hash@, m),
                ),
                None => {
                    &&& final(mutations_log)@ == old(mutations_log)@
                    &&& answer matches Err(status)
                    &&& status.message@ == "Serde: bytes encode no mutation"@
                },
            },
    {
        let entry = match MutationsLogMutation::try_from(request) {
            Ok(entry) => entry,
            Err(e) => {
                let message = e.to_string();
                proof {
                    reveal_strlit("Serde");
                    reveal_strlit(": ");
                    reveal_strlit("bytes encode no mutation");
                    reveal_strlit("Serde: bytes encode no mutation");
                    assert(message@ =~= "Serde: bytes encode no mutation"@);
                }
                return Err(Status { message });
            },
        };
        // The entry is committed whatever the graph answers, and the peer
        // learns no more than that.
        let _ = mutations_log.handle(entry);
        Ok(GraphMutationResponse {  })
    }

    /// Takes a gossip message from a peer and answers with what this node
    /// says of its own peers.  `connected` says whether the sender could
    /// be dialled, which matters where the sender is not known.
    pub fn sync_remotes(&self, remotes: &mut Remotes, request: RemotesLogRequest, connected: bool) -> (answer:
        Result<RemotesLogResponse, Status>)
        requires
            old(remotes).wf(),
        ensures
            final(remotes).wf(),
            final(remotes).factor() == old(remotes).factor(),
            final(remotes)@ == gossiped(
                old(remotes)@,
                request.from_server@,
                flat_of(request.remotes_log@),
                connected,
            ),
            answer matches Ok(response) && response.from_server@ == self.address() && flat_view_of(
                flat_of(response.remotes_log@),
                final(remotes)@,
            ),
    {
        let RemotesLogRequest { from_server, remotes_log } = request;
        let msg = SyncRemotesMessage { from: from_server, flat_remotes_log: remotes_log };
        match remotes.handle(msg, connected) {
            Ok(flat) => Ok(
                RemotesLogResponse { from_server: self.server_address.clone(), remotes_log: flat },
            ),
            Err(e) => Err(Status { message: e.to_string() }),
        }
    }

    /// Answers a request for the log with every entry, each once, in its
    /// wire form.
    pub fn sync_mutations_log(&self, mutations_log: &MutationsLog, _request: MutationsLogRequest) -> (answer:
        Result<MutationsLogResponse, Status>)
        requires
            mutations_log.wf(),
        ensures
            answer matches Ok(response) && decodable(wire_of(response.mutations_log@)) && scan_of(
                decoded_log(wire_of(response.mutations_log@)),
                mutations_log@.log,
            ),
    {
        match mutations_log.handle_query(MutationsLogQuery::full()) {
            Ok(entries) => Ok(MutationsLogResponse::from_log(&entries)),
            Err(e) => Err(Status { message: e.to_string() }),
        }
    }
}

} // verus!
