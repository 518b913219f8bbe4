//! A replicated in-memory directed-graph database.
//!
//! Every replica holds the whole graph and a log of the mutations that made
//! it.  A mutation is appended to the local log, offered to a sample of the
//! known peers, and once they acknowledge it, marked committed and applied to
//! the graph.  The functions of this crate are the decisions of that
//! pipeline; sockets, files and schedulers belong to the program around it.

pub mod bytes;
pub mod config;
pub mod container;
pub mod digest;
pub mod error;
pub mod graph;
pub mod laws;
pub mod mutation;
pub mod mutations_log;
pub mod mutations_log_store;
pub mod query;
pub mod remotes;
pub mod server;
pub mod sorting;
pub mod store;
pub mod text;

pub use config::DatabaseConfig;
pub use error::StoreError;
pub use graph::Graph;
pub use mutation::GraphMutation;
pub use mutations_log::{InitializeMutationsLog, MutationsLog};
pub use mutations_log_store::{MutationsLogMutation, MutationsLogQuery, MutationsLogStore};
pub use query::{GraphQuery, GraphResponse};
pub use remotes::{InitializeRemotes, Remotes, SyncRemotesMessage};
pub use server::GraphServer;
pub use store::GraphStore;
