//! The error type shared by every component.

use vstd::prelude::*;
use vstd::string::StringExecFns;

verus! {

/// What can go wrong in the graph, the log, the peers or the wire format.
#[derive(Debug, PartialEq, Eq, PartialOrd, Ord)]
pub enum StoreError {
    // graph
    GraphNotFound,
    EdgeNotFound,
    EdgeNotCreated,
    EdgeNotDeleted,
    NodeNotFound,
    NodeNotCreated,
    NodeNotDeleted,
    ConflictDuplicateNode,
    ConflictDuplicateEdge,
    // store
    StoreError,
    FileSaveError(String),
    FileLoadError(String),
    FileDecodeError(String),
    SqliteError(String),
    WriteLogError(String),
    // sync
    SyncError(String),
    PoisonError(String),
    MailboxError(String),
    // rpc
    ClientSendError,
    ClientError,
    // internal
    ParseError,
    Serde(String),
}

impl Clone for StoreError {
    fn clone(&self) -> (copy: StoreError)
        ensures
            copy == *self,
    {
        match self {
            StoreError::GraphNotFound => StoreError::GraphNotFound,
            StoreError::EdgeNotFound => StoreError::EdgeNotFound,
            StoreError::EdgeNotCreated => StoreError::EdgeNotCreated,
            StoreError::EdgeNotDeleted => StoreError::EdgeNotDeleted,
            StoreError::NodeNotFound => StoreError::NodeNotFound,
            StoreError::NodeNotCreated => StoreError::NodeNotCreated,
            StoreError::NodeNotDeleted => StoreError::NodeNotDeleted,
            StoreError::ConflictDuplicateNode => StoreError::ConflictDuplicateNode,
            StoreError::ConflictDuplicateEdge => StoreError::ConflictDuplicateEdge,
            StoreError::StoreError => StoreError::StoreError,
            StoreError::FileSaveError(m) => StoreError::FileSaveError(m.clone()),
            StoreError::FileLoadError(m) => StoreError::FileLoadError(m.clone()),
            StoreError::FileDecodeError(m) => StoreError::FileDecodeError(m.clone()),
            StoreError::SqliteError(m) => StoreError::SqliteError(m.clone()),
            StoreError::WriteLogError(m) => StoreError::WriteLogError(m.clone()),
            StoreError::SyncError(m) => StoreError::SyncError(m.clone()),
            StoreError::PoisonError(m) => StoreError::PoisonError(m.clone()),
            StoreError::MailboxError(m) => StoreError::MailboxError(m.clone()),
            StoreError::ClientSendError => StoreError::ClientSendError,
            StoreError::ClientError => StoreError::ClientError,
            StoreError::ParseError => StoreError::ParseError,
            StoreError::Serde(m) => StoreError::Serde(m.clone()),
        }
    }
}

impl StoreError {
    /// The name of the variant, as it is written in the source.
    pub open spec fn kind(self) -> Seq<char> {
        match self {
            StoreError::GraphNotFound => "GraphNotFound"@,
            StoreError::EdgeNotFound => "EdgeNotFound"@,
            StoreError::EdgeNotCreated => "EdgeNotCreated"@,
            StoreError::EdgeNotDeleted => "EdgeNotDeleted"@,
            StoreError::NodeNotFound => "NodeNotFound"@,
            StoreError::NodeNotCreated => "NodeNotCreated"@,
            StoreError::NodeNotDeleted => "NodeNotDeleted"@,
            StoreError::ConflictDuplicateNode => "ConflictDuplicateNode"@,
            StoreError::ConflictDuplicateEdge => "ConflictDuplicateEdge"@,
            StoreError::StoreError => "StoreError"@,
            StoreError::FileSaveError(_) => "FileSaveError"@,
            StoreError::FileLoadError(_) => "FileLoadError"@,
            StoreError::FileDecodeError(_) => "FileDecodeError"@,
            StoreError::SqliteError(_) => "SqliteError"@,
            StoreError::WriteLogError(_) => "WriteLogError"@,
            StoreError::SyncError(_) => "SyncError"@,
            StoreError::PoisonError(_) => "PoisonError"@,
            StoreError::MailboxError(_) => "MailboxError"@,
            StoreError::ClientSendError => "ClientSendError"@,
            StoreError::ClientError => "ClientError"@,
            StoreError::ParseError => "ParseError"@,
            StoreError::Serde(_) => "Serde"@,
        }
    }

    /// The text a variant carries, if it carries one.
    pub open spec fn detail(self) -> Option<Seq<char>> {
        match self {
            StoreError::FileSaveError(m)
            | StoreError::FileLoadError(m)
            | StoreError::FileDecodeError(m)
            | StoreError::SqliteError(m)
            | StoreError::WriteLogError(m)
            | StoreError::SyncError(m)
            | StoreError::PoisonError(m)
            | StoreError::MailboxError(m)
            | StoreError::Serde(m) => Some(m@),
            _ => None,
        }
    }

    /// What `to_string` writes: the variant's name, and after a colon and a
    /// space the text it carries.
    pub open spec fn rendered(self) -> Seq<char> {
        match self.detail() {
            Some(m) => self.kind() + ": "@ + m,
            None => self.kind(),
        }
    }

    /// The name of the variant.
    pub fn kind_name(&self) -> (name: &'static str)
        ensures
            name@ == self.kind(),
    {
        match self {
            StoreError::GraphNotFound => "GraphNotFound",
            StoreError::EdgeNotFound => "EdgeNotFound",
            StoreError::EdgeNotCreated => "EdgeNotCreated",
            StoreError::EdgeNotDeleted => "EdgeNotDeleted",
            StoreError::NodeNotFound => "NodeNotFound",
            StoreError::NodeNotCreated => "NodeNotCreated",
            StoreError::NodeNotDeleted => "NodeNotDeleted",
            StoreError::ConflictDuplicateNode => "ConflictDuplicateNode",
            StoreError::ConflictDuplicateEdge => "ConflictDuplicateEdge",
            StoreError::StoreError => "StoreError",
            StoreError::FileSaveError(_) => "FileSaveError",
            StoreError::FileLoadError(_) => "FileLoadError",
            StoreError::FileDecodeError(_) => "FileDecodeError",
            StoreError::SqliteError(_) => "SqliteError",
            StoreError::WriteLogError(_) => "WriteLogError",
            StoreError::SyncError(_) => "SyncError",
            StoreError::PoisonError(_) => "PoisonError",
            StoreError::MailboxError(_) => "MailboxError",
            StoreError::ClientSendError => "ClientSendError",
            StoreError::ClientError => "ClientError",
            StoreError::ParseError => "ParseError",
            StoreError::Serde(_) => "Serde",
        }
    }

    /// A one-line description for logs and status messages.
    pub fn to_string(&self) -> (text: String)
        ensures
            text@ == self.rendered(),
    {
        let mut text = String::from_str(self.kind_name());
        match self {
            StoreError::FileSaveError(m)
            | StoreError::FileLoadError(m)
            | StoreError::FileDecodeError(m)
            | StoreError::SqliteError(m)
            | StoreError::WriteLogError(m)
            | StoreError::SyncError(m)
            | StoreError::PoisonError(m)
            | StoreError::MailboxError(m)
            | StoreError::Serde(m) => {
                text.append(": ");
                text.append(m.as_str());
            },
            _ => {},
        }
        text
    }
}

} // verus!
