//! Errors surfaced by the file system, the content-discovery protocol, and
//! the relay bridge.

use vstd::prelude::*;
use crate::ticket::NamespaceId;
use crate::ticket::NodeAddr;

verus! {

/// File system errors.
#[derive(Clone, Copy, Debug, PartialEq, Eq, Structural)]
pub enum OkuFsError {
    /// File system entry not found.
    FsEntryNotFound,
    /// Author cannot be created.
    AuthorCannotBeCreated,
    /// Cannot start node.
    CannotStartNode,
    /// Cannot retrieve list of authors.
    CannotRetrieveAuthors,
    /// Cannot retrieve node address.
    CannotRetrieveNodeAddress,
    /// Cannot stop node.
    CannotStopNode,
    /// Cannot create replica.
    CannotCreateReplica,
    /// Cannot exit replica.
    CannotExitReplica,
    /// Cannot delete replica.
    CannotDeleteReplica,
    /// Cannot list replicas.
    CannotListReplicas,
    /// Cannot open replica.
    CannotOpenReplica,
    /// Cannot list files.
    CannotListFiles,
    /// Cannot create or modify file.
    CannotCreateOrModifyFile,
    /// Cannot delete file.
    CannotDeleteFile,
    /// Cannot read file.
    CannotReadFile,
    /// Cannot delete directory.
    CannotDeleteDirectory,
    /// Cannot share a replica as writeable when it is held read-only.
    CannotShareReplicaWriteable(NamespaceId),
}

/// Content discovery errors.
#[derive(Clone, Copy, Debug, PartialEq, Eq, Structural)]
pub enum OkuDiscoveryError {
    /// Invalid hash and format.
    InvalidHashAndFormat,
    /// Problem announcing content.
    ProblemAnnouncingContent(NamespaceId),
    /// Cannot generate sharing ticket for replica.
    CannotGenerateSharingTicket,
    /// Cannot generate sharing ticket for file(s).
    CannotGenerateSharingTicketForFiles,
}

/// Relay errors.
#[derive(Clone, Copy, Debug, PartialEq, Eq, Structural)]
pub enum OkuRelayError {
    /// No connected node can satisfy the request for this namespace.
    CannotSatisfyRequest(NamespaceId),
    /// Problem connecting to a node.
    ProblemConnecting(NodeAddr),
}

/// Errors raised on behalf of the kernel file system adapter.
#[derive(Clone, Copy, Debug, PartialEq, Eq, Structural)]
pub enum OkuFuseError {
    /// No replica with the given identifier is held locally.
    NoReplica(NamespaceId),
}

} // verus!
