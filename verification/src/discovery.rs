//! Content discovery: the request/response exchange by which a peer obtains
//! a ticket for a replica it does not yet hold, the merge of discovery
//! records fetched from the distributed hash table, the download policies
//! that scope what a sync session fetches, and the decision rules of the
//! network-first, local-fallback retrieval flow.
//!
//! The byte transport, the hash-table client and the task scheduling are
//! external collaborators: the surrounding application performs each
//! network step and hands the outcome back to the decision functions here.

use vstd::prelude::*;
use crate::codec::file_key;
use crate::codec::is_byte_prefix;
use crate::codec::prefix_key;
use crate::error::OkuFsError;
use crate::error::OkuRelayError;
use crate::fs::clip_u64;
use crate::fs::folder_size_in;
use crate::fs::has_replica;
use crate::fs::latest_under;
use crate::fs::replica_entries;
use crate::fs::store_wf;
use crate::fs::ContentId;
use crate::fs::OkuFs;
use crate::ticket::merged_capability;
use crate::ticket::strictly_sorted;
use crate::ticket::tickets_list_addr;
use crate::ticket::CapabilityKind;
use crate::ticket::DocCapability;
use crate::ticket::DocTicket;
use crate::ticket::NamespaceId;
use crate::ticket::ShareMode;

verus! {

broadcast use vstd::seq_lib::group_seq_properties;

/// The protocol tag opening a document-ticket fetch conversation.
pub open spec fn fetch_tag() -> Seq<u8> {
    seq![111u8, 107u8, 117u8, 47u8, 102u8, 101u8, 116u8, 99u8, 104u8, 47u8, 48u8]
}

/// The protocol tag opening a relay handshake.
pub open spec fn relay_tag() -> Seq<u8> {
    seq![111u8, 107u8, 117u8, 47u8, 114u8, 101u8, 108u8, 97u8, 121u8, 47u8, 48u8]
}

/// The protocol tag by which a relay asks for a fresh replica inventory.
pub open spec fn refresh_tag() -> Seq<u8> {
    seq![111u8, 107u8, 117u8, 47u8, 114u8, 101u8, 102u8, 114u8, 101u8, 115u8, 104u8, 47u8, 48u8]
}

/// The bytes of the document-ticket fetch tag: `oku/fetch/0`.
pub fn fetch_tag_bytes() -> (r: Vec<u8>)
    ensures
        r@ == fetch_tag(),
        !fetch_tag().contains(10u8),
{
    let tag: Vec<u8> = vstd::slice::slice_to_vec("oku/fetch/0".as_bytes());
    proof {
        reveal_strlit("oku/fetch/0");
        assert(tag@ =~= fetch_tag()) by {
            vstd::utf8::is_ascii_chars_encode_utf8("oku/fetch/0"@);
        }
        assert forall|i: int| 0 <= i < fetch_tag().len() implies fetch_tag()[i] != 10u8 by {}
        if fetch_tag().contains(10u8) {
            let i = choose|i: int| 0 <= i < fetch_tag().len() && fetch_tag()[i] == 10u8;
        }
    }
    tag
}

/// The bytes of the relay handshake tag: `oku/relay/0`.
pub fn relay_tag_bytes() -> (r: Vec<u8>)
    ensures
        r@ == relay_tag(),
        !relay_tag().contains(10u8),
{
    let tag: Vec<u8> = vstd::slice::slice_to_vec("oku/relay/0".as_bytes());
    proof {
        reveal_strlit("oku/relay/0");
        assert(tag@ =~= relay_tag()) by {
            vstd::utf8::is_ascii_chars_encode_utf8("oku/relay/0"@);
        }
        assert forall|i: int| 0 <= i < relay_tag().len() implies relay_tag()[i] != 10u8 by {}
        if relay_tag().contains(10u8) {
            let i = choose|i: int| 0 <= i < relay_tag().len() && relay_tag()[i] == 10u8;
        }
    }
    tag
}

/// The bytes of the relay refresh tag: `oku/refresh/0`.
pub fn refresh_tag_bytes() -> (r: Vec<u8>)
    ensures
        r@ == refresh_tag(),
        !refresh_tag().contains(10u8),
{
    let tag: Vec<u8> = vstd::slice::slice_to_vec("oku/refresh/0".as_bytes());
    proof {
        reveal_strlit("oku/refresh/0");
        assert(tag@ =~= refresh_tag()) by {
            vstd::utf8::is_ascii_chars_encode_utf8("oku/refresh/0"@);
        }
        assert forall|i: int| 0 <= i < refresh_tag().len() implies refresh_tag()[i] != 10u8 by {}
        if refresh_tag().contains(10u8) {
            let i = choose|i: int| 0 <= i < refresh_tag().len() && refresh_tag()[i] == 10u8;
        }
    }
    tag
}

/// A wire frame: the protocol tag, one newline, and the payload. The
/// payload carries the message body; the frame ends with the connection,
/// not with a length prefix.
pub open spec fn spec_frame(tag: Seq<u8>, body: Seq<u8>) -> Seq<u8> {
    tag + seq![10u8] + body
}

/// The position of the first newline byte in a message, if any.
pub open spec fn first_newline(msg: Seq<u8>) -> Option<int>
    decreases msg.len(),
{
    if msg.len() == 0 {
        None
    } else if msg[0] == 10u8 {
        Some(0)
    } else {
        match first_newline(msg.drop_first()) {
            None => None,
            Some(i) => Some(i + 1),
        }
    }
}

/// The tag and payload of a wire frame, split at its first newline; a
/// message with no newline is malformed and yields nothing.
pub open spec fn spec_parse_frame(msg: Seq<u8>) -> Option<(Seq<u8>, Seq<u8>)> {
    match first_newline(msg) {
        None => None,
        Some(i) => Some((msg.take(i), msg.skip(i + 1))),
    }
}

/// The first newline is a newline, and nothing before it is one.
proof fn lemma_first_newline_char(msg: Seq<u8>)
    ensures
        (match first_newline(msg) {
            None => forall|i: int| 0 <= i < msg.len() ==> msg[i] != 10u8,
            Some(i) => 0 <= i < msg.len() && msg[i] == 10u8 && (forall|j: int|
                0 <= j < i ==> msg[j] != 10u8),
        }),
    decreases msg.len(),
{
    if msg.len() > 0 && msg[0] != 10u8 {
        lemma_first_newline_char(msg.drop_first());
        match first_newline(msg.drop_first()) {
            None => {
                assert forall|i: int| 0 <= i < msg.len() implies msg[i] != 10u8 by {
                    if i > 0 {
                        assert(msg.drop_first()[i - 1] == msg[i]);
                    }
                }
            },
            Some(i) => {
                assert(msg.drop_first()[i] == msg[i + 1]);
                assert forall|j: int| 0 <= j < i + 1 implies msg[j] != 10u8 by {
                    if j > 0 {
                        assert(msg.drop_first()[j - 1] == msg[j]);
                    }
                }
            },
        }
    }
}

/// Builds a wire frame from a tag and a payload.
pub fn frame_message(tag: &Vec<u8>, body: &Vec<u8>) -> (r: Vec<u8>)
    ensures
        r@ == spec_frame(tag@, body@),
{
    let mut out = crate::fs::copy_bytes(tag);
    out.push(10u8);
    let mut i: usize = 0;
    while i < body.len()
        invariant
            i <= body@.len(),
            out@ == tag@ + seq![10u8] + body@.take(i as int),
        decreases body@.len() - i,
    {
        out.push(body[i]);
        proof {
            assert((tag@ + seq![10u8] + body@.take(i as int)).push(body@[i as int]) =~= tag@
                + seq![10u8] + body@.take(i + 1));
        }
        i += 1;
    }
    proof {
        assert(body@.take(body@.len() as int) =~= body@);
    }
    out
}

/// Splits a received message at its first newline into the protocol tag
/// and the payload. A message with no newline is malformed: the caller
/// drops it silently, closing the connection without a response.
pub fn parse_frame(msg: &Vec<u8>) -> (r: Option<(Vec<u8>, Vec<u8>)>)
    ensures
        (r is Some <==> spec_parse_frame(msg@) is Some),
        r is Some ==> ((r->0).0@, (r->0).1@) == spec_parse_frame(msg@)->0,
{
    proof {
        lemma_first_newline_char(msg@);
    }
    let mut i: usize = 0;
    while i < msg.len()
        invariant
            i <= msg@.len(),
            forall|j: int| 0 <= j < i ==> msg@[j] != 10u8,
        decreases msg@.len() - i,
    {
        if msg[i] == 10u8 {
            proof {
                lemma_first_newline_char(msg@);
                match first_newline(msg@) {
                    None => {
                        assert(msg@[i as int] != 10u8);
                    },
                    Some(n) => {
                        assert(n == i) by {
                            if n < i {
                                assert(msg@[n] != 10u8);
                            }
                            if n > i {
                                assert(msg@[i as int] != 10u8);
                            }
                        }
                    },
                }
            }
            let mut tag: Vec<u8> = Vec::new();
            let mut t: usize = 0;
            while t < i
                invariant
                    t <= i < msg@.len(),
                    tag@ == msg@.take(i as int).take(t as int),
                decreases i - t,
            {
                tag.push(msg[t]);
                proof {
                    assert(msg@.take(i as int).take(t + 1) =~= msg@.take(i as int).take(
                        t as int,
                    ).push(msg@[t as int]));
                }
                t += 1;
            }
            let mut body: Vec<u8> = Vec::new();
            let mut b: usize = i + 1;
            while b < msg.len()
                invariant
                    i + 1 <= b <= msg@.len(),
                    body@ == msg@.skip(i + 1).take(b - i - 1),
                decreases msg@.len() - b,
            {
                body.push(msg[b]);
                proof {
                    assert(msg@.skip(i + 1).take(b - i) =~= msg@.skip(i + 1).take(b - i
                        - 1).push(msg@[b as int]));
                }
                b += 1;
            }
            proof {
                assert(tag@ =~= msg@.take(i as int));
                assert(body@ =~= msg@.skip(i + 1));
            }
            return Some((tag, body));
        }
        i += 1;
    }
    proof {
        lemma_first_newline_char(msg@);
        match first_newline(msg@) {
            None => {},
            Some(n) => {
                assert(msg@[n] != 10u8);
            },
        }
    }
    None
}

/// Law: a frame built from a tag holding no newline parses back into
/// exactly that tag and payload.
pub proof fn lemma_frame_round_trip(tag: Seq<u8>, body: Seq<u8>)
    requires
        !tag.contains(10u8),
    ensures
        spec_parse_frame(spec_frame(tag, body)) == Some((tag, body)),
{
    let framed = spec_frame(tag, body);
    lemma_first_newline_char(framed);
    assert(framed[tag.len() as int] == 10u8);
    match first_newline(framed) {
        None => {
            assert(framed[tag.len() as int] != 10u8);
        },
        Some(n) => {
            assert(n == tag.len()) by {
                if n < tag.len() {
                    assert(framed[n] == tag[n]);
                    assert(tag.contains(10u8));
                }
                if n > tag.len() {
                    assert(framed[tag.len() as int] != 10u8);
                }
            }
            assert(framed.take(n) =~= tag);
            assert(framed.skip(n + 1) =~= body);
        },
    }
}

/// The encoding format of a shared blob.
pub enum BlobFormat {
    /// The payload bytes themselves.
    Raw,
    /// A sequence of hashes of further blobs.
    HashSeq,
}

/// A ticket for fetching one blob by content: its hash, its format, and a
/// peer known to hold it.
pub struct BlobTicket {
    /// The content identifier of the blob.
    pub hash: ContentId,
    /// The encoding format of the blob.
    pub format: BlobFormat,
    /// The address of a node holding the blob.
    pub addr: u64,
}

/// A request for content: a namespace, optionally scoped to one path.
pub struct PeerContentRequest {
    /// The namespace whose content is requested.
    pub namespace_id: NamespaceId,
    /// The path scope, if the request is for one file rather than the
    /// whole replica.
    pub path: Option<String>,
}

/// A response to a content request: a whole-replica ticket when no path
/// scope was given, or one blob ticket per matching entry when one was,
/// together with the total size of the matched data.
pub enum PeerContentResponse {
    /// The whole replica is shared: one read-only document ticket.
    Replica {
        /// A read-only ticket for the requested replica.
        ticket: DocTicket,
        /// The total size, in bytes, of the replica's latest entries.
        size: u64,
    },
    /// A path scope was given: one blob ticket per matching entry.
    Blobs {
        /// One ticket per latest entry under the requested path.
        tickets: Vec<BlobTicket>,
        /// The total size, in bytes, of the matched entries.
        size: u64,
    },
}

/// Decides the response to a peer's content request, read entirely from
/// the local store: a read-only whole-replica ticket when no path scope is
/// given, or one blob ticket per latest entry under the path's prefix.
/// Fails not-found when the replica is not held locally.
pub fn respond_to_request(fs: &OkuFs, request: &PeerContentRequest) -> (r: Result<
    PeerContentResponse,
    OkuFsError,
>)
    requires
        store_wf(fs@),
    ensures
        (r is Ok <==> has_replica(fs@, request.namespace_id)),
        r is Err ==> r->Err_0 == OkuFsError::FsEntryNotFound,
        r is Ok ==> (match request.path {
            None => (match r->Ok_0 {
                PeerContentResponse::Replica { ticket, size } => {
                    &&& ticket.capability == (DocCapability {
                        id: request.namespace_id,
                        kind: CapabilityKind::Read,
                    })
                    &&& ticket.nodes@ == seq![fs@.node_addr]
                    &&& size == clip_u64(
                        folder_size_in(
                            replica_entries(fs@, request.namespace_id),
                            seq![47u8],
                        ),
                    )
                },
                PeerContentResponse::Blobs { .. } => false,
            }),
            Some(path) => (match r->Ok_0 {
                PeerContentResponse::Replica { .. } => false,
                PeerContentResponse::Blobs { tickets, size } => {
                    let matched = latest_under(
                        replica_entries(fs@, request.namespace_id),
                        prefix_key(path@),
                    );
                    &&& tickets@.len() == matched.len()
                    &&& (forall|j: int|
                        0 <= j < matched.len() ==> (#[trigger] tickets@[j]).hash@
                            == matched[j].content && tickets@[j].addr == fs@.node_addr
                            && tickets@[j].format is Raw)
                    &&& size == clip_u64(
                        folder_size_in(
                            replica_entries(fs@, request.namespace_id),
                            prefix_key(path@),
                        ),
                    )
                },
            }),
        }),
{
    match &request.path {
        None => {
            let ticket = match fs.create_document_ticket(request.namespace_id, ShareMode::Read)
                {
                Ok(ticket) => ticket,
                Err(_) => {
                    return Err(OkuFsError::FsEntryNotFound);
                },
            };
            let size = match fs.get_folder_size(request.namespace_id, "/") {
                Ok(size) => size,
                Err(_) => {
                    return Err(OkuFsError::FsEntryNotFound);
                },
            };
            proof {
                crate::codec::lemma_root_prefix_key();
                reveal_strlit("/");
                assert("/"@ =~= seq!['/']);
            }
            Ok(PeerContentResponse::Replica { ticket, size })
        },
        Some(path) => {
            let entries = match fs.list_files(request.namespace_id, Some(path.as_str())) {
                Ok(entries) => entries,
                Err(e) => {
                    return Err(e);
                },
            };
            let size = match fs.get_folder_size(request.namespace_id, path.as_str()) {
                Ok(size) => size,
                Err(e) => {
                    return Err(e);
                },
            };
            let ghost matched = latest_under(
                replica_entries(fs@, request.namespace_id),
                prefix_key(path@),
            );
            let mut tickets: Vec<BlobTicket> = Vec::new();
            let mut j: usize = 0;
            while j < entries.len()
                invariant
                    j <= entries@.len(),
                    crate::fs::entry_views(entries@) == matched,
                    matched.len() == entries@.len(),
                    tickets@.len() == j,
                    forall|k: int|
                        0 <= k < j ==> (#[trigger] tickets@[k]).hash@ == matched[k].content
                            && tickets@[k].addr == fs@.node_addr && tickets@[k].format is Raw,
                decreases entries@.len() - j,
            {
                let content = crate::fs::copy_bytes(&entries[j].content);
                tickets.push(
                    BlobTicket {
                        hash: ContentId { bytes: content },
                        format: BlobFormat::Raw,
                        addr: fs.node_address(),
                    },
                );
                proof {
                    assert(matched[j as int] == crate::fs::entry_views(entries@)[j as int]);
                }
                j += 1;
            }
            Ok(PeerContentResponse::Blobs { tickets, size })
        },
    }
}

/// Decides the outcome of resolving a namespace from the discovery
/// records fetched for it: the records' decoded tickets are merged into
/// one, and an empty record set cannot satisfy the request. Fetching the
/// records from the hash table is the surrounding application's step.
pub fn resolve_namespace_id(namespace_id: NamespaceId, tickets: Vec<DocTicket>) -> (r: Result<
    DocTicket,
    OkuRelayError,
>)
    ensures
        (r is Ok <==> tickets@.len() > 0),
        r is Err ==> r->Err_0 == OkuRelayError::CannotSatisfyRequest(namespace_id),
        r is Ok ==> (r->Ok_0).capability == merged_capability(tickets@),
        r is Ok ==> strictly_sorted((r->Ok_0).nodes@),
        r is Ok ==> forall|a: u64|
            (r->Ok_0).nodes@.contains(a) <==> tickets_list_addr(tickets@, a),
{
    match crate::ticket::merge_tickets(tickets) {
        Some(ticket) => Ok(ticket),
        None => Err(OkuRelayError::CannotSatisfyRequest(namespace_id)),
    }
}

/// One bound on what a sync session downloads.
pub enum FilterKind {
    /// Exactly the entry with this key.
    Exact(Vec<u8>),
    /// Every entry whose key begins with this prefix.
    Prefix(Vec<u8>),
}

/// What a sync session is allowed to download.
pub enum DownloadPolicy {
    /// Every entry of the replica.
    Everything,
    /// Nothing but the entries matching one of the bounds.
    NothingExcept(Vec<FilterKind>),
}

/// Whether one download bound matches a key.
pub open spec fn spec_filter_matches(f: FilterKind, key: Seq<u8>) -> bool {
    match f {
        FilterKind::Exact(k) => key == k@,
        FilterKind::Prefix(p) => is_byte_prefix(p@, key),
    }
}

/// Whether a policy allows an entry key to be downloaded.
pub open spec fn spec_policy_allows(policy: DownloadPolicy, key: Seq<u8>) -> bool {
    match policy {
        DownloadPolicy::Everything => true,
        DownloadPolicy::NothingExcept(filters) => exists|i: int|
            0 <= i < filters@.len() && #[trigger] spec_filter_matches(filters@[i], key),
    }
}

/// The download policy scoping a replica fetch: only the entries under
/// the path's prefix when a path is given, everything otherwise.
pub fn replica_download_policy(path: Option<&str>) -> (r: DownloadPolicy)
    ensures
        (match path {
            None => r == DownloadPolicy::Everything,
            Some(p) => (match r {
                DownloadPolicy::NothingExcept(filters) => filters@.len() == 1
                    && (filters@[0] matches FilterKind::Prefix(pre) && pre@ == prefix_key(p@)),
                DownloadPolicy::Everything => false,
            }),
        }),
        forall|key: Seq<u8>|
            #[trigger] spec_policy_allows(r, key) <==> (match path {
                None => true,
                Some(p) => is_byte_prefix(prefix_key(p@), key),
            }),
{
    match path {
        None => DownloadPolicy::Everything,
        Some(p) => {
            let prefix_bytes = crate::codec::path_to_entry_prefix(p);
            let mut filters: Vec<FilterKind> = Vec::new();
            filters.push(FilterKind::Prefix(prefix_bytes));
            let ghost fv = filters@;
            proof {
                assert(fv =~= seq![fv[0]]);
            }
            let policy = DownloadPolicy::NothingExcept(filters);
            proof {
                assert forall|key: Seq<u8>|
                    #[trigger] spec_policy_allows(policy, key) <==> is_byte_prefix(
                        prefix_key(p@),
                        key,
                    ) by {
                    assert(spec_filter_matches(fv[0], key) == is_byte_prefix(
                        prefix_key(p@),
                        key,
                    ));
                    if is_byte_prefix(prefix_key(p@), key) {
                        assert(policy is NothingExcept);
                        assert(policy->NothingExcept_0@ == fv);
                        assert(spec_filter_matches(policy->NothingExcept_0@[0], key));
                        assert(spec_policy_allows(policy, key));
                    }
                    if spec_policy_allows(policy, key) {
                        let i = choose|i: int|
                            0 <= i < fv.len() && #[trigger] spec_filter_matches(fv[i], key);
                        assert(i == 0);
                    }
                }
            }
            policy
        },
    }
}

/// The download policy scoping a single-file fetch: exactly the file's
/// entry key.
pub fn file_download_policy(path: &str) -> (r: DownloadPolicy)
    ensures
        (match r {
            DownloadPolicy::NothingExcept(filters) => filters@.len() == 1 && (filters@[0]
                matches FilterKind::Exact(k) && k@ == file_key(path@)),
            DownloadPolicy::Everything => false,
        }),
        forall|key: Seq<u8>| #[trigger] spec_policy_allows(r, key) <==> key == file_key(path@),
{
    let key_bytes = crate::codec::path_to_entry_key(path);
    let mut filters: Vec<FilterKind> = Vec::new();
    filters.push(FilterKind::Exact(key_bytes));
    let ghost fv = filters@;
    proof {
        assert(fv =~= seq![fv[0]]);
    }
    let policy = DownloadPolicy::NothingExcept(filters);
    proof {
        assert forall|key: Seq<u8>|
            #[trigger] spec_policy_allows(policy, key) <==> key == file_key(path@) by {
            assert(spec_filter_matches(fv[0], key) == (key == file_key(path@)));
            if key == file_key(path@) {
                assert(policy is NothingExcept);
                assert(policy->NothingExcept_0@ == fv);
                assert(spec_filter_matches(policy->NothingExcept_0@[0], key));
                assert(spec_policy_allows(policy, key));
            }
            if spec_policy_allows(policy, key) {
                let i = choose|i: int|
                    0 <= i < fv.len() && #[trigger] spec_filter_matches(fv[i], key);
                assert(i == 0);
            }
        }
    }
    policy
}

/// One event observed while retrieving a file over the network.
pub enum FetchEvent {
    /// The namespace resolved to a merged ticket.
    Resolved(DocTicket),
    /// No usable discovery record was found.
    ResolveFailed,
    /// The scoped sync completed and the file was read.
    FetchSucceeded(Vec<u8>),
    /// The scoped sync or the remote read failed.
    FetchFailed,
}

/// The next step of the network-first retrieval flow.
pub enum FetchAction {
    /// Join the swarm named by the ticket, scoped to the requested file.
    FetchWithTicket(DocTicket),
    /// Fall back to the local copy: read the file from the local store,
    /// which itself fails not-found when nothing local exists.
    ReadLocal,
    /// Hand the fetched bytes to the caller.
    Deliver(Vec<u8>),
}

/// Decides the next step of retrieving a file: resolution failures and
/// fetch failures always fall back to a plain local read, so a network
/// failure is recovered into a deterministic local-or-error outcome.
pub fn fetch_file_step(event: FetchEvent) -> (r: FetchAction)
    ensures
        (match event {
            FetchEvent::Resolved(ticket) => r == FetchAction::FetchWithTicket(ticket),
            FetchEvent::ResolveFailed => r == FetchAction::ReadLocal,
            FetchEvent::FetchSucceeded(data) => r == FetchAction::Deliver(data),
            FetchEvent::FetchFailed => r == FetchAction::ReadLocal,
        }),
{
    match event {
        FetchEvent::Resolved(ticket) => FetchAction::FetchWithTicket(ticket),
        FetchEvent::ResolveFailed => FetchAction::ReadLocal,
        FetchEvent::FetchSucceeded(data) => FetchAction::Deliver(data),
        FetchEvent::FetchFailed => FetchAction::ReadLocal,
    }
}

/// Decides whether a candidate peer's response is taken during the
/// fallback race: candidates are tried concurrently, the first response
/// matching the requested namespace wins, and a result arriving after the
/// race is settled is discarded, since in-flight losers are abandoned
/// rather than cancelled.
pub fn race_step(settled: bool, response_namespace: NamespaceId, requested: NamespaceId) -> (
    take: bool)
    ensures
        take <==> (!settled && response_namespace == requested),
{
    !settled && response_namespace == requested
}

/// One event from a sync session's event stream.
pub enum SyncEvent {
    /// The session has no more outstanding updates to exchange.
    SyncFinished,
    /// Any other liveness event.
    Other,
}

/// Decides whether a sync session has converged: waiting ends exactly on
/// the convergence event. There is no built-in timeout; a caller needing
/// bounded latency imposes its own.
pub fn sync_wait_step(event: &SyncEvent) -> (done: bool)
    ensures
        done <==> event is SyncFinished,
{
    matches!(event, SyncEvent::SyncFinished)
}

/// The discovery records this node publishes: one per locally held
/// replica, keyed by the namespace and carrying this node's own address.
pub fn announce_records(fs: &OkuFs) -> (r: Vec<(NamespaceId, u64)>)
    ensures
        r@ == fs@.replicas.map_values(
            |rm: crate::fs::ReplicaModel| (rm.id, fs@.node_addr),
        ),
{
    let replicas = fs.list_replicas();
    let mut out: Vec<(NamespaceId, u64)> = Vec::new();
    let mut i: usize = 0;
    while i < replicas.len()
        invariant
            i <= replicas@.len(),
            replicas@ == fs@.replicas.map_values(
                |rm: crate::fs::ReplicaModel| (rm.id, rm.capability),
            ),
            out@ == fs@.replicas.take(i as int).map_values(
                |rm: crate::fs::ReplicaModel| (rm.id, fs@.node_addr),
            ),
        decreases replicas@.len() - i,
    {
        out.push((replicas[i].0, fs.node_address()));
        proof {
            assert(out@ =~= fs@.replicas.take(i + 1).map_values(
                |rm: crate::fs::ReplicaModel| (rm.id, fs@.node_addr),
            ));
        }
        i += 1;
    }
    proof {
        assert(fs@.replicas.take(fs@.replicas.len() as int) =~= fs@.replicas);
    }
    out
}

/// The delay before the next announcement: a short initial delay before
/// the first, then the remainder of the republish interval, so that every
/// record is republished once per interval and does not expire from the
/// hash table.
pub fn next_announce_delay(first: bool, initial: u64, republish: u64) -> (r: u64)
    requires
        initial <= republish,
    ensures
        r == if first {
            initial
        } else {
            (republish - initial) as u64
        },
{
    if first {
        initial
    } else {
        republish - initial
    }
}

} // verus!
