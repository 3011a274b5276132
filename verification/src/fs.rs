//! The replica store: the file system semantics over a set of locally held
//! replicas.
//!
//! A replica is a namespace holding authored, timestamped entries keyed by
//! NUL-terminated path encodings. Writing never destroys history across
//! authors: each author holds at most one entry per key, a "modification"
//! inserts a newer entry under the same key, and read-path resolution picks
//! the entry with the greatest timestamp ("latest-by-timestamp wins").
//! Timestamps are drawn from a strictly increasing store-wide logical
//! clock, so "latest" is always well defined; the surrounding application
//! maps them to wall-clock microseconds.
//!
//! The conflict resolution and replication of entries across peers belong
//! to the document engine and are out of scope here: this module states and
//! verifies what every operation does to the locally visible entry set.

use vstd::prelude::*;
use crate::codec::dir_prefix_key;
use crate::codec::file_key;
use crate::codec::is_byte_prefix;
use crate::codec::lemma_file_key_shape;
use crate::codec::prefix_key;
use crate::error::OkuFsError;
use crate::error::OkuFuseError;
use crate::ticket::CapabilityKind;
use crate::ticket::DocCapability;
use crate::ticket::DocTicket;
use crate::ticket::NamespaceId;
use crate::ticket::NodeAddr;
use crate::ticket::ShareMode;
use crate::ticket::spec_can_share;

verus! {

broadcast use {vstd::seq_lib::group_seq_properties, vstd::prelude::Seq::lemma_filter_push};

/// One versioned record in a replica: a value under a key, written by one
/// author at one logical time.
pub struct FsEntry {
    /// The key of the entry: a NUL-terminated path encoding.
    pub key: Vec<u8>,
    /// The authoring identity, standing for the author's public key.
    pub author: u64,
    /// The logical timestamp of the write.
    pub timestamp: u64,
    /// The payload bytes of the entry.
    pub content: Vec<u8>,
}

/// The mathematical value of an entry.
pub struct EntryModel {
    /// The key bytes.
    pub key: Seq<u8>,
    /// The authoring identity.
    pub author: u64,
    /// The logical timestamp.
    pub timestamp: u64,
    /// The payload bytes.
    pub content: Seq<u8>,
}

impl View for FsEntry {
    type V = EntryModel;

    open spec fn view(&self) -> EntryModel {
        EntryModel {
            key: self.key@,
            author: self.author,
            timestamp: self.timestamp,
            content: self.content@,
        }
    }
}

impl FsEntry {
    /// The length, in bytes, of the entry's payload.
    pub fn content_len(&self) -> (r: u64)
        ensures
            r == self@.content.len(),
    {
        self.content.len() as u64
    }
}

/// A content identifier: stands for the content-derived digest of a
/// payload. Modelled by the payload itself, so that equal contents have
/// equal identifiers and distinct contents distinct identifiers.
pub struct ContentId {
    /// The bytes the identifier is derived from.
    pub bytes: Vec<u8>,
}

impl View for ContentId {
    type V = Seq<u8>;

    open spec fn view(&self) -> Seq<u8> {
        self.bytes@
    }
}

/// One locally held replica: its namespace, the local capability on it,
/// and its entries.
pub struct Replica {
    /// The namespace the replica belongs to.
    pub id: NamespaceId,
    /// The access the local node holds on the replica.
    pub capability: CapabilityKind,
    /// The entries of the replica, in storage order.
    pub entries: Vec<FsEntry>,
}

/// The mathematical value of a replica.
pub struct ReplicaModel {
    /// The namespace the replica belongs to.
    pub id: NamespaceId,
    /// The access the local node holds on the replica.
    pub capability: CapabilityKind,
    /// The entries of the replica, in storage order.
    pub entries: Seq<EntryModel>,
}

impl View for Replica {
    type V = ReplicaModel;

    open spec fn view(&self) -> ReplicaModel {
        ReplicaModel {
            id: self.id,
            capability: self.capability,
            entries: self.entries@.map_values(|e: FsEntry| e@),
        }
    }
}

/// The mathematical value of the whole store.
pub struct StoreModel {
    /// The locally held replicas, in creation order.
    pub replicas: Seq<ReplicaModel>,
    /// The logical clock: strictly greater than every stored timestamp.
    pub clock: u64,
    /// The local authoring identity.
    pub author: u64,
    /// The address under which this node is reachable.
    pub node_addr: NodeAddr,
}

/// An instance of an Oku file system over locally held replicas.
pub struct OkuFs {
    replicas: Vec<Replica>,
    clock: u64,
    author: u64,
    node_addr: NodeAddr,
}

impl View for OkuFs {
    type V = StoreModel;

    closed spec fn view(&self) -> StoreModel {
        StoreModel {
            replicas: self.replicas@.map_values(|r: Replica| r@),
            clock: self.clock,
            author: self.author,
            node_addr: self.node_addr,
        }
    }
}

/// Whether the store holds a replica of the given namespace.
pub open spec fn has_replica(m: StoreModel, id: NamespaceId) -> bool {
    exists|i: int| 0 <= i < m.replicas.len() && m.replicas[i].id == id
}

/// The position of the replica of the given namespace.
pub open spec fn replica_index(m: StoreModel, id: NamespaceId) -> int {
    choose|i: int| 0 <= i < m.replicas.len() && m.replicas[i].id == id
}

/// The entries of the replica of the given namespace.
pub open spec fn replica_entries(m: StoreModel, id: NamespaceId) -> Seq<EntryModel> {
    m.replicas[replica_index(m, id)].entries
}

/// The local capability on the replica of the given namespace.
pub open spec fn replica_capability(m: StoreModel, id: NamespaceId) -> CapabilityKind {
    m.replicas[replica_index(m, id)].capability
}

/// The store with the entries of one replica replaced.
pub open spec fn with_entries(m: StoreModel, id: NamespaceId, entries: Seq<EntryModel>) -> StoreModel {
    let i = replica_index(m, id);
    (StoreModel {
        replicas: m.replicas.update(
            i,
            (ReplicaModel { entries, ..m.replicas[i] }),
        ),
        ..m
    })
}

/// Whether the replica holds an entry under the given key.
pub open spec fn has_entry(entries: Seq<EntryModel>, key: Seq<u8>) -> bool {
    exists|i: int| 0 <= i < entries.len() && entries[i].key == key
}

/// Whether no entry with the same key carries a greater timestamp.
pub open spec fn is_latest_in(entries: Seq<EntryModel>, e: EntryModel) -> bool {
    forall|j: int|
        0 <= j < entries.len() && entries[j].key == e.key ==> entries[j].timestamp <= e.timestamp
}

/// The latest entry under the given key.
pub open spec fn latest_at(entries: Seq<EntryModel>, key: Seq<u8>) -> EntryModel {
    let i = choose|i: int|
        0 <= i < entries.len() && entries[i].key == key && is_latest_in(entries, entries[i]);
    entries[i]
}

/// The latest entries whose keys begin with the given prefix, in storage
/// order. With the empty prefix: the latest entry of every key.
pub open spec fn latest_under(entries: Seq<EntryModel>, prefix: Seq<u8>) -> Seq<EntryModel> {
    entries.filter(
        |e: EntryModel| is_byte_prefix(prefix, e.key) && is_latest_in(entries, e),
    )
}

/// The entries left after deleting, for one author, everything under a key
/// prefix.
pub open spec fn spec_del(entries: Seq<EntryModel>, author: u64, prefix: Seq<u8>) -> Seq<
    EntryModel,
> {
    entries.filter(|e: EntryModel| !(e.author == author && is_byte_prefix(prefix, e.key)))
}

/// The entries after a write: the author's previous entry under the key,
/// if any, is replaced by the new one, which is appended.
pub open spec fn spec_write(
    entries: Seq<EntryModel>,
    author: u64,
    key: Seq<u8>,
    content: Seq<u8>,
    timestamp: u64,
) -> Seq<EntryModel> {
    entries.filter(|e: EntryModel| !(e.author == author && e.key == key)).push(
        (EntryModel { key, author, timestamp, content }),
    )
}

/// Well-formedness of one replica's entries under the store clock: every
/// timestamp lies below the clock, timestamps are pairwise distinct (so
/// "latest" is unambiguous), each author holds at most one entry per key,
/// and every key is an absolute path encoding, starting with the separator
/// byte.
pub open spec fn entries_wf(entries: Seq<EntryModel>, clock: u64) -> bool {
    &&& forall|i: int|
        0 <= i < entries.len() ==> (#[trigger] entries[i]).timestamp < clock && is_byte_prefix(
            seq![47u8],
            entries[i].key,
        ) && entries[i].key.last() == 0u8
    &&& forall|i: int, j: int|
        0 <= i < j < entries.len() ==> (#[trigger] entries[i]).timestamp
            != (#[trigger] entries[j]).timestamp && !(entries[i].author == entries[j].author
            && entries[i].key == entries[j].key)
}

/// Well-formedness of the whole store: namespaces are pairwise distinct and
/// every replica's entries are well formed under the store clock.
pub open spec fn store_wf(m: StoreModel) -> bool {
    &&& forall|i: int, j: int|
        0 <= i < j < m.replicas.len() ==> #[trigger] m.replicas[i].id != #[trigger] m.replicas[j].id
    &&& forall|i: int|
        0 <= i < m.replicas.len() ==> entries_wf(#[trigger] m.replicas[i].entries, m.clock)
}

/// The views of a vector of entries.
pub open spec fn entry_views(entries: Seq<FsEntry>) -> Seq<EntryModel> {
    entries.map_values(|e: FsEntry| e@)
}

/// The entries left after removing one author's entry under an exact key.
pub open spec fn spec_remove_author_key(
    entries: Seq<EntryModel>,
    author: u64,
    key: Seq<u8>,
) -> Seq<EntryModel> {
    entries.filter(|e: EntryModel| !(e.author == author && e.key == key))
}

/// The outcome of reading the file at a path: the payload of the latest
/// entry under its file key, or not-found when the replica or the entry is
/// absent.
pub open spec fn model_read(m: StoreModel, id: NamespaceId, path: Seq<char>) -> Result<
    Seq<u8>,
    OkuFsError,
> {
    if !has_replica(m, id) {
        Err(OkuFsError::FsEntryNotFound)
    } else if !has_entry(replica_entries(m, id), file_key(path)) {
        Err(OkuFsError::FsEntryNotFound)
    } else {
        Ok(latest_at(replica_entries(m, id), file_key(path)).content)
    }
}

/// The outcome of looking up the latest entry at a path.
pub open spec fn model_get_entry(m: StoreModel, id: NamespaceId, path: Seq<char>) -> Result<
    EntryModel,
    OkuFsError,
> {
    if !has_replica(m, id) {
        Err(OkuFsError::FsEntryNotFound)
    } else if !has_entry(replica_entries(m, id), file_key(path)) {
        Err(OkuFsError::FsEntryNotFound)
    } else {
        Ok(latest_at(replica_entries(m, id), file_key(path)))
    }
}

/// The outcome of writing a file: the store after the write and the bytes
/// the returned content identifier is derived from. The write fails on an
/// absent replica, on a replica held read-only, and when the logical clock
/// is exhausted.
pub open spec fn model_write(
    m: StoreModel,
    id: NamespaceId,
    path: Seq<char>,
    data: Seq<u8>,
) -> (StoreModel, Result<Seq<u8>, OkuFsError>) {
    if !has_replica(m, id) {
        (m, Err(OkuFsError::FsEntryNotFound))
    } else if replica_capability(m, id) != CapabilityKind::Write || m.clock == u64::MAX {
        (m, Err(OkuFsError::CannotCreateOrModifyFile))
    } else {
        let entries = spec_write(
            replica_entries(m, id),
            m.author,
            file_key(path),
            data,
            m.clock,
        );
        (
            (StoreModel { clock: (m.clock + 1) as u64, ..with_entries(m, id, entries) }),
            Ok(data),
        )
    }
}

/// The outcome of deleting a file: the latest entry under the file key is
/// resolved, and everything its author holds under that key (as a prefix)
/// is removed. The result counts the removed entries.
pub open spec fn model_delete_file(m: StoreModel, id: NamespaceId, path: Seq<char>) -> (
    StoreModel,
    Result<int, OkuFsError>,
) {
    if !has_replica(m, id) || !has_entry(replica_entries(m, id), file_key(path)) {
        (m, Err(OkuFsError::FsEntryNotFound))
    } else {
        let entries = replica_entries(m, id);
        let author = latest_at(entries, file_key(path)).author;
        let remaining = spec_del(entries, author, file_key(path));
        (with_entries(m, id, remaining), Ok(entries.len() - remaining.len()))
    }
}

/// Every element of a filtered sequence stands somewhere in the original.
proof fn lemma_filter_element_of(
    s: Seq<EntryModel>,
    pred: spec_fn(EntryModel) -> bool,
    j: int,
)
    requires
        0 <= j < s.filter(pred).len(),
    ensures
        exists|k: int| 0 <= k < s.len() && #[trigger] s[k] == s.filter(pred)[j],
    decreases s.len(),
{
    reveal(Seq::filter);
    if s.len() > 0 {
        let prev = s.drop_last().filter(pred);
        if pred(s.last()) && j == prev.len() {
            assert(s[s.len() - 1] == s.filter(pred)[j]);
        } else {
            lemma_filter_element_of(s.drop_last(), pred, j);
            let k = choose|k: int|
                0 <= k < s.drop_last().len() && #[trigger] s.drop_last()[k] == s.drop_last().filter(
                    pred,
                )[j];
            assert(s[k] == s.filter(pred)[j]);
        }
    }
}

/// Two ordered elements of a filtered sequence stand in order somewhere
/// in the original.
proof fn lemma_filter_elements_ordered(
    s: Seq<EntryModel>,
    pred: spec_fn(EntryModel) -> bool,
    a: int,
    b: int,
)
    requires
        0 <= a < b < s.filter(pred).len(),
    ensures
        exists|ka: int, kb: int|
            0 <= ka < kb < s.len() && #[trigger] s[ka] == s.filter(pred)[a] && #[trigger] s[kb]
                == s.filter(pred)[b],
    decreases s.len(),
{
    reveal(Seq::filter);
    let out = s.filter(pred);
    let prev = s.drop_last().filter(pred);
    if pred(s.last()) && b == prev.len() {
        lemma_filter_element_of(s.drop_last(), pred, a);
        let ka = choose|k: int|
            0 <= k < s.drop_last().len() && #[trigger] s.drop_last()[k] == prev[a];
        assert(s[ka] == out[a] && s[s.len() - 1] == out[b]);
    } else {
        lemma_filter_elements_ordered(s.drop_last(), pred, a, b);
        let (ka, kb) = choose|ka: int, kb: int|
            0 <= ka < kb < s.drop_last().len() && #[trigger] s.drop_last()[ka] == prev[a]
                && #[trigger] s.drop_last()[kb] == prev[b];
        assert(s[ka] == out[a] && s[kb] == out[b]);
    }
}

/// Filtering well-formed entries keeps them well formed.
proof fn lemma_filter_entries_wf(
    entries: Seq<EntryModel>,
    pred: spec_fn(EntryModel) -> bool,
    clock: u64,
)
    requires
        entries_wf(entries, clock),
    ensures
        entries_wf(entries.filter(pred), clock),
{
    let out = entries.filter(pred);
    assert forall|j: int| 0 <= j < out.len() implies (#[trigger] out[j]).timestamp < clock
        && is_byte_prefix(seq![47u8], out[j].key) && out[j].key.last() == 0u8 by {
        lemma_filter_element_of(entries, pred, j);
        let k = choose|k: int| 0 <= k < entries.len() && #[trigger] entries[k] == out[j];
        assert(entries[k].timestamp < clock);
    }
    assert forall|a: int, b: int| 0 <= a < b < out.len() implies (#[trigger] out[a]).timestamp
        != (#[trigger] out[b]).timestamp && !(out[a].author == out[b].author && out[a].key
        == out[b].key) by {
        lemma_filter_elements_ordered(entries, pred, a, b);
        let (ka, kb) = choose|ka: int, kb: int|
            0 <= ka < kb < entries.len() && #[trigger] entries[ka] == out[a]
                && #[trigger] entries[kb] == out[b];
        assert(entries[ka].timestamp != entries[kb].timestamp);
    }
}

/// Under a well-formed replica, any maximal entry under a key is the
/// latest entry the model resolves.
proof fn lemma_latest_at_is(entries: Seq<EntryModel>, key: Seq<u8>, i: int, clock: u64)
    requires
        entries_wf(entries, clock),
        0 <= i < entries.len(),
        entries[i].key == key,
        is_latest_in(entries, entries[i]),
    ensures
        latest_at(entries, key) == entries[i],
{
    assert(exists|j: int|
        0 <= j < entries.len() && entries[j].key == key && is_latest_in(entries, entries[j]))
        by {
        assert(0 <= i < entries.len() && entries[i].key == key && is_latest_in(
            entries,
            entries[i],
        ));
    }
    let j = choose|j: int|
        0 <= j < entries.len() && entries[j].key == key && is_latest_in(entries, entries[j]);
    assert(0 <= j < entries.len() && entries[j].key == key && is_latest_in(entries, entries[j]));
    if i != j {
        assert(entries[i].timestamp <= entries[j].timestamp);
        assert(entries[j].timestamp <= entries[i].timestamp);
    }
}

/// The least timestamp among the first `n` entries whose keys begin with
/// the prefix, or nothing when none match.
pub open spec fn min_ts_upto(
    entries: Seq<EntryModel>,
    prefix: Seq<u8>,
    n: int,
) -> Option<u64>
    decreases n,
{
    if n <= 0 {
        None
    } else {
        let rest = min_ts_upto(entries, prefix, n - 1);
        if !is_byte_prefix(prefix, entries[n - 1].key) {
            rest
        } else {
            match rest {
                None => Some(entries[n - 1].timestamp),
                Some(v) => if entries[n - 1].timestamp < v {
                    Some(entries[n - 1].timestamp)
                } else {
                    Some(v)
                },
            }
        }
    }
}

/// The greatest timestamp among the first `n` entries whose keys begin
/// with the prefix, or nothing when none match.
pub open spec fn max_ts_upto(
    entries: Seq<EntryModel>,
    prefix: Seq<u8>,
    n: int,
) -> Option<u64>
    decreases n,
{
    if n <= 0 {
        None
    } else {
        let rest = max_ts_upto(entries, prefix, n - 1);
        if !is_byte_prefix(prefix, entries[n - 1].key) {
            rest
        } else {
            match rest {
                None => Some(entries[n - 1].timestamp),
                Some(v) => if entries[n - 1].timestamp > v {
                    Some(entries[n - 1].timestamp)
                } else {
                    Some(v)
                },
            }
        }
    }
}

/// The least timestamp among the first `n` entries lying exactly under
/// the key, or nothing when none match.
pub open spec fn min_ts_exact_upto(
    entries: Seq<EntryModel>,
    key: Seq<u8>,
    n: int,
) -> Option<u64>
    decreases n,
{
    if n <= 0 {
        None
    } else {
        let rest = min_ts_exact_upto(entries, key, n - 1);
        if entries[n - 1].key != key {
            rest
        } else {
            match rest {
                None => Some(entries[n - 1].timestamp),
                Some(v) => if entries[n - 1].timestamp < v {
                    Some(entries[n - 1].timestamp)
                } else {
                    Some(v)
                },
            }
        }
    }
}

/// The least timestamp in the full history of the file at a key; a key
/// with no history yields the least possible timestamp.
pub open spec fn oldest_at_key(entries: Seq<EntryModel>, key: Seq<u8>) -> u64 {
    match min_ts_exact_upto(entries, key, entries.len() as int) {
        None => 0,
        Some(v) => v,
    }
}

/// The least timestamp of any entry under the prefix; an empty selection
/// yields the least possible timestamp.
pub open spec fn oldest_in(entries: Seq<EntryModel>, prefix: Seq<u8>) -> u64 {
    match min_ts_upto(entries, prefix, entries.len() as int) {
        None => 0,
        Some(v) => v,
    }
}

/// The greatest timestamp of any entry under the prefix; an empty
/// selection yields the least possible timestamp.
pub open spec fn newest_in(entries: Seq<EntryModel>, prefix: Seq<u8>) -> u64 {
    match max_ts_upto(entries, prefix, entries.len() as int) {
        None => 0,
        Some(v) => v,
    }
}

/// The total payload length of the latest entries under the prefix, among
/// the first `n` entries.
pub open spec fn folder_size_upto(entries: Seq<EntryModel>, prefix: Seq<u8>, n: int) -> int
    decreases n,
{
    if n <= 0 {
        0
    } else {
        folder_size_upto(entries, prefix, n - 1) + (if is_byte_prefix(
            prefix,
            entries[n - 1].key,
        ) && is_latest_in(entries, entries[n - 1]) {
            entries[n - 1].content.len() as int
        } else {
            0
        })
    }
}

/// The total payload length of the latest entries under the prefix.
pub open spec fn folder_size_in(entries: Seq<EntryModel>, prefix: Seq<u8>) -> int {
    folder_size_upto(entries, prefix, entries.len() as int)
}

/// The least folder-oldest timestamp over the first `n` replicas, the
/// whole of each replica taken as the folder; an empty replica contributes
/// the least possible timestamp.
pub open spec fn store_oldest_upto(m: StoreModel, n: int) -> u64
    decreases n,
{
    if n <= 0 {
        0
    } else if n == 1 {
        oldest_in(m.replicas[0].entries, seq![47u8])
    } else {
        let rest = store_oldest_upto(m, n - 1);
        let v = oldest_in(m.replicas[n - 1].entries, seq![47u8]);
        if v < rest {
            v
        } else {
            rest
        }
    }
}

/// The greatest folder-newest timestamp over the first `n` replicas.
pub open spec fn store_newest_upto(m: StoreModel, n: int) -> u64
    decreases n,
{
    if n <= 0 {
        0
    } else {
        let rest = store_newest_upto(m, n - 1);
        let v = newest_in(m.replicas[n - 1].entries, seq![47u8]);
        if v > rest {
            v
        } else {
            rest
        }
    }
}

/// The total size over the first `n` replicas.
pub open spec fn store_size_upto(m: StoreModel, n: int) -> int
    decreases n,
{
    if n <= 0 {
        0
    } else {
        store_size_upto(m, n - 1) + folder_size_in(m.replicas[n - 1].entries, seq![47u8])
    }
}

/// Folder sizes are never negative.
proof fn lemma_folder_size_nonneg(entries: Seq<EntryModel>, prefix: Seq<u8>, n: int)
    ensures
        folder_size_upto(entries, prefix, n) >= 0,
    decreases n,
{
    if n > 0 {
        lemma_folder_size_nonneg(entries, prefix, n - 1);
    }
}

/// Store sizes are never negative.
proof fn lemma_store_size_nonneg(m: StoreModel, n: int)
    ensures
        store_size_upto(m, n) >= 0,
    decreases n,
{
    if n > 0 {
        lemma_store_size_nonneg(m, n - 1);
        lemma_folder_size_nonneg(
            m.replicas[n - 1].entries,
            seq![47u8],
            m.replicas[n - 1].entries.len() as int,
        );
    }
}

/// A value clipped to the greatest representable count.
pub open spec fn clip_usize(v: int) -> int {
    if v <= usize::MAX {
        v
    } else {
        usize::MAX as int
    }
}

/// A value clipped to the greatest representable timestamp or size.
pub open spec fn clip_u64(v: int) -> int {
    if v <= u64::MAX {
        v
    } else {
        u64::MAX as int
    }
}

/// The capability kind a sharing mode asks for.
pub open spec fn share_kind(mode: ShareMode) -> CapabilityKind {
    match mode {
        ShareMode::Read => CapabilityKind::Read,
        ShareMode::Write => CapabilityKind::Write,
    }
}

/// The outcome of moving a file: the source is read, the payload is
/// written at the destination, and the source entry is deleted — three
/// separate steps, not one atomic one. A failure part-way leaves the
/// store as the completed steps left it.
#[verifier::opaque]
pub open spec fn model_move_file(
    m: StoreModel,
    from_id: NamespaceId,
    from_path: Seq<char>,
    to_id: NamespaceId,
    to_path: Seq<char>,
) -> (StoreModel, Result<(Seq<u8>, int), OkuFsError>) {
    match model_read(m, from_id, from_path) {
        Err(e) => (m, Err(e)),
        Ok(data) => {
            let step = model_write(m, to_id, to_path, data);
            match step.1 {
                Err(e) => (step.0, Err(e)),
                Ok(_) => {
                    let step2 = model_delete_file(step.0, from_id, from_path);
                    match step2.1 {
                        Err(e) => (step2.0, Err(e)),
                        Ok(count) => (step2.0, Ok((data, count))),
                    }
                },
            }
        },
    }
}

/// The entries left after performing, in order, one delete per target:
/// for each target, its author's entries under the target's key stripped
/// of the terminator are removed.
pub open spec fn apply_dels(entries: Seq<EntryModel>, targets: Seq<EntryModel>) -> Seq<
    EntryModel,
>
    decreases targets.len(),
{
    if targets.len() == 0 {
        entries
    } else {
        apply_dels(
            spec_del(entries, targets[0].author, targets[0].key.drop_last()),
            targets.drop_first(),
        )
    }
}

/// The outcome of deleting a directory: every latest entry under the
/// directory's scan prefix is resolved up front, and one delete is issued
/// per resolved entry, by its author, under its exact key. The result
/// counts the removed entries.
pub open spec fn model_delete_directory(m: StoreModel, id: NamespaceId, path: Seq<char>) -> (
    StoreModel,
    Result<int, OkuFsError>,
) {
    if !has_replica(m, id) {
        (m, Err(OkuFsError::FsEntryNotFound))
    } else {
        let entries = replica_entries(m, id);
        let targets = latest_under(entries, dir_prefix_key(path));
        let remaining = apply_dels(entries, targets);
        (with_entries(m, id, remaining), Ok(entries.len() - remaining.len()))
    }
}

/// The entries whose keys do not lie under a directory's scan prefix.
pub open spec fn outside_dir(entries: Seq<EntryModel>, prefix: Seq<u8>) -> Seq<EntryModel> {
    entries.filter(|e: EntryModel| !is_byte_prefix(prefix, e.key))
}

/// The latest entries under a prefix are well formed whenever the replica
/// is.
proof fn lemma_latest_under_wf(entries: Seq<EntryModel>, prefix: Seq<u8>, clock: u64)
    requires
        entries_wf(entries, clock),
    ensures
        entries_wf(latest_under(entries, prefix), clock),
{
    lemma_filter_entries_wf(
        entries,
        |e: EntryModel| is_byte_prefix(prefix, e.key) && is_latest_in(entries, e),
        clock,
    );
}

/// Deleting never grows the entry set.
proof fn lemma_spec_del_len(entries: Seq<EntryModel>, author: u64, prefix: Seq<u8>)
    ensures
        spec_del(entries, author, prefix).len() <= entries.len(),
{
    entries.lemma_filter_len(
        |e: EntryModel| !(e.author == author && is_byte_prefix(prefix, e.key)),
    );
}

/// A sequence of deletes never grows the entry set.
proof fn lemma_apply_dels_len(entries: Seq<EntryModel>, targets: Seq<EntryModel>)
    ensures
        apply_dels(entries, targets).len() <= entries.len(),
    decreases targets.len(),
{
    if targets.len() > 0 {
        lemma_spec_del_len(entries, targets[0].author, targets[0].key.drop_last());
        lemma_apply_dels_len(
            spec_del(entries, targets[0].author, targets[0].key.drop_last()),
            targets.drop_first(),
        );
    }
}

/// The outcome of moving, one after another, the files behind the given
/// latest entries into a destination directory, each keeping its final
/// path segment. A step whose entry key does not decode, or whose move
/// fails, aborts the workflow with the earlier moves left in place.
#[verifier::opaque]
pub open spec fn model_move_directory_loop(
    m: StoreModel,
    from_id: NamespaceId,
    to_id: NamespaceId,
    to_path: Seq<char>,
    targets: Seq<EntryModel>,
) -> (StoreModel, Result<(Seq<Seq<u8>>, int), OkuFsError>)
    decreases targets.len(),
{
    if targets.len() == 0 {
        (m, Ok((Seq::<Seq<u8>>::empty(), 0)))
    } else {
        let t = targets[0];
        if !crate::codec::key_is_valid(t.key) {
            (m, Err(OkuFsError::CannotReadFile))
        } else {
            let old_path = vstd::utf8::decode_utf8(t.key.drop_last());
            let new_path = to_path + seq!['/'] + crate::codec::last_segment(old_path);
            let step = model_move_file(m, from_id, old_path, to_id, new_path);
            match step.1 {
                Err(e) => (step.0, Err(e)),
                Ok(moved) => {
                    let rest = model_move_directory_loop(
                        step.0,
                        from_id,
                        to_id,
                        to_path,
                        targets.drop_first(),
                    );
                    match rest.1 {
                        Err(e) => (rest.0, Err(e)),
                        Ok(tail) => (rest.0, Ok((seq![moved.0] + tail.0, moved.1 + tail.1))),
                    }
                },
            }
        }
    }
}

/// The outcome of moving a directory: the latest entries under the source
/// prefix are resolved up front and each file is moved under the
/// destination path, keeping its final path segment. Partial failure
/// leaves a mix of moved and unmoved files — there is no rollback.
pub open spec fn model_move_directory(
    m: StoreModel,
    from_id: NamespaceId,
    from_path: Seq<char>,
    to_id: NamespaceId,
    to_path: Seq<char>,
) -> (StoreModel, Result<(Seq<Seq<u8>>, int), OkuFsError>) {
    if !has_replica(m, from_id) {
        (m, Err(OkuFsError::FsEntryNotFound))
    } else {
        model_move_directory_loop(
            m,
            from_id,
            to_id,
            to_path,
            latest_under(replica_entries(m, from_id), prefix_key(from_path)),
        )
    }
}

/// The store after importing a capability: a namespace not yet held is
/// added as an empty replica with the capability's access level; one
/// already held is kept, upgraded to write access when the capability
/// grants it.
pub open spec fn model_import(m: StoreModel, capability: DocCapability) -> StoreModel {
    if !has_replica(m, capability.id) {
        (StoreModel {
            replicas: m.replicas.push(
                (ReplicaModel {
                    id: capability.id,
                    capability: capability.kind,
                    entries: Seq::<EntryModel>::empty(),
                }),
            ),
            ..m
        })
    } else if capability.kind == CapabilityKind::Write {
        let i = replica_index(m, capability.id);
        (StoreModel {
            replicas: m.replicas.update(
                i,
                (ReplicaModel { capability: CapabilityKind::Write, ..m.replicas[i] }),
            ),
            ..m
        })
    } else {
        m
    }
}

/// Replacing one replica's entries changes nothing else: every other
/// replica, every position, and every capability stay as they were.
pub proof fn lemma_with_entries_props(m: StoreModel, id: NamespaceId, entries: Seq<EntryModel>)
    requires
        store_wf(m),
        has_replica(m, id),
    ensures
        with_entries(m, id, entries).replicas.len() == m.replicas.len(),
        with_entries(m, id, entries).clock == m.clock,
        with_entries(m, id, entries).author == m.author,
        with_entries(m, id, entries).node_addr == m.node_addr,
        forall|x: NamespaceId| has_replica(with_entries(m, id, entries), x) <==> has_replica(m, x),
        forall|x: NamespaceId|
            has_replica(m, x) ==> #[trigger] replica_index(with_entries(m, id, entries), x)
                == replica_index(m, x),
        replica_entries(with_entries(m, id, entries), id) == entries,
        forall|x: NamespaceId|
            has_replica(m, x) && x != id ==> #[trigger] replica_entries(
                with_entries(m, id, entries),
                x,
            ) == replica_entries(m, x),
        forall|x: NamespaceId|
            has_replica(m, x) ==> #[trigger] replica_capability(with_entries(m, id, entries), x)
                == replica_capability(m, x),
{
    let m2 = with_entries(m, id, entries);
    let i = replica_index(m, id);
    assert(0 <= i < m.replicas.len() && m.replicas[i].id == id);
    assert forall|k: int| 0 <= k < m2.replicas.len() implies #[trigger] m2.replicas[k].id
        == m.replicas[k].id by {}
    assert forall|x: NamespaceId| has_replica(m2, x) implies has_replica(m, x) by {
        let k = choose|k: int| 0 <= k < m2.replicas.len() && m2.replicas[k].id == x;
        assert(m.replicas[k].id == x);
    }
    assert forall|x: NamespaceId| has_replica(m, x) implies has_replica(m2, x) by {
        let k = choose|k: int| 0 <= k < m.replicas.len() && m.replicas[k].id == x;
        assert(m2.replicas[k].id == x);
    }
    assert forall|x: NamespaceId| has_replica(m, x) implies #[trigger] replica_index(m2, x)
        == replica_index(m, x) by {
        let k = replica_index(m, x);
        assert(0 <= k < m.replicas.len() && m.replicas[k].id == x);
        let k2 = replica_index(m2, x);
        assert(0 <= k2 < m2.replicas.len() && m2.replicas[k2].id == x);
        assert(m.replicas[k2].id == x);
        if k != k2 {
            assert(m.replicas[k].id != m.replicas[k2].id || k == k2);
        }
    }
}

/// Writing keeps the store well formed.
pub proof fn lemma_model_write_wf(m: StoreModel, id: NamespaceId, path: Seq<char>, data: Seq<u8>)
    requires
        store_wf(m),
    ensures
        store_wf(model_write(m, id, path, data).0),
{
    if has_replica(m, id) && replica_capability(m, id) == CapabilityKind::Write && m.clock
        != u64::MAX {
        let m2 = model_write(m, id, path, data).0;
        let i = replica_index(m, id);
        assert(0 <= i < m.replicas.len());
        let old_entries = replica_entries(m, id);
        let filtered = spec_remove_author_key(old_entries, m.author, file_key(path));
        let written = spec_write(old_entries, m.author, file_key(path), data, m.clock);
        let new_entry = (EntryModel {
            key: file_key(path),
            author: m.author,
            timestamp: m.clock,
            content: data,
        });
        lemma_filter_entries_wf(
            old_entries,
            |e: EntryModel| !(e.author == m.author && e.key == file_key(path)),
            m.clock,
        );
        lemma_file_key_shape(path);
        assert(file_key(path).take(1) =~= seq![47u8]);
        assert(entries_wf(written, m2.clock)) by {
            assert forall|a: int| 0 <= a < written.len() implies (#[trigger] written[a]).timestamp
                < m2.clock && is_byte_prefix(seq![47u8], written[a].key) && written[a].key.last()
                == 0u8 by {
                if a < filtered.len() {
                    assert(written[a] == filtered[a]);
                } else {
                    assert(written[a] == new_entry);
                }
            }
            assert forall|a: int, b: int| 0 <= a < b < written.len() implies
                (#[trigger] written[a]).timestamp != (#[trigger] written[b]).timestamp
                && !(written[a].author == written[b].author && written[a].key
                == written[b].key) by {
                if b < filtered.len() {
                    assert(written[a] == filtered[a]);
                    assert(written[b] == filtered[b]);
                } else {
                    assert(written[b] == new_entry);
                    assert(written[a] == filtered[a]);
                    assert(filtered[a].timestamp < m.clock);
                }
            }
        }
        assert forall|j: int| 0 <= j < m2.replicas.len() implies entries_wf(
            #[trigger] m2.replicas[j].entries,
            m2.clock,
        ) by {
            if j != i {
                assert(m2.replicas[j] == m.replicas[j]);
                assert(entries_wf(m.replicas[j].entries, m.clock));
                assert forall|a: int, b: int|
                    0 <= a < b < m.replicas[j].entries.len() implies
                    (#[trigger] m.replicas[j].entries[a]).timestamp
                    != (#[trigger] m.replicas[j].entries[b]).timestamp
                    && !(m.replicas[j].entries[a].author == m.replicas[j].entries[b].author
                    && m.replicas[j].entries[a].key == m.replicas[j].entries[b].key) by {}
            }
        }
    }
}

/// Deleting a file keeps the store well formed.
pub proof fn lemma_model_delete_file_wf(m: StoreModel, id: NamespaceId, path: Seq<char>)
    requires
        store_wf(m),
    ensures
        store_wf(model_delete_file(m, id, path).0),
{
    if has_replica(m, id) && has_entry(replica_entries(m, id), file_key(path)) {
        let m2 = model_delete_file(m, id, path).0;
        let i = replica_index(m, id);
        assert(0 <= i < m.replicas.len());
        let old_entries = replica_entries(m, id);
        let author = latest_at(old_entries, file_key(path)).author;
        lemma_filter_entries_wf(
            old_entries,
            |e: EntryModel| !(e.author == author && is_byte_prefix(file_key(path), e.key)),
            m.clock,
        );
        assert forall|j: int| 0 <= j < m2.replicas.len() implies entries_wf(
            #[trigger] m2.replicas[j].entries,
            m2.clock,
        ) by {
            if j != i {
                assert(m2.replicas[j] == m.replicas[j]);
            }
        }
    }
}

/// Every byte string is a prefix of itself, prefixing is transitive, and
/// dropping the final byte of a longer string keeps a shorter prefix.
proof fn lemma_byte_prefix_facts(a: Seq<u8>, b: Seq<u8>, c: Seq<u8>)
    ensures
        is_byte_prefix(a, a),
        is_byte_prefix(a, b) && is_byte_prefix(b, c) ==> is_byte_prefix(a, c),
        is_byte_prefix(a, b) && a.len() < b.len() ==> is_byte_prefix(a, b.drop_last()),
{
    assert(a.take(a.len() as int) =~= a);
    if is_byte_prefix(a, b) && is_byte_prefix(b, c) {
        assert(c.take(a.len() as int) =~= b.take(a.len() as int));
    }
    if is_byte_prefix(a, b) && a.len() < b.len() {
        assert(b.drop_last().take(a.len() as int) =~= b.take(a.len() as int));
    }
}

/// A filter that keeps every element changes nothing.
proof fn lemma_filter_keeps_all(s: Seq<EntryModel>, pred: spec_fn(EntryModel) -> bool)
    requires
        forall|i: int| 0 <= i < s.len() ==> pred(#[trigger] s[i]),
    ensures
        s.filter(pred) == s,
    decreases s.len(),
{
    reveal(Seq::filter);
    if s.len() > 0 {
        lemma_filter_keeps_all(s.drop_last(), pred);
        assert(s.filter(pred) =~= s);
    }
}

/// Entries outside a directory survive a delete bounded below it: when
/// the deletion prefix lies under the directory prefix, the entries
/// outside the directory are the same before and after the delete.
proof fn lemma_outside_del_commute(
    entries: Seq<EntryModel>,
    author: u64,
    p0: Seq<u8>,
    dp: Seq<u8>,
)
    requires
        is_byte_prefix(dp, p0),
    ensures
        outside_dir(spec_del(entries, author, p0), dp) == outside_dir(entries, dp),
    decreases entries.len(),
{
    reveal(Seq::filter);
    if entries.len() > 0 {
        lemma_outside_del_commute(entries.drop_last(), author, p0, dp);
        let e = entries.last();
        lemma_byte_prefix_facts(dp, p0, e.key);
        assert(spec_del(entries, author, p0) == if !(e.author == author && is_byte_prefix(
            p0,
            e.key,
        )) {
            spec_del(entries.drop_last(), author, p0).push(e)
        } else {
            spec_del(entries.drop_last(), author, p0)
        });
        assert(outside_dir(entries, dp) == if !is_byte_prefix(dp, e.key) {
            outside_dir(entries.drop_last(), dp).push(e)
        } else {
            outside_dir(entries.drop_last(), dp)
        });
    }
}

/// Issuing one delete per target empties a directory exactly: when every
/// entry is owned by one author, every target is that author's and lies
/// below the directory, and every entry below the directory is reachable
/// from some target, the deletes remove precisely the entries below the
/// directory.
proof fn lemma_apply_dels_outside(
    entries: Seq<EntryModel>,
    targets: Seq<EntryModel>,
    dp: Seq<u8>,
    author: u64,
)
    requires
        forall|t: int|
            0 <= t < targets.len() ==> (#[trigger] targets[t]).author == author
                && is_byte_prefix(dp, targets[t].key.drop_last()),
        forall|i: int| 0 <= i < entries.len() ==> (#[trigger] entries[i]).author == author,
        forall|i: int|
            0 <= i < entries.len() && is_byte_prefix(dp, (#[trigger] entries[i]).key)
                ==> exists|t: int|
                0 <= t < targets.len() && is_byte_prefix(
                    (#[trigger] targets[t]).key.drop_last(),
                    entries[i].key,
                ),
    ensures
        apply_dels(entries, targets) == outside_dir(entries, dp),
    decreases targets.len(),
{
    if targets.len() == 0 {
        assert forall|i: int| 0 <= i < entries.len() implies !is_byte_prefix(
            dp,
            (#[trigger] entries[i]).key,
        ) by {}
        lemma_filter_keeps_all(entries, |e: EntryModel| !is_byte_prefix(dp, e.key));
    } else {
        let p0 = targets[0].key.drop_last();
        let rest = targets.drop_first();
        let after = spec_del(entries, author, p0);
        assert forall|i: int| 0 <= i < after.len() implies (#[trigger] after[i]).author
            == author by {
            lemma_filter_element_of(
                entries,
                |e: EntryModel| !(e.author == author && is_byte_prefix(p0, e.key)),
                i,
            );
            let k = choose|k: int| 0 <= k < entries.len() && #[trigger] entries[k] == after[i];
        }
        assert forall|i: int|
            0 <= i < after.len() && is_byte_prefix(dp, (#[trigger] after[i]).key) implies (exists|
                t: int,
            |
                0 <= t < rest.len() && is_byte_prefix(
                    (#[trigger] rest[t]).key.drop_last(),
                    after[i].key,
                )) by {
            lemma_filter_element_of(
                entries,
                |e: EntryModel| !(e.author == author && is_byte_prefix(p0, e.key)),
                i,
            );
            let k = choose|k: int| 0 <= k < entries.len() && #[trigger] entries[k] == after[i];
            let t = choose|t: int|
                0 <= t < targets.len() && is_byte_prefix(
                    (#[trigger] targets[t]).key.drop_last(),
                    entries[k].key,
                );
            if t == 0 {
                assert(!(after[i].author == author && is_byte_prefix(p0, after[i].key)));
            } else {
                assert(rest[t - 1] == targets[t]);
                assert(is_byte_prefix(rest[t - 1].key.drop_last(), after[i].key));
            }
        }
        assert forall|t: int| 0 <= t < rest.len() implies (#[trigger] rest[t]).author == author
            && is_byte_prefix(dp, rest[t].key.drop_last()) by {
            assert(rest[t] == targets[t + 1]);
        }
        lemma_apply_dels_outside(after, rest, dp, author);
        lemma_outside_del_commute(entries, author, p0, dp);
    }
}

/// Among the first `n` entries holding a key there is one with the
/// greatest timestamp.
#[verifier::rlimit(60)]
proof fn lemma_latest_exists_upto(entries: Seq<EntryModel>, key: Seq<u8>, n: int)
    requires
        0 <= n <= entries.len(),
        exists|i: int| 0 <= i < n && (#[trigger] entries[i]).key == key,
    ensures
        exists|i: int|
            0 <= i < n && (#[trigger] entries[i]).key == key && (forall|j: int|
                0 <= j < n && (#[trigger] entries[j]).key == key ==> entries[j].timestamp
                    <= entries[i].timestamp),
    decreases n,
{
    let w = choose|i: int| 0 <= i < n && (#[trigger] entries[i]).key == key;
    if w == n - 1 {
        if exists|i: int| 0 <= i < n - 1 && (#[trigger] entries[i]).key == key {
            lemma_latest_exists_upto(entries, key, n - 1);
            let b = choose|i: int|
                0 <= i < n - 1 && (#[trigger] entries[i]).key == key && (forall|j: int|
                    0 <= j < n - 1 && (#[trigger] entries[j]).key == key ==> entries[j].timestamp
                        <= entries[i].timestamp);
            if entries[n - 1].timestamp > entries[b].timestamp {
                assert(entries[n - 1].key == key && (forall|j: int|
                    0 <= j < n && (#[trigger] entries[j]).key == key ==> entries[j].timestamp
                        <= entries[n - 1].timestamp));
            } else {
                assert(entries[b].key == key && (forall|j: int|
                    0 <= j < n && (#[trigger] entries[j]).key == key ==> entries[j].timestamp
                        <= entries[b].timestamp));
            }
        } else {
            assert(entries[n - 1].key == key && (forall|j: int|
                0 <= j < n && (#[trigger] entries[j]).key == key ==> entries[j].timestamp
                    <= entries[n - 1].timestamp));
        }
    } else {
        lemma_latest_exists_upto(entries, key, n - 1);
        let b = choose|i: int|
            0 <= i < n - 1 && (#[trigger] entries[i]).key == key && (forall|j: int|
                0 <= j < n - 1 && (#[trigger] entries[j]).key == key ==> entries[j].timestamp
                    <= entries[i].timestamp);
        if n > 0 && entries[n - 1].key == key && entries[n - 1].timestamp
            > entries[b].timestamp {
            assert(entries[n - 1].key == key && (forall|j: int|
                0 <= j < n && (#[trigger] entries[j]).key == key ==> entries[j].timestamp
                    <= entries[n - 1].timestamp));
        } else {
            assert(entries[b].key == key && (forall|j: int|
                0 <= j < n && (#[trigger] entries[j]).key == key ==> entries[j].timestamp
                    <= entries[b].timestamp));
        }
    }
}

/// Every key held in a replica has a latest entry.
proof fn lemma_latest_exists(entries: Seq<EntryModel>, key: Seq<u8>)
    requires
        has_entry(entries, key),
    ensures
        exists|i: int|
            0 <= i < entries.len() && (#[trigger] entries[i]).key == key && is_latest_in(
                entries,
                entries[i],
            ),
{
    lemma_latest_exists_upto(entries, key, entries.len() as int);
    let i = choose|i: int|
        0 <= i < entries.len() && (#[trigger] entries[i]).key == key && (forall|j: int|
            0 <= j < entries.len() && (#[trigger] entries[j]).key == key ==> entries[j].timestamp
                <= entries[i].timestamp);
    assert(entries[i].key == key && is_latest_in(entries, entries[i]));
}

/// Law: deleting a directory removes exactly the entries lying below it.
/// Every entry whose key begins with the directory's scan prefix is
/// removed, none outside it is touched, and the count reports the number
/// removed. Stated for a replica wholly written by the local author: a
/// history entry left under a shadowed key by another author is not
/// resolved by the latest-per-key scan and survives.
pub proof fn lemma_delete_directory_exact(m: StoreModel, id: NamespaceId, path: Seq<char>)
    requires
        store_wf(m),
        has_replica(m, id),
        forall|i: int|
            0 <= i < replica_entries(m, id).len() ==> (#[trigger] replica_entries(m, id)[i]).author
                == m.author,
    ensures
        model_delete_directory(m, id, path).1 == Ok::<int, OkuFsError>(
            replica_entries(m, id).len() - outside_dir(
                replica_entries(m, id),
                dir_prefix_key(path),
            ).len(),
        ),
        replica_entries(model_delete_directory(m, id, path).0, id) == outside_dir(
            replica_entries(m, id),
            dir_prefix_key(path),
        ),
{
    let entries = replica_entries(m, id);
    let dp = dir_prefix_key(path);
    let targets = latest_under(entries, dp);
    let i = replica_index(m, id);
    assert(0 <= i < m.replicas.len());
    assert(entries_wf(entries, m.clock));
    crate::codec::lemma_dir_prefix_key_shape(path);
    assert forall|t: int| 0 <= t < targets.len() implies (#[trigger] targets[t]).author
        == m.author && is_byte_prefix(dp, targets[t].key.drop_last()) by {
        lemma_filter_element_of(
            entries,
            |e: EntryModel| is_byte_prefix(dp, e.key) && is_latest_in(entries, e),
            t,
        );
        let k = choose|k: int| 0 <= k < entries.len() && #[trigger] entries[k] == targets[t];
        entries.lemma_filter_pred(
            |e: EntryModel| is_byte_prefix(dp, e.key) && is_latest_in(entries, e),
            t,
        );
        let key = targets[t].key;
        assert(is_byte_prefix(dp, key));
        assert(key.last() == 0u8);
        if dp.len() == key.len() {
            assert(key.take(dp.len() as int) =~= key);
        } else {
            lemma_byte_prefix_facts(dp, key, key);
        }
    }
    assert forall|k: int|
        0 <= k < entries.len() && is_byte_prefix(dp, (#[trigger] entries[k]).key) implies (exists|
            t: int,
        |
            0 <= t < targets.len() && is_byte_prefix(
                (#[trigger] targets[t]).key.drop_last(),
                entries[k].key,
            )) by {
        let key = entries[k].key;
        assert(has_entry(entries, key));
        lemma_latest_exists(entries, key);
        let l = choose|l: int|
            0 <= l < entries.len() && (#[trigger] entries[l]).key == key && is_latest_in(
                entries,
                entries[l],
            );
        entries.lemma_filter_contains(
            |e: EntryModel| is_byte_prefix(dp, e.key) && is_latest_in(entries, e),
            l,
        );
        assert(targets.contains(entries[l]));
        let t = choose|t: int| 0 <= t < targets.len() && targets[t] == entries[l];
        assert(is_byte_prefix(targets[t].key.drop_last(), key)) by {
            assert(targets[t].key == key);
            assert(key.len() > 0);
            assert(key.take(key.len() - 1) =~= key.drop_last());
        }
    }
    lemma_apply_dels_outside(entries, targets, dp, m.author);
    lemma_with_entries_props(m, id, apply_dels(entries, targets));
}

/// Law: in a fresh replica held with write access, writing a file then
/// reading it back returns exactly the written bytes; deleting the file
/// afterwards reports one removed entry, makes the read fail not-found,
/// and leaves the replica empty, so every listing omits the file.
pub proof fn lemma_write_read_delete_round_trip(
    m: StoreModel,
    id: NamespaceId,
    path: Seq<char>,
    data: Seq<u8>,
)
    requires
        store_wf(m),
        has_replica(m, id),
        replica_capability(m, id) == CapabilityKind::Write,
        m.clock < u64::MAX,
        replica_entries(m, id).len() == 0,
    ensures
        model_write(m, id, path, data).1 == Ok::<Seq<u8>, OkuFsError>(data),
        model_read(model_write(m, id, path, data).0, id, path) == Ok::<Seq<u8>, OkuFsError>(
            data,
        ),
        model_delete_file(model_write(m, id, path, data).0, id, path).1 == Ok::<
            int,
            OkuFsError,
        >(1),
        model_read(
            model_delete_file(model_write(m, id, path, data).0, id, path).0,
            id,
            path,
        ) == Err::<Seq<u8>, OkuFsError>(OkuFsError::FsEntryNotFound),
        replica_entries(model_delete_file(model_write(m, id, path, data).0, id, path).0, id)
            == Seq::<EntryModel>::empty(),
{
    reveal(Seq::filter);
    let key = file_key(path);
    let new_entry = (EntryModel { key, author: m.author, timestamp: m.clock, content: data });
    let entries2 = spec_write(replica_entries(m, id), m.author, key, data, m.clock);
    assert(replica_entries(m, id) =~= Seq::<EntryModel>::empty());
    assert(entries2 =~= seq![new_entry]);
    let m2 = model_write(m, id, path, data).0;
    lemma_model_write_wf(m, id, path, data);
    lemma_with_entries_props(m, id, entries2);
    assert(m2.replicas == with_entries(m, id, entries2).replicas);
    assert(replica_entries(m2, id) == entries2) by {
        assert(replica_index(m2, id) == replica_index(with_entries(m, id, entries2), id));
    }
    assert(has_entry(entries2, key)) by {
        assert(entries2[0].key == key);
    }
    assert(is_latest_in(entries2, new_entry));
    lemma_latest_at_is(entries2, key, 0, m2.clock);
    assert(model_read(m2, id, path) == Ok::<Seq<u8>, OkuFsError>(data));
    let entries3 = spec_del(entries2, m.author, key);
    assert(is_byte_prefix(key, key)) by {
        assert(key.take(key.len() as int) =~= key);
    }
    assert(entries3 =~= Seq::<EntryModel>::empty());
    let m3 = model_delete_file(m2, id, path).0;
    lemma_with_entries_props(m2, id, entries3);
    assert(replica_entries(m3, id) == entries3);
    assert(model_delete_file(m2, id, path).1 == Ok::<int, OkuFsError>(1));
    assert(!has_entry(entries3, key));
}

/// Law: moving a file between two different replicas leaves it readable
/// at the destination with the very bytes the source held, and not-found
/// at the source. Stated where the source file's history is wholly owned
/// by the author of its latest entry: an entry left under the same key by
/// another author would survive the delete step and keep the source
/// readable.
pub proof fn lemma_move_file_round_trip(
    m: StoreModel,
    from_id: NamespaceId,
    from_path: Seq<char>,
    to_id: NamespaceId,
    to_path: Seq<char>,
)
    requires
        store_wf(m),
        from_id != to_id,
        has_replica(m, from_id),
        has_replica(m, to_id),
        model_read(m, from_id, from_path) is Ok,
        replica_capability(m, to_id) == CapabilityKind::Write,
        m.clock < u64::MAX,
        forall|i: int|
            0 <= i < replica_entries(m, from_id).len() && (#[trigger] replica_entries(
                m,
                from_id,
            )[i]).key == file_key(from_path) ==> replica_entries(m, from_id)[i].author
                == latest_at(replica_entries(m, from_id), file_key(from_path)).author,
    ensures
        model_move_file(m, from_id, from_path, to_id, to_path).1 is Ok,
        model_read(
            model_move_file(m, from_id, from_path, to_id, to_path).0,
            to_id,
            to_path,
        ) == Ok::<Seq<u8>, OkuFsError>(model_read(m, from_id, from_path)->Ok_0),
        model_read(
            model_move_file(m, from_id, from_path, to_id, to_path).0,
            from_id,
            from_path,
        ) == Err::<Seq<u8>, OkuFsError>(OkuFsError::FsEntryNotFound),
{
    reveal(model_move_file);
    let from_key = file_key(from_path);
    let to_key = file_key(to_path);
    let data = model_read(m, from_id, from_path)->Ok_0;
    let entries_from = replica_entries(m, from_id);
    let entries2_to = spec_write(replica_entries(m, to_id), m.author, to_key, data, m.clock);
    let m2 = model_write(m, to_id, to_path, data).0;
    lemma_model_write_wf(m, to_id, to_path, data);
    lemma_with_entries_props(m, to_id, entries2_to);
    assert(m2.replicas == with_entries(m, to_id, entries2_to).replicas);
    assert(replica_entries(m2, to_id) == entries2_to);
    assert(replica_entries(m2, from_id) == entries_from);
    assert(has_entry(entries_from, from_key));
    let author = latest_at(entries_from, from_key).author;
    let entries3_from = spec_del(entries_from, author, from_key);
    let m3 = model_delete_file(m2, from_id, from_path).0;
    lemma_model_delete_file_wf(m2, from_id, from_path);
    lemma_with_entries_props(m2, from_id, entries3_from);
    assert(replica_entries(m3, from_id) == entries3_from);
    assert(replica_entries(m3, to_id) == entries2_to);
    assert(model_move_file(m, from_id, from_path, to_id, to_path).0 == m3);
    assert(model_move_file(m, from_id, from_path, to_id, to_path).1 == Ok::<
        (Seq<u8>, int),
        OkuFsError,
    >((data, entries_from.len() - entries3_from.len())));
    // the destination now resolves to the fresh entry
    let new_entry = (EntryModel {
        key: to_key,
        author: m.author,
        timestamp: m.clock,
        content: data,
    });
    let filtered = spec_remove_author_key(replica_entries(m, to_id), m.author, to_key);
    assert(entries2_to == filtered.push(new_entry));
    assert(has_entry(entries2_to, to_key)) by {
        assert(entries2_to[entries2_to.len() - 1].key == to_key);
    }
    assert(is_latest_in(entries2_to, new_entry)) by {
        assert forall|j: int|
            0 <= j < entries2_to.len() && (#[trigger] entries2_to[j]).key == new_entry.key
                implies entries2_to[j].timestamp <= new_entry.timestamp by {
            if j < filtered.len() {
                lemma_filter_element_of(
                    replica_entries(m, to_id),
                    |e: EntryModel| !(e.author == m.author && e.key == to_key),
                    j,
                );
                let k = choose|k: int|
                    0 <= k < replica_entries(m, to_id).len() && #[trigger] replica_entries(
                        m,
                        to_id,
                    )[k] == filtered[j];
                assert(replica_entries(m, to_id)[k].timestamp < m.clock);
            }
        }
    }
    lemma_latest_at_is(entries2_to, to_key, entries2_to.len() - 1, m3.clock) ;
    assert(entries_wf(entries2_to, m3.clock)) by {
        assert(0 <= replica_index(m3, to_id) < m3.replicas.len());
        assert(m3.replicas[replica_index(m3, to_id)].entries == entries2_to);
    }
    assert(model_read(m3, to_id, to_path) == Ok::<Seq<u8>, OkuFsError>(data));
    // the source no longer holds any entry under the file key
    assert(!has_entry(entries3_from, from_key)) by {
        if has_entry(entries3_from, from_key) {
            let j = choose|j: int|
                0 <= j < entries3_from.len() && (#[trigger] entries3_from[j]).key == from_key;
            lemma_filter_element_of(
                entries_from,
                |e: EntryModel| !(e.author == author && is_byte_prefix(from_key, e.key)),
                j,
            );
            let k = choose|k: int|
                0 <= k < entries_from.len() && #[trigger] entries_from[k] == entries3_from[j];
            entries_from.lemma_filter_pred(
                |e: EntryModel| !(e.author == author && is_byte_prefix(from_key, e.key)),
                j,
            );
            assert(entries_from[k].author == author);
            assert(is_byte_prefix(from_key, entries_from[k].key)) by {
                assert(from_key.take(from_key.len() as int) =~= from_key);
            }
        }
    }
    assert(model_read(m3, from_id, from_path) == Err::<Seq<u8>, OkuFsError>(
        OkuFsError::FsEntryNotFound,
    ));
}

/// Law: the folder and whole-store aggregates over an empty replica are
/// the identities of their operations — zero size and the least possible
/// timestamp — and never a failure.
pub proof fn lemma_aggregates_empty(entries: Seq<EntryModel>, prefix: Seq<u8>)
    requires
        entries.len() == 0,
    ensures
        oldest_in(entries, prefix) == u64::MIN,
        newest_in(entries, prefix) == u64::MIN,
        oldest_at_key(entries, prefix) == u64::MIN,
        folder_size_in(entries, prefix) == 0,
{
}

/// What a starting node does about its authoring identity: with no author
/// stored yet, a fresh one is created and set as the default; otherwise
/// the stored default is used.
pub enum AuthorAction {
    /// Create a new author and set it as the default.
    CreateAndSetDefault,
    /// Use the stored default author.
    UseDefault,
}

/// Decides how a starting node obtains its authoring identity from the
/// number of authors its document engine already stores.
pub fn choose_author_action(author_count: usize) -> (r: AuthorAction)
    ensures
        r is CreateAndSetDefault <==> author_count == 0,
{
    if author_count == 0 {
        AuthorAction::CreateAndSetDefault
    } else {
        AuthorAction::UseDefault
    }
}

/// Compares two byte strings.
fn bytes_eq(a: &Vec<u8>, b: &Vec<u8>) -> (r: bool)
    ensures
        r == (a@ == b@),
{
    if a.len() != b.len() {
        return false;
    }
    let mut i: usize = 0;
    while i < a.len()
        invariant
            i <= a@.len(),
            a@.len() == b@.len(),
            forall|k: int| 0 <= k < i ==> a@[k] == b@[k],
        decreases a@.len() - i,
    {
        if a[i] != b[i] {
            return false;
        }
        i += 1;
    }
    proof {
        assert(a@ =~= b@);
    }
    true
}

/// Whether one byte string begins with another.
fn bytes_has_prefix(key: &Vec<u8>, prefix: &Vec<u8>) -> (r: bool)
    ensures
        r == is_byte_prefix(prefix@, key@),
{
    if prefix.len() > key.len() {
        return false;
    }
    let mut i: usize = 0;
    while i < prefix.len()
        invariant
            i <= prefix@.len(),
            prefix@.len() <= key@.len(),
            forall|k: int| 0 <= k < i ==> key@[k] == prefix@[k],
        decreases prefix@.len() - i,
    {
        if key[i] != prefix[i] {
            proof {
                if is_byte_prefix(prefix@, key@) {
                    assert(key@.take(prefix@.len() as int)[i as int] == prefix@[i as int]);
                }
            }
            return false;
        }
        i += 1;
    }
    proof {
        assert(key@.take(prefix@.len() as int) =~= prefix@);
    }
    true
}

/// Copies a byte string.
pub fn copy_bytes(v: &Vec<u8>) -> (r: Vec<u8>)
    ensures
        r@ == v@,
{
    vstd::slice::slice_to_vec(v.as_slice())
}

impl OkuFs {
    /// Starts an instance of the file system: no replicas are held, and
    /// the logical clock is at its origin. The authoring identity and the
    /// node's own address come from the surrounding application.
    pub fn start(author: u64, node_addr: NodeAddr) -> (r: Self)
        ensures
            store_wf(r@),
            r@.replicas.len() == 0,
            r@.clock == 0,
            r@.author == author,
            r@.node_addr == node_addr,
    {
        let fs = OkuFs { replicas: Vec::new(), clock: 0, author, node_addr };
        proof {
            assert(fs@.replicas =~= Seq::<ReplicaModel>::empty());
        }
        fs
    }

    /// The address under which this node is reachable.
    pub fn node_address(&self) -> (r: NodeAddr)
        ensures
            r == self@.node_addr,
    {
        self.node_addr
    }

    /// Finds the position of a replica.
    fn find_replica(&self, id: NamespaceId) -> (r: Option<usize>)
        ensures
            r is Some ==> 0 <= r->0 < self@.replicas.len() && self@.replicas[r->0 as int].id
                == id,
            r is None ==> !has_replica(self@, id),
    {
        let mut i: usize = 0;
        while i < self.replicas.len()
            invariant
                i <= self@.replicas.len(),
                forall|k: int| 0 <= k < i ==> #[trigger] self@.replicas[k].id != id,
            decreases self@.replicas.len() - i,
        {
            if self.replicas[i].id == id {
                return Some(i);
            }
            i += 1;
        }
        None
    }

    /// With a well-formed store, the replica found is the replica of the
    /// model: positions of equal namespaces coincide.
    proof fn lemma_replica_index_unique(m: StoreModel, id: NamespaceId, i: int)
        requires
            store_wf(m),
            0 <= i < m.replicas.len(),
            m.replicas[i].id == id,
        ensures
            replica_index(m, id) == i,
            has_replica(m, id),
    {
        let j = replica_index(m, id);
        assert(0 <= j < m.replicas.len() && m.replicas[j].id == id);
    }

    /// Creates a replica for a namespace not yet held locally, with write
    /// access. The fresh namespace key is minted by the document engine
    /// and handed in by the caller.
    pub fn create_replica(&mut self, id: NamespaceId) -> (r: Result<NamespaceId, OkuFsError>)
        requires
            store_wf(old(self)@),
        ensures
            store_wf(final(self)@),
            r is Ok <==> !has_replica(old(self)@, id),
            r is Err ==> r->Err_0 == OkuFsError::CannotCreateReplica && final(self)@ == old(
                self,
            )@,
            r is Ok ==> r->Ok_0 == id && final(self)@ == (StoreModel {
                replicas: old(self)@.replicas.push(
                    (ReplicaModel {
                        id,
                        capability: CapabilityKind::Write,
                        entries: Seq::<EntryModel>::empty(),
                    }),
                ),
                ..old(self)@
            }),
    {
        match self.find_replica(id) {
            Some(_) => Err(OkuFsError::CannotCreateReplica),
            None => {
                let replica = Replica {
                    id,
                    capability: CapabilityKind::Write,
                    entries: Vec::new(),
                };
                proof {
                    assert(replica@.entries =~= Seq::<EntryModel>::empty());
                }
                self.replicas.push(replica);
                proof {
                    assert(final(self)@.replicas =~= old(self)@.replicas.push(
                        (ReplicaModel {
                            id,
                            capability: CapabilityKind::Write,
                            entries: Seq::<EntryModel>::empty(),
                        }),
                    ));
                }
                Ok(id)
            },
        }
    }

    /// Deletes the replica of a namespace from the store.
    pub fn delete_replica(&mut self, id: NamespaceId) -> (r: Result<(), OkuFsError>)
        requires
            store_wf(old(self)@),
        ensures
            store_wf(final(self)@),
            r is Ok <==> has_replica(old(self)@, id),
            r is Err ==> r->Err_0 == OkuFsError::CannotDeleteReplica && final(self)@ == old(
                self,
            )@,
            r is Ok ==> final(self)@ == (StoreModel {
                replicas: old(self)@.replicas.remove(replica_index(old(self)@, id)),
                ..old(self)@
            }),
    {
        match self.find_replica(id) {
            None => Err(OkuFsError::CannotDeleteReplica),
            Some(i) => {
                proof {
                    Self::lemma_replica_index_unique(self@, id, i as int);
                }
                self.replicas.remove(i);
                proof {
                    assert(final(self)@.replicas =~= old(self)@.replicas.remove(i as int));
                }
                Ok(())
            },
        }
    }

    /// Lists the namespaces of all locally held replicas with the local
    /// capability on each.
    pub fn list_replicas(&self) -> (r: Vec<(NamespaceId, CapabilityKind)>)
        ensures
            r@ == self@.replicas.map_values(
                |rm: ReplicaModel| (rm.id, rm.capability),
            ),
    {
        let mut out: Vec<(NamespaceId, CapabilityKind)> = Vec::new();
        let mut i: usize = 0;
        while i < self.replicas.len()
            invariant
                i <= self@.replicas.len(),
                out@ == self@.replicas.take(i as int).map_values(
                    |rm: ReplicaModel| (rm.id, rm.capability),
                ),
            decreases self@.replicas.len() - i,
        {
            out.push((self.replicas[i].id, self.replicas[i].capability));
            proof {
                assert(out@ =~= self@.replicas.take(i + 1).map_values(
                    |rm: ReplicaModel| (rm.id, rm.capability),
                ));
            }
            i += 1;
        }
        proof {
            assert(self@.replicas.take(self@.replicas.len() as int) =~= self@.replicas);
        }
        out
    }

    /// Finds the position of the latest entry under an exact key.
    fn find_latest(entries: &Vec<FsEntry>, key: &Vec<u8>) -> (r: Option<usize>)
        ensures
            r is Some ==> 0 <= r->0 < entries@.len() && entry_views(entries@)[r->0 as int].key
                == key@ && is_latest_in(
                entry_views(entries@),
                entry_views(entries@)[r->0 as int],
            ),
            r is None ==> !has_entry(entry_views(entries@), key@),
    {
        let ghost views = entry_views(entries@);
        let mut best: Option<usize> = None;
        let mut i: usize = 0;
        while i < entries.len()
            invariant
                i <= views.len(),
                views == entry_views(entries@),
                views.len() == entries@.len(),
                best is Some ==> 0 <= best->0 < i && views[best->0 as int].key == key@
                    && (forall|j: int|
                    0 <= j < i && views[j].key == key@ ==> #[trigger] views[j].timestamp
                        <= views[best->0 as int].timestamp),
                best is None ==> forall|j: int| 0 <= j < i ==> #[trigger] views[j].key != key@,
            decreases views.len() - i,
        {
            if bytes_eq(&entries[i].key, key) {
                match best {
                    None => {
                        best = Some(i);
                    },
                    Some(b) => {
                        if entries[i].timestamp > entries[b].timestamp {
                            best = Some(i);
                        }
                    },
                }
            }
            i += 1;
        }
        best
    }

    /// Reads the file at a path in a replica: the payload of the latest
    /// entry under its file key. Fails not-found when the replica or the
    /// entry is absent.
    pub fn read_file(&self, id: NamespaceId, path: &str) -> (r: Result<Vec<u8>, OkuFsError>)
        requires
            store_wf(self@),
        ensures
            (match r {
                Ok(data) => model_read(self@, id, path@) == Ok::<Seq<u8>, OkuFsError>(data@),
                Err(e) => model_read(self@, id, path@) == Err::<Seq<u8>, OkuFsError>(e),
            }),
    {
        match self.get_entry(id, path) {
            Ok(entry) => Ok(entry.content),
            Err(e) => Err(e),
        }
    }

    /// Retrieves the latest entry for the file at a path. Fails not-found
    /// when the replica or the entry is absent.
    pub fn get_entry(&self, id: NamespaceId, path: &str) -> (r: Result<FsEntry, OkuFsError>)
        requires
            store_wf(self@),
        ensures
            (match r {
                Ok(entry) => model_get_entry(self@, id, path@) == Ok::<
                    EntryModel,
                    OkuFsError,
                >(entry@),
                Err(e) => model_get_entry(self@, id, path@) == Err::<EntryModel, OkuFsError>(e),
            }),
    {
        let key = crate::codec::path_to_entry_key(path);
        match self.find_replica(id) {
            None => Err(OkuFsError::FsEntryNotFound),
            Some(i) => {
                proof {
                    Self::lemma_replica_index_unique(self@, id, i as int);
                }
                let replica = &self.replicas[i];
                match Self::find_latest(&replica.entries, &key) {
                    None => Err(OkuFsError::FsEntryNotFound),
                    Some(e) => {
                        proof {
                            lemma_latest_at_is(
                                replica_entries(self@, id),
                                key@,
                                e as int,
                                self@.clock,
                            );
                        }
                        let entry = &replica.entries[e];
                        Ok(
                            FsEntry {
                                key: copy_bytes(&entry.key),
                                author: entry.author,
                                timestamp: entry.timestamp,
                                content: copy_bytes(&entry.content),
                            },
                        )
                    },
                }
            },
        }
    }

    /// Removes one author's entry under an exact key, keeping the order of
    /// the rest.
    fn remove_author_key(entries: Vec<FsEntry>, author: u64, key: &Vec<u8>) -> (r: Vec<FsEntry>)
        ensures
            entry_views(r@) == spec_remove_author_key(entry_views(entries@), author, key@),
    {
        let ghost all = entry_views(entries@);
        let mut rest = entries;
        let mut out: Vec<FsEntry> = Vec::new();
        let ghost mut k: int = 0;
        while rest.len() > 0
            invariant
                0 <= k <= all.len(),
                entry_views(rest@) =~= all.skip(k),
                entry_views(out@) == spec_remove_author_key(all.take(k), author, key@),
            decreases rest@.len(),
        {
            let ghost rest_before = rest@;
            let e = rest.remove(0);
            proof {
                assert(k < all.len()) by {
                    assert(entry_views(rest_before).len() == all.skip(k).len());
                }
                assert(entry_views(rest_before)[0] == all.skip(k)[0]);
                assert(all.skip(k)[0] == all[0 + k]);
                assert(e@ == all[k]);
                assert(entry_views(rest@) =~= entry_views(rest_before).skip(1));
                assert(entry_views(rest_before).skip(1) =~= all.skip(k + 1));
                assert(all.take(k + 1) =~= all.take(k).push(all[k]));
            }
            let keep = !(e.author == author && bytes_eq(&e.key, key));
            if keep {
                out.push(e);
                proof {
                    assert(entry_views(out@) =~= spec_remove_author_key(
                        all.take(k),
                        author,
                        key@,
                    ).push(all[k]));
                }
            }
            proof {
                k = k + 1;
            }
        }
        proof {
            assert(all.take(all.len() as int) =~= all);
            assert(entry_views(rest@).len() == 0);
        }
        out
    }

    /// Removes every entry of one author whose key begins with a prefix,
    /// keeping the order of the rest.
    fn remove_author_prefix(entries: Vec<FsEntry>, author: u64, prefix: &Vec<u8>) -> (r: Vec<
        FsEntry,
    >)
        ensures
            entry_views(r@) == spec_del(entry_views(entries@), author, prefix@),
    {
        let ghost all = entry_views(entries@);
        let mut rest = entries;
        let mut out: Vec<FsEntry> = Vec::new();
        let ghost mut k: int = 0;
        while rest.len() > 0
            invariant
                0 <= k <= all.len(),
                entry_views(rest@) =~= all.skip(k),
                entry_views(out@) == spec_del(all.take(k), author, prefix@),
            decreases rest@.len(),
        {
            let ghost rest_before = rest@;
            let e = rest.remove(0);
            proof {
                assert(k < all.len()) by {
                    assert(entry_views(rest_before).len() == all.skip(k).len());
                }
                assert(entry_views(rest_before)[0] == all.skip(k)[0]);
                assert(all.skip(k)[0] == all[0 + k]);
                assert(e@ == all[k]);
                assert(entry_views(rest@) =~= entry_views(rest_before).skip(1));
                assert(entry_views(rest_before).skip(1) =~= all.skip(k + 1));
                assert(all.take(k + 1) =~= all.take(k).push(all[k]));
            }
            let keep = !(e.author == author && bytes_has_prefix(&e.key, prefix));
            if keep {
                out.push(e);
                proof {
                    assert(entry_views(out@) =~= spec_del(all.take(k), author, prefix@).push(
                        all[k],
                    ));
                }
            }
            proof {
                k = k + 1;
            }
        }
        proof {
            assert(all.take(all.len() as int) =~= all);
            assert(entry_views(rest@).len() == 0);
        }
        out
    }

    /// Creates the file at a path or modifies an existing one: inserts a
    /// new entry under the file key with the local authoring identity and
    /// a fresh timestamp, replacing the author's previous entry under that
    /// key. Returns the content identifier of the written payload.
    pub fn create_or_modify_file(&mut self, id: NamespaceId, path: &str, data: Vec<u8>) -> (r:
        Result<ContentId, OkuFsError>)
        requires
            store_wf(old(self)@),
        ensures
            store_wf(final(self)@),
            final(self)@ == model_write(old(self)@, id, path@, data@).0,
            (match r {
                Ok(cid) => model_write(old(self)@, id, path@, data@).1 == Ok::<
                    Seq<u8>,
                    OkuFsError,
                >(cid@),
                Err(e) => model_write(old(self)@, id, path@, data@).1 == Err::<
                    Seq<u8>,
                    OkuFsError,
                >(e),
            }),
    {
        let key = crate::codec::path_to_entry_key(path);
        match self.find_replica(id) {
            None => Err(OkuFsError::FsEntryNotFound),
            Some(i) => {
                proof {
                    Self::lemma_replica_index_unique(self@, id, i as int);
                }
                if !matches!(self.replicas[i].capability, CapabilityKind::Write) {
                    return Err(OkuFsError::CannotCreateOrModifyFile);
                }
                if self.clock == u64::MAX {
                    return Err(OkuFsError::CannotCreateOrModifyFile);
                }
                let ghost m = self@;
                let ghost old_entries = replica_entries(m, id);
                let cid = ContentId { bytes: copy_bytes(&data) };
                let mut replica = self.replicas.remove(i);
                let mut entries = Self::remove_author_key(replica.entries, self.author, &key);
                let entry = FsEntry {
                    key,
                    author: self.author,
                    timestamp: self.clock,
                    content: data,
                };
                let ghost new_entry = entry@;
                entries.push(entry);
                replica.entries = entries;
                self.replicas.insert(i, replica);
                self.clock = self.clock + 1;
                proof {
                    let filtered = spec_remove_author_key(old_entries, m.author, file_key(path@));
                    let written = spec_write(
                        old_entries,
                        m.author,
                        file_key(path@),
                        data@,
                        m.clock,
                    );
                    assert(entry_views(self.replicas@[i as int].entries@) =~= written);
                    assert(final(self)@.replicas =~= model_write(m, id, path@, data@).0.replicas);
                    assert(final(self)@ == model_write(m, id, path@, data@).0);
                    lemma_model_write_wf(m, id, path@, data@);
                }
                Ok(cid)
            },
        }
    }

    /// Deletes the file at a path: resolves the latest entry under the
    /// file key and removes everything its author holds under that key.
    /// Returns the number of entries removed. Fails not-found when the
    /// replica or the entry is absent.
    pub fn delete_file(&mut self, id: NamespaceId, path: &str) -> (r: Result<usize, OkuFsError>)
        requires
            store_wf(old(self)@),
        ensures
            store_wf(final(self)@),
            final(self)@ == model_delete_file(old(self)@, id, path@).0,
            (match r {
                Ok(count) => model_delete_file(old(self)@, id, path@).1 == Ok::<
                    int,
                    OkuFsError,
                >(count as int),
                Err(e) => model_delete_file(old(self)@, id, path@).1 == Err::<int, OkuFsError>(
                    e,
                ),
            }),
    {
        let key = crate::codec::path_to_entry_key(path);
        match self.find_replica(id) {
            None => Err(OkuFsError::FsEntryNotFound),
            Some(i) => {
                proof {
                    Self::lemma_replica_index_unique(self@, id, i as int);
                }
                let latest = Self::find_latest(&self.replicas[i].entries, &key);
                match latest {
                    None => Err(OkuFsError::FsEntryNotFound),
                    Some(e) => {
                        proof {
                            lemma_latest_at_is(
                                replica_entries(self@, id),
                                key@,
                                e as int,
                                self@.clock,
                            );
                        }
                        let ghost m = self@;
                        let ghost old_entries = replica_entries(m, id);
                        let author = self.replicas[i].entries[e].author;
                        let before = self.replicas[i].entries.len();
                        let mut replica = self.replicas.remove(i);
                        let entries = Self::remove_author_prefix(replica.entries, author, &key);
                        let after = entries.len();
                        replica.entries = entries;
                        self.replicas.insert(i, replica);
                        proof {
                            let remaining = spec_del(old_entries, author, file_key(path@));
                            assert(entry_views(self.replicas@[i as int].entries@) == remaining);
                            assert(final(self)@.replicas =~= model_delete_file(
                                m,
                                id,
                                path@,
                            ).0.replicas);
                            assert(final(self)@ == model_delete_file(m, id, path@).0);
                            lemma_model_delete_file_wf(m, id, path@);
                            remaining.lemma_filter_len(
                                |en: EntryModel| !(en.author == author && is_byte_prefix(
                                    file_key(path@),
                                    en.key,
                                )),
                            );
                        }
                        Ok(before - after)
                    },
                }
            },
        }
    }

    /// Collects copies of the latest entries whose keys begin with the
    /// prefix, in storage order.
    fn latest_entries_under_vec(entries: &Vec<FsEntry>, prefix: &Vec<u8>) -> (r: Vec<FsEntry>)
        ensures
            entry_views(r@) == latest_under(entry_views(entries@), prefix@),
    {
        let ghost all = entry_views(entries@);
        let mut out: Vec<FsEntry> = Vec::new();
        let mut k: usize = 0;
        while k < entries.len()
            invariant
                k <= all.len(),
                all == entry_views(entries@),
                all.len() == entries@.len(),
                entry_views(out@) == all.take(k as int).filter(
                    |e: EntryModel| is_byte_prefix(prefix@, e.key) && is_latest_in(all, e),
                ),
            decreases all.len() - k,
        {
            let matches_prefix = bytes_has_prefix(&entries[k].key, prefix);
            let mut newest = true;
            let mut j: usize = 0;
            while j < entries.len()
                invariant
                    j <= all.len(),
                    k < all.len(),
                    all == entry_views(entries@),
                    all.len() == entries@.len(),
                    newest <==> (forall|t: int|
                        0 <= t < j && (#[trigger] all[t]).key == all[k as int].key
                            ==> all[t].timestamp <= all[k as int].timestamp),
                decreases all.len() - j,
            {
                if bytes_eq(&entries[j].key, &entries[k].key) && entries[j].timestamp
                    > entries[k].timestamp {
                    newest = false;
                }
                proof {
                    assert(all[j as int] == entries@[j as int]@);
                    assert(all[k as int] == entries@[k as int]@);
                }
                j += 1;
            }
            if matches_prefix && newest {
                let e = &entries[k];
                out.push(
                    FsEntry {
                        key: copy_bytes(&e.key),
                        author: e.author,
                        timestamp: e.timestamp,
                        content: copy_bytes(&e.content),
                    },
                );
            }
            proof {
                assert(all.take(k + 1) =~= all.take(k as int).push(all[k as int]));
                if matches_prefix && newest {
                    assert(entry_views(out@).last() == all[k as int]);
                    assert(entry_views(out@) =~= entry_views(out@).drop_last().push(
                        all[k as int],
                    ));
                }
            }
            k += 1;
        }
        proof {
            assert(all.take(all.len() as int) =~= all);
        }
        out
    }

    /// Lists the latest entry of every file in a replica, optionally
    /// restricted to the keys beginning with the prefix key of a path.
    /// Entries come in storage order.
    pub fn list_files(&self, id: NamespaceId, path: Option<&str>) -> (r: Result<
        Vec<FsEntry>,
        OkuFsError,
    >)
        requires
            store_wf(self@),
        ensures
            (r is Ok <==> has_replica(self@, id)),
            r is Err ==> r->Err_0 == OkuFsError::FsEntryNotFound,
            r is Ok ==> entry_views((r->Ok_0)@) == latest_under(
                replica_entries(self@, id),
                (match path {
                    Some(p) => prefix_key(p@),
                    None => Seq::<u8>::empty(),
                }),
            ),
    {
        let prefix: Vec<u8> = match path {
            Some(p) => crate::codec::path_to_entry_prefix(p),
            None => Vec::new(),
        };
        proof {
            if path is None {
                assert(prefix@ =~= Seq::<u8>::empty());
            }
        }
        match self.find_replica(id) {
            None => Err(OkuFsError::FsEntryNotFound),
            Some(i) => {
                proof {
                    Self::lemma_replica_index_unique(self@, id, i as int);
                }
                let out = Self::latest_entries_under_vec(&self.replicas[i].entries, &prefix);
                Ok(out)
            },
        }
    }

    /// Determines the oldest timestamp in the full history of the file at
    /// a path: the least timestamp over every author's entry under the
    /// exact file key, or the least possible timestamp when the file has
    /// no history.
    pub fn get_oldest_entry_timestamp(&self, id: NamespaceId, path: &str) -> (r: Result<
        u64,
        OkuFsError,
    >)
        requires
            store_wf(self@),
        ensures
            (r is Ok <==> has_replica(self@, id)),
            r is Err ==> r->Err_0 == OkuFsError::FsEntryNotFound,
            r is Ok ==> r->Ok_0 == oldest_at_key(replica_entries(self@, id), file_key(path@)),
    {
        let key = crate::codec::path_to_entry_key(path);
        match self.find_replica(id) {
            None => Err(OkuFsError::FsEntryNotFound),
            Some(i) => {
                proof {
                    Self::lemma_replica_index_unique(self@, id, i as int);
                }
                let entries = &self.replicas[i].entries;
                let ghost all = entry_views(entries@);
                let mut acc: Option<u64> = None;
                let mut k: usize = 0;
                while k < entries.len()
                    invariant
                        k <= all.len(),
                        all == entry_views(entries@),
                        all.len() == entries@.len(),
                        acc == min_ts_exact_upto(all, key@, k as int),
                    decreases all.len() - k,
                {
                    if bytes_eq(&entries[k].key, &key) {
                        acc = match acc {
                            None => Some(entries[k].timestamp),
                            Some(v) => if entries[k].timestamp < v {
                                Some(entries[k].timestamp)
                            } else {
                                Some(v)
                            },
                        };
                    }
                    k += 1;
                }
                match acc {
                    None => Ok(0),
                    Some(v) => Ok(v),
                }
            },
        }
    }

    /// Determines the oldest timestamp of any file entry lying under a
    /// folder's prefix key, or the least possible timestamp when the
    /// folder is empty.
    pub fn get_oldest_timestamp_in_folder(&self, id: NamespaceId, path: &str) -> (r: Result<
        u64,
        OkuFsError,
    >)
        requires
            store_wf(self@),
        ensures
            (r is Ok <==> has_replica(self@, id)),
            r is Err ==> r->Err_0 == OkuFsError::FsEntryNotFound,
            r is Ok ==> r->Ok_0 == oldest_in(replica_entries(self@, id), prefix_key(path@)),
    {
        let prefix = crate::codec::path_to_entry_prefix(path);
        match self.find_replica(id) {
            None => Err(OkuFsError::FsEntryNotFound),
            Some(i) => {
                proof {
                    Self::lemma_replica_index_unique(self@, id, i as int);
                }
                let entries = &self.replicas[i].entries;
                let ghost all = entry_views(entries@);
                let mut acc: Option<u64> = None;
                let mut k: usize = 0;
                while k < entries.len()
                    invariant
                        k <= all.len(),
                        all == entry_views(entries@),
                        all.len() == entries@.len(),
                        acc == min_ts_upto(all, prefix@, k as int),
                    decreases all.len() - k,
                {
                    if bytes_has_prefix(&entries[k].key, &prefix) {
                        acc = match acc {
                            None => Some(entries[k].timestamp),
                            Some(v) => if entries[k].timestamp < v {
                                Some(entries[k].timestamp)
                            } else {
                                Some(v)
                            },
                        };
                    }
                    k += 1;
                }
                match acc {
                    None => Ok(0),
                    Some(v) => Ok(v),
                }
            },
        }
    }

    /// Determines the newest timestamp of any file entry lying under a
    /// folder's prefix key, or the least possible timestamp when the
    /// folder is empty.
    pub fn get_newest_timestamp_in_folder(&self, id: NamespaceId, path: &str) -> (r: Result<
        u64,
        OkuFsError,
    >)
        requires
            store_wf(self@),
        ensures
            (r is Ok <==> has_replica(self@, id)),
            r is Err ==> r->Err_0 == OkuFsError::FsEntryNotFound,
            r is Ok ==> r->Ok_0 == newest_in(replica_entries(self@, id), prefix_key(path@)),
    {
        let prefix = crate::codec::path_to_entry_prefix(path);
        match self.find_replica(id) {
            None => Err(OkuFsError::FsEntryNotFound),
            Some(i) => {
                proof {
                    Self::lemma_replica_index_unique(self@, id, i as int);
                }
                let entries = &self.replicas[i].entries;
                let ghost all = entry_views(entries@);
                let mut acc: Option<u64> = None;
                let mut k: usize = 0;
                while k < entries.len()
                    invariant
                        k <= all.len(),
                        all == entry_views(entries@),
                        all.len() == entries@.len(),
                        acc == max_ts_upto(all, prefix@, k as int),
                    decreases all.len() - k,
                {
                    if bytes_has_prefix(&entries[k].key, &prefix) {
                        acc = match acc {
                            None => Some(entries[k].timestamp),
                            Some(v) => if entries[k].timestamp > v {
                                Some(entries[k].timestamp)
                            } else {
                                Some(v)
                            },
                        };
                    }
                    k += 1;
                }
                match acc {
                    None => Ok(0),
                    Some(v) => Ok(v),
                }
            },
        }
    }

    /// Determines the oldest timestamp of any file entry in any replica
    /// held locally: the least folder-oldest value over all replicas,
    /// each taken whole. With no replicas, or with any empty replica, the
    /// least possible timestamp.
    pub fn get_oldest_timestamp(&self) -> (r: u64)
        requires
            store_wf(self@),
        ensures
            r == store_oldest_upto(self@, self@.replicas.len() as int),
    {
        proof {
            crate::codec::lemma_root_prefix_key();
            reveal_strlit("/");
            assert("/"@ =~= seq!['/']);
        }
        let mut acc: u64 = 0;
        let mut i: usize = 0;
        while i < self.replicas.len()
            invariant
                store_wf(self@),
                i <= self@.replicas.len(),
                acc == store_oldest_upto(self@, i as int),
                prefix_key("/"@) == seq![47u8],
            decreases self@.replicas.len() - i,
        {
            let id = self.replicas[i].id;
            proof {
                Self::lemma_replica_index_unique(self@, id, i as int);
            }
            let v = match self.get_oldest_timestamp_in_folder(id, "/") {
                Ok(v) => v,
                Err(_) => 0,
            };
            if i == 0 || v < acc {
                acc = v;
            }
            i += 1;
        }
        acc
    }

    /// Determines the newest timestamp of any file entry in any replica
    /// held locally, or the least possible timestamp when nothing is
    /// stored.
    pub fn get_newest_timestamp(&self) -> (r: u64)
        requires
            store_wf(self@),
        ensures
            r == store_newest_upto(self@, self@.replicas.len() as int),
    {
        proof {
            crate::codec::lemma_root_prefix_key();
            reveal_strlit("/");
            assert("/"@ =~= seq!['/']);
        }
        let mut acc: u64 = 0;
        let mut i: usize = 0;
        while i < self.replicas.len()
            invariant
                store_wf(self@),
                i <= self@.replicas.len(),
                acc == store_newest_upto(self@, i as int),
                prefix_key("/"@) == seq![47u8],
            decreases self@.replicas.len() - i,
        {
            let id = self.replicas[i].id;
            proof {
                Self::lemma_replica_index_unique(self@, id, i as int);
            }
            let v = match self.get_newest_timestamp_in_folder(id, "/") {
                Ok(v) => v,
                Err(_) => 0,
            };
            if v > acc {
                acc = v;
            }
            i += 1;
        }
        acc
    }

    /// Determines the total size, in bytes, of the latest file entries
    /// lying under a folder's prefix key, clipped at the greatest
    /// representable size. An empty folder has size zero.
    pub fn get_folder_size(&self, id: NamespaceId, path: &str) -> (r: Result<u64, OkuFsError>)
        requires
            store_wf(self@),
        ensures
            (r is Ok <==> has_replica(self@, id)),
            r is Err ==> r->Err_0 == OkuFsError::FsEntryNotFound,
            r is Ok ==> r->Ok_0 == clip_u64(
                folder_size_in(replica_entries(self@, id), prefix_key(path@)),
            ),
    {
        let prefix = crate::codec::path_to_entry_prefix(path);
        match self.find_replica(id) {
            None => Err(OkuFsError::FsEntryNotFound),
            Some(i) => {
                proof {
                    Self::lemma_replica_index_unique(self@, id, i as int);
                }
                let entries = &self.replicas[i].entries;
                let ghost all = entry_views(entries@);
                let mut size: u64 = 0;
                let mut k: usize = 0;
                while k < entries.len()
                    invariant
                        k <= all.len(),
                        all == entry_views(entries@),
                        all.len() == entries@.len(),
                        size == clip_u64(folder_size_upto(all, prefix@, k as int)),
                    decreases all.len() - k,
                {
                    proof {
                        lemma_folder_size_nonneg(all, prefix@, k as int);
                    }
                    let matches_prefix = bytes_has_prefix(&entries[k].key, &prefix);
                    let mut newest = true;
                    let mut j: usize = 0;
                    while j < entries.len()
                        invariant
                            j <= all.len(),
                            k < all.len(),
                            all == entry_views(entries@),
                            all.len() == entries@.len(),
                            newest <==> (forall|t: int|
                                0 <= t < j && (#[trigger] all[t]).key == all[k as int].key
                                    ==> all[t].timestamp <= all[k as int].timestamp),
                        decreases all.len() - j,
                    {
                        if bytes_eq(&entries[j].key, &entries[k].key) && entries[j].timestamp
                            > entries[k].timestamp {
                            newest = false;
                        }
                        proof {
                            assert(all[j as int] == entries@[j as int]@);
                            assert(all[k as int] == entries@[k as int]@);
                        }
                        j += 1;
                    }
                    if matches_prefix && newest {
                        let l = entries[k].content.len() as u64;
                        if u64::MAX - size < l {
                            size = u64::MAX;
                        } else {
                            size = size + l;
                        }
                    }
                    k += 1;
                }
                Ok(size)
            },
        }
    }

    /// Determines the total size, in bytes, of the latest file entries in
    /// every replica held locally, clipped at the greatest representable
    /// size.
    pub fn get_size(&self) -> (r: u64)
        requires
            store_wf(self@),
        ensures
            r == clip_u64(store_size_upto(self@, self@.replicas.len() as int)),
    {
        proof {
            crate::codec::lemma_root_prefix_key();
            reveal_strlit("/");
            assert("/"@ =~= seq!['/']);
        }
        let mut acc: u64 = 0;
        let mut i: usize = 0;
        while i < self.replicas.len()
            invariant
                store_wf(self@),
                i <= self@.replicas.len(),
                acc == clip_u64(store_size_upto(self@, i as int)),
                prefix_key("/"@) == seq![47u8],
            decreases self@.replicas.len() - i,
        {
            let id = self.replicas[i].id;
            proof {
                Self::lemma_replica_index_unique(self@, id, i as int);
                lemma_folder_size_nonneg(
                    self@.replicas[i as int].entries,
                    seq![47u8],
                    self@.replicas[i as int].entries.len() as int,
                );
                lemma_store_size_nonneg(self@, i as int);
            }
            let v = match self.get_folder_size(id, "/") {
                Ok(v) => v,
                Err(_) => 0,
            };
            if u64::MAX - acc < v {
                acc = u64::MAX;
            } else {
                acc = acc + v;
            }
            i += 1;
        }
        acc
    }

    /// Moves a file by copying it to a new location and deleting the
    /// original: read, write, delete, in that order and not atomically. A
    /// failure part-way leaves the completed steps in place. On success,
    /// returns the content identifier of the moved payload and the number
    /// of entries deleted at the source.
    pub fn move_file(
        &mut self,
        from_id: NamespaceId,
        from_path: &str,
        to_id: NamespaceId,
        to_path: &str,
    ) -> (r: Result<(ContentId, usize), OkuFsError>)
        requires
            store_wf(old(self)@),
        ensures
            store_wf(final(self)@),
            final(self)@ == model_move_file(old(self)@, from_id, from_path@, to_id, to_path@).0,
            (match r {
                Ok(moved) => model_move_file(old(self)@, from_id, from_path@, to_id, to_path@).1
                    == Ok::<(Seq<u8>, int), OkuFsError>((moved.0@, moved.1 as int)),
                Err(e) => model_move_file(old(self)@, from_id, from_path@, to_id, to_path@).1
                    == Err::<(Seq<u8>, int), OkuFsError>(e),
            }),
    {
        proof {
            reveal(model_move_file);
        }
        let data = match self.read_file(from_id, from_path) {
            Ok(data) => data,
            Err(e) => {
                return Err(e);
            },
        };
        let cid = match self.create_or_modify_file(to_id, to_path, data) {
            Ok(cid) => cid,
            Err(e) => {
                return Err(e);
            },
        };
        proof {
            lemma_model_write_wf(old(self)@, to_id, to_path@, cid@);
        }
        match self.delete_file(from_id, from_path) {
            Ok(count) => Ok((cid, count)),
            Err(e) => Err(e),
        }
    }

    /// Creates a sharing ticket for a replica with the requested access
    /// level: the capability for this namespace together with this node's
    /// own address. Sharing write access to a replica held read-only is
    /// refused.
    pub fn create_document_ticket(&self, id: NamespaceId, share_mode: ShareMode) -> (r: Result<
        DocTicket,
        OkuFsError,
    >)
        requires
            store_wf(self@),
        ensures
            (r is Ok <==> has_replica(self@, id) && spec_can_share(
                replica_capability(self@, id),
                share_mode,
            )),
            r is Ok ==> (r->Ok_0).capability == (DocCapability {
                id,
                kind: share_kind(share_mode),
            }) && (r->Ok_0).nodes@ == seq![self@.node_addr],
            r is Err ==> r->Err_0 == (if !has_replica(self@, id) {
                OkuFsError::FsEntryNotFound
            } else {
                OkuFsError::CannotShareReplicaWriteable(id)
            }),
    {
        match self.find_replica(id) {
            None => Err(OkuFsError::FsEntryNotFound),
            Some(i) => {
                proof {
                    Self::lemma_replica_index_unique(self@, id, i as int);
                }
                if !crate::ticket::can_share(self.replicas[i].capability, share_mode) {
                    return Err(OkuFsError::CannotShareReplicaWriteable(id));
                }
                let kind = match share_mode {
                    ShareMode::Read => CapabilityKind::Read,
                    ShareMode::Write => CapabilityKind::Write,
                };
                let mut nodes: Vec<NodeAddr> = Vec::new();
                nodes.push(self.node_addr);
                proof {
                    assert(nodes@ =~= seq![self@.node_addr]);
                }
                Ok(DocTicket { capability: DocCapability { id, kind }, nodes })
            },
        }
    }

    /// Deletes a directory and all its contents: resolves the latest
    /// entries under the directory's scan prefix, then deletes each one by
    /// its author under its exact key. Returns the number of entries
    /// removed.
    pub fn delete_directory(&mut self, id: NamespaceId, path: &str) -> (r: Result<
        usize,
        OkuFsError,
    >)
        requires
            store_wf(old(self)@),
        ensures
            store_wf(final(self)@),
            final(self)@ == model_delete_directory(old(self)@, id, path@).0,
            (match r {
                Ok(count) => model_delete_directory(old(self)@, id, path@).1 == Ok::<
                    int,
                    OkuFsError,
                >(count as int),
                Err(e) => model_delete_directory(old(self)@, id, path@).1 == Err::<
                    int,
                    OkuFsError,
                >(e),
            }),
    {
        let prefix = crate::codec::path_to_dir_prefix(path);
        match self.find_replica(id) {
            None => Err(OkuFsError::FsEntryNotFound),
            Some(i) => {
                proof {
                    Self::lemma_replica_index_unique(self@, id, i as int);
                }
                let ghost m = self@;
                let ghost all0 = replica_entries(m, id);
                let targets = Self::latest_entries_under_vec(&self.replicas[i].entries, &prefix);
                let ghost tviews = entry_views(targets@);
                proof {
                    lemma_latest_under_wf(all0, dir_prefix_key(path@), m.clock);
                }
                let before = self.replicas[i].entries.len();
                let mut replica = self.replicas.remove(i);
                let mut entries = replica.entries;
                let mut t: usize = 0;
                while t < targets.len()
                    invariant
                        t <= tviews.len(),
                        tviews == entry_views(targets@),
                        tviews.len() == targets@.len(),
                        entries_wf(tviews, m.clock),
                        entries_wf(entry_views(entries@), m.clock),
                        apply_dels(entry_views(entries@), tviews.skip(t as int)) == apply_dels(
                            all0,
                            tviews,
                        ),
                    decreases tviews.len() - t,
                {
                    let ghost now = entry_views(entries@);
                    proof {
                        assert(tviews[t as int] == entry_views(targets@)[t as int]);
                        assert(tviews[t as int].key.len() > 0);
                    }
                    let mut dkey = copy_bytes(&targets[t].key);
                    dkey.pop();
                    proof {
                        assert(dkey@ =~= tviews[t as int].key.drop_last());
                    }
                    let author = targets[t].author;
                    entries = Self::remove_author_prefix(entries, author, &dkey);
                    proof {
                        assert(tviews.skip(t as int)[0] == tviews[t as int]);
                        assert(tviews.skip(t as int).drop_first() =~= tviews.skip(t + 1));
                        assert(entry_views(entries@) == spec_del(
                            now,
                            tviews[t as int].author,
                            tviews[t as int].key.drop_last(),
                        ));
                        assert(apply_dels(now, tviews.skip(t as int)) == apply_dels(
                            entry_views(entries@),
                            tviews.skip(t + 1),
                        ));
                        lemma_filter_entries_wf(
                            now,
                            |e: EntryModel| !(e.author == author && is_byte_prefix(
                                dkey@,
                                e.key,
                            )),
                            m.clock,
                        );
                    }
                    t += 1;
                }
                proof {
                    assert(tviews.skip(tviews.len() as int) =~= Seq::<EntryModel>::empty());
                    assert(apply_dels(entry_views(entries@), tviews.skip(tviews.len() as int))
                        == entry_views(entries@));
                    lemma_apply_dels_len(all0, tviews);
                }
                let after = entries.len();
                replica.entries = entries;
                self.replicas.insert(i, replica);
                proof {
                    let remaining = apply_dels(all0, tviews);
                    assert(entry_views(self.replicas@[i as int].entries@) == remaining);
                    assert(final(self)@.replicas =~= model_delete_directory(
                        m,
                        id,
                        path@,
                    ).0.replicas);
                    assert(final(self)@ == model_delete_directory(m, id, path@).0);
                    assert forall|j: int| 0 <= j < final(self)@.replicas.len() implies entries_wf(
                        #[trigger] final(self)@.replicas[j].entries,
                        final(self)@.clock,
                    ) by {
                        if j != i {
                            assert(final(self)@.replicas[j] == m.replicas[j]);
                        }
                    }
                }
                Ok(before - after)
            },
        }
    }

    /// Moves a directory by moving each file listed under the source
    /// prefix into the destination directory, keeping each file's final
    /// path segment. Returns the content identifiers of the moved files
    /// and the total number of entries deleted, clipped at the greatest
    /// representable count. A failure part-way aborts with the earlier
    /// moves left in place.
    #[verifier::rlimit(100)]
    pub fn move_directory(
        &mut self,
        from_id: NamespaceId,
        from_path: &str,
        to_id: NamespaceId,
        to_path: &str,
    ) -> (r: Result<(Vec<ContentId>, usize), OkuFsError>)
        requires
            store_wf(old(self)@),
        ensures
            store_wf(final(self)@),
            final(self)@ == model_move_directory(
                old(self)@,
                from_id,
                from_path@,
                to_id,
                to_path@,
            ).0,
            (match r {
                Ok(moved) => (match model_move_directory(
                    old(self)@,
                    from_id,
                    from_path@,
                    to_id,
                    to_path@,
                ).1 {
                    Ok(expected) => moved.0@.map_values(|c: ContentId| c@) == expected.0
                        && moved.1 as int == clip_usize(expected.1),
                    Err(_) => false,
                }),
                Err(e) => model_move_directory(
                    old(self)@,
                    from_id,
                    from_path@,
                    to_id,
                    to_path@,
                ).1 == Err::<(Seq<Seq<u8>>, int), OkuFsError>(e),
            }),
    {
        let ghost m0 = self@;
        let targets = match self.list_files(from_id, Some(from_path)) {
            Ok(targets) => targets,
            Err(e) => {
                return Err(e);
            },
        };
        let ghost tviews = entry_views(targets@);
        let mut hashes: Vec<ContentId> = Vec::new();
        let mut count: usize = 0;
        let ghost mut sum: int = 0;
        proof {
            reveal(model_move_directory_loop);
            assert(tviews.skip(0) =~= tviews);
            let full = model_move_directory_loop(m0, from_id, to_id, to_path@, tviews);
            if full.1 is Ok {
                assert(Seq::<Seq<u8>>::empty() + (full.1->Ok_0).0 =~= (full.1->Ok_0).0);
                assert(hashes@.map_values(|c: ContentId| c@) =~= Seq::<Seq<u8>>::empty());
            }
        }
        let mut t: usize = 0;
        while t < targets.len()
            invariant
                store_wf(self@),
                t <= tviews.len(),
                m0 == old(self)@,
                has_replica(m0, from_id),
                tviews == latest_under(replica_entries(m0, from_id), prefix_key(from_path@)),
                tviews == entry_views(targets@),
                tviews.len() == targets@.len(),
                0 <= sum,
                count as int == clip_usize(sum),
                ({
                    let full = model_move_directory_loop(m0, from_id, to_id, to_path@, tviews);
                    let rest = model_move_directory_loop(
                        self@,
                        from_id,
                        to_id,
                        to_path@,
                        tviews.skip(t as int),
                    );
                    full.0 == rest.0 && (match rest.1 {
                        Ok(tail) => full.1 == Ok::<(Seq<Seq<u8>>, int), OkuFsError>(
                            (hashes@.map_values(|c: ContentId| c@) + tail.0, sum + tail.1),
                        ),
                        Err(e) => full.1 == Err::<(Seq<Seq<u8>>, int), OkuFsError>(e),
                    })
                }),
            decreases tviews.len() - t,
        {
            let ghost m_now = self@;
            proof {
                reveal(model_move_directory_loop);
                assert(tviews.skip(t as int)[0] == tviews[t as int]);
                assert(tviews.skip(t as int).drop_first() =~= tviews.skip(t + 1));
                assert(tviews[t as int] == entry_views(targets@)[t as int]);
            }
            let old_path = match crate::codec::entry_key_to_path(targets[t].key.as_slice()) {
                Ok(p) => p,
                Err(_) => {
                    return Err(OkuFsError::CannotReadFile);
                },
            };
            let new_path = crate::codec::join_under(to_path, old_path.as_str());
            let step = self.move_file(from_id, old_path.as_str(), to_id, new_path.as_str());
            match step {
                Err(e) => {
                    return Err(e);
                },
                Ok(moved) => {
                    let ghost prev_hashes = hashes@.map_values(|c: ContentId| c@);
                    let ghost data = moved.0@;
                    let ghost c = moved.1 as int;
                    hashes.push(moved.0);
                    proof {
                        assert(hashes@.map_values(|c: ContentId| c@) =~= prev_hashes.push(data));
                    }
                    if usize::MAX - count < moved.1 {
                        count = usize::MAX;
                    } else {
                        count = count + moved.1;
                    }
                    proof {
                        reveal(model_move_directory_loop);
                        sum = sum + c;
                        let rest_next = model_move_directory_loop(
                            self@,
                            from_id,
                            to_id,
                            to_path@,
                            tviews.skip(t + 1),
                        );
                        if rest_next.1 is Ok {
                            assert(prev_hashes + (seq![data] + (rest_next.1->Ok_0).0)
                                =~= prev_hashes.push(data) + (rest_next.1->Ok_0).0);
                        }
                    }
                },
            }
            t += 1;
        }
        proof {
            reveal(model_move_directory_loop);
            assert(tviews.skip(tviews.len() as int) =~= Seq::<EntryModel>::empty());
            assert(hashes@.map_values(|c: ContentId| c@) + Seq::<Seq<u8>>::empty()
                =~= hashes@.map_values(|c: ContentId| c@));
        }
        Ok((hashes, count))
    }

    /// Imports a capability, as when joining a swarm from a ticket: a
    /// namespace not yet held locally is added as an empty replica with
    /// the granted access level, and one already held is kept, upgraded
    /// to write access when the capability grants it. The imported
    /// replica's entries arrive by synchronisation, which the document
    /// engine performs outside this store.
    pub fn import_replica(&mut self, capability: &DocCapability) -> (r: NamespaceId)
        requires
            store_wf(old(self)@),
        ensures
            store_wf(final(self)@),
            r == capability.id,
            final(self)@ == model_import(old(self)@, *capability),
    {
        match self.find_replica(capability.id) {
            None => {
                let replica = Replica {
                    id: capability.id,
                    capability: capability.kind,
                    entries: Vec::new(),
                };
                proof {
                    assert(replica@.entries =~= Seq::<EntryModel>::empty());
                }
                self.replicas.push(replica);
                proof {
                    assert(final(self)@.replicas =~= model_import(
                        old(self)@,
                        *capability,
                    ).replicas);
                }
                capability.id
            },
            Some(i) => {
                proof {
                    Self::lemma_replica_index_unique(self@, capability.id, i as int);
                }
                if matches!(capability.kind, CapabilityKind::Write) && matches!(
                    self.replicas[i].capability,
                    CapabilityKind::Read,
                ) {
                    let mut replica = self.replicas.remove(i);
                    replica.capability = CapabilityKind::Write;
                    self.replicas.insert(i, replica);
                    proof {
                        assert(final(self)@.replicas =~= model_import(
                            old(self)@,
                            *capability,
                        ).replicas);
                        assert forall|j: int|
                            0 <= j < final(self)@.replicas.len() implies entries_wf(
                            #[trigger] final(self)@.replicas[j].entries,
                            final(self)@.clock,
                        ) by {
                            if j != i {
                                assert(final(self)@.replicas[j] == old(self)@.replicas[j]);
                            } else {
                                assert(final(self)@.replicas[j].entries == old(
                                    self,
                                )@.replicas[j].entries);
                            }
                        }
                    }
                } else {
                    proof {
                        if capability.kind == CapabilityKind::Write {
                            assert(final(self)@.replicas =~= model_import(
                                old(self)@,
                                *capability,
                            ).replicas);
                        }
                    }
                }
                capability.id
            },
        }
    }

    /// Retrieves the local capability on a replica: whether it can be read
    /// and written, or only read. Fails when no replica of the namespace
    /// is held.
    pub fn get_replica_capability(&self, id: NamespaceId) -> (r: Result<
        CapabilityKind,
        OkuFuseError,
    >)
        requires
            store_wf(self@),
        ensures
            r is Ok <==> has_replica(self@, id),
            r is Ok ==> r->Ok_0 == replica_capability(self@, id),
            r is Err ==> r->Err_0 == OkuFuseError::NoReplica(id),
    {
        match self.find_replica(id) {
            None => Err(OkuFuseError::NoReplica(id)),
            Some(i) => {
                proof {
                    Self::lemma_replica_index_unique(self@, id, i as int);
                }
                Ok(self.replicas[i].capability)
            },
        }
    }
}

} // verus!
