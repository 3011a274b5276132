use oku_fs::error::OkuFsError;
use oku_fs::error::OkuFuseError;
use oku_fs::fs::OkuFs;
use oku_fs::ticket::CapabilityKind;
use oku_fs::ticket::DocCapability;
use oku_fs::ticket::NamespaceId;
use oku_fs::ticket::ShareMode;

const AUTHOR: u64 = 1;
const ADDR: u64 = 9000;

fn ns(key: u64) -> NamespaceId {
    NamespaceId { key }
}

#[test]
fn write_then_read_returns_written_bytes() {
    let mut fs = OkuFs::start(AUTHOR, ADDR);
    let id = fs.create_replica(ns(1)).unwrap();
    let data = b"hello, replica".to_vec();
    let cid = fs.create_or_modify_file(id, "/a/b.txt", data.clone()).unwrap();
    assert_eq!(cid.bytes, data);
    assert_eq!(fs.read_file(id, "/a/b.txt").unwrap(), data);
    // The same file is found under any spelling that normalizes alike.
    assert_eq!(fs.read_file(id, "a//b.txt").unwrap(), data);
}

#[test]
fn delete_makes_read_fail_and_listing_omit() {
    let mut fs = OkuFs::start(AUTHOR, ADDR);
    let id = fs.create_replica(ns(1)).unwrap();
    fs.create_or_modify_file(id, "/a/b.txt", b"x".to_vec()).unwrap();
    assert_eq!(fs.delete_file(id, "/a/b.txt").unwrap(), 1);
    assert!(matches!(fs.read_file(id, "/a/b.txt"), Err(OkuFsError::FsEntryNotFound)));
    assert!(fs.list_files(id, None).unwrap().is_empty());
}

#[test]
fn modification_shadows_the_older_entry() {
    let mut fs = OkuFs::start(AUTHOR, ADDR);
    let id = fs.create_replica(ns(1)).unwrap();
    fs.create_or_modify_file(id, "/f", b"old".to_vec()).unwrap();
    fs.create_or_modify_file(id, "/f", b"new".to_vec()).unwrap();
    assert_eq!(fs.read_file(id, "/f").unwrap(), b"new".to_vec());
    assert_eq!(fs.list_files(id, None).unwrap().len(), 1);
}

#[test]
fn move_file_across_replicas() {
    let mut fs = OkuFs::start(AUTHOR, ADDR);
    let from = fs.create_replica(ns(1)).unwrap();
    let to = fs.create_replica(ns(2)).unwrap();
    let data = b"payload".to_vec();
    fs.create_or_modify_file(from, "/x", data.clone()).unwrap();
    let (cid, deleted) = fs.move_file(from, "/x", to, "/y").unwrap();
    assert_eq!(cid.bytes, data);
    assert_eq!(deleted, 1);
    assert_eq!(fs.read_file(to, "/y").unwrap(), data);
    assert!(matches!(fs.read_file(from, "/x"), Err(OkuFsError::FsEntryNotFound)));
}

#[test]
fn interrupted_move_leaves_both_copies() {
    // A move is read, write, delete — not one atomic step. A fault between
    // the write and the delete leaves the file readable at both paths:
    // documented non-atomicity, not a bug.
    let mut fs = OkuFs::start(AUTHOR, ADDR);
    let from = fs.create_replica(ns(1)).unwrap();
    let to = fs.create_replica(ns(2)).unwrap();
    let data = b"payload".to_vec();
    fs.create_or_modify_file(from, "/x", data.clone()).unwrap();
    let read = fs.read_file(from, "/x").unwrap();
    fs.create_or_modify_file(to, "/y", read).unwrap();
    // fault: the deletion of the source never runs
    assert_eq!(fs.read_file(from, "/x").unwrap(), data);
    assert_eq!(fs.read_file(to, "/y").unwrap(), data);
}

#[test]
fn move_directory_keeps_final_segments() {
    let mut fs = OkuFs::start(AUTHOR, ADDR);
    let from = fs.create_replica(ns(1)).unwrap();
    let to = fs.create_replica(ns(2)).unwrap();
    fs.create_or_modify_file(from, "/x/a", b"1".to_vec()).unwrap();
    fs.create_or_modify_file(from, "/x/b", b"2".to_vec()).unwrap();
    let (hashes, deleted) = fs.move_directory(from, "/x", to, "/y").unwrap();
    assert_eq!(hashes.len(), 2);
    assert_eq!(deleted, 2);
    assert_eq!(fs.read_file(to, "/y/a").unwrap(), b"1".to_vec());
    assert_eq!(fs.read_file(to, "/y/b").unwrap(), b"2".to_vec());
    assert!(matches!(fs.read_file(from, "/x/a"), Err(OkuFsError::FsEntryNotFound)));
}

#[test]
fn delete_directory_respects_the_prefix_boundary() {
    let mut fs = OkuFs::start(AUTHOR, ADDR);
    let id = fs.create_replica(ns(1)).unwrap();
    fs.create_or_modify_file(id, "/docs/a.txt", b"a".to_vec()).unwrap();
    fs.create_or_modify_file(id, "/docs/sub/b.txt", b"b".to_vec()).unwrap();
    fs.create_or_modify_file(id, "/docsx/c.txt", b"c".to_vec()).unwrap();
    let deleted = fs.delete_directory(id, "/docs").unwrap();
    assert_eq!(deleted, 2);
    assert!(matches!(fs.read_file(id, "/docs/a.txt"), Err(OkuFsError::FsEntryNotFound)));
    assert!(matches!(fs.read_file(id, "/docs/sub/b.txt"), Err(OkuFsError::FsEntryNotFound)));
    assert_eq!(fs.read_file(id, "/docsx/c.txt").unwrap(), b"c".to_vec());
}

#[test]
fn delete_directory_at_root_empties_the_replica() {
    let mut fs = OkuFs::start(AUTHOR, ADDR);
    let id = fs.create_replica(ns(1)).unwrap();
    fs.create_or_modify_file(id, "/a", b"1".to_vec()).unwrap();
    fs.create_or_modify_file(id, "/b/c", b"2".to_vec()).unwrap();
    let deleted = fs.delete_directory(id, "/").unwrap();
    assert_eq!(deleted, 2);
    assert!(fs.list_files(id, None).unwrap().is_empty());
}

#[test]
fn aggregates_on_an_empty_replica_are_identities() {
    let mut fs = OkuFs::start(AUTHOR, ADDR);
    let id = fs.create_replica(ns(1)).unwrap();
    assert_eq!(fs.get_folder_size(id, "/").unwrap(), 0);
    assert_eq!(fs.get_oldest_timestamp_in_folder(id, "/").unwrap(), u64::MIN);
    assert_eq!(fs.get_newest_timestamp_in_folder(id, "/").unwrap(), u64::MIN);
    assert_eq!(fs.get_oldest_entry_timestamp(id, "/nothing").unwrap(), u64::MIN);
    assert_eq!(fs.get_size(), 0);
    assert_eq!(fs.get_oldest_timestamp(), u64::MIN);
    assert_eq!(fs.get_newest_timestamp(), u64::MIN);
}

#[test]
fn sizes_and_timestamps_follow_the_latest_entries() {
    let mut fs = OkuFs::start(AUTHOR, ADDR);
    let id = fs.create_replica(ns(1)).unwrap();
    fs.create_or_modify_file(id, "/d/one", b"12345".to_vec()).unwrap();
    fs.create_or_modify_file(id, "/d/two", b"123".to_vec()).unwrap();
    fs.create_or_modify_file(id, "/other", b"1".to_vec()).unwrap();
    assert_eq!(fs.get_folder_size(id, "/d").unwrap(), 8);
    assert_eq!(fs.get_size(), 9);
    let oldest = fs.get_oldest_timestamp_in_folder(id, "/d").unwrap();
    let newest = fs.get_newest_timestamp_in_folder(id, "/d").unwrap();
    assert!(oldest < newest);
    assert_eq!(fs.get_newest_timestamp(), fs.get_newest_timestamp_in_folder(id, "/").unwrap());
}

#[test]
fn replica_bookkeeping() {
    let mut fs = OkuFs::start(AUTHOR, ADDR);
    let a = fs.create_replica(ns(1)).unwrap();
    let b = fs.create_replica(ns(2)).unwrap();
    let listed = fs.list_replicas();
    assert_eq!(listed, vec![(a, CapabilityKind::Write), (b, CapabilityKind::Write)]);
    assert_eq!(fs.get_replica_capability(a).unwrap(), CapabilityKind::Write);
    assert!(matches!(
        fs.get_replica_capability(ns(3)),
        Err(OkuFuseError::NoReplica(NamespaceId { key: 3 }))
    ));
    fs.delete_replica(a).unwrap();
    assert_eq!(fs.list_replicas(), vec![(b, CapabilityKind::Write)]);
}

#[test]
fn replica_errors() {
    let mut fs = OkuFs::start(AUTHOR, ADDR);
    fs.create_replica(ns(1)).unwrap();
    assert!(matches!(fs.create_replica(ns(1)), Err(OkuFsError::CannotCreateReplica)));
    assert!(matches!(fs.delete_replica(ns(2)), Err(OkuFsError::CannotDeleteReplica)));
    assert!(matches!(
        fs.create_or_modify_file(ns(2), "/a", b"x".to_vec()),
        Err(OkuFsError::FsEntryNotFound)
    ));
    assert!(matches!(fs.delete_file(ns(1), "/a"), Err(OkuFsError::FsEntryNotFound)));
}

#[test]
fn imported_read_only_replicas_refuse_writes_and_write_shares() {
    let mut fs = OkuFs::start(AUTHOR, ADDR);
    let cap = DocCapability { id: ns(5), kind: CapabilityKind::Read };
    let id = fs.import_replica(&cap);
    assert_eq!(fs.get_replica_capability(id).unwrap(), CapabilityKind::Read);
    assert!(matches!(
        fs.create_or_modify_file(id, "/a", b"x".to_vec()),
        Err(OkuFsError::CannotCreateOrModifyFile)
    ));
    assert!(matches!(
        fs.create_document_ticket(id, ShareMode::Write),
        Err(OkuFsError::CannotShareReplicaWriteable(NamespaceId { key: 5 }))
    ));
    // Sharing read access is always permitted.
    let ticket = fs.create_document_ticket(id, ShareMode::Read).unwrap();
    assert_eq!(ticket.capability.kind, CapabilityKind::Read);
    assert_eq!(ticket.nodes, vec![ADDR]);
    // Importing a write capability upgrades the held one.
    let upgrade = DocCapability { id: ns(5), kind: CapabilityKind::Write };
    fs.import_replica(&upgrade);
    assert_eq!(fs.get_replica_capability(id).unwrap(), CapabilityKind::Write);
}

#[test]
fn get_entry_reports_author_and_timestamps() {
    let mut fs = OkuFs::start(AUTHOR, ADDR);
    let id = fs.create_replica(ns(1)).unwrap();
    fs.create_or_modify_file(id, "/f", b"abc".to_vec()).unwrap();
    let entry = fs.get_entry(id, "/f").unwrap();
    assert_eq!(entry.author, AUTHOR);
    assert_eq!(entry.key, b"/f\0".to_vec());
    assert_eq!(entry.content, b"abc".to_vec());
    assert_eq!(entry.content_len(), 3);
    let oldest = fs.get_oldest_entry_timestamp(id, "/f").unwrap();
    assert_eq!(oldest, entry.timestamp);
}
