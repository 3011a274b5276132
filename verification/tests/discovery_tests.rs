use oku_fs::discovery::announce_records;
use oku_fs::discovery::fetch_file_step;
use oku_fs::discovery::fetch_tag_bytes;
use oku_fs::discovery::file_download_policy;
use oku_fs::discovery::frame_message;
use oku_fs::discovery::next_announce_delay;
use oku_fs::discovery::parse_frame;
use oku_fs::discovery::race_step;
use oku_fs::discovery::refresh_tag_bytes;
use oku_fs::discovery::relay_tag_bytes;
use oku_fs::discovery::replica_download_policy;
use oku_fs::discovery::resolve_namespace_id;
use oku_fs::discovery::respond_to_request;
use oku_fs::discovery::sync_wait_step;
use oku_fs::discovery::DownloadPolicy;
use oku_fs::discovery::FetchAction;
use oku_fs::discovery::FetchEvent;
use oku_fs::discovery::FilterKind;
use oku_fs::discovery::PeerContentRequest;
use oku_fs::discovery::PeerContentResponse;
use oku_fs::discovery::SyncEvent;
use oku_fs::error::OkuFsError;
use oku_fs::error::OkuRelayError;
use oku_fs::fs::OkuFs;
use oku_fs::relay::relay_inventory;
use oku_fs::relay::relay_step;
use oku_fs::relay::RelayAction;
use oku_fs::relay::RelayEvent;
use oku_fs::ticket::CapabilityKind;
use oku_fs::ticket::DocCapability;
use oku_fs::ticket::DocTicket;
use oku_fs::ticket::NamespaceId;

fn ns(key: u64) -> NamespaceId {
    NamespaceId { key }
}

#[test]
fn frames_round_trip() {
    let tag = fetch_tag_bytes();
    let body = b"{\"namespace\":7}".to_vec();
    let framed = frame_message(&tag, &body);
    let (parsed_tag, parsed_body) = parse_frame(&framed).unwrap();
    assert_eq!(parsed_tag, tag);
    assert_eq!(parsed_body, body);
}

#[test]
fn tags_are_distinct_and_newline_free() {
    let tags = [fetch_tag_bytes(), relay_tag_bytes(), refresh_tag_bytes()];
    for tag in &tags {
        assert!(!tag.contains(&b'\n'));
    }
    assert_ne!(tags[0], tags[1]);
    assert_ne!(tags[1], tags[2]);
    assert_ne!(tags[0], tags[2]);
}

#[test]
fn malformed_frames_are_dropped() {
    assert!(parse_frame(&b"no newline at all".to_vec()).is_none());
    assert!(parse_frame(&Vec::new()).is_none());
}

#[test]
fn responding_without_a_path_shares_the_whole_replica() {
    let mut fs = OkuFs::start(1, 9000);
    let id = fs.create_replica(ns(7)).unwrap();
    fs.create_or_modify_file(id, "/a", b"12345".to_vec()).unwrap();
    fs.create_or_modify_file(id, "/b", b"123".to_vec()).unwrap();
    let request = PeerContentRequest { namespace_id: id, path: None };
    match respond_to_request(&fs, &request).unwrap() {
        PeerContentResponse::Replica { ticket, size } => {
            assert_eq!(ticket.capability, DocCapability { id, kind: CapabilityKind::Read });
            assert_eq!(ticket.nodes, vec![9000]);
            assert_eq!(size, 8);
        },
        PeerContentResponse::Blobs { .. } => panic!("expected a whole-replica response"),
    }
}

#[test]
fn responding_with_a_path_shares_blob_tickets() {
    let mut fs = OkuFs::start(1, 9000);
    let id = fs.create_replica(ns(7)).unwrap();
    fs.create_or_modify_file(id, "/docs/a", b"12345".to_vec()).unwrap();
    fs.create_or_modify_file(id, "/other", b"1".to_vec()).unwrap();
    let request = PeerContentRequest { namespace_id: id, path: Some("/docs".to_owned()) };
    match respond_to_request(&fs, &request).unwrap() {
        PeerContentResponse::Blobs { tickets, size } => {
            assert_eq!(tickets.len(), 1);
            assert_eq!(tickets[0].hash.bytes, b"12345".to_vec());
            assert_eq!(tickets[0].addr, 9000);
            assert_eq!(size, 5);
        },
        PeerContentResponse::Replica { .. } => panic!("expected blob tickets"),
    }
}

#[test]
fn responding_for_an_unknown_replica_fails_not_found() {
    let fs = OkuFs::start(1, 9000);
    let request = PeerContentRequest { namespace_id: ns(7), path: None };
    assert!(matches!(respond_to_request(&fs, &request), Err(OkuFsError::FsEntryNotFound)));
}

#[test]
fn resolving_no_records_cannot_satisfy_the_request() {
    assert!(matches!(
        resolve_namespace_id(ns(7), Vec::new()),
        Err(OkuRelayError::CannotSatisfyRequest(NamespaceId { key: 7 }))
    ));
}

#[test]
fn resolving_merges_the_fetched_tickets() {
    let t1 = DocTicket {
        capability: DocCapability { id: ns(7), kind: CapabilityKind::Read },
        nodes: vec![3, 1],
    };
    let t2 = DocTicket {
        capability: DocCapability { id: ns(7), kind: CapabilityKind::Write },
        nodes: vec![2, 3],
    };
    let merged = resolve_namespace_id(ns(7), vec![t1, t2]).unwrap();
    assert_eq!(merged.capability.kind, CapabilityKind::Write);
    assert_eq!(merged.nodes, vec![1, 2, 3]);
}

#[test]
fn download_policies_scope_the_fetch() {
    match replica_download_policy(None) {
        DownloadPolicy::Everything => {},
        DownloadPolicy::NothingExcept(_) => panic!("an unscoped fetch downloads everything"),
    }
    match replica_download_policy(Some("/docs")) {
        DownloadPolicy::NothingExcept(filters) => {
            assert_eq!(filters.len(), 1);
            match &filters[0] {
                FilterKind::Prefix(p) => assert_eq!(p, &b"/docs".to_vec()),
                FilterKind::Exact(_) => panic!("a path scope bounds by prefix"),
            }
        },
        DownloadPolicy::Everything => panic!("a path scope must bound the fetch"),
    }
    match file_download_policy("/a/b.txt") {
        DownloadPolicy::NothingExcept(filters) => {
            assert_eq!(filters.len(), 1);
            match &filters[0] {
                FilterKind::Exact(k) => assert_eq!(k, &b"/a/b.txt\0".to_vec()),
                FilterKind::Prefix(_) => panic!("a file fetch bounds by exact key"),
            }
        },
        DownloadPolicy::Everything => panic!("a file fetch must bound the download"),
    }
}

#[test]
fn fetch_decisions_fall_back_to_local_reads() {
    let ticket = DocTicket {
        capability: DocCapability { id: ns(7), kind: CapabilityKind::Read },
        nodes: vec![1],
    };
    assert!(matches!(
        fetch_file_step(FetchEvent::Resolved(ticket)),
        FetchAction::FetchWithTicket(_)
    ));
    assert!(matches!(fetch_file_step(FetchEvent::ResolveFailed), FetchAction::ReadLocal));
    assert!(matches!(fetch_file_step(FetchEvent::FetchFailed), FetchAction::ReadLocal));
    match fetch_file_step(FetchEvent::FetchSucceeded(b"data".to_vec())) {
        FetchAction::Deliver(data) => assert_eq!(data, b"data".to_vec()),
        _ => panic!("fetched bytes are delivered"),
    }
}

#[test]
fn the_race_takes_the_first_matching_response_only() {
    // An answer for the wrong namespace never wins.
    assert!(!race_step(false, ns(8), ns(7)));
    // The first matching answer wins.
    assert!(race_step(false, ns(7), ns(7)));
    // A late answer, arriving after the race is settled, is discarded.
    assert!(!race_step(true, ns(7), ns(7)));
}

#[test]
fn sync_waits_for_the_convergence_event() {
    assert!(!sync_wait_step(&SyncEvent::Other));
    assert!(sync_wait_step(&SyncEvent::SyncFinished));
}

#[test]
fn announcements_cover_every_replica() {
    let mut fs = OkuFs::start(1, 9000);
    let a = fs.create_replica(ns(1)).unwrap();
    let b = fs.create_replica(ns(2)).unwrap();
    assert_eq!(announce_records(&fs), vec![(a, 9000), (b, 9000)]);
    assert_eq!(next_announce_delay(true, 5, 60), 5);
    assert_eq!(next_announce_delay(false, 5, 60), 55);
}

#[test]
fn relay_bridge_reacts_to_events() {
    let mut fs = OkuFs::start(1, 9000);
    let a = fs.create_replica(ns(1)).unwrap();
    assert_eq!(relay_inventory(&fs), vec![a]);
    match relay_step(&fs, &RelayEvent::RefreshRequested) {
        RelayAction::SendInventory(ids) => assert_eq!(ids, vec![a]),
        _ => panic!("a refresh request is answered with the inventory"),
    }
    assert!(matches!(relay_step(&fs, &RelayEvent::UnknownMessage), RelayAction::Ignore));
    assert!(matches!(relay_step(&fs, &RelayEvent::ConnectionLost), RelayAction::Terminate));
}

#[test]
fn end_to_end_discovery_returns_identical_bytes() {
    // Node A creates a replica, writes one file, and announces it.
    let mut node_a = OkuFs::start(1, 9000);
    let id = node_a.create_replica(ns(42)).unwrap();
    let data = b"shared bytes".to_vec();
    node_a.create_or_modify_file(id, "/pub/file.txt", data.clone()).unwrap();
    let records = announce_records(&node_a);
    assert_eq!(records, vec![(id, 9000)]);

    // Node B resolves A's namespace from the published records.
    let mut node_b = OkuFs::start(2, 9001);
    let published = node_a
        .create_document_ticket(id, oku_fs::ticket::ShareMode::Read)
        .unwrap();
    let resolved = resolve_namespace_id(id, vec![published]).unwrap();
    assert_eq!(resolved.capability.id, id);
    assert_eq!(resolved.nodes, vec![9000]);

    // Node B imports the capability and asks A for the file, scoped to its
    // path; the request and response travel in wire frames.
    node_b.import_replica(&resolved.capability);
    let request = PeerContentRequest { namespace_id: id, path: Some("/pub/file.txt".to_owned()) };
    let framed = frame_message(&fetch_tag_bytes(), &b"request body".to_vec());
    let (tag, _body) = parse_frame(&framed).unwrap();
    assert_eq!(tag, fetch_tag_bytes());
    match respond_to_request(&node_a, &request).unwrap() {
        PeerContentResponse::Blobs { tickets, size } => {
            assert_eq!(tickets.len(), 1);
            assert_eq!(size, data.len() as u64);
            // The blob the ticket names carries exactly the written bytes.
            assert_eq!(tickets[0].hash.bytes, data);
        },
        PeerContentResponse::Replica { .. } => panic!("a scoped request yields blob tickets"),
    }
}
