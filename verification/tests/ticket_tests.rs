use oku_fs::ticket::can_share;
use oku_fs::ticket::merge_tickets;
use oku_fs::ticket::CapabilityKind;
use oku_fs::ticket::DocCapability;
use oku_fs::ticket::DocTicket;
use oku_fs::ticket::NamespaceId;
use oku_fs::ticket::ShareMode;

fn ticket(key: u64, kind: CapabilityKind, nodes: Vec<u64>) -> DocTicket {
    DocTicket { capability: DocCapability { id: NamespaceId { key }, kind }, nodes }
}

#[test]
fn merging_no_tickets_yields_none() {
    assert!(merge_tickets(Vec::new()).is_none());
}

#[test]
fn merging_one_ticket_keeps_it_up_to_sort_and_dedupe() {
    let t = ticket(7, CapabilityKind::Read, vec![30, 10, 20, 10]);
    let merged = merge_tickets(vec![t]).unwrap();
    assert_eq!(merged.capability, DocCapability { id: NamespaceId { key: 7 }, kind: CapabilityKind::Read });
    assert_eq!(merged.nodes, vec![10, 20, 30]);
}

#[test]
fn merging_disjoint_address_lists_unions_them() {
    let t1 = ticket(7, CapabilityKind::Read, vec![5, 1]);
    let t2 = ticket(7, CapabilityKind::Read, vec![4, 2]);
    let merged = merge_tickets(vec![t1, t2]).unwrap();
    // Disjoint lists: the sorted union's length is the sum of the lengths.
    assert_eq!(merged.nodes, vec![1, 2, 4, 5]);
    assert_eq!(merged.nodes.len(), 2 + 2);
}

#[test]
fn merging_never_drops_a_write_grant() {
    let r = ticket(7, CapabilityKind::Read, vec![1]);
    let w = ticket(7, CapabilityKind::Write, vec![2]);
    let merged = merge_tickets(vec![r, w]).unwrap();
    assert_eq!(merged.capability.kind, CapabilityKind::Write);
    assert_eq!(merged.capability.id, NamespaceId { key: 7 });
}

#[test]
fn merging_capabilities_of_different_namespaces_keeps_the_first() {
    let a = ticket(7, CapabilityKind::Read, vec![1]);
    let b = ticket(8, CapabilityKind::Write, vec![2]);
    let merged = merge_tickets(vec![a, b]).unwrap();
    // The engine refuses cross-namespace capability merges; the accumulator
    // is kept and only the address lists are united.
    assert_eq!(merged.capability, DocCapability { id: NamespaceId { key: 7 }, kind: CapabilityKind::Read });
    assert_eq!(merged.nodes, vec![1, 2]);
}

#[test]
fn sharing_rules() {
    assert!(!can_share(CapabilityKind::Read, ShareMode::Write));
    assert!(can_share(CapabilityKind::Write, ShareMode::Write));
    assert!(can_share(CapabilityKind::Read, ShareMode::Read));
    assert!(can_share(CapabilityKind::Write, ShareMode::Read));
}
