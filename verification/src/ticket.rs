//! Capability tickets and the algebra that combines them.
//!
//! A ticket pairs a capability — proof of read or read-write access to a
//! replica — with the addresses of peers known to hold that replica. Merging
//! a batch of tickets folds their capabilities together (a write grant is
//! never silently dropped in favour of a read grant for the same namespace)
//! and unions their address lists with a stable sort-and-dedupe.

use vstd::prelude::*;

verus! {

broadcast use vstd::seq_lib::group_seq_properties;

/// Identifier of a replica: stands for the namespace's public key.
///
/// The surrounding application maps each real 32-byte namespace key to a
/// distinct value of this type; the logic in this crate only ever compares
/// identifiers for equality.
#[derive(Clone, Copy, Debug, PartialEq, Eq, Structural)]
pub struct NamespaceId {
    /// The value standing for the namespace's public key.
    pub key: u64,
}

/// The level of access the local node holds on a replica.
#[derive(Clone, Copy, Debug, PartialEq, Eq, Structural)]
pub enum CapabilityKind {
    /// Entries of the replica may be read but not written.
    Read,
    /// Entries of the replica may be read and written.
    Write,
}

/// The level of access a sharing ticket is asked to carry.
#[derive(Clone, Copy, Debug, PartialEq, Eq, Structural)]
pub enum ShareMode {
    /// Share read access only.
    Read,
    /// Share read and write access.
    Write,
}

/// A capability: access of a given kind to a given namespace.
#[derive(Clone, Copy, Debug, PartialEq, Eq, Structural)]
pub struct DocCapability {
    /// The namespace the capability grants access to.
    pub id: NamespaceId,
    /// Whether the capability grants read or read-write access.
    pub kind: CapabilityKind,
}

/// Address of a peer node. The surrounding application maps each real
/// network address to a distinct value; the logic only compares and orders
/// addresses.
pub type NodeAddr = u64;

/// A capability together with the addresses of peers known to hold the
/// replica: everything needed to join the replica's swarm.
#[derive(Clone, Debug)]
pub struct DocTicket {
    /// The capability the ticket carries.
    pub capability: DocCapability,
    /// Addresses of peers known to hold the replica.
    pub nodes: Vec<NodeAddr>,
}

/// Whether sharing with the requested mode is permitted under the local
/// capability: sharing read-write access requires holding read-write access,
/// while sharing read-only access is always permitted.
pub open spec fn spec_can_share(capability: CapabilityKind, requested: ShareMode) -> bool {
    !(requested == ShareMode::Write && capability == CapabilityKind::Read)
}

/// Decides whether a replica held with `capability` may be shared with the
/// access level `requested`.
pub fn can_share(capability: CapabilityKind, requested: ShareMode) -> (r: bool)
    ensures
        r == spec_can_share(capability, requested),
{
    !(matches!(requested, ShareMode::Write) && matches!(capability, CapabilityKind::Read))
}

/// The capability-merge rule: when both capabilities govern the same
/// namespace, a read grant is upgraded by a write grant; in every other case
/// (including capabilities for different namespaces, where merging is
/// refused) the left capability is kept unchanged.
pub open spec fn cap_merge(a: DocCapability, b: DocCapability) -> DocCapability {
    if a.id == b.id && a.kind == CapabilityKind::Read && b.kind == CapabilityKind::Write {
        DocCapability { id: a.id, kind: CapabilityKind::Write }
    } else {
        a
    }
}

/// The capability obtained by folding `cap_merge` over the tickets' own
/// capabilities, from the first ticket leftwards.
pub open spec fn merged_capability(tickets: Seq<DocTicket>) -> DocCapability
    recommends
        tickets.len() > 0,
    decreases tickets.len(),
{
    if tickets.len() <= 1 {
        tickets[0].capability
    } else {
        cap_merge(merged_capability(tickets.drop_last()), tickets.last().capability)
    }
}

/// Whether any of the tickets lists `addr` among its peer addresses.
pub open spec fn tickets_list_addr(tickets: Seq<DocTicket>, addr: NodeAddr) -> bool {
    exists|k: int| 0 <= k < tickets.len() && tickets[k].nodes@.contains(addr)
}

/// Whether the addresses appear in strictly increasing order (which also
/// rules out duplicates).
pub open spec fn strictly_sorted(s: Seq<NodeAddr>) -> bool {
    forall|i: int, j: int| 0 <= i < j < s.len() ==> s[i] < s[j]
}

/// Inserts `addr` into a strictly sorted address list, keeping the order and
/// dropping the address when it is already present.
fn insert_sorted(out: &mut Vec<NodeAddr>, addr: NodeAddr)
    requires
        strictly_sorted(old(out)@),
    ensures
        strictly_sorted(final(out)@),
        forall|a: NodeAddr| final(out)@.contains(a) <==> (old(out)@.contains(a) || a == addr),
{
    let mut j: usize = 0;
    while j < out.len() && out[j] < addr
        invariant
            j <= out.len(),
            strictly_sorted(out@),
            out == old(out),
            forall|k: int| 0 <= k < j ==> out@[k] < addr,
        decreases out.len() - j,
    {
        j += 1;
    }
    if j < out.len() && out[j] == addr {
        assert(out@.contains(addr));
    } else {
        let ghost before = out@;
        out.insert(j, addr);
        assert forall|a: NodeAddr| out@.contains(a) <==> (before.contains(a) || a == addr) by {
            assert(out@ == before.insert(j as int, addr));
            if before.contains(a) {
                let k = choose|k: int| 0 <= k < before.len() && before[k] == a;
                if k < j {
                    assert(out@[k] == a);
                } else {
                    assert(out@[k + 1] == a);
                }
            }
            if out@.contains(a) {
                let k = choose|k: int| 0 <= k < out@.len() && out@[k] == a;
                if k < j {
                    assert(before[k] == a);
                } else if k > j {
                    assert(before[k - 1] == a);
                }
            }
        }
    }
}

/// Merges tickets into one: the capabilities are folded with the
/// capability-merge rule and the peer address lists are united, sorted and
/// deduplicated. Merging an empty batch yields no ticket, which the caller
/// must branch on.
pub fn merge_tickets(tickets: Vec<DocTicket>) -> (r: Option<DocTicket>)
    ensures
        (r is Some) <==> tickets@.len() > 0,
        r is Some ==> (r->0).capability == merged_capability(tickets@),
        r is Some ==> strictly_sorted((r->0).nodes@),
        r is Some ==> forall|a: NodeAddr|
            (r->0).nodes@.contains(a) <==> tickets_list_addr(tickets@, a),
{
    if tickets.len() == 0 {
        return None;
    }
    let mut capability = tickets[0].capability;
    let mut i: usize = 1;
    while i < tickets.len()
        invariant
            1 <= i <= tickets@.len(),
            capability == merged_capability(tickets@.take(i as int)),
        decreases tickets@.len() - i,
    {
        let next = tickets[i].capability;
        proof {
            assert(tickets@.take(i + 1 as int).drop_last() =~= tickets@.take(i as int));
            assert(tickets@.take(i + 1 as int).last() == tickets@[i as int]);
        }
        if capability.id == next.id && matches!(capability.kind, CapabilityKind::Read)
            && matches!(next.kind, CapabilityKind::Write) {
            capability = DocCapability { id: capability.id, kind: CapabilityKind::Write };
        }
        i += 1;
    }
    proof {
        assert(tickets@.take(tickets@.len() as int) =~= tickets@);
    }
    let mut nodes: Vec<NodeAddr> = Vec::new();
    let mut t: usize = 0;
    while t < tickets.len()
        invariant
            t <= tickets@.len(),
            strictly_sorted(nodes@),
            forall|a: NodeAddr|
                nodes@.contains(a) <==> tickets_list_addr(tickets@.take(t as int), a),
        decreases tickets@.len() - t,
    {
        let ticket_nodes = &tickets[t].nodes;
        let mut j: usize = 0;
        while j < ticket_nodes.len()
            invariant
                t < tickets@.len(),
                j <= ticket_nodes@.len(),
                ticket_nodes@ == tickets@[t as int].nodes@,
                strictly_sorted(nodes@),
                forall|a: NodeAddr|
                    nodes@.contains(a) <==> (tickets_list_addr(tickets@.take(t as int), a)
                        || ticket_nodes@.take(j as int).contains(a)),
            decreases ticket_nodes@.len() - j,
        {
            insert_sorted(&mut nodes, ticket_nodes[j]);
            proof {
                assert forall|a: NodeAddr|
                    #[trigger] ticket_nodes@.take(j + 1).contains(a) <==> (ticket_nodes@.take(
                        j as int,
                    ).contains(a) || a == ticket_nodes@[j as int]) by {
                    vstd::seq_lib::lemma_seq_take_contains(ticket_nodes@, j as int, a);
                    vstd::seq_lib::lemma_seq_take_contains(ticket_nodes@, j + 1, a);
                }
            }
            j += 1;
        }
        proof {
            assert(ticket_nodes@.take(ticket_nodes@.len() as int) =~= ticket_nodes@);
            assert forall|a: NodeAddr|
                (tickets_list_addr(tickets@.take(t as int), a) || ticket_nodes@.contains(a))
                    <==> tickets_list_addr(tickets@.take(t + 1 as int), a) by {
                if tickets_list_addr(tickets@.take(t as int), a) {
                    let k = choose|k: int|
                        0 <= k < t && tickets@.take(t as int)[k].nodes@.contains(a);
                    assert(tickets@.take(t + 1 as int)[k].nodes@.contains(a));
                }
                if ticket_nodes@.contains(a) {
                    assert(tickets@.take(t + 1 as int)[t as int].nodes@.contains(a));
                }
                if tickets_list_addr(tickets@.take(t + 1 as int), a) {
                    let k = choose|k: int|
                        0 <= k < t + 1 && #[trigger] tickets@.take(t + 1 as int)[k].nodes@.contains(
                            a,
                        );
                    if k < t {
                        assert(tickets@.take(t as int)[k].nodes@.contains(a));
                    }
                }
            }
        }
        t += 1;
    }
    proof {
        assert(tickets@.take(tickets@.len() as int) =~= tickets@);
    }
    Some(DocTicket { capability, nodes })
}

/// Law: the capability-merge rule never drops a write grant. For two
/// capabilities over the same namespace, the merged capability governs that
/// namespace and grants write access exactly when one of the two did.
pub proof fn lemma_cap_merge_keeps_write(a: DocCapability, b: DocCapability)
    requires
        a.id == b.id,
    ensures
        cap_merge(a, b).id == a.id,
        cap_merge(a, b).kind == CapabilityKind::Write <==> (a.kind == CapabilityKind::Write
            || b.kind == CapabilityKind::Write),
{
}

/// Law: merging a batch of one ticket keeps its capability, and the merged
/// address list carries exactly the addresses of that ticket (in sorted,
/// deduplicated order, by the contract of `merge_tickets`).
pub proof fn lemma_merge_singleton(tickets: Seq<DocTicket>)
    requires
        tickets.len() == 1,
    ensures
        merged_capability(tickets) == tickets[0].capability,
        forall|a: NodeAddr| tickets_list_addr(tickets, a) <==> tickets[0].nodes@.contains(a),
{
    assert forall|a: NodeAddr|
        tickets_list_addr(tickets, a) <==> tickets[0].nodes@.contains(a) by {
        if tickets[0].nodes@.contains(a) {
            assert(tickets[0 as int].nodes@.contains(a));
        }
    }
}

/// Law: merging two tickets for the same namespace whose address lists are
/// duplicate-free and disjoint yields the folded capability and an address
/// list whose length is the sum of the two lengths. `merged` stands for the
/// address list of the merged ticket, characterised as in the contract of
/// `merge_tickets`.
pub proof fn lemma_merge_two_disjoint(t1: DocTicket, t2: DocTicket, merged: Seq<NodeAddr>)
    requires
        t1.capability.id == t2.capability.id,
        t1.nodes@.no_duplicates(),
        t2.nodes@.no_duplicates(),
        forall|a: NodeAddr| !(t1.nodes@.contains(a) && t2.nodes@.contains(a)),
        strictly_sorted(merged),
        forall|a: NodeAddr|
            #[trigger] merged.contains(a) <==> (t1.nodes@.contains(a) || t2.nodes@.contains(a)),
    ensures
        merged.len() == t1.nodes@.len() + t2.nodes@.len(),
        merged_capability(seq![t1, t2]) == cap_merge(t1.capability, t2.capability),
{
    broadcast use vstd::seq_lib::seq_to_set_is_finite;
    broadcast use vstd::set::group_set_axioms;

    assert(merged.no_duplicates());
    merged.unique_seq_to_set();
    t1.nodes@.unique_seq_to_set();
    t2.nodes@.unique_seq_to_set();
    assert(merged.to_set() =~= t1.nodes@.to_set() + t2.nodes@.to_set());
    assert(t1.nodes@.to_set().disjoint(t2.nodes@.to_set()));
    vstd::set_lib::lemma_set_disjoint_lens(t1.nodes@.to_set(), t2.nodes@.to_set());
    assert(seq![t1, t2].drop_last() =~= seq![t1]);
    assert(merged_capability(seq![t1]) == t1.capability);
}

} // verus!
