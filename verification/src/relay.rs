//! The relay bridge: the client side of the long-lived connection by which
//! a node behind network address translation publishes its replica
//! inventory to a reachable relay.
//!
//! The handshake sends the relay tag, one newline, and the serialized list
//! of locally held namespaces; in the steady state the relay may at any
//! time send the refresh tag, upon which the client recomputes and resends
//! its inventory. Loss of the connection ends the bridge — a supervising
//! caller may start a new one. The connection itself and the payload
//! serialization live in the surrounding application; this module decides
//! what is sent and when the bridge ends.

use vstd::prelude::*;
use crate::fs::OkuFs;
use crate::fs::ReplicaModel;
use crate::ticket::NamespaceId;

verus! {

/// The replica inventory the bridge publishes: the namespaces of every
/// locally held replica, in storage order.
pub fn relay_inventory(fs: &OkuFs) -> (r: Vec<NamespaceId>)
    ensures
        r@ == fs@.replicas.map_values(|rm: ReplicaModel| rm.id),
{
    let replicas = fs.list_replicas();
    let mut out: Vec<NamespaceId> = Vec::new();
    let mut i: usize = 0;
    while i < replicas.len()
        invariant
            i <= replicas@.len(),
            replicas@ == fs@.replicas.map_values(
                |rm: ReplicaModel| (rm.id, rm.capability),
            ),
            out@ == fs@.replicas.take(i as int).map_values(|rm: ReplicaModel| rm.id),
        decreases replicas@.len() - i,
    {
        out.push(replicas[i].0);
        proof {
            assert(out@ =~= fs@.replicas.take(i + 1).map_values(
                |rm: ReplicaModel| rm.id,
            ));
        }
        i += 1;
    }
    proof {
        assert(fs@.replicas.take(fs@.replicas.len() as int) =~= fs@.replicas);
    }
    out
}

/// One event observed by the relay bridge after its handshake.
pub enum RelayEvent {
    /// The relay asked for a fresh inventory.
    RefreshRequested,
    /// The relay sent something other than the refresh tag.
    UnknownMessage,
    /// The connection was lost.
    ConnectionLost,
}

/// The bridge's reaction to an event.
pub enum RelayAction {
    /// Recompute the inventory and send it, unsolicited sends never occur.
    SendInventory(Vec<NamespaceId>),
    /// Ignore the message and keep listening.
    Ignore,
    /// End the bridge: connection loss is surfaced, not retried here.
    Terminate,
}

/// Decides the bridge's next action: a refresh request is answered with
/// the current inventory, an unknown message is ignored, and connection
/// loss terminates the bridge.
pub fn relay_step(fs: &OkuFs, event: &RelayEvent) -> (r: RelayAction)
    ensures
        (match event {
            RelayEvent::RefreshRequested => (match r {
                RelayAction::SendInventory(ids) => ids@ == fs@.replicas.map_values(
                    |rm: ReplicaModel| rm.id,
                ),
                _ => false,
            }),
            RelayEvent::UnknownMessage => r is Ignore,
            RelayEvent::ConnectionLost => r is Terminate,
        }),
{
    match event {
        RelayEvent::RefreshRequested => RelayAction::SendInventory(relay_inventory(fs)),
        RelayEvent::UnknownMessage => RelayAction::Ignore,
        RelayEvent::ConnectionLost => RelayAction::Terminate,
    }
}

} // verus!
