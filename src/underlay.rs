//! What the DHT needs from the network below it. The underlay is provided
//! by the application; this library only names its operations and signals.

use vstd::prelude::*;

use crate::{Message, Peer};

verus! {

/// The transport beneath the DHT.
pub trait Underlay {
    type Address;
    type NetworkSizeEstimate;

    /// Asks for a connection to `peer` at `addr`. A successful attempt is
    /// reported later by a `PeerConnected` signal.
    fn try_connect(peer: Peer, addr: Self::Address);

    /// Asks the underlay to preserve its connection to `peer`.
    fn hold(peer: Peer);

    /// Withdraws the preference set by `hold`. The underlay need not close
    /// the connection.
    fn drop(peer: Peer);

    /// Sends a message to `peer`, best effort: delivery and order are not
    /// guaranteed, and the message may be dropped under backpressure.
    fn send(peer: Peer, message: Message);

    /// The estimated number of peers in the network.
    fn estimate_network_size(&self) -> Self::NetworkSizeEstimate;
}

/// Signals the underlay delivers to the DHT.
pub enum UnderlaySignal<U: Underlay> {
    /// A peer connected; it becomes a candidate for the routing table.
    PeerConnected(Peer),
    /// A peer disconnected; its route is removed.
    PeerDisconnected(Peer),
    /// The local peer became reachable at this address.
    AddressAdded(U::Address),
    /// The local peer is no longer reachable at this address.
    AddressDeleted(U::Address),
    /// A message arrived from a peer.
    Receive(Peer, Message),
}

} // verus!
