//! The capability a remote participant offers the gossip loop: pull the
//! peer's current view, and report its address and identity. The consensus
//! engine is generic over this contract; concrete transports implement it in
//! the application shell.

use vstd::prelude::*;
use crate::event::EventHash;

verus! {

/// The stable identity of a participant.
pub type PeerId = Vec<u8>;

/// A remote participant, as the gossip initiator sees it: it can be asked for
/// its head and its view of the graph.
pub trait Peer<H> {
    fn get_sync(&self, pk: PeerId, known: Option<&H>) -> (EventHash, H);

    fn address(&self) -> String;

    fn id(&self) -> &PeerId;
}

} // verus!
