//! The TCP-facing shell types: a node bound to a listening address, a remote
//! peer's address book entry, and the two-duty application handle. The socket
//! work itself — binding, reading, writing, spawning the responder and
//! initiator duties — lives in the application shell around this library;
//! these types carry the verified node and the plain data the shell needs.

use vstd::prelude::*;
use std::sync::Arc;
use crate::event::Event;
use crate::event::EventHash;
use crate::graph::Skel;
use crate::graph::insert_outcome;
use crate::node::Node;
use crate::node::is_genesis_event;
use crate::peer::PeerId;
use crate::peers::PeerSet;

verus! {

/// A consensus node together with the address its responder listens on.
pub struct TcpNode<N> {
    pub address: String,
    pub node: N,
}

impl TcpNode<Node> {
    /// Builds the node from a signing seed and the participant set, bound to
    /// an address. Succeeds exactly when the node itself can be built: a
    /// 32-byte seed whose signed genesis event the empty store accepts.
    pub fn new(seed: Vec<u8>, peers: PeerSet, address: String, now: u64) -> (r: Option<
        TcpNode<Node>,
    >)
        requires
            peers.wf(),
        ensures
            r is Some <==> seed@.len() == 32 && (forall|e: Event|
                #[trigger] is_genesis_event(seed@, now, e) ==> insert_outcome(
                    Seq::<Skel>::empty(),
                    peers.members@,
                    Seq::<EventHash>::empty(),
                    e,
                ) is Ok),
            r is Some ==> {
                &&& r->0.address@ == address@
                &&& r->0.node.wf()
                &&& r->0.node.seed@ == seed@
                &&& r->0.node.graph.peers == peers
                &&& r->0.node.graph.events@.len() == 1
                &&& is_genesis_event(seed@, now, r->0.node.graph.events@[0])
                &&& r->0.node.head is Some
            },
    {
        match Node::new(seed, peers, now) {
            Option::Some(node) => Option::Some(TcpNode { address, node }),
            Option::None => Option::None,
        }
    }
}

/// A remote participant's address book entry.
#[derive(Clone)]
pub struct TcpPeer {
    pub address: String,
    pub id: PeerId,
}

impl TcpPeer {
    pub fn address(&self) -> (r: String)
        ensures
            r@ == self.address@,
    {
        self.address.clone()
    }

    pub fn id(&self) -> (r: &PeerId)
        ensures
            r@ == self.id@,
    {
        &self.id
    }
}

/// The application handle: the shared node that the responder and the
/// initiator duties both work on.
pub struct TcpApp(pub Arc<TcpNode<Node>>);

impl TcpApp {
    pub fn new(n: Arc<TcpNode<Node>>) -> (r: TcpApp)
        ensures
            r.0 == n,
    {
        TcpApp(n)
    }
}

} // verus!
