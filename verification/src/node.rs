//! The gossip coordinator's verified core: a node owns its signing seed, its
//! public identity and the shared hashgraph, creates and signs its own
//! events, folds a pulled batch of foreign events into the store in
//! parents-first order, and runs the fame decider and the orderer after each
//! batch. The network pull itself happens outside; this core only ever takes
//! plain values.

use vstd::prelude::*;
use crate::crypto::ed25519_pub_of;
use crate::crypto::ed25519_public_key;
use crate::crypto::ed25519_sig_of;
use crate::crypto::ed25519_sign;
use crate::crypto::random_below;
use crate::event::Event;
use crate::event::EventHash;
use crate::event::compute_hash;
use crate::event::copy_bytes;
use crate::event::copy_event;
use crate::event::signing_bytes;
use crate::event::event_signing_bytes;
use crate::event::hash_of_event;
use crate::graph::CState;
use crate::graph::Skel;
use crate::graph::GraphError;
use crate::graph::Hashgraph;
use crate::graph::insert_outcome;
use crate::graph::insert_blocked;
use crate::graph::store_extends;
use crate::graph::hash_index_of;
use crate::graph::lemma_hash_index_of;
use crate::graph::lemma_hash_index_extends;
use crate::graph::lemma_blocked_extends;
use crate::fame::max_round;
use crate::fame::max_round_x;
use crate::fame::fame_spec;
use crate::fame::lemma_max_round_le;
use crate::laws::events_alike;
use crate::laws::lemma_signing_alike;
use crate::laws::lemma_alike_bytes;
use crate::laws::lemma_outcome_alike;
use crate::laws::lemma_alike_trans;
use crate::order::recv_val;
use crate::order::ts_val;
use crate::order::order_val;
use crate::order::mid_state;
use crate::peer::PeerId;
use crate::peers::PeerSet;

verus! {

/// How many stored events still lack a consensus order.
pub open spec fn pending_count(st: Seq<CState>, k: int) -> int
    decreases k,
{
    if k <= 0 {
        0
    } else {
        pending_count(st, k - 1) + if st[k - 1].consensus_order is None {
            1int
        } else {
            0int
        }
    }
}

proof fn lemma_pending_le(st: Seq<CState>, k: int)
    ensures
        0 <= pending_count(st, k) <= (if k >= 0 { k } else { 0int }),
    decreases k,
{
    if k > 0 {
        lemma_pending_le(st, k - 1);
    }
}

/// One participant's consensus engine.
pub struct Node {
    pub seed: Vec<u8>,
    pub public_key: Vec<u8>,
    pub graph: Hashgraph,
    pub head: Option<EventHash>,
}

/// The event this node builds over its current state: created under its own
/// key, chained to its head as self-parent, signed over the canonical bytes.
pub open spec fn is_own_event(
    nd: Node,
    other_parent: Option<EventHash>,
    payload: Seq<u8>,
    now: u64,
    e: Event,
) -> bool {
    &&& e.creator@ == nd.public_key@
    &&& (match (e.self_parent, nd.head) {
        (Option::Some(a), Option::Some(b)) => a@ == b@,
        (Option::None, Option::None) => true,
        _ => false,
    })
    &&& (match (e.other_parent, other_parent) {
        (Option::Some(a), Option::Some(b)) => a@ == b@,
        (Option::None, Option::None) => true,
        _ => false,
    })
    &&& e.timestamp == now
    &&& e.payload@ == payload
    &&& e.signature@ == ed25519_sig_of(nd.seed@, event_signing_bytes(e))
}

/// The parentless, empty-payload event a node signs at birth.
pub open spec fn is_genesis_event(seed: Seq<u8>, now: u64, e: Event) -> bool {
    &&& e.creator@ == ed25519_pub_of(seed)
    &&& e.self_parent is None
    &&& e.other_parent is None
    &&& e.timestamp == now
    &&& e.payload@ == Seq::<u8>::empty()
    &&& e.signature@ == ed25519_sig_of(seed, event_signing_bytes(e))
}

/// Any two events a node could build over one state are field-by-field
/// identical: the state pins every field, including the signature.
pub proof fn lemma_own_alike(
    nd: Node,
    other_parent: Option<EventHash>,
    payload: Seq<u8>,
    now: u64,
    e1: Event,
    e2: Event,
)
    requires
        is_own_event(nd, other_parent, payload, now, e1),
        is_own_event(nd, other_parent, payload, now, e2),
    ensures
        events_alike(e1, e2),
{
    lemma_signing_alike(e1, e2);
}

impl Node {
    pub open spec fn wf(&self) -> bool {
        &&& self.graph.wf()
        &&& self.seed@.len() == 32
        &&& self.public_key@ == ed25519_pub_of(self.seed@)
        &&& (match self.head {
            Option::Some(h) => hash_index_of(self.graph.hashes@, h@) >= 0,
            Option::None => true,
        })
    }

    /// Builds a node from its 32-byte signing seed and the fixed participant
    /// set, and creates its signed genesis event. Succeeds exactly when the
    /// seed has the right length and the genesis event passes insertion into
    /// the empty store (its creator a member, its signature verifying).
    pub fn new(seed: Vec<u8>, peers: PeerSet, now: u64) -> (r: Option<Node>)
        requires
            peers.wf(),
        ensures
            r is Some <==> seed@.len() == 32 && (forall|e: Event|
                #[trigger] is_genesis_event(seed@, now, e) ==> insert_outcome(
                    Seq::<Skel>::empty(),
                    peers.members@,
                    Seq::<EventHash>::empty(),
                    e,
                ) is Ok),
            r is Some ==> {
                &&& r->0.wf()
                &&& r->0.seed@ == seed@
                &&& r->0.public_key@ == ed25519_pub_of(seed@)
                &&& r->0.graph.peers == peers
                &&& r->0.graph.events@.len() == 1
                &&& is_genesis_event(seed@, now, r->0.graph.events@[0])
                &&& r->0.head is Some
                &&& r->0.head->0@ == r->0.graph.hashes@[0]@
            },
    {
        let ghost seed0 = seed@;
        let pk = match ed25519_public_key(&seed) {
            Option::Some(pk) => pk,
            Option::None => {
                return Option::None;
            }
        };
        let graph = Hashgraph::new(peers);
        let mut node = Node { seed, public_key: pk, graph, head: Option::None };
        let ghost nd0 = node;
        proof {
            assert(nd0.graph.skel@ =~= Seq::<Skel>::empty());
            assert(nd0.graph.hashes@ =~= Seq::<EventHash>::empty());
            assert(forall|e: Event|
                is_genesis_event(seed0, now, e) == is_own_event(
                    nd0,
                    Option::None,
                    Seq::<u8>::empty(),
                    now,
                    e,
                ));
        }
        let rc = node.create_event(Option::None, Vec::new(), now);
        match rc {
            Result::Ok(()) => Option::Some(node),
            Result::Err(_) => {
                proof {
                    let e0 = choose|e: Event|
                        #[trigger] is_own_event(nd0, Option::None, Seq::<u8>::empty(), now, e)
                            && rc == insert_outcome(
                            nd0.graph.skel@,
                            nd0.graph.peers.members@,
                            nd0.graph.hashes@,
                            e,
                        );
                    assert(is_genesis_event(seed0, now, e0));
                    assert(insert_outcome(
                        Seq::<Skel>::empty(),
                        peers.members@,
                        Seq::<EventHash>::empty(),
                        e0,
                    ) is Err);
                }
                Option::None
            }
        }
    }

    /// The node's stable identity: its public key bytes.
    pub fn get_id(&self) -> (r: &PeerId)
        ensures
            r@ == self.public_key@,
    {
        &self.public_key
    }

    /// The hash of the node's latest self-created event.
    pub fn get_head(&self) -> (r: Option<EventHash>)
        ensures
            r is Some <==> self.head is Some,
            r is Some ==> r->0@ == self.head->0@,
    {
        match &self.head {
            Option::Some(h) => Option::Some(h.clone_hash()),
            Option::None => Option::None,
        }
    }

    /// Observability: the number of rounds the graph spans and the number of
    /// events not yet finalized.
    pub fn get_stats(&self) -> (r: (u64, u64))
        requires
            self.wf(),
        ensures
            r.0 as int == (if self.graph.skel@.len() == 0 {
                0int
            } else {
                max_round(self.graph.skel@) + 1
            }),
            r.1 as int == pending_count(self.graph.state@, self.graph.state@.len() as int),
    {
        let n = self.graph.state.len();
        let rounds: u64 = if n == 0 {
            0
        } else {
            proof {
                lemma_max_round_le(self.graph.skel@, self.graph.skel@.len() as int - 1);
            }
            max_round_x(&self.graph) + 1
        };
        let mut pending: u64 = 0;
        let mut i: usize = 0;
        while i < n
            invariant
                i <= n,
                n == self.graph.state@.len(),
                pending == pending_count(self.graph.state@, i as int),
                pending <= i,
            decreases n - i,
        {
            proof {
                lemma_pending_le(self.graph.state@, i as int + 1);
            }
            if self.graph.state[i].consensus_order.is_none() {
                pending = pending + 1;
            }
            i = i + 1;
        }
        (rounds, pending)
    }

    /// The responder's payload: the node's head and a copy of every stored
    /// event, in insertion order. The head, when present, is the hash of one
    /// of the returned events.
    pub fn respond_sync(&self) -> (r: (Option<EventHash>, Vec<Event>))
        requires
            self.wf(),
        ensures
            r.0 is Some <==> self.head is Some,
            r.0 is Some ==> r.0->0@ == self.head->0@,
            r.0 is Some ==> ({
                let j = hash_index_of(self.graph.hashes@, self.head->0@);
                0 <= j < r.1@.len() && hash_of_event(r.1@[j]) == r.0->0@
            }),
            r.1@.len() == self.graph.events@.len(),
            forall|i: int|
                0 <= i < r.1@.len() ==> events_alike(#[trigger] r.1@[i], self.graph.events@[i]),
    {
        let head = self.get_head();
        let n = self.graph.events.len();
        let mut out: Vec<Event> = Vec::new();
        let mut i: usize = 0;
        while i < n
            invariant
                self.wf(),
                i <= n,
                n == self.graph.events@.len(),
                out@.len() == i,
                forall|k: int|
                    0 <= k < i ==> events_alike(#[trigger] out@[k], self.graph.events@[k]),
            decreases n - i,
        {
            let e = copy_event(self.graph.get(i));
            proof {
                assert(events_alike(e, self.graph.events@[i as int]));
            }
            out.push(e);
            i = i + 1;
        }
        proof {
            if self.head is Some {
                let hv = self.head->0@;
                lemma_hash_index_of(self.graph.hashes@, hv);
                let j = hash_index_of(self.graph.hashes@, hv);
                assert(self.graph.entry_linked(j));
                lemma_alike_bytes(out@[j], self.graph.events@[j]);
                assert(hash_of_event(out@[j]) == hv);
                assert(head->0@ == hv);
                assert(0 <= j < out@.len() && hash_of_event(out@[j]) == head->0@);
            }
        }
        (head, out)
    }

    /// Builds, signs and inserts one event of this node's own, chained to its
    /// current head. The result is exactly the store's verdict on that event
    /// — the event itself is a pure function of the node's state and the
    /// arguments; on success it is appended and the head moves to it.
    pub fn create_event(
        &mut self,
        other_parent: Option<EventHash>,
        payload: Vec<u8>,
        now: u64,
    ) -> (r: Result<(), GraphError>)
        requires
            old(self).wf(),
        ensures
            final(self).wf(),
            final(self).seed@ == old(self).seed@,
            final(self).public_key@ == old(self).public_key@,
            final(self).graph.peers == old(self).graph.peers,
            forall|e: Event|
                #[trigger] is_own_event(*old(self), other_parent, payload@, now, e) ==> r
                    == insert_outcome(
                    old(self).graph.skel@,
                    old(self).graph.peers.members@,
                    old(self).graph.hashes@,
                    e,
                ),
            exists|e: Event|
                #[trigger] is_own_event(*old(self), other_parent, payload@, now, e) && r
                    == insert_outcome(
                    old(self).graph.skel@,
                    old(self).graph.peers.members@,
                    old(self).graph.hashes@,
                    e,
                ),
            r is Ok ==> {
                &&& final(self).graph.skel@.len() == old(self).graph.skel@.len() + 1
                &&& store_extends(
                    old(self).graph.skel@,
                    old(self).graph.hashes@,
                    final(self).graph.skel@,
                    final(self).graph.hashes@,
                )
                &&& (forall|i: int|
                    0 <= i < old(self).graph.events@.len()
                        ==> #[trigger] final(self).graph.events@[i] == old(self).graph.events@[i])
                &&& final(self).graph.state@ == old(self).graph.state@.push(
                    crate::graph::empty_cstate(),
                )
                &&& is_own_event(
                    *old(self),
                    other_parent,
                    payload@,
                    now,
                    final(self).graph.events@[old(self).graph.skel@.len() as int],
                )
                &&& final(self).head is Some
                &&& final(self).head->0@ == final(self).graph.hashes@[old(
                    self,
                ).graph.skel@.len() as int]@
            },
            r is Err ==> final(self).graph == old(self).graph && final(self).head == old(
                self,
            ).head,
    {
        let ghost nd0 = *old(self);
        let sp: Option<EventHash> = match &self.head {
            Option::Some(h) => Option::Some(h.clone_hash()),
            Option::None => Option::None,
        };
        let mut e = Event {
            creator: copy_bytes(&self.public_key),
            self_parent: sp,
            other_parent,
            timestamp: now,
            payload,
            signature: Vec::new(),
        };
        let ghost e_unsigned = e;
        let msg = signing_bytes(&e);
        let sig = match ed25519_sign(&self.seed, &msg) {
            Option::Some(s) => s,
            Option::None => {
                proof {
                    assert(false);
                }
                return Result::Err(GraphError::InvalidSignature);
            }
        };
        e.signature = sig;
        let h = compute_hash(&e);
        let ghost ev = e;
        proof {
            lemma_signing_alike(ev, e_unsigned);
            assert(is_own_event(nd0, other_parent, payload@, now, ev));
        }
        let res = self.graph.insert(e);
        proof {
            assert forall|e2: Event|
                #[trigger] is_own_event(nd0, other_parent, payload@, now, e2) implies res
                == insert_outcome(
                nd0.graph.skel@,
                nd0.graph.peers.members@,
                nd0.graph.hashes@,
                e2,
            ) by {
                lemma_own_alike(nd0, other_parent, payload@, now, e2, ev);
                lemma_outcome_alike(
                    nd0.graph.skel@,
                    nd0.graph.peers.members@,
                    nd0.graph.hashes@,
                    e2,
                    ev,
                );
            }
        }
        match res {
            Result::Ok(()) => {
                proof {
                    let n = nd0.graph.skel@.len() as int;
                    assert(self.graph.hashes@[n]@ == hash_of_event(ev));
                    lemma_hash_index_of(self.graph.hashes@, h@);
                    if hash_index_of(self.graph.hashes@, h@) < 0 {
                        assert(self.graph.hashes@[n]@ != h@);
                        assert(false);
                    }
                }
                self.head = Option::Some(h);
                Result::Ok(())
            }
            Result::Err(er) => Result::Err(er),
        }
    }
}

/// Picks which peer to gossip with next, uniformly at random.
pub fn select_peer(n_peers: usize) -> (r: usize)
    requires
        n_peers > 0,
    ensures
        r < n_peers,
{
    random_below(n_peers)
}

} // verus!

verus! {

impl Node {
    /// Folds one batch of foreign events into the store in passes, so parents
    /// land before children. Returns the events still waiting for a parent,
    /// and how many were inserted. On return nothing of the batch would still
    /// be accepted: every batch event is permanently blocked (a duplicate, a
    /// foreign self-parent, an unknown creator or a bad signature) or still
    /// misses a parent, and the leftovers are exactly the latter.
    fn fold_batch(&mut self, batch: Vec<Event>) -> (r: (Vec<Event>, usize))
        requires
            old(self).wf(),
        ensures
            final(self).wf(),
            final(self).seed@ == old(self).seed@,
            final(self).public_key@ == old(self).public_key@,
            final(self).head == old(self).head,
            final(self).graph.peers == old(self).graph.peers,
            store_extends(
                old(self).graph.skel@,
                old(self).graph.hashes@,
                final(self).graph.skel@,
                final(self).graph.hashes@,
            ),
            forall|i: int|
                0 <= i < old(self).graph.events@.len()
                    ==> #[trigger] final(self).graph.events@[i] == old(self).graph.events@[i],
            forall|i: int|
                0 <= i < old(self).graph.state@.len()
                    ==> #[trigger] final(self).graph.state@[i] == old(self).graph.state@[i],
            forall|i: int|
                old(self).graph.state@.len() <= i < final(self).graph.state@.len()
                    ==> #[trigger] final(self).graph.state@[i] == crate::graph::empty_cstate(),
            final(self).graph.skel@.len() == old(self).graph.skel@.len() + r.1,
            forall|k: int|
                0 <= k < batch@.len() ==> insert_blocked(
                    final(self).graph.skel@,
                    final(self).graph.peers.members@,
                    final(self).graph.hashes@,
                    #[trigger] batch@[k],
                ) || exists|j: int|
                    0 <= j < r.0@.len() && events_alike(#[trigger] r.0@[j], batch@[k]),
            forall|j: int|
                0 <= j < r.0@.len() ==> insert_outcome(
                    final(self).graph.skel@,
                    final(self).graph.peers.members@,
                    final(self).graph.hashes@,
                    #[trigger] r.0@[j],
                ) == Result::<(), GraphError>::Err(GraphError::UnknownParent),
    {
        let ghost batch0 = batch@;
        let ghost g_old = *old(self);
        let mut remaining = batch;
        let mut inserted: usize = 0;
        let mut progress = true;
        while progress && remaining.len() > 0
            invariant
                self.wf(),
                g_old.wf(),
                self.seed@ == g_old.seed@,
                self.public_key@ == g_old.public_key@,
                self.head == g_old.head,
                self.graph.peers == g_old.graph.peers,
                store_extends(
                    g_old.graph.skel@,
                    g_old.graph.hashes@,
                    self.graph.skel@,
                    self.graph.hashes@,
                ),
                forall|i: int|
                    0 <= i < g_old.graph.events@.len()
                        ==> #[trigger] self.graph.events@[i] == g_old.graph.events@[i],
                forall|i: int|
                    0 <= i < g_old.graph.state@.len()
                        ==> #[trigger] self.graph.state@[i] == g_old.graph.state@[i],
                forall|i: int|
                    g_old.graph.state@.len() <= i < self.graph.state@.len()
                        ==> #[trigger] self.graph.state@[i] == crate::graph::empty_cstate(),
                self.graph.skel@.len() == g_old.graph.skel@.len() + inserted,
                forall|k: int|
                    0 <= k < batch0.len() ==> insert_blocked(
                        self.graph.skel@,
                        self.graph.peers.members@,
                        self.graph.hashes@,
                        #[trigger] batch0[k],
                    ) || exists|j: int|
                        0 <= j < remaining@.len() && events_alike(
                            #[trigger] remaining@[j],
                            batch0[k],
                        ),
                !progress ==> forall|j: int|
                    0 <= j < remaining@.len() ==> insert_outcome(
                        self.graph.skel@,
                        self.graph.peers.members@,
                        self.graph.hashes@,
                        #[trigger] remaining@[j],
                    ) == Result::<(), GraphError>::Err(GraphError::UnknownParent),
            decreases remaining@.len() + (if progress {
                1int
            } else {
                0int
            }),
        {
            progress = false;
            let ghost rem0 = remaining@;
            let mut next: Vec<Event> = Vec::new();
            let mut k2: usize = 0;
            while k2 < remaining.len()
                invariant
                    self.wf(),
                    g_old.wf(),
                    self.seed@ == g_old.seed@,
                    self.public_key@ == g_old.public_key@,
                    self.head == g_old.head,
                    self.graph.peers == g_old.graph.peers,
                    store_extends(
                        g_old.graph.skel@,
                        g_old.graph.hashes@,
                        self.graph.skel@,
                        self.graph.hashes@,
                    ),
                    forall|i: int|
                        0 <= i < g_old.graph.events@.len()
                            ==> #[trigger] self.graph.events@[i] == g_old.graph.events@[i],
                    forall|i: int|
                        0 <= i < g_old.graph.state@.len()
                            ==> #[trigger] self.graph.state@[i] == g_old.graph.state@[i],
                    forall|i: int|
                        g_old.graph.state@.len() <= i < self.graph.state@.len()
                            ==> #[trigger] self.graph.state@[i] == crate::graph::empty_cstate(),
                    self.graph.skel@.len() == g_old.graph.skel@.len() + inserted,
                    remaining@ == rem0,
                    k2 <= rem0.len(),
                    next@.len() <= k2,
                    progress ==> next@.len() < k2,
                    forall|k: int|
                        0 <= k < batch0.len() ==> insert_blocked(
                            self.graph.skel@,
                            self.graph.peers.members@,
                            self.graph.hashes@,
                            #[trigger] batch0[k],
                        ) || (exists|j: int|
                            0 <= j < next@.len() && events_alike(#[trigger] next@[j], batch0[k]))
                            || (exists|j: int|
                            k2 <= j < rem0.len() && events_alike(#[trigger] rem0[j], batch0[k])),
                    !progress ==> forall|j: int|
                        0 <= j < next@.len() ==> insert_outcome(
                            self.graph.skel@,
                            self.graph.peers.members@,
                            self.graph.hashes@,
                            #[trigger] next@[j],
                        ) == Result::<(), GraphError>::Err(GraphError::UnknownParent),
                decreases rem0.len() - k2,
            {
                let ghost gcur = self.graph;
                let ghost m = self.graph.peers.members@;
                let ghost next0 = next@;
                let e = copy_event(&remaining[k2]);
                let ghost ecopy = e;
                proof {
                    assert(events_alike(ecopy, rem0[k2 as int]));
                }
                let res = self.graph.insert(e);
                match res {
                    Result::Ok(()) => {
                        progress = true;
                        let l = self.graph.skel.len();
                        proof {
                            assert(inserted < l);
                        }
                        inserted = inserted + 1;
                    }
                    Result::Err(GraphError::UnknownParent) => {
                        next.push(copy_event(&remaining[k2]));
                    }
                    Result::Err(_) => {}
                }
                proof {
                    let cs = self.graph.skel@;
                    let ch = self.graph.hashes@;
                    assert(store_extends(gcur.skel@, gcur.hashes@, cs, ch));
                    assert(store_extends(g_old.graph.skel@, g_old.graph.hashes@, cs, ch));
                    if self.head is Some {
                        lemma_hash_index_extends(gcur.hashes@, ch, self.head->0@);
                    }
                    assert forall|k: int| 0 <= k < batch0.len() implies insert_blocked(
                        cs,
                        m,
                        ch,
                        #[trigger] batch0[k],
                    ) || (exists|j: int|
                        0 <= j < next@.len() && events_alike(#[trigger] next@[j], batch0[k])) || (
                    exists|j: int|
                        k2 + 1 <= j < rem0.len() && events_alike(
                            #[trigger] rem0[j],
                            batch0[k],
                        )) by {
                        if insert_blocked(gcur.skel@, m, gcur.hashes@, batch0[k]) {
                            lemma_blocked_extends(gcur.skel@, gcur.hashes@, cs, ch, m, batch0[k]);
                        } else if exists|j: int|
                            0 <= j < next0.len() && events_alike(#[trigger] next0[j], batch0[k]) {
                            let j = choose|j: int|
                                0 <= j < next0.len() && events_alike(
                                    #[trigger] next0[j],
                                    batch0[k],
                                );
                            assert(next@[j] == next0[j]);
                        } else if exists|j: int|
                            k2 <= j < rem0.len() && events_alike(#[trigger] rem0[j], batch0[k]) {
                            let j = choose|j: int|
                                k2 <= j < rem0.len() && events_alike(
                                    #[trigger] rem0[j],
                                    batch0[k],
                                );
                            if j == k2 {
                                lemma_alike_trans(ecopy, rem0[k2 as int], batch0[k]);
                                match res {
                                    Result::Ok(()) => {
                                        lemma_alike_bytes(ecopy, batch0[k]);
                                        let n0 = gcur.skel@.len() as int;
                                        assert(ch[n0]@ == hash_of_event(batch0[k]));
                                        lemma_hash_index_of(ch, hash_of_event(batch0[k]));
                                        if hash_index_of(ch, hash_of_event(batch0[k])) < 0 {
                                            assert(false);
                                        }
                                        assert(insert_blocked(cs, m, ch, batch0[k]));
                                    }
                                    Result::Err(GraphError::UnknownParent) => {
                                        let jn = next@.len() - 1;
                                        assert(events_alike(next@[jn], rem0[k2 as int]));
                                        lemma_alike_trans(next@[jn], rem0[k2 as int], batch0[k]);
                                    }
                                    Result::Err(_) => {
                                        lemma_outcome_alike(
                                            gcur.skel@,
                                            m,
                                            gcur.hashes@,
                                            ecopy,
                                            batch0[k],
                                        );
                                        assert(insert_blocked(cs, m, ch, batch0[k]));
                                    }
                                }
                            }
                        }
                    }
                    if !progress {
                        assert forall|j: int| 0 <= j < next@.len() implies insert_outcome(
                            cs,
                            m,
                            ch,
                            #[trigger] next@[j],
                        ) == Result::<(), GraphError>::Err(GraphError::UnknownParent) by {
                            if j == next@.len() - 1 && res == Result::<
                                (),
                                GraphError,
                            >::Err(GraphError::UnknownParent) {
                                lemma_outcome_alike(cs, m, ch, next@[j], ecopy);
                            }
                        }
                    }
                }
                k2 = k2 + 1;
            }
            remaining = next;
        }
        (remaining, inserted)
    }
}

} // verus!

verus! {

impl Node {
    /// One gossip round: folds the pulled batch into the store parents-first,
    /// gossips the peer's head into a new own event, retries deferred events
    /// against it, and runs one fame pass and one ordering pass. On return no
    /// batch event would still be accepted; the count says how many foreign
    /// events entered, and at most one own event was appended beyond them —
    /// exactly this node's event over its state at entry. The consensus state
    /// is precisely one fame pass and one ordering pass over the final store.
    pub fn sync_step(
        &mut self,
        peer_head: Option<EventHash>,
        batch: Vec<Event>,
        now: u64,
    ) -> (r: usize)
        requires
            old(self).wf(),
        ensures
            final(self).wf(),
            final(self).seed@ == old(self).seed@,
            final(self).public_key@ == old(self).public_key@,
            final(self).graph.peers == old(self).graph.peers,
            forall|i: int|
                0 <= i < old(self).graph.events@.len()
                    ==> #[trigger] final(self).graph.events@[i] == old(self).graph.events@[i],
            forall|i: int|
                0 <= i < old(self).graph.skel@.len()
                    ==> #[trigger] final(self).graph.skel@[i] == old(self).graph.skel@[i],
            old(self).graph.skel@.len() + r <= final(self).graph.skel@.len() <= old(
                self,
            ).graph.skel@.len() + r + 1,
            forall|k: int|
                0 <= k < batch@.len() ==> insert_outcome(
                    final(self).graph.skel@,
                    final(self).graph.peers.members@,
                    final(self).graph.hashes@,
                    #[trigger] batch@[k],
                ) is Err,
            final(self).graph.skel@.len() == old(self).graph.skel@.len() + r + 1
                ==> exists|i: int|
                    old(self).graph.skel@.len() <= i < final(self).graph.skel@.len()
                        && is_own_event(
                        *old(self),
                        peer_head,
                        Seq::<u8>::empty(),
                        now,
                        #[trigger] final(self).graph.events@[i],
                    ),
            ({
                let s = final(self).graph.skel@;
                let m = final(self).graph.peers.members@;
                let thr = final(self).graph.thr();
                let st_fame = fame_base(s, m, thr, old(self).graph.state@);
                forall|i: int|
                    0 <= i < s.len() ==> {
                        &&& (#[trigger] final(self).graph.state@[i]).fame == st_fame[i].fame
                        &&& final(self).graph.state@[i].received_round == recv_val(s, st_fame, i)
                        &&& final(self).graph.state@[i].consensus_timestamp == ts_val(
                            s,
                            st_fame,
                            i,
                        )
                        &&& final(self).graph.state@[i].consensus_order == order_val(
                            mid_state(s, st_fame),
                            final(self).graph.hashes@,
                            i,
                        )
                    }
            }),
    {
        let ghost nd0 = *old(self);
        let ghost batch0 = batch@;
        let (left1, n1) = self.fold_batch(batch);
        let ghost nd1 = *self;
        let ghost left1v = left1@;
        let rc = self.create_event(peer_head, Vec::new(), now);
        let ghost nd2 = *self;
        let (left2, n2) = self.fold_batch(left1);
        let ghost nd3 = *self;
        let l3 = self.graph.skel.len();
        proof {
            assert(n1 + n2 <= l3);
        }
        let r: usize = n1 + n2;
        self.graph.decide_fame();
        let ghost nd4 = *self;
        self.graph.update_order();
        proof {
            let s = self.graph.skel@;
            let m = self.graph.peers.members@;
            let h = self.graph.hashes@;
            // the two passes change neither skeleton nor hashes nor events
            assert(s == nd3.graph.skel@);
            assert(h == nd3.graph.hashes@);
            // extension chains
            assert(store_extends(nd1.graph.skel@, nd1.graph.hashes@, nd2.graph.skel@, nd2.graph.hashes@)) by {
                if rc is Err {
                    assert(nd2.graph == nd1.graph);
                }
            }
            assert(store_extends(nd1.graph.skel@, nd1.graph.hashes@, s, h)) by {
                assert(store_extends(nd2.graph.skel@, nd2.graph.hashes@, nd3.graph.skel@, nd3.graph.hashes@));
            }
            // saturation
            assert forall|k: int| 0 <= k < batch0.len() implies insert_outcome(
                s,
                m,
                h,
                #[trigger] batch0[k],
            ) is Err by {
                if insert_blocked(nd1.graph.skel@, m, nd1.graph.hashes@, batch0[k]) {
                    lemma_blocked_extends(nd1.graph.skel@, nd1.graph.hashes@, s, h, m, batch0[k]);
                } else {
                    let j = choose|j: int|
                        0 <= j < left1v.len() && events_alike(#[trigger] left1v[j], batch0[k]);
                    if insert_blocked(nd3.graph.skel@, m, nd3.graph.hashes@, left1v[j]) {
                        lemma_outcome_alike(s, m, h, left1v[j], batch0[k]);
                    } else {
                        let j2 = choose|j2: int|
                            0 <= j2 < left2@.len() && events_alike(#[trigger] left2@[j2], left1v[j]);
                        lemma_alike_trans(left2@[j2], left1v[j], batch0[k]);
                        lemma_outcome_alike(s, m, h, left2@[j2], batch0[k]);
                    }
                }
            }
            // the own event, when one was appended
            if rc is Ok {
                assert(is_own_event(nd1, peer_head, Seq::<u8>::empty(), now, nd2.graph.events@[nd1.graph.skel@.len() as int]));
                assert(is_own_event(*old(self), peer_head, Seq::<u8>::empty(), now, self.graph.events@[nd1.graph.skel@.len() as int]));
            }
            // the consensus state is one fame pass and one ordering pass over
            // the final store
            let thr = self.graph.thr();
            let st0 = nd0.graph.state@;
            let st_pre = nd3.graph.state@;
            let stf = fame_base(s, m, thr, st0);
            assert forall|i: int| 0 <= i < st_pre.len() implies st_pre[i]
                == (if 0 <= i < st0.len() {
                st0[i]
            } else {
                crate::graph::empty_cstate()
            }) by {
                if i < st0.len() {
                    assert(nd1.graph.state@[i] == st0[i]);
                    assert(nd2.graph.state@[i] == nd1.graph.state@[i]) by {
                        if rc is Err {
                            assert(nd2.graph == nd1.graph);
                        }
                    }
                } else if i < nd1.graph.state@.len() {
                    assert(nd1.graph.state@[i] == crate::graph::empty_cstate());
                    assert(nd2.graph.state@[i] == nd1.graph.state@[i]) by {
                        if rc is Err {
                            assert(nd2.graph == nd1.graph);
                        }
                    }
                } else if i < nd2.graph.state@.len() {
                    assert(nd2.graph.state@[i] == crate::graph::empty_cstate()) by {
                        if rc is Err {
                            assert(nd2.graph == nd1.graph);
                        }
                    }
                } else {
                    assert(nd3.graph.state@[i] == crate::graph::empty_cstate());
                }
            }
            assert(nd4.graph.state@ =~= stf) by {
                assert forall|i: int| 0 <= i < nd4.graph.state@.len() implies nd4.graph.state@[i]
                    == stf[i] by {
                    assert(st_pre[i] == (if 0 <= i < st0.len() {
                        st0[i]
                    } else {
                        crate::graph::empty_cstate()
                    }));
                }
            }
            assert forall|i: int| 0 <= i < s.len() implies {
                &&& (#[trigger] self.graph.state@[i]).fame == stf[i].fame
                &&& self.graph.state@[i].received_round == recv_val(s, stf, i)
                &&& self.graph.state@[i].consensus_timestamp == ts_val(s, stf, i)
                &&& self.graph.state@[i].consensus_order == order_val(
                    mid_state(s, stf),
                    h,
                    i,
                )
            } by {
                assert(self.graph.state@[i].fame == nd4.graph.state@[i].fame);
            }
        }
        r
    }
}

/// One fame pass over a store whose first entries carry `st0` and whose
/// later entries are fresh: verdicts already made are kept, everything else
/// gets its election result, and the ordering fields are untouched.
pub open spec fn fame_base(
    s: Seq<Skel>,
    m: Seq<crate::peers::PeerInfo>,
    thr: int,
    st0: Seq<CState>,
) -> Seq<CState> {
    Seq::new(
        s.len(),
        |i: int|
            CState {
                fame: if 0 <= i < st0.len() && st0[i].fame is Some {
                    st0[i].fame
                } else {
                    fame_spec(s, m, thr, i)
                },
                received_round: if 0 <= i < st0.len() {
                    st0[i].received_round
                } else {
                    Option::None
                },
                consensus_timestamp: if 0 <= i < st0.len() {
                    st0[i].consensus_timestamp
                } else {
                    Option::None
                },
                consensus_order: if 0 <= i < st0.len() {
                    st0[i].consensus_order
                } else {
                    Option::None
                },
            },
    )
}

} // verus!
