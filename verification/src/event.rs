//! The event data model: the immutable, content-addressed vertex of the
//! gossip graph, and its canonical byte encoding. The canonical encoding
//! determines both the bytes that are signed (everything but the signature)
//! and the bytes that are hashed to form the event's identifier.

use vstd::prelude::*;
use crate::crypto::sha256_of;
use crate::crypto::sha256;

verus! {

/// The stable identity of a participant (its public key bytes).
pub type PeerId = Vec<u8>;

/// The content address of an event: the SHA-256 digest of its canonical
/// serialization.
pub struct EventHash {
    pub bytes: Vec<u8>,
}

impl View for EventHash {
    type V = Seq<u8>;

    open spec fn view(&self) -> Seq<u8> {
        self.bytes@
    }
}

impl EventHash {
    pub fn clone_hash(&self) -> (r: EventHash)
        ensures
            r@ == self@,
    {
        EventHash { bytes: copy_bytes(&self.bytes) }
    }
}

/// A signed, immutable vertex of the gossip graph.
pub struct Event {
    pub creator: PeerId,
    pub self_parent: Option<EventHash>,
    pub other_parent: Option<EventHash>,
    pub timestamp: u64,
    pub payload: Vec<u8>,
    pub signature: Vec<u8>,
}

/// Little-endian encoding of a 64-bit length or timestamp.
#[verifier::opaque]
pub open spec fn u64_le(x: u64) -> Seq<u8> {
    seq![
        (x % 256) as u8,
        ((x / 256) % 256) as u8,
        ((x / 65536) % 256) as u8,
        ((x / 16777216) % 256) as u8,
        ((x / 4294967296) % 256) as u8,
        ((x / 1099511627776) % 256) as u8,
        ((x / 281474976710656) % 256) as u8,
        ((x / 72057594037927936) % 256) as u8,
    ]
}

/// Encoding of an optional parent reference: a presence tag, then the
/// length-prefixed hash bytes.
#[verifier::opaque]
pub open spec fn opt_hash_bytes(h: Option<EventHash>) -> Seq<u8> {
    match h {
        Option::None => seq![0u8],
        Option::Some(eh) => seq![1u8] + u64_le(eh@.len() as u64) + eh@,
    }
}

/// The canonical bytes that an event's creator signs: every field except the
/// signature, each variable-length field length-prefixed.
#[verifier::opaque]
pub open spec fn event_signing_bytes(e: Event) -> Seq<u8> {
    u64_le(e.creator@.len() as u64) + e.creator@
        + opt_hash_bytes(e.self_parent)
        + opt_hash_bytes(e.other_parent)
        + u64_le(e.timestamp)
        + u64_le(e.payload@.len() as u64) + e.payload@
}

/// The full canonical serialization of an event: the signed bytes followed by
/// the length-prefixed signature.
#[verifier::opaque]
pub open spec fn event_bytes(e: Event) -> Seq<u8> {
    event_signing_bytes(e) + u64_le(e.signature@.len() as u64) + e.signature@
}

/// The content address of an event.
pub open spec fn hash_of_event(e: Event) -> Seq<u8> {
    sha256_of(event_bytes(e))
}

/// The deterministic coin bit of an event, read from its signature: the low
/// bit of the first signature byte (true when the signature is empty).
pub open spec fn coin_of(sig: Seq<u8>) -> bool {
    if sig.len() == 0 {
        true
    } else {
        sig[0] % 2 == 1
    }
}

pub fn copy_bytes(v: &Vec<u8>) -> (r: Vec<u8>)
    ensures
        r@ == v@,
{
    let mut out: Vec<u8> = Vec::new();
    let mut i: usize = 0;
    while i < v.len()
        invariant
            i <= v.len(),
            out@ == v@.subrange(0, i as int),
        decreases v.len() - i,
    {
        out.push(v[i]);
        assert(out@ == v@.subrange(0, i + 1 as int));
        i = i + 1;
    }
    assert(v@.subrange(0, v@.len() as int) == v@);
    out
}

fn append_bytes(out: &mut Vec<u8>, src: &Vec<u8>)
    ensures
        final(out)@ == old(out)@ + src@,
{
    let mut i: usize = 0;
    while i < src.len()
        invariant
            i <= src.len(),
            out@ == old(out)@ + src@.subrange(0, i as int),
        decreases src.len() - i,
    {
        out.push(src[i]);
        assert(out@ == old(out)@ + src@.subrange(0, i + 1 as int));
        i = i + 1;
    }
    assert(src@.subrange(0, src@.len() as int) == src@);
}

fn append_u64(out: &mut Vec<u8>, x: u64)
    ensures
        final(out)@ == old(out)@ + u64_le(x),
{
    out.push((x % 256) as u8);
    out.push(((x / 256) % 256) as u8);
    out.push(((x / 65536) % 256) as u8);
    out.push(((x / 16777216) % 256) as u8);
    out.push(((x / 4294967296) % 256) as u8);
    out.push(((x / 1099511627776) % 256) as u8);
    out.push(((x / 281474976710656) % 256) as u8);
    out.push(((x / 72057594037927936) % 256) as u8);
    proof {
        reveal(u64_le);
    }
    assert(out@ == old(out)@ + u64_le(x));
}

fn append_opt_hash(out: &mut Vec<u8>, h: &Option<EventHash>)
    ensures
        final(out)@ == old(out)@ + opt_hash_bytes(*h),
{
    proof {
        reveal(opt_hash_bytes);
    }
    match h {
        Option::None => {
            out.push(0u8);
        }
        Option::Some(eh) => {
            out.push(1u8);
            append_u64(out, eh.bytes.len() as u64);
            append_bytes(out, &eh.bytes);
        }
    }
}

/// The canonical bytes that are signed, as executable code.
pub fn signing_bytes(e: &Event) -> (r: Vec<u8>)
    ensures
        r@ == event_signing_bytes(*e),
{
    proof {
        reveal(event_signing_bytes);
    }
    let mut out: Vec<u8> = Vec::new();
    append_u64(&mut out, e.creator.len() as u64);
    append_bytes(&mut out, &e.creator);
    append_opt_hash(&mut out, &e.self_parent);
    append_opt_hash(&mut out, &e.other_parent);
    append_u64(&mut out, e.timestamp);
    append_u64(&mut out, e.payload.len() as u64);
    append_bytes(&mut out, &e.payload);
    out
}

/// The full canonical serialization, as executable code.
pub fn canonical_bytes(e: &Event) -> (r: Vec<u8>)
    ensures
        r@ == event_bytes(*e),
{
    proof {
        reveal(event_bytes);
    }
    let mut out = signing_bytes(e);
    append_u64(&mut out, e.signature.len() as u64);
    append_bytes(&mut out, &e.signature);
    out
}

/// The content address of an event, as executable code.
pub fn compute_hash(e: &Event) -> (r: EventHash)
    ensures
        r@ == hash_of_event(*e),
        r@.len() == 32,
{
    let bytes = canonical_bytes(e);
    EventHash { bytes: sha256(&bytes) }
}

pub fn hash_eq(a: &Vec<u8>, b: &Vec<u8>) -> (r: bool)
    ensures
        r == (a@ == b@),
{
    if a.len() != b.len() {
        return false;
    }
    let mut i: usize = 0;
    while i < a.len()
        invariant
            i <= a.len(),
            a@.len() == b@.len(),
            forall|k: int| 0 <= k < i ==> a@[k] == b@[k],
        decreases a.len() - i,
    {
        if a[i] != b[i] {
            return false;
        }
        i = i + 1;
    }
    proof {
        assert(a@ =~= b@);
    }
    true
}

pub fn copy_event(e: &Event) -> (r: Event)
    ensures
        r.creator@ == e.creator@,
        r.self_parent is Some <==> e.self_parent is Some,
        r.self_parent is Some ==> r.self_parent->0@ == e.self_parent->0@,
        r.other_parent is Some <==> e.other_parent is Some,
        r.other_parent is Some ==> r.other_parent->0@ == e.other_parent->0@,
        r.timestamp == e.timestamp,
        r.payload@ == e.payload@,
        r.signature@ == e.signature@,
        event_bytes(r) == event_bytes(*e),
{
    let sp = match &e.self_parent {
        Option::None => Option::None,
        Option::Some(h) => Option::Some(h.clone_hash()),
    };
    let op = match &e.other_parent {
        Option::None => Option::None,
        Option::Some(h) => Option::Some(h.clone_hash()),
    };
    let r = Event {
        creator: copy_bytes(&e.creator),
        self_parent: sp,
        other_parent: op,
        timestamp: e.timestamp,
        payload: copy_bytes(&e.payload),
        signature: copy_bytes(&e.signature),
    };
    proof {
        reveal(event_signing_bytes);
        reveal(event_bytes);
        reveal(opt_hash_bytes);
        assert(event_signing_bytes(r) == event_signing_bytes(*e));
    }
    r
}

} // verus!
