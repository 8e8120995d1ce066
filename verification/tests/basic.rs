use lachesis::crypto::{ed25519_public_key, ed25519_sign, ed25519_verify, generate_seed, random_below, sha256};
use lachesis::event::{compute_hash, hash_eq, signing_bytes, Event, EventHash};
use lachesis::graph::Hashgraph;
use lachesis::node::{select_peer, Node};
use lachesis::peers::{PeerInfo, PeerSet};
use lachesis::tcp_server::{TcpApp, TcpNode, TcpPeer};
use std::sync::Arc;

fn seed(b: u8) -> Vec<u8> {
    vec![b; 32]
}

fn peer_set(seeds: &[Vec<u8>]) -> PeerSet {
    let members: Vec<PeerInfo> = seeds
        .iter()
        .map(|s| {
            let pk = ed25519_public_key(s).unwrap();
            PeerInfo { id: pk.clone(), public_key: pk, weight: 1 }
        })
        .collect();
    PeerSet::new(members).unwrap()
}

#[test]
fn sha256_is_32_bytes_and_not_identity() {
    let data = vec![1u8, 2, 3];
    let d = sha256(&data);
    assert_eq!(d.len(), 32);
    assert_ne!(d, data);
    // deterministic
    assert_eq!(d, sha256(&vec![1u8, 2, 3]));
}

#[test]
fn ed25519_roundtrip() {
    let s = seed(7);
    let pk = ed25519_public_key(&s).unwrap();
    let msg = vec![42u8; 10];
    let sig = ed25519_sign(&s, &msg).unwrap();
    assert!(ed25519_verify(&pk, &msg, &sig));
    let other_pk = ed25519_public_key(&seed(8)).unwrap();
    assert!(!ed25519_verify(&other_pk, &msg, &sig));
    let mut bad = sig.clone();
    bad[0] ^= 1;
    assert!(!ed25519_verify(&pk, &msg, &bad));
}

#[test]
fn short_seed_is_rejected() {
    assert!(ed25519_sign(&vec![1u8; 31], &vec![0u8]).is_none());
    assert!(ed25519_public_key(&vec![1u8; 33]).is_none());
}

#[test]
fn generated_seed_is_32_bytes() {
    let s = generate_seed().unwrap();
    assert_eq!(s.len(), 32);
}

#[test]
fn random_below_is_in_range() {
    for _ in 0..50 {
        assert!(random_below(3) < 3);
    }
    assert_eq!(random_below(1), 0);
    assert!(select_peer(5) < 5);
}

#[test]
fn event_hash_differs_from_bytes() {
    let e = Event {
        creator: vec![1u8],
        self_parent: None,
        other_parent: None,
        timestamp: 5,
        payload: vec![9u8, 9],
        signature: vec![],
    };
    let h = compute_hash(&e);
    assert_eq!(h.bytes.len(), 32);
    assert_ne!(h.bytes, signing_bytes(&e));
    assert!(hash_eq(&h.bytes, &compute_hash(&e).bytes));
}

#[test]
fn peer_set_rejects_duplicate_ids() {
    let pk = ed25519_public_key(&seed(1)).unwrap();
    let members = vec![
        PeerInfo { id: pk.clone(), public_key: pk.clone(), weight: 1 },
        PeerInfo { id: pk.clone(), public_key: pk, weight: 1 },
    ];
    assert!(PeerSet::new(members).is_none());
}

#[test]
fn supermajority_is_two_thirds_plus_one() {
    let ps = peer_set(&[seed(1), seed(2), seed(3), seed(4)]);
    assert_eq!(ps.total_weight, 4);
    assert_eq!(ps.supermajority, 3);
}

#[test]
fn node_starts_with_genesis_head() {
    let s = seed(3);
    let ps = peer_set(&[seed(3), seed(4)]);
    let node = Node::new(s, ps, 100).unwrap();
    assert!(node.get_head().is_some());
    let (rounds, pending) = node.get_stats();
    assert_eq!(rounds, 1);
    assert_eq!(pending, 1);
    assert_eq!(node.get_id(), &ed25519_public_key(&seed(3)).unwrap());
}

#[test]
fn node_rejects_unknown_member() {
    let ps = peer_set(&[seed(1), seed(2)]);
    assert!(Node::new(seed(9), ps, 0).is_none());
}

#[test]
fn two_nodes_gossip() {
    let ps = peer_set(&[seed(1), seed(2)]);
    let mut a = Node::new(seed(1), ps, 0).unwrap();
    let b = Node::new(seed(2), peer_set(&[seed(1), seed(2)]), 0).unwrap();
    let (b_head, b_events) = b.respond_sync();
    let inserted = a.sync_step(b_head, b_events, 1);
    assert_eq!(inserted, 1);
    // a now holds its genesis, b's genesis, and its new gossip event
    assert_eq!(a.graph.len(), 3);
}

#[test]
fn tcp_shell_types() {
    let ps = peer_set(&[seed(5)]);
    let tn = TcpNode::new(seed(5), ps, String::from("127.0.0.1:9000"), 0).unwrap();
    assert_eq!(tn.address, "127.0.0.1:9000");
    let app = TcpApp::new(Arc::new(tn));
    assert!(app.0.node.get_head().is_some());
    let p = TcpPeer { address: String::from("127.0.0.1:9001"), id: vec![1, 2, 3] };
    assert_eq!(p.address(), "127.0.0.1:9001");
    assert_eq!(p.id(), &vec![1u8, 2, 3]);
    let q = p.clone();
    assert_eq!(q.address(), "127.0.0.1:9001");
}

#[test]
fn respond_sync_copies_all_events() {
    let ps = peer_set(&[seed(1)]);
    let node = Node::new(seed(1), ps, 7).unwrap();
    let (head, events) = node.respond_sync();
    assert!(head.is_some());
    assert_eq!(events.len(), 1);
    assert_eq!(events[0].timestamp, 7);
}

#[test]
fn lookup_finds_inserted_event() {
    let ps = peer_set(&[seed(1)]);
    let node = Node::new(seed(1), ps, 0).unwrap();
    let head: EventHash = node.get_head().unwrap();
    assert!(node.graph.lookup(&head.bytes).is_some());
    assert!(node.graph.lookup(&vec![0u8; 32]).is_none());
}

#[test]
fn hashgraph_new_is_empty() {
    let ps = peer_set(&[seed(1)]);
    let g = Hashgraph::new(ps);
    assert_eq!(g.len(), 0);
}
