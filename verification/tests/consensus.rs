use lachesis::crypto::{ed25519_public_key, ed25519_sign};
use lachesis::event::{compute_hash, Event, EventHash};
use lachesis::graph::{GraphError, Hashgraph};
use lachesis::peers::{PeerInfo, PeerSet};

fn seed(b: u8) -> Vec<u8> {
    vec![b; 32]
}

fn peer_set(seeds: &[Vec<u8>]) -> PeerSet {
    let members: Vec<PeerInfo> = seeds
        .iter()
        .map(|s| {
            let pk = ed25519_public_key(s).unwrap();
            PeerInfo { id: pk.clone(), public_key: pk, weight: 1 }
        })
        .collect();
    PeerSet::new(members).unwrap()
}

fn signed_event(
    creator_seed: &Vec<u8>,
    sp: Option<&EventHash>,
    op: Option<&EventHash>,
    ts: u64,
) -> Event {
    let pk = ed25519_public_key(creator_seed).unwrap();
    let mut e = Event {
        creator: pk,
        self_parent: sp.map(|h| EventHash { bytes: h.bytes.clone() }),
        other_parent: op.map(|h| EventHash { bytes: h.bytes.clone() }),
        timestamp: ts,
        payload: Vec::new(),
        signature: Vec::new(),
    };
    let msg = lachesis::event::signing_bytes(&e);
    e.signature = ed25519_sign(creator_seed, &msg).unwrap();
    e
}

/// Builds the four-peer scenario: four genesis events, then chain gossip in
/// creator order 1,2,3,0,1,2,3,0,... for `turns` turns.
fn build_scenario(turns: usize) -> Hashgraph {
    let seeds = [seed(10), seed(20), seed(30), seed(40)];
    let ps = peer_set(&seeds);
    let mut g = Hashgraph::new(ps);
    let mut heads: Vec<EventHash> = Vec::new();
    let mut ts: u64 = 0;
    for s in seeds.iter() {
        let e = signed_event(s, None, None, ts);
        ts += 1;
        let h = compute_hash(&e);
        assert!(g.insert(e).is_ok());
        heads.push(h);
    }
    let mut last = EventHash { bytes: heads[0].bytes.clone() };
    let mut c = 1usize;
    for _ in 0..turns {
        let e = signed_event(&seeds[c], Some(&heads[c]), Some(&last), ts);
        ts += 1;
        let h = compute_hash(&e);
        assert!(g.insert(e).is_ok());
        heads[c] = EventHash { bytes: h.bytes.clone() };
        last = h;
        c = (c + 1) % 4;
    }
    g
}

#[test]
fn genesis_events_are_round_zero_witnesses() {
    let g = build_scenario(0);
    for i in 0..4 {
        assert_eq!(g.skel[i].round, 0);
        assert!(g.skel[i].is_witness);
    }
}

#[test]
fn first_gossip_event_stays_in_round_zero() {
    let g = build_scenario(1);
    assert_eq!(g.skel[4].round, 0);
    assert!(!g.skel[4].is_witness);
}

#[test]
fn four_peer_scenario_decides_round_zero() {
    // 20 gossip turns: five full cycles, enough for round-3 witnesses.
    let mut g = build_scenario(20);
    let max_round = g.skel.iter().map(|s| s.round).max().unwrap();
    assert!(max_round >= 3, "max round was {}", max_round);

    // a round-1 witness exists and got there by strongly seeing a
    // supermajority of round-0 witnesses
    assert!(g.skel.iter().any(|s| s.round == 1 && s.is_witness));

    g.decide_fame();
    g.update_order();

    // every round-0 witness is decided famous
    for i in 0..4 {
        assert_eq!(g.state[i].fame, Some(true), "genesis {} fame", i);
    }
    // every round-1 witness carries a verdict
    for i in 0..g.len() {
        if g.skel[i].is_witness && g.skel[i].round == 1 {
            assert!(g.state[i].fame.is_some(), "round-1 witness {} undecided", i);
        }
    }
    // the genesis events are received at round 1, with a timestamp and a
    // consensus order
    for i in 0..4 {
        assert_eq!(g.state[i].received_round, Some(1), "genesis {} received", i);
        assert!(g.state[i].consensus_timestamp.is_some());
        assert!(g.state[i].consensus_order.is_some());
    }
    // the finalized orders form a strict total order: all distinct
    let mut orders: Vec<u64> = (0..g.len())
        .filter(|&i| g.state[i].received_round.is_some())
        .map(|i| g.state[i].consensus_order.unwrap())
        .collect();
    let n_final = orders.len();
    assert!(n_final >= 4);
    orders.sort();
    orders.dedup();
    assert_eq!(orders.len(), n_final, "consensus orders collide");
}

#[test]
fn fame_is_monotonic_under_repeated_decision() {
    let mut g = build_scenario(20);
    g.decide_fame();
    let before: Vec<Option<bool>> = (0..g.len()).map(|i| g.state[i].fame).collect();
    g.decide_fame();
    g.decide_fame();
    let after: Vec<Option<bool>> = (0..g.len()).map(|i| g.state[i].fame).collect();
    for i in 0..g.len() {
        if before[i].is_some() {
            assert_eq!(before[i], after[i], "fame of {} changed", i);
        }
    }
}

#[test]
fn repeated_ordering_is_idempotent() {
    let mut g = build_scenario(20);
    g.decide_fame();
    g.update_order();
    let snap: Vec<_> = (0..g.len())
        .map(|i| (g.state[i].received_round, g.state[i].consensus_timestamp, g.state[i].consensus_order))
        .collect();
    g.update_order();
    for i in 0..g.len() {
        assert_eq!(
            snap[i],
            (g.state[i].received_round, g.state[i].consensus_timestamp, g.state[i].consensus_order)
        );
    }
}

#[test]
fn duplicate_insertion_is_a_no_op() {
    let mut g = build_scenario(4);
    let len_before = g.len();
    let e = lachesis::event::copy_event(g.get(2));
    let r = g.insert(e);
    assert_eq!(r, Err(GraphError::DuplicateEvent));
    assert_eq!(g.len(), len_before);
    for i in 0..g.len() {
        assert_eq!(g.state[i].fame, None);
    }
    // derived state unchanged after the second insertion
    let rounds: Vec<u64> = (0..g.len()).map(|i| g.skel[i].round).collect();
    let e2 = lachesis::event::copy_event(g.get(2));
    let _ = g.insert(e2);
    let rounds2: Vec<u64> = (0..g.len()).map(|i| g.skel[i].round).collect();
    assert_eq!(rounds, rounds2);
}

#[test]
fn unknown_parent_is_rejected() {
    let mut g = build_scenario(0);
    let ghost_hash = EventHash { bytes: vec![7u8; 32] };
    let e = signed_event(&seed(10), Some(&ghost_hash), None, 99);
    assert_eq!(g.insert(e), Err(GraphError::UnknownParent));
}

#[test]
fn bad_signature_is_rejected() {
    let mut g = build_scenario(0);
    let h0 = EventHash { bytes: g.hashes[0].bytes.clone() };
    let mut e = signed_event(&seed(10), Some(&h0), None, 99);
    e.signature[0] ^= 1;
    assert_eq!(g.insert(e), Err(GraphError::InvalidSignature));
}

#[test]
fn unknown_creator_is_rejected() {
    let mut g = build_scenario(0);
    let e = signed_event(&seed(99), None, None, 99);
    assert_eq!(g.insert(e), Err(GraphError::InvalidSignature));
}

#[test]
fn foreign_self_parent_is_rejected() {
    let mut g = build_scenario(0);
    // creator 1 names creator 0's genesis as its self-parent
    let h0 = EventHash { bytes: g.hashes[0].bytes.clone() };
    let e = signed_event(&seed(20), Some(&h0), None, 99);
    assert_eq!(g.insert(e), Err(GraphError::InvalidSelfParent));
}

#[test]
fn independent_stores_converge() {
    // the same events, inserted in two different topological orders, get
    // identical rounds, witness flags and fame verdicts, event by event
    let mut g1 = build_scenario(12);
    let events: Vec<Event> = (0..g1.len())
        .map(|i| lachesis::event::copy_event(g1.get(i)))
        .collect();
    let seeds = [seed(10), seed(20), seed(30), seed(40)];
    let mut g2 = Hashgraph::new(peer_set(&seeds));
    // genesis events in reverse, then the rest in order
    for i in (0..4).rev() {
        assert!(g2.insert(lachesis::event::copy_event(&events[i])).is_ok());
    }
    for i in 4..events.len() {
        assert!(g2.insert(lachesis::event::copy_event(&events[i])).is_ok());
    }
    g1.decide_fame();
    g2.decide_fame();
    for i in 0..g1.len() {
        let h = &g1.hashes[i];
        let j = g2.lookup(&h.bytes).expect("event missing in the second store");
        assert_eq!(g1.skel[i].round, g2.skel[j].round);
        assert_eq!(g1.skel[i].is_witness, g2.skel[j].is_witness);
        assert_eq!(g1.state[i].fame, g2.state[j].fame);
    }
}

#[test]
fn constant_timestamps_give_that_median() {
    // when every event carries the same timestamp, the median of the famous
    // witnesses' first-seeing timestamps can only be that timestamp
    let seeds = [seed(10), seed(20), seed(30), seed(40)];
    let mut g = Hashgraph::new(peer_set(&seeds));
    let mut heads: Vec<EventHash> = Vec::new();
    for s in seeds.iter() {
        let e = signed_event(s, None, None, 77);
        let h = compute_hash(&e);
        assert!(g.insert(e).is_ok());
        heads.push(h);
    }
    let mut last = EventHash { bytes: heads[0].bytes.clone() };
    let mut c = 1usize;
    for turn in 0..20 {
        // vary the payload via the timestamp? keep ts constant; events still
        // differ through their parents
        let _ = turn;
        let e = signed_event(&seeds[c], Some(&heads[c]), Some(&last), 77);
        let h = compute_hash(&e);
        assert!(g.insert(e).is_ok());
        heads[c] = EventHash { bytes: h.bytes.clone() };
        last = h;
        c = (c + 1) % 4;
    }
    g.decide_fame();
    g.update_order();
    for i in 0..4 {
        assert_eq!(g.state[i].consensus_timestamp, Some(77));
    }
}

#[test]
fn sync_step_applies_the_valid_remainder() {
    // a pulled batch holding one good event, one with a bad signature and one
    // with an unknown parent: the good one lands, the bad ones never do, and
    // the node keeps going
    let seeds = [seed(1), seed(2)];
    let mut a = lachesis::node::Node::new(seed(1), peer_set(&seeds), 0).unwrap();
    let b = lachesis::node::Node::new(seed(2), peer_set(&seeds), 0).unwrap();
    let (b_head, b_events) = b.respond_sync();
    let good = lachesis::event::copy_event(&b_events[0]);
    let mut bad_sig = lachesis::event::copy_event(&b_events[0]);
    bad_sig.timestamp = 5;
    let msg = lachesis::event::signing_bytes(&bad_sig);
    bad_sig.signature = ed25519_sign(&seed(2), &msg).unwrap();
    bad_sig.signature[0] ^= 1;
    let ghost_parent = EventHash { bytes: vec![9u8; 32] };
    let dangling = signed_event(&seed(2), Some(&ghost_parent), None, 7);
    let before = a.graph.len();
    let inserted = a.sync_step(b_head, vec![good, bad_sig, dangling], 1);
    assert_eq!(inserted, 1);
    // the good event and a's own gossip event were appended, nothing else
    assert_eq!(a.graph.len(), before + 2);
    let (rounds, _) = a.get_stats();
    assert!(rounds >= 1);
}
