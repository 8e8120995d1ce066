//! The protocol's global guarantees, stated and proved over any well-formed
//! store: the graph is acyclic, rounds never decrease along parent links, an
//! unforked creator contributes at most one witness per round, and every
//! derived assignment is a pure function of the stored events.

use vstd::prelude::*;
use crate::graph::Hashgraph;
use crate::graph::ancestor;
use crate::graph::anc_oe;
use crate::graph::self_anc_oe;
use crate::graph::lemma_anc_le;
use crate::graph::skel_at_ok;
use crate::graph::round_ok_at;
use crate::graph::round_base;
use crate::graph::same_structure;
use crate::graph::lemma_wwt_top;
use crate::graph::hash_index_of;
use crate::graph::lemma_hash_index_of;
use crate::graph::insert_outcome;
use crate::graph::GraphError;
use crate::event::Event;
use crate::event::hash_of_event;
use crate::event::event_bytes;
use crate::event::event_signing_bytes;
use crate::event::opt_hash_bytes;
use crate::fame::fame_spec;

verus! {

/// Acyclicity: no event is its own ancestor, and ancestry has no cycles at
/// all — two events on a mutual ancestor path are the same event.
pub proof fn lemma_acyclic(g: Hashgraph, x: int, y: int)
    ensures
        !ancestor(g.skel@, x, x),
        anc_oe(g.skel@, x, y) && anc_oe(g.skel@, y, x) ==> x == y,
{
    lemma_anc_le(g.skel@, x, y);
    lemma_anc_le(g.skel@, y, x);
}

/// Round monotonicity: an event's round is at least each of its parents'.
pub proof fn lemma_round_monotone(g: Hashgraph, i: int)
    requires
        g.wf(),
        0 <= i < g.skel@.len(),
    ensures
        match g.skel@[i].self_parent {
            Option::Some(p) => g.skel@[p as int].round <= g.skel@[i].round,
            Option::None => true,
        },
        match g.skel@[i].other_parent {
            Option::Some(p) => g.skel@[p as int].round <= g.skel@[i].round,
            Option::None => true,
        },
{
    assert(round_ok_at(g.skel@, g.peers.members@, g.thr(), i));
    assert(g.skel@[i].round >= round_base(g.skel@, i));
}

/// Rounds never decrease along a self-ancestor chain.
pub proof fn lemma_self_chain_round(g: Hashgraph, a: int, b: int)
    requires
        g.wf(),
        0 <= a < g.skel@.len(),
        self_anc_oe(g.skel@, a, b),
    ensures
        g.skel@[b].round <= g.skel@[a].round,
    decreases a,
{
    if a != b {
        assert(skel_at_ok(g.skel@, a));
        match g.skel@[a].self_parent {
            Option::Some(p) => {
                lemma_round_monotone(g, a);
                lemma_self_chain_round(g, p as int, b);
            }
            Option::None => {}
        }
    }
}

/// Creator `c` never forked in this store: any two of its events lie on one
/// self-parent chain.
pub open spec fn no_fork_by(g: Hashgraph, c: int) -> bool {
    forall|i: int, j: int|
        0 <= i < g.skel@.len() && 0 <= j < g.skel@.len() && (#[trigger] g.skel@[i]).creator == c
            && (#[trigger] g.skel@[j]).creator == c ==> self_anc_oe(g.skel@, i, j) || self_anc_oe(
            g.skel@,
            j,
            i,
        )
}

proof fn lemma_witness_unique_ordered(g: Hashgraph, c: int, i: int, j: int)
    requires
        g.wf(),
        no_fork_by(g, c),
        0 <= i < j < g.skel@.len(),
        g.skel@[i].creator == c,
        g.skel@[j].creator == c,
        g.skel@[i].is_witness,
        g.skel@[j].is_witness,
    ensures
        g.skel@[i].round != g.skel@[j].round,
{
    let s = g.skel@;
    if s[i].round == s[j].round {
        lemma_anc_le(s, i, j);
        assert(self_anc_oe(s, j, i));
        assert(round_ok_at(s, g.peers.members@, g.thr(), j));
        match s[j].self_parent {
            Option::Some(p) => {
                assert(s[j].round > s[p as int].round);
                assert(self_anc_oe(s, p as int, i));
                lemma_self_chain_round(g, p as int, i);
                assert(false);
            }
            Option::None => {
                assert(false);
            }
        }
    }
}

/// Witness identity: a creator that has not forked contributes at most one
/// witness to any round.
pub proof fn lemma_witness_unique(g: Hashgraph, c: int, i: int, j: int)
    requires
        g.wf(),
        no_fork_by(g, c),
        0 <= i < g.skel@.len(),
        0 <= j < g.skel@.len(),
        i != j,
        g.skel@[i].creator == c,
        g.skel@[j].creator == c,
        g.skel@[i].is_witness,
        g.skel@[j].is_witness,
    ensures
        g.skel@[i].round != g.skel@[j].round,
{
    if i < j {
        lemma_witness_unique_ordered(g, c, i, j);
    } else {
        lemma_witness_unique_ordered(g, c, j, i);
    }
}

/// Two events that agree field by field.
pub open spec fn events_alike(a: Event, b: Event) -> bool {
    &&& a.creator@ == b.creator@
    &&& (match (a.self_parent, b.self_parent) {
        (Option::Some(x), Option::Some(y)) => x@ == y@,
        (Option::None, Option::None) => true,
        _ => false,
    })
    &&& (match (a.other_parent, b.other_parent) {
        (Option::Some(x), Option::Some(y)) => x@ == y@,
        (Option::None, Option::None) => true,
        _ => false,
    })
    &&& a.timestamp == b.timestamp
    &&& a.payload@ == b.payload@
    &&& a.signature@ == b.signature@
}

pub proof fn lemma_alike_bytes(a: Event, b: Event)
    requires
        events_alike(a, b),
    ensures
        event_bytes(a) == event_bytes(b),
        event_signing_bytes(a) == event_signing_bytes(b),
{
    reveal(event_bytes);
    reveal(event_signing_bytes);
    reveal(opt_hash_bytes);
}

proof fn lemma_rounds_agree(g1: Hashgraph, g2: Hashgraph, k: int)
    requires
        g1.wf(),
        g2.wf(),
        g1.peers.members@ == g2.peers.members@,
        g1.thr() == g2.thr(),
        same_structure(g1.skel@, g2.skel@),
        0 <= k <= g1.skel@.len(),
    ensures
        forall|i: int|
            0 <= i < k ==> (#[trigger] g1.skel@[i]).round == g2.skel@[i].round
                && g1.skel@[i].is_witness == g2.skel@[i].is_witness,
    decreases k,
{
    if k > 0 {
        let s1 = g1.skel@;
        let s2 = g2.skel@;
        let m = g1.peers.members@;
        let thr = g1.thr();
        let i = k - 1;
        lemma_rounds_agree(g1, g2, i);
        assert(round_ok_at(s1, m, thr, i));
        assert(round_ok_at(s2, m, thr, i));
        assert(skel_at_ok(s1, i));
        assert(skel_at_ok(s2, i));
        assert(round_base(s1, i) == round_base(s2, i));
        lemma_wwt_top(s1, s2, m, thr, i, round_base(s1, i), m.len() as int);
    }
}

/// Deterministic convergence: two well-formed stores over the same peer set,
/// holding field-by-field identical events in the same order, assign every
/// event the same round and witness flag, and their fame elections agree for
/// every witness. Every later derived value — received round, consensus
/// timestamp, consensus order — is a spec function of the skeleton, the fame
/// verdicts and the hashes alone, so it agrees as well.
pub proof fn lemma_deterministic_derivation(g1: Hashgraph, g2: Hashgraph)
    requires
        g1.wf(),
        g2.wf(),
        g1.peers.members@ == g2.peers.members@,
        g1.events@.len() == g2.events@.len(),
        forall|i: int|
            0 <= i < g1.events@.len() ==> events_alike(g1.events@[i], g2.events@[i]),
    ensures
        g1.thr() == g2.thr(),
        forall|i: int| 0 <= i < g1.skel@.len() ==> g1.skel@[i] == g2.skel@[i],
        forall|i: int| 0 <= i < g1.hashes@.len() ==> g1.hashes@[i]@ == g2.hashes@[i]@,
        forall|w: int|
            fame_spec(g1.skel@, g1.peers.members@, g1.thr(), w) == fame_spec(
                g2.skel@,
                g2.peers.members@,
                g2.thr(),
                w,
            ),
{
    let s1 = g1.skel@;
    let s2 = g2.skel@;
    let m = g1.peers.members@;
    let n = s1.len() as int;
    assert forall|i: int| 0 <= i < g1.hashes@.len() implies g1.hashes@[i]@ == g2.hashes@[i]@ by {
        assert(g1.entry_linked(i));
        assert(g2.entry_linked(i));
        lemma_alike_bytes(g1.events@[i], g2.events@[i]);
    }
    assert forall|i: int|
        0 <= i < n implies (#[trigger] s1[i]).creator == s2[i].creator && s1[i].self_parent
        == s2[i].self_parent && s1[i].other_parent == s2[i].other_parent && s1[i].timestamp
        == s2[i].timestamp && s1[i].coin == s2[i].coin by {
        assert(g1.entry_linked(i));
        assert(g2.entry_linked(i));
        assert(skel_at_ok(s1, i));
        assert(skel_at_ok(s2, i));
        let c1 = s1[i].creator as int;
        let c2 = s2[i].creator as int;
        assert(m[c1].id@ == g1.events@[i].creator@);
        assert(m[c2].id@ == g2.events@[i].creator@);
        if c1 != c2 {
            assert(m[c1].id@ != m[c2].id@);
            assert(false);
        }
        match (s1[i].self_parent, s2[i].self_parent) {
            (Option::Some(p1), Option::Some(p2)) => {
                assert(g1.hashes@[p1 as int]@ == g1.events@[i].self_parent->0@);
                assert(g2.hashes@[p2 as int]@ == g2.events@[i].self_parent->0@);
                if p1 != p2 {
                    assert(g1.hashes@[p1 as int]@ == g1.hashes@[p2 as int]@);
                    assert(false);
                }
            }
            (Option::None, Option::None) => {}
            (Option::Some(p1), Option::None) => {
                assert(false);
            }
            (Option::None, Option::Some(p2)) => {
                assert(false);
            }
        }
        match (s1[i].other_parent, s2[i].other_parent) {
            (Option::Some(p1), Option::Some(p2)) => {
                assert(g1.hashes@[p1 as int]@ == g1.events@[i].other_parent->0@);
                assert(g2.hashes@[p2 as int]@ == g2.events@[i].other_parent->0@);
                if p1 != p2 {
                    assert(g1.hashes@[p1 as int]@ == g1.hashes@[p2 as int]@);
                    assert(false);
                }
            }
            (Option::None, Option::None) => {}
            (Option::Some(p1), Option::None) => {
                assert(false);
            }
            (Option::None, Option::Some(p2)) => {
                assert(false);
            }
        }
    }
    assert(same_structure(s1, s2));
    lemma_rounds_agree(g1, g2, n);
    assert forall|i: int| 0 <= i < s1.len() implies s1[i] == s2[i] by {}
    assert(s1 =~= s2);
}

/// Idempotent insertion: an event whose hash the store already holds is
/// answered with `DuplicateEvent`, and `insert` then leaves the store
/// untouched.
pub proof fn lemma_reinsert_is_duplicate(g: Hashgraph, e: Event)
    requires
        exists|i: int| 0 <= i < g.hashes@.len() && (#[trigger] g.hashes@[i])@ == hash_of_event(e),
    ensures
        insert_outcome(g.skel@, g.peers.members@, g.hashes@, e) == Result::<
            (),
            GraphError,
        >::Err(GraphError::DuplicateEvent),
{
    lemma_hash_index_of(g.hashes@, hash_of_event(e));
    if hash_index_of(g.hashes@, hash_of_event(e)) < 0 {
        let i = choose|i: int|
            0 <= i < g.hashes@.len() && (#[trigger] g.hashes@[i])@ == hash_of_event(e);
        assert(false);
    }
}

} // verus!

verus! {

/// Two events that agree on every field but the signature have the same
/// signed bytes (the signature is not part of what is signed).
pub proof fn lemma_signing_alike(a: Event, b: Event)
    requires
        a.creator@ == b.creator@,
        match (a.self_parent, b.self_parent) {
            (Option::Some(x), Option::Some(y)) => x@ == y@,
            (Option::None, Option::None) => true,
            _ => false,
        },
        match (a.other_parent, b.other_parent) {
            (Option::Some(x), Option::Some(y)) => x@ == y@,
            (Option::None, Option::None) => true,
            _ => false,
        },
        a.timestamp == b.timestamp,
        a.payload@ == b.payload@,
    ensures
        event_signing_bytes(a) == event_signing_bytes(b),
{
    reveal(event_signing_bytes);
    reveal(opt_hash_bytes);
}

/// Insertion decides by field values alone: two field-by-field identical
/// events get the same outcome on any store.
pub proof fn lemma_outcome_alike(
    s: Seq<crate::graph::Skel>,
    m: Seq<crate::peers::PeerInfo>,
    hs: Seq<crate::event::EventHash>,
    a: Event,
    b: Event,
)
    requires
        events_alike(a, b),
    ensures
        insert_outcome(s, m, hs, a) == insert_outcome(s, m, hs, b),
{
    lemma_alike_bytes(a, b);
    match (a.self_parent, b.self_parent) {
        (Option::Some(x), Option::Some(y)) => {
            assert(x@ == y@);
        }
        _ => {}
    }
    match (a.other_parent, b.other_parent) {
        (Option::Some(x), Option::Some(y)) => {
            assert(x@ == y@);
        }
        _ => {}
    }
}

} // verus!

verus! {

pub proof fn lemma_alike_trans(a: Event, b: Event, c: Event)
    requires
        events_alike(a, b),
        events_alike(b, c),
    ensures
        events_alike(a, c),
{
}

} // verus!
