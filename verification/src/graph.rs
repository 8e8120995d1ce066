//! The hashgraph store: an append-only, content-addressed arena of events
//! with their derived metadata, and the topological relations the protocol is
//! built on — ancestor, self-ancestor, sees (ancestry with no evidence of a
//! fork) and strongly-sees (ancestry corroborated by a supermajority of
//! creators' paths).
//!
//! Every relation is defined as a spec function over the index skeleton of
//! the store (parents always point to earlier indices, so all recursions are
//! well founded), and each executable query is proved to return exactly its
//! spec relation.

use vstd::prelude::*;
use crate::event::Event;
use crate::event::EventHash;
use crate::event::hash_of_event;
use crate::event::event_signing_bytes;
use crate::event::coin_of;
use crate::event::compute_hash;
use crate::event::hash_eq;
use crate::event::signing_bytes;
use crate::peers::PeerSet;
use crate::peers::PeerInfo;
use crate::peers::peer_index_of;
use crate::peers::lemma_peer_index_of;
use crate::peers::sum_weights;
use crate::peers::lemma_sum_weights_mono;
use crate::crypto::ed25519_verifies;
use crate::crypto::ed25519_verify;

verus! {

/// The index skeleton of one stored event: everything the topological
/// relations and the round computation read. Parent references are indices of
/// earlier entries; `coin` is the event's deterministic coin bit.
#[derive(Clone, Copy)]
pub struct Skel {
    pub creator: usize,
    pub self_parent: Option<usize>,
    pub other_parent: Option<usize>,
    pub timestamp: u64,
    pub coin: bool,
    pub round: u64,
    pub is_witness: bool,
}

/// The consensus state of one stored event; each field only ever moves from
/// unset to decided.
#[derive(Clone, Copy)]
pub struct CState {
    pub fame: Option<bool>,
    pub received_round: Option<u64>,
    pub consensus_timestamp: Option<u64>,
    pub consensus_order: Option<u64>,
}

/// Why an event was not inserted.
#[derive(Clone, Copy, Debug, PartialEq, Eq, Structural)]
pub enum GraphError {
    /// The event's hash is already present; insertion is an idempotent no-op.
    DuplicateEvent,
    /// A referenced parent hash is absent from the store.
    UnknownParent,
    /// The self-parent was created by a different peer.
    InvalidSelfParent,
    /// The creator is unknown or the signature does not verify.
    InvalidSignature,
}

/// The graph store: events indexed by position, addressed by hash, with the
/// index skeleton and the consensus state kept alongside.
pub struct Hashgraph {
    pub peers: PeerSet,
    pub events: Vec<Event>,
    pub hashes: Vec<EventHash>,
    pub skel: Vec<Skel>,
    pub state: Vec<CState>,
}

/// Parents always refer to strictly earlier entries, and a self-parent was
/// created by the same peer.
pub open spec fn parents_ok(s: Seq<Skel>) -> bool {
    forall|i: int|
        0 <= i < s.len() ==> #[trigger] skel_at_ok(s, i)
}

pub open spec fn skel_at_ok(s: Seq<Skel>, i: int) -> bool {
    &&& (match s[i].self_parent {
        Option::Some(p) => p < i && s[p as int].creator == s[i].creator,
        Option::None => true,
    })
    &&& (match s[i].other_parent {
        Option::Some(p) => p < i,
        Option::None => true,
    })
}

/// Creators are members of the peer set, and rounds never exceed the entry's
/// own index.
pub open spec fn skel_bounds(s: Seq<Skel>, m: Seq<PeerInfo>) -> bool {
    forall|i: int|
        0 <= i < s.len() ==> ((#[trigger] s[i]).creator < m.len() && s[i].round <= i)
}

/// What every relation query requires of the store.
pub open spec fn rel_wf(s: Seq<Skel>, m: Seq<PeerInfo>) -> bool {
    &&& parents_ok(s)
    &&& skel_bounds(s, m)
    &&& sum_weights(m, m.len() as int) <= u64::MAX / 2
}

/// `y` is an ancestor of `x`, or `x` itself: the reflexive-transitive closure
/// of the two parent links.
pub open spec fn anc_oe(s: Seq<Skel>, x: int, y: int) -> bool
    decreases x,
{
    x == y || (0 <= x < s.len() && ((match s[x].self_parent {
        Option::Some(p) => 0 <= p < x && anc_oe(s, p as int, y),
        Option::None => false,
    }) || (match s[x].other_parent {
        Option::Some(p) => 0 <= p < x && anc_oe(s, p as int, y),
        Option::None => false,
    })))
}

/// `y` is a strict ancestor of `x`: the transitive closure of the parent
/// links.
pub open spec fn ancestor(s: Seq<Skel>, x: int, y: int) -> bool {
    x != y && anc_oe(s, x, y)
}

/// `y` is `x` or is reachable from `x` through self-parent links alone.
pub open spec fn self_anc_oe(s: Seq<Skel>, x: int, y: int) -> bool
    decreases x,
{
    x == y || (0 <= x < s.len() && (match s[x].self_parent {
        Option::Some(p) => 0 <= p < x && self_anc_oe(s, p as int, y),
        Option::None => false,
    }))
}

/// Ancestry implies the ancestor has the smaller or equal index.
pub proof fn lemma_anc_le(s: Seq<Skel>, x: int, y: int)
    ensures
        anc_oe(s, x, y) ==> y <= x,
        self_anc_oe(s, x, y) ==> y <= x,
    decreases x,
{
    if x != y && 0 <= x < s.len() {
        match s[x].self_parent {
            Option::Some(p) => {
                if 0 <= p < x {
                    lemma_anc_le(s, p as int, y);
                }
            }
            Option::None => {}
        }
        match s[x].other_parent {
            Option::Some(p) => {
                if 0 <= p < x {
                    lemma_anc_le(s, p as int, y);
                }
            }
            Option::None => {}
        }
    }
}

/// Events `i` and `j` are evidence, visible from `x`, that their creator
/// forked at or after `y`: both are ancestors of `x`, both descend from (or
/// are) `y`, and neither is in the other's self-ancestor chain.
pub open spec fn fork_pair(s: Seq<Skel>, x: int, y: int, i: int, j: int) -> bool {
    &&& 0 <= i < s.len() && 0 <= j < s.len() && i != j
    &&& s[i].creator == s[j].creator
    &&& anc_oe(s, x, i) && anc_oe(s, x, j)
    &&& anc_oe(s, i, y) && anc_oe(s, j, y)
    &&& !self_anc_oe(s, i, j) && !self_anc_oe(s, j, i)
}

pub open spec fn has_fork(s: Seq<Skel>, x: int, y: int) -> bool {
    exists|i: int, j: int| fork_pair(s, x, y, i, j)
}

/// `x` sees `y`: `y` is a strict ancestor of `x` and `x`'s view holds no
/// evidence that `y`'s descendants fork.
pub open spec fn sees(s: Seq<Skel>, x: int, y: int) -> bool {
    ancestor(s, x, y) && !has_fork(s, x, y)
}

/// Creator `c` has an event in `x`'s past that sees `y`.
pub open spec fn sees_through(s: Seq<Skel>, x: int, y: int, c: int) -> bool {
    exists|z: int| 0 <= z < s.len() && #[trigger] s[z].creator == c && anc_oe(s, x, z)
        && sees(s, z, y)
}

/// The combined weight of the creators below `n` that have an event in `x`'s
/// past seeing `y`.
pub open spec fn ss_weight(s: Seq<Skel>, m: Seq<PeerInfo>, x: int, y: int, n: int) -> int
    decreases n,
{
    if n <= 0 {
        0
    } else {
        ss_weight(s, m, x, y, n - 1) + if sees_through(s, x, y, n - 1) {
            m[n - 1].weight as int
        } else {
            0
        }
    }
}

pub proof fn lemma_ss_weight_le(s: Seq<Skel>, m: Seq<PeerInfo>, x: int, y: int, n: int)
    ensures
        0 <= ss_weight(s, m, x, y, n) <= sum_weights(m, n),
    decreases n,
{
    if n > 0 {
        lemma_ss_weight_le(s, m, x, y, n - 1);
    }
}

/// `x` strongly sees `y`: `x` sees `y`, corroborated by events of a
/// supermajority-weight set of creators, each of which sees `y`.
pub open spec fn strongly_sees(
    s: Seq<Skel>,
    m: Seq<PeerInfo>,
    thr: int,
    x: int,
    y: int,
) -> bool {
    sees(s, x, y) && ss_weight(s, m, x, y, m.len() as int) >= thr
}

impl Hashgraph {
    pub open spec fn n(&self) -> int {
        self.skel@.len() as int
    }

    pub open spec fn thr(&self) -> int {
        self.peers.supermajority as int
    }

    /// Structural well-formedness of the store (the part the relation queries
    /// need).
    pub open spec fn rels_ok(&self) -> bool {
        rel_wf(self.skel@, self.peers.members@)
    }
}

fn anc_oe_x(s: &Vec<Skel>, x: usize, y: usize) -> (r: bool)
    requires
        parents_ok(s@),
        x < s@.len(),
    ensures
        r == anc_oe(s@, x as int, y as int),
    decreases x,
{
    if x == y {
        return true;
    }
    assert(skel_at_ok(s@, x as int));
    let e = s[x];
    match e.self_parent {
        Option::Some(p) => {
            if anc_oe_x(s, p, y) {
                return true;
            }
        }
        Option::None => {}
    }
    match e.other_parent {
        Option::Some(p) => anc_oe_x(s, p, y),
        Option::None => false,
    }
}

fn self_anc_oe_x(s: &Vec<Skel>, x: usize, y: usize) -> (r: bool)
    requires
        parents_ok(s@),
        x < s@.len(),
    ensures
        r == self_anc_oe(s@, x as int, y as int),
    decreases x,
{
    if x == y {
        return true;
    }
    assert(skel_at_ok(s@, x as int));
    let e = s[x];
    match e.self_parent {
        Option::Some(p) => self_anc_oe_x(s, p, y),
        Option::None => false,
    }
}

fn sees_x(s: &Vec<Skel>, x: usize, y: usize) -> (r: bool)
    requires
        parents_ok(s@),
        x < s@.len(),
        y < s@.len(),
    ensures
        r == sees(s@, x as int, y as int),
{
    if x == y {
        return false;
    }
    if !anc_oe_x(s, x, y) {
        return false;
    }
    let n = s.len();
    let mut i: usize = 0;
    while i < n
        invariant
            parents_ok(s@),
            x < s@.len(),
            y < s@.len(),
            n == s@.len(),
            i <= n,
            forall|a: int, b: int| 0 <= a < i && 0 <= b < n ==> !fork_pair(s@, x as int, y as int, a, b),
        decreases n - i,
    {
        let mut j: usize = 0;
        while j < n
            invariant
                parents_ok(s@),
                x < s@.len(),
                y < s@.len(),
                n == s@.len(),
                i < n,
                j <= n,
                forall|b: int| 0 <= b < j ==> !fork_pair(s@, x as int, y as int, i as int, b),
            decreases n - j,
        {
            if i != j && s[i].creator == s[j].creator {
                if anc_oe_x(s, x, i) && anc_oe_x(s, x, j) && anc_oe_x(s, i, y) && anc_oe_x(s, j, y)
                    && !self_anc_oe_x(s, i, j) && !self_anc_oe_x(s, j, i) {
                    assert(fork_pair(s@, x as int, y as int, i as int, j as int));
                    return false;
                }
            }
            j = j + 1;
        }
        i = i + 1;
    }
    assert forall|a: int, b: int| !fork_pair(s@, x as int, y as int, a, b) by {
        if 0 <= a < n && 0 <= b < n {
        } else {
        }
    }
    true
}

fn sees_through_x(s: &Vec<Skel>, x: usize, y: usize, c: usize) -> (r: bool)
    requires
        parents_ok(s@),
        x < s@.len(),
        y < s@.len(),
    ensures
        r == sees_through(s@, x as int, y as int, c as int),
{
    let n = s.len();
    let mut z: usize = 0;
    while z < n
        invariant
            parents_ok(s@),
            x < s@.len(),
            y < s@.len(),
            n == s@.len(),
            z <= n,
            forall|k: int| 0 <= k < z ==> !(s@[k].creator == c as int && anc_oe(s@, x as int, k)
                && sees(s@, k, y as int)),
        decreases n - z,
    {
        if s[z].creator == c {
            if anc_oe_x(s, x, z) {
                if sees_x(s, z, y) {
                    assert(s@[z as int].creator == c as int && anc_oe(s@, x as int, z as int)
                        && sees(s@, z as int, y as int));
                    return true;
                }
            }
        }
        z = z + 1;
    }
    false
}

fn ss_weight_x(g: &Hashgraph, x: usize, y: usize) -> (r: u64)
    requires
        g.rels_ok(),
        x < g.skel@.len(),
        y < g.skel@.len(),
    ensures
        r == ss_weight(g.skel@, g.peers.members@, x as int, y as int, g.peers.members@.len() as int),
{
    let n = g.peers.members.len();
    let mut acc: u64 = 0;
    let mut c: usize = 0;
    while c < n
        invariant
            g.rels_ok(),
            x < g.skel@.len(),
            y < g.skel@.len(),
            n == g.peers.members@.len(),
            c <= n,
            acc == ss_weight(g.skel@, g.peers.members@, x as int, y as int, c as int),
        decreases n - c,
    {
        proof {
            lemma_ss_weight_le(g.skel@, g.peers.members@, x as int, y as int, c as int + 1);
            lemma_sum_weights_mono(g.peers.members@, c as int + 1, n as int);
        }
        if sees_through_x(&g.skel, x, y, c) {
            acc = acc + g.peers.members[c].weight;
        }
        c = c + 1;
    }
    acc
}

impl Hashgraph {
    /// Whether event `y` is an ancestor of event `x` (strictly: an event is
    /// never its own ancestor).
    pub fn is_ancestor(&self, x: usize, y: usize) -> (r: bool)
        requires
            self.rels_ok(),
            x < self.skel@.len(),
            y < self.skel@.len(),
        ensures
            r == ancestor(self.skel@, x as int, y as int),
    {
        x != y && anc_oe_x(&self.skel, x, y)
    }

    /// Whether `x` sees `y`.
    pub fn can_see(&self, x: usize, y: usize) -> (r: bool)
        requires
            self.rels_ok(),
            x < self.skel@.len(),
            y < self.skel@.len(),
        ensures
            r == sees(self.skel@, x as int, y as int),
    {
        sees_x(&self.skel, x, y)
    }

    /// Whether `x` strongly sees `y`.
    pub fn can_strongly_see(&self, x: usize, y: usize) -> (r: bool)
        requires
            self.rels_ok(),
            x < self.skel@.len(),
            y < self.skel@.len(),
        ensures
            r == strongly_sees(
                self.skel@,
                self.peers.members@,
                self.thr(),
                x as int,
                y as int,
            ),
    {
        if !sees_x(&self.skel, x, y) {
            return false;
        }
        let w = ss_weight_x(self, x, y);
        w >= self.peers.supermajority
    }
}

} // verus!

verus! {

/// Creator `c` has a witness at round `r` that `x` strongly sees.
pub open spec fn witness_round_through(
    s: Seq<Skel>,
    m: Seq<PeerInfo>,
    thr: int,
    x: int,
    r: int,
    c: int,
) -> bool {
    exists|w: int| 0 <= w < s.len() && #[trigger] s[w].creator == c && s[w].is_witness
        && s[w].round == r && strongly_sees(s, m, thr, x, w)
}

/// The combined weight of the creators below `n` that have a round-`r`
/// witness strongly seen by `x`.
pub open spec fn wit_weight(
    s: Seq<Skel>,
    m: Seq<PeerInfo>,
    thr: int,
    x: int,
    r: int,
    n: int,
) -> int
    decreases n,
{
    if n <= 0 {
        0
    } else {
        wit_weight(s, m, thr, x, r, n - 1) + if witness_round_through(s, m, thr, x, r, n - 1) {
            m[n - 1].weight as int
        } else {
            0
        }
    }
}

pub proof fn lemma_wit_weight_le(
    s: Seq<Skel>,
    m: Seq<PeerInfo>,
    thr: int,
    x: int,
    r: int,
    n: int,
)
    ensures
        0 <= wit_weight(s, m, thr, x, r, n) <= sum_weights(m, n),
    decreases n,
{
    if n > 0 {
        lemma_wit_weight_le(s, m, thr, x, r, n - 1);
    }
}

pub proof fn lemma_wit_weight_pos(
    s: Seq<Skel>,
    m: Seq<PeerInfo>,
    thr: int,
    x: int,
    r: int,
    n: int,
)
    requires
        wit_weight(s, m, thr, x, r, n) > 0,
    ensures
        exists|c: int| 0 <= c < n && witness_round_through(s, m, thr, x, r, c),
    decreases n,
{
    if n > 0 {
        if witness_round_through(s, m, thr, x, r, n - 1) {
        } else {
            lemma_wit_weight_pos(s, m, thr, x, r, n - 1);
        }
    }
}

/// The round both parents hand down: the largest parent round, 0 for an event
/// with no parents.
pub open spec fn round_base(s: Seq<Skel>, i: int) -> int {
    let sp_r: int = match s[i].self_parent {
        Option::Some(p) => s[p as int].round as int,
        Option::None => 0,
    };
    let op_r: int = match s[i].other_parent {
        Option::Some(p) => s[p as int].round as int,
        Option::None => 0,
    };
    if sp_r >= op_r {
        sp_r
    } else {
        op_r
    }
}

/// The stored round and witness flag of entry `i` are the ones the protocol
/// assigns: the parents' round, bumped by one exactly when the event strongly
/// sees round-`base` witnesses of supermajority weight; a witness is a first
/// event of its creator in its round.
pub open spec fn round_ok_at(s: Seq<Skel>, m: Seq<PeerInfo>, thr: int, i: int) -> bool {
    &&& s[i].round == round_base(s, i) + (if wit_weight(
        s,
        m,
        thr,
        i,
        round_base(s, i),
        m.len() as int,
    ) >= thr {
        1int
    } else {
        0int
    })
    &&& s[i].is_witness == (match s[i].self_parent {
        Option::None => true,
        Option::Some(p) => s[i].round > s[p as int].round,
    })
}

pub open spec fn rounds_ok(s: Seq<Skel>, m: Seq<PeerInfo>, thr: int) -> bool {
    forall|i: int| 0 <= i < s.len() ==> #[trigger] round_ok_at(s, m, thr, i)
}

/// Two skeletons agree on everything the topological relations read.
pub open spec fn same_structure(a: Seq<Skel>, b: Seq<Skel>) -> bool {
    &&& a.len() == b.len()
    &&& forall|i: int| 0 <= i < a.len() ==> (#[trigger] a[i]).creator == b[i].creator
        && a[i].self_parent == b[i].self_parent && a[i].other_parent == b[i].other_parent
}

pub proof fn lemma_anc_congr(a: Seq<Skel>, b: Seq<Skel>, x: int, y: int)
    requires
        same_structure(a, b),
    ensures
        anc_oe(a, x, y) == anc_oe(b, x, y),
        self_anc_oe(a, x, y) == self_anc_oe(b, x, y),
    decreases x,
{
    if x != y && 0 <= x < a.len() {
        match a[x].self_parent {
            Option::Some(p) => {
                if 0 <= p < x {
                    lemma_anc_congr(a, b, p as int, y);
                }
            }
            Option::None => {}
        }
        match a[x].other_parent {
            Option::Some(p) => {
                if 0 <= p < x {
                    lemma_anc_congr(a, b, p as int, y);
                }
            }
            Option::None => {}
        }
    }
}

pub proof fn lemma_sees_congr(a: Seq<Skel>, b: Seq<Skel>, x: int, y: int)
    requires
        same_structure(a, b),
    ensures
        sees(a, x, y) == sees(b, x, y),
{
    lemma_anc_congr(a, b, x, y);
    if has_fork(a, x, y) {
        let (i, j) = choose|i: int, j: int| fork_pair(a, x, y, i, j);
        lemma_anc_congr(a, b, x, i);
        lemma_anc_congr(a, b, x, j);
        lemma_anc_congr(a, b, i, y);
        lemma_anc_congr(a, b, j, y);
        lemma_anc_congr(a, b, i, j);
        lemma_anc_congr(a, b, j, i);
        assert(fork_pair(b, x, y, i, j));
    }
    if has_fork(b, x, y) {
        let (i, j) = choose|i: int, j: int| fork_pair(b, x, y, i, j);
        lemma_anc_congr(a, b, x, i);
        lemma_anc_congr(a, b, x, j);
        lemma_anc_congr(a, b, i, y);
        lemma_anc_congr(a, b, j, y);
        lemma_anc_congr(a, b, i, j);
        lemma_anc_congr(a, b, j, i);
        assert(fork_pair(a, x, y, i, j));
    }
}

pub proof fn lemma_st_congr(a: Seq<Skel>, b: Seq<Skel>, x: int, y: int, c: int)
    requires
        same_structure(a, b),
    ensures
        sees_through(a, x, y, c) == sees_through(b, x, y, c),
{
    if sees_through(a, x, y, c) {
        let z = choose|z: int| 0 <= z < a.len() && #[trigger] a[z].creator == c
            && anc_oe(a, x, z) && sees(a, z, y);
        lemma_anc_congr(a, b, x, z);
        lemma_sees_congr(a, b, z, y);
        assert(0 <= z < b.len() && b[z].creator == c && anc_oe(b, x, z) && sees(b, z, y));
    }
    if sees_through(b, x, y, c) {
        let z = choose|z: int| 0 <= z < b.len() && #[trigger] b[z].creator == c
            && anc_oe(b, x, z) && sees(b, z, y);
        lemma_anc_congr(a, b, x, z);
        lemma_sees_congr(a, b, z, y);
        assert(0 <= z < a.len() && a[z].creator == c && anc_oe(a, x, z) && sees(a, z, y));
    }
}

pub proof fn lemma_ssw_congr(a: Seq<Skel>, b: Seq<Skel>, m: Seq<PeerInfo>, x: int, y: int, n: int)
    requires
        same_structure(a, b),
    ensures
        ss_weight(a, m, x, y, n) == ss_weight(b, m, x, y, n),
    decreases n,
{
    if n > 0 {
        lemma_ssw_congr(a, b, m, x, y, n - 1);
        lemma_st_congr(a, b, x, y, n - 1);
    }
}

pub proof fn lemma_ss_congr(
    a: Seq<Skel>,
    b: Seq<Skel>,
    m: Seq<PeerInfo>,
    thr: int,
    x: int,
    y: int,
)
    requires
        same_structure(a, b),
    ensures
        strongly_sees(a, m, thr, x, y) == strongly_sees(b, m, thr, x, y),
{
    lemma_sees_congr(a, b, x, y);
    lemma_ssw_congr(a, b, m, x, y, m.len() as int);
}

/// The round metadata of the top entry itself never matters to what it
/// strongly sees, so the placeholder pushed during insertion and the final
/// entry agree on every weight sum.
pub proof fn lemma_wrt_top(
    a: Seq<Skel>,
    b: Seq<Skel>,
    m: Seq<PeerInfo>,
    thr: int,
    x: int,
    r: int,
    c: int,
)
    requires
        same_structure(a, b),
        forall|i: int| 0 <= i < x ==> (#[trigger] a[i]).round == b[i].round
            && a[i].is_witness == b[i].is_witness,
    ensures
        witness_round_through(a, m, thr, x, r, c) == witness_round_through(b, m, thr, x, r, c),
{
    if witness_round_through(a, m, thr, x, r, c) {
        let w = choose|w: int| 0 <= w < a.len() && #[trigger] a[w].creator == c && a[w].is_witness
            && a[w].round == r && strongly_sees(a, m, thr, x, w);
        lemma_anc_le(a, x, w);
        assert(w < x);
        lemma_ss_congr(a, b, m, thr, x, w);
        assert(0 <= w < b.len() && b[w].creator == c && b[w].is_witness && b[w].round == r
            && strongly_sees(b, m, thr, x, w));
    }
    if witness_round_through(b, m, thr, x, r, c) {
        let w = choose|w: int| 0 <= w < b.len() && #[trigger] b[w].creator == c && b[w].is_witness
            && b[w].round == r && strongly_sees(b, m, thr, x, w);
        lemma_anc_le(b, x, w);
        assert(w < x);
        lemma_ss_congr(a, b, m, thr, x, w);
        assert(0 <= w < a.len() && a[w].creator == c && a[w].is_witness && a[w].round == r
            && strongly_sees(a, m, thr, x, w));
    }
}

pub proof fn lemma_wwt_top(
    a: Seq<Skel>,
    b: Seq<Skel>,
    m: Seq<PeerInfo>,
    thr: int,
    x: int,
    r: int,
    n: int,
)
    requires
        same_structure(a, b),
        forall|i: int| 0 <= i < x ==> (#[trigger] a[i]).round == b[i].round
            && a[i].is_witness == b[i].is_witness,
    ensures
        wit_weight(a, m, thr, x, r, n) == wit_weight(b, m, thr, x, r, n),
    decreases n,
{
    if n > 0 {
        lemma_wwt_top(a, b, m, thr, x, r, n - 1);
        lemma_wrt_top(a, b, m, thr, x, r, n - 1);
    }
}

pub proof fn lemma_anc_frame(s: Seq<Skel>, e: Skel, x: int, y: int)
    requires
        x < s.len(),
    ensures
        anc_oe(s.push(e), x, y) == anc_oe(s, x, y),
        self_anc_oe(s.push(e), x, y) == self_anc_oe(s, x, y),
    decreases x,
{
    let t = s.push(e);
    if x != y && 0 <= x < s.len() {
        assert(t[x] == s[x]);
        match s[x].self_parent {
            Option::Some(p) => {
                if 0 <= p < x {
                    lemma_anc_frame(s, e, p as int, y);
                }
            }
            Option::None => {}
        }
        match s[x].other_parent {
            Option::Some(p) => {
                if 0 <= p < x {
                    lemma_anc_frame(s, e, p as int, y);
                }
            }
            Option::None => {}
        }
    }
}

pub proof fn lemma_sees_frame(s: Seq<Skel>, e: Skel, x: int, y: int)
    requires
        x < s.len(),
    ensures
        sees(s.push(e), x, y) == sees(s, x, y),
{
    let t = s.push(e);
    lemma_anc_frame(s, e, x, y);
    if has_fork(t, x, y) {
        let (i, j) = choose|i: int, j: int| fork_pair(t, x, y, i, j);
        lemma_anc_le(t, x, i);
        lemma_anc_le(t, x, j);
        lemma_anc_frame(s, e, x, i);
        lemma_anc_frame(s, e, x, j);
        lemma_anc_frame(s, e, i, y);
        lemma_anc_frame(s, e, j, y);
        lemma_anc_frame(s, e, i, j);
        lemma_anc_frame(s, e, j, i);
        assert(t[i] == s[i] && t[j] == s[j]);
        assert(fork_pair(s, x, y, i, j));
    }
    if has_fork(s, x, y) {
        let (i, j) = choose|i: int, j: int| fork_pair(s, x, y, i, j);
        lemma_anc_frame(s, e, x, i);
        lemma_anc_frame(s, e, x, j);
        lemma_anc_frame(s, e, i, y);
        lemma_anc_frame(s, e, j, y);
        lemma_anc_frame(s, e, i, j);
        lemma_anc_frame(s, e, j, i);
        assert(t[i] == s[i] && t[j] == s[j]);
        assert(fork_pair(t, x, y, i, j));
    }
}

pub proof fn lemma_st_frame(s: Seq<Skel>, e: Skel, x: int, y: int, c: int)
    requires
        x < s.len(),
    ensures
        sees_through(s.push(e), x, y, c) == sees_through(s, x, y, c),
{
    let t = s.push(e);
    if sees_through(t, x, y, c) {
        let z = choose|z: int| 0 <= z < t.len() && #[trigger] t[z].creator == c
            && anc_oe(t, x, z) && sees(t, z, y);
        lemma_anc_le(t, x, z);
        lemma_anc_frame(s, e, x, z);
        lemma_sees_frame(s, e, z, y);
        assert(t[z] == s[z]);
        assert(0 <= z < s.len() && s[z].creator == c && anc_oe(s, x, z) && sees(s, z, y));
    }
    if sees_through(s, x, y, c) {
        let z = choose|z: int| 0 <= z < s.len() && #[trigger] s[z].creator == c
            && anc_oe(s, x, z) && sees(s, z, y);
        lemma_anc_frame(s, e, x, z);
        lemma_sees_frame(s, e, z, y);
        assert(t[z] == s[z]);
        assert(0 <= z < t.len() && t[z].creator == c && anc_oe(t, x, z) && sees(t, z, y));
    }
}

pub proof fn lemma_ssw_frame(s: Seq<Skel>, e: Skel, m: Seq<PeerInfo>, x: int, y: int, n: int)
    requires
        x < s.len(),
    ensures
        ss_weight(s.push(e), m, x, y, n) == ss_weight(s, m, x, y, n),
    decreases n,
{
    if n > 0 {
        lemma_ssw_frame(s, e, m, x, y, n - 1);
        lemma_st_frame(s, e, x, y, n - 1);
    }
}

pub proof fn lemma_wrt_frame(
    s: Seq<Skel>,
    e: Skel,
    m: Seq<PeerInfo>,
    thr: int,
    x: int,
    r: int,
    c: int,
)
    requires
        x < s.len(),
    ensures
        witness_round_through(s.push(e), m, thr, x, r, c)
            == witness_round_through(s, m, thr, x, r, c),
{
    let t = s.push(e);
    if witness_round_through(t, m, thr, x, r, c) {
        let w = choose|w: int| 0 <= w < t.len() && #[trigger] t[w].creator == c && t[w].is_witness
            && t[w].round == r && strongly_sees(t, m, thr, x, w);
        lemma_anc_le(t, x, w);
        lemma_sees_frame(s, e, x, w);
        lemma_ssw_frame(s, e, m, x, w, m.len() as int);
        assert(t[w] == s[w]);
        assert(0 <= w < s.len() && s[w].creator == c && s[w].is_witness && s[w].round == r
            && strongly_sees(s, m, thr, x, w));
    }
    if witness_round_through(s, m, thr, x, r, c) {
        let w = choose|w: int| 0 <= w < s.len() && #[trigger] s[w].creator == c && s[w].is_witness
            && s[w].round == r && strongly_sees(s, m, thr, x, w);
        lemma_sees_frame(s, e, x, w);
        lemma_ssw_frame(s, e, m, x, w, m.len() as int);
        assert(t[w] == s[w]);
        assert(0 <= w < t.len() && t[w].creator == c && t[w].is_witness && t[w].round == r
            && strongly_sees(t, m, thr, x, w));
    }
}

pub proof fn lemma_wwt_frame(
    s: Seq<Skel>,
    e: Skel,
    m: Seq<PeerInfo>,
    thr: int,
    x: int,
    r: int,
    n: int,
)
    requires
        x < s.len(),
    ensures
        wit_weight(s.push(e), m, thr, x, r, n) == wit_weight(s, m, thr, x, r, n),
    decreases n,
{
    if n > 0 {
        lemma_wwt_frame(s, e, m, thr, x, r, n - 1);
        lemma_wrt_frame(s, e, m, thr, x, r, n - 1);
    }
}

pub proof fn lemma_round_ok_frame(s: Seq<Skel>, e: Skel, m: Seq<PeerInfo>, thr: int, i: int)
    requires
        0 <= i < s.len(),
        parents_ok(s),
        round_ok_at(s, m, thr, i),
    ensures
        round_ok_at(s.push(e), m, thr, i),
{
    let t = s.push(e);
    assert(skel_at_ok(s, i));
    assert(t[i] == s[i]);
    assert(round_base(t, i) == round_base(s, i));
    lemma_wwt_frame(s, e, m, thr, i, round_base(s, i), m.len() as int);
}

} // verus!

verus! {

/// The index of the entry with the given hash, or -1; the first match wins
/// (hashes are unique in a well-formed store).
pub open spec fn hash_index_of(hs: Seq<EventHash>, h: Seq<u8>) -> int
    decreases hs.len(),
{
    if hs.len() == 0 {
        -1
    } else if hs[0]@ == h {
        0
    } else {
        let rest = hash_index_of(hs.drop_first(), h);
        if rest < 0 {
            -1
        } else {
            rest + 1
        }
    }
}

pub proof fn lemma_hash_index_of(hs: Seq<EventHash>, h: Seq<u8>)
    ensures
        hash_index_of(hs, h) >= 0 ==> hash_index_of(hs, h) < hs.len()
            && hs[hash_index_of(hs, h)]@ == h
            && forall|j: int| 0 <= j < hash_index_of(hs, h) ==> hs[j]@ != h,
        hash_index_of(hs, h) < 0 ==> forall|i: int| 0 <= i < hs.len() ==> hs[i]@ != h,
    decreases hs.len(),
{
    if hs.len() > 0 && hs[0]@ != h {
        lemma_hash_index_of(hs.drop_first(), h);
        if hash_index_of(hs.drop_first(), h) < 0 {
            assert forall|i: int| 0 <= i < hs.len() implies hs[i]@ != h by {
                if i > 0 {
                    assert(hs.drop_first()[i - 1] == hs[i]);
                }
            }
        } else {
            assert(hs.drop_first()[hash_index_of(hs.drop_first(), h)]
                == hs[hash_index_of(hs.drop_first(), h) + 1]);
            assert forall|j: int| 0 <= j < hash_index_of(hs, h) implies hs[j]@ != h by {
                if j > 0 {
                    assert(hs.drop_first()[j - 1] == hs[j]);
                }
            }
        }
    }
}

fn find_hash(hs: &Vec<EventHash>, h: &Vec<u8>) -> (r: Option<usize>)
    ensures
        r is Some ==> r->0 == hash_index_of(hs@, h@),
        r is Some <==> hash_index_of(hs@, h@) >= 0,
{
    proof {
        lemma_hash_index_of(hs@, h@);
    }
    let mut i: usize = 0;
    while i < hs.len()
        invariant
            i <= hs@.len(),
            forall|j: int| 0 <= j < i ==> hs@[j]@ != h@,
        decreases hs@.len() - i,
    {
        if hash_eq(&hs[i].bytes, h) {
            proof {
                lemma_hash_index_of(hs@, h@);
                if hash_index_of(hs@, h@) < 0 {
                    assert(false);
                }
                if hash_index_of(hs@, h@) < i {
                    assert(false);
                }
                if hash_index_of(hs@, h@) > i {
                    assert(hs@[i as int]@ != h@);
                    assert(false);
                }
            }
            return Option::Some(i);
        }
        i = i + 1;
    }
    proof {
        lemma_hash_index_of(hs@, h@);
        if hash_index_of(hs@, h@) >= 0 {
            assert(hs@[hash_index_of(hs@, h@)]@ == h@);
            assert(false);
        }
    }
    Option::None
}

fn find_peer(m: &Vec<PeerInfo>, id: &Vec<u8>) -> (r: Option<usize>)
    ensures
        r is Some ==> r->0 == peer_index_of(m@, id@),
        r is Some <==> peer_index_of(m@, id@) >= 0,
{
    proof {
        lemma_peer_index_of(m@, id@);
    }
    let mut i: usize = 0;
    while i < m.len()
        invariant
            i <= m@.len(),
            forall|j: int| 0 <= j < i ==> m@[j].id@ != id@,
        decreases m@.len() - i,
    {
        if hash_eq(&m[i].id, id) {
            proof {
                lemma_peer_index_of(m@, id@);
                if peer_index_of(m@, id@) < 0 {
                    assert(false);
                }
                if peer_index_of(m@, id@) < i {
                    assert(false);
                }
                if peer_index_of(m@, id@) > i {
                    assert(m@[i as int].id@ != id@);
                    assert(false);
                }
            }
            return Option::Some(i);
        }
        i = i + 1;
    }
    proof {
        lemma_peer_index_of(m@, id@);
        if peer_index_of(m@, id@) >= 0 {
            assert(m@[peer_index_of(m@, id@)].id@ == id@);
            assert(false);
        }
    }
    Option::None
}

/// The skeleton entry insertion builds before the round is known.
pub open spec fn event_placeholder(
    s: Seq<Skel>,
    m: Seq<PeerInfo>,
    hs: Seq<EventHash>,
    e: Event,
) -> Skel {
    Skel {
        creator: peer_index_of(m, e.creator@) as usize,
        self_parent: match e.self_parent {
            Option::Some(h) => Option::Some(hash_index_of(hs, h@) as usize),
            Option::None => Option::None,
        },
        other_parent: match e.other_parent {
            Option::Some(h) => Option::Some(hash_index_of(hs, h@) as usize),
            Option::None => Option::None,
        },
        timestamp: e.timestamp,
        coin: coin_of(e.signature@),
        round: 0,
        is_witness: false,
    }
}

/// The round the protocol assigns to a new entry with placeholder `ph`.
pub open spec fn new_round_of(s: Seq<Skel>, m: Seq<PeerInfo>, thr: int, ph: Skel) -> int {
    let t = s.push(ph);
    let i = s.len() as int;
    let base = round_base(t, i);
    base + if wit_weight(t, m, thr, i, base, m.len() as int) >= thr {
        1int
    } else {
        0int
    }
}

/// The completed skeleton entry for a new event.
pub open spec fn new_skel_of(s: Seq<Skel>, m: Seq<PeerInfo>, thr: int, ph: Skel) -> Skel {
    let r = new_round_of(s, m, thr, ph);
    Skel {
        creator: ph.creator,
        self_parent: ph.self_parent,
        other_parent: ph.other_parent,
        timestamp: ph.timestamp,
        coin: ph.coin,
        round: r as u64,
        is_witness: match ph.self_parent {
            Option::None => true,
            Option::Some(p) => r > s[p as int].round,
        },
    }
}

/// Exactly which result insertion returns, in the order the checks are made:
/// a duplicate hash wins, then a missing parent, then an unknown creator, then
/// a self-parent by another creator, then a bad signature.
pub open spec fn insert_outcome(
    s: Seq<Skel>,
    m: Seq<PeerInfo>,
    hs: Seq<EventHash>,
    e: Event,
) -> Result<(), GraphError> {
    let ci = peer_index_of(m, e.creator@);
    if hash_index_of(hs, hash_of_event(e)) >= 0 {
        Result::Err(GraphError::DuplicateEvent)
    } else if (e.self_parent is Some && hash_index_of(hs, e.self_parent->0@) < 0) || (
    e.other_parent is Some && hash_index_of(hs, e.other_parent->0@) < 0) {
        Result::Err(GraphError::UnknownParent)
    } else if ci < 0 {
        Result::Err(GraphError::InvalidSignature)
    } else if e.self_parent is Some && s[hash_index_of(hs, e.self_parent->0@)].creator as int
        != ci {
        Result::Err(GraphError::InvalidSelfParent)
    } else if !ed25519_verifies(m[ci].public_key@, event_signing_bytes(e), e.signature@) {
        Result::Err(GraphError::InvalidSignature)
    } else {
        Result::Ok(())
    }
}

pub open spec fn empty_cstate() -> CState {
    CState { fame: Option::None, received_round: Option::None, consensus_timestamp: Option::None, consensus_order: Option::None }
}

impl Hashgraph {
    /// Stored metadata of entry `i` matches the stored event: hash, creator,
    /// timestamp, coin bit, parent links, and a verifying signature.
    pub open spec fn entry_linked(&self, i: int) -> bool {
        &&& self.hashes@[i]@ == hash_of_event(self.events@[i])
        &&& self.peers.members@[self.skel@[i].creator as int].id@ == self.events@[i].creator@
        &&& self.skel@[i].timestamp == self.events@[i].timestamp
        &&& self.skel@[i].coin == coin_of(self.events@[i].signature@)
        &&& (match (self.skel@[i].self_parent, self.events@[i].self_parent) {
            (Option::Some(p), Option::Some(h)) => self.hashes@[p as int]@ == h@,
            (Option::None, Option::None) => true,
            _ => false,
        })
        &&& (match (self.skel@[i].other_parent, self.events@[i].other_parent) {
            (Option::Some(p), Option::Some(h)) => self.hashes@[p as int]@ == h@,
            (Option::None, Option::None) => true,
            _ => false,
        })
        &&& ed25519_verifies(
            self.peers.members@[self.skel@[i].creator as int].public_key@,
            event_signing_bytes(self.events@[i]),
            self.events@[i].signature@,
        )
    }

    /// Full well-formedness of the store.
    pub open spec fn wf(&self) -> bool {
        &&& self.peers.wf()
        &&& self.events@.len() == self.skel@.len()
        &&& self.hashes@.len() == self.skel@.len()
        &&& self.state@.len() == self.skel@.len()
        &&& rel_wf(self.skel@, self.peers.members@)
        &&& rounds_ok(self.skel@, self.peers.members@, self.thr())
        &&& forall|i: int| 0 <= i < self.n() ==> #[trigger] self.entry_linked(i)
        &&& forall|i: int, j: int|
            0 <= i < self.n() && 0 <= j < self.n() && i != j
                ==> self.hashes@[i]@ != self.hashes@[j]@
    }

    /// An empty store over the given participant set.
    pub fn new(peers: PeerSet) -> (r: Hashgraph)
        requires
            peers.wf(),
        ensures
            r.wf(),
            r.peers == peers,
            r.skel@.len() == 0,
    {
        Hashgraph {
            peers,
            events: Vec::new(),
            hashes: Vec::new(),
            skel: Vec::new(),
            state: Vec::new(),
        }
    }

    pub fn len(&self) -> (r: usize)
        ensures
            r == self.skel@.len(),
    {
        self.skel.len()
    }

    /// Looks an event up by its hash.
    pub fn lookup(&self, h: &Vec<u8>) -> (r: Option<usize>)
        ensures
            r is Some ==> r->0 == hash_index_of(self.hashes@, h@),
            r is Some <==> hash_index_of(self.hashes@, h@) >= 0,
    {
        find_hash(&self.hashes, h)
    }

    pub fn get(&self, i: usize) -> (r: &Event)
        requires
            self.wf(),
            i < self.skel@.len(),
        ensures
            *r == self.events@[i as int],
    {
        &self.events[i]
    }
}

fn wrt_x(g: &Hashgraph, x: usize, r: u64, c: usize) -> (res: bool)
    requires
        g.rels_ok(),
        x < g.skel@.len(),
    ensures
        res == witness_round_through(
            g.skel@,
            g.peers.members@,
            g.thr(),
            x as int,
            r as int,
            c as int,
        ),
{
    let n = g.skel.len();
    let mut w: usize = 0;
    while w < n
        invariant
            g.rels_ok(),
            x < g.skel@.len(),
            n == g.skel@.len(),
            w <= n,
            forall|k: int| 0 <= k < w ==> !(g.skel@[k].creator == c as int && g.skel@[k].is_witness
                && g.skel@[k].round == r as int
                && strongly_sees(g.skel@, g.peers.members@, g.thr(), x as int, k)),
        decreases n - w,
    {
        if g.skel[w].creator == c && g.skel[w].is_witness && g.skel[w].round == r {
            if g.can_strongly_see(x, w) {
                assert(g.skel@[w as int].creator == c as int && g.skel@[w as int].is_witness
                    && g.skel@[w as int].round == r as int
                    && strongly_sees(g.skel@, g.peers.members@, g.thr(), x as int, w as int));
                return true;
            }
        }
        w = w + 1;
    }
    false
}

fn wit_weight_x(g: &Hashgraph, x: usize, r: u64) -> (res: u64)
    requires
        g.rels_ok(),
        x < g.skel@.len(),
    ensures
        res == wit_weight(
            g.skel@,
            g.peers.members@,
            g.thr(),
            x as int,
            r as int,
            g.peers.members@.len() as int,
        ),
{
    let n = g.peers.members.len();
    let mut acc: u64 = 0;
    let mut c: usize = 0;
    while c < n
        invariant
            g.rels_ok(),
            x < g.skel@.len(),
            n == g.peers.members@.len(),
            c <= n,
            acc == wit_weight(g.skel@, g.peers.members@, g.thr(), x as int, r as int, c as int),
        decreases n - c,
    {
        proof {
            lemma_wit_weight_le(g.skel@, g.peers.members@, g.thr(), x as int, r as int, c as int + 1);
            lemma_sum_weights_mono(g.peers.members@, c as int + 1, n as int);
        }
        if wrt_x(g, x, r, c) {
            acc = acc + g.peers.members[c].weight;
        }
        c = c + 1;
    }
    acc
}

} // verus!

verus! {



proof fn lemma_push_structure(s0: Seq<Skel>, ent: Skel, m: Seq<PeerInfo>)
    requires
        parents_ok(s0),
        skel_bounds(s0, m),
        match ent.self_parent {
            Option::Some(p) => p < s0.len() && s0[p as int].creator == ent.creator,
            Option::None => true,
        },
        match ent.other_parent {
            Option::Some(p) => p < s0.len(),
            Option::None => true,
        },
        ent.creator < m.len(),
        ent.round <= s0.len(),
    ensures
        parents_ok(s0.push(ent)),
        skel_bounds(s0.push(ent), m),
{
    let n = s0.len() as int;
    let f = s0.push(ent);
    assert forall|i: int| 0 <= i < f.len() implies skel_at_ok(f, i) by {
        if i < n {
            assert(skel_at_ok(s0, i));
            assert(f[i] == s0[i]);
            match s0[i].self_parent {
                Option::Some(p) => {
                    assert(f[p as int] == s0[p as int]);
                }
                Option::None => {}
            }
        } else {
            match ent.self_parent {
                Option::Some(p) => {
                    assert(f[p as int] == s0[p as int]);
                }
                Option::None => {}
            }
        }
    }
    assert(skel_bounds(f, m));
}

proof fn lemma_push_rounds(s0: Seq<Skel>, ph: Skel, ent: Skel, m: Seq<PeerInfo>, thr: int)
    requires
        parents_ok(s0),
        skel_bounds(s0, m),
        s0.len() <= usize::MAX,
        rounds_ok(s0, m, thr),
        ent == new_skel_of(s0, m, thr, ph),
        match ph.self_parent {
            Option::Some(p) => p < s0.len(),
            Option::None => true,
        },
        match ph.other_parent {
            Option::Some(p) => p < s0.len(),
            Option::None => true,
        },
    ensures
        rounds_ok(s0.push(ent), m, thr),
{
    let n = s0.len() as int;
    let f = s0.push(ent);
    let t = s0.push(ph);
    let base = round_base(t, n);
    assert forall|i: int| 0 <= i < f.len() implies #[trigger] round_ok_at(f, m, thr, i) by {
        if i < n {
            assert(round_ok_at(s0, m, thr, i));
            lemma_round_ok_frame(s0, ent, m, thr, i);
        } else {
            assert(same_structure(f, t));
            lemma_wwt_top(f, t, m, thr, n, base, m.len() as int);
            match ph.self_parent {
                Option::Some(p) => {
                    assert(f[p as int] == s0[p as int]);
                    assert(t[p as int] == s0[p as int]);
                }
                Option::None => {}
            }
            match ph.other_parent {
                Option::Some(p) => {
                    assert(f[p as int] == s0[p as int]);
                    assert(t[p as int] == s0[p as int]);
                }
                Option::None => {}
            }
            assert(round_base(f, n) == base);
            assert(0 <= new_round_of(s0, m, thr, ph) <= u64::MAX) by {
                lemma_wit_weight_le(t, m, thr, n, base, m.len() as int);
                match ph.self_parent {
                    Option::Some(p) => {}
                    Option::None => {}
                }
            }
            assert(f[n].round == new_round_of(s0, m, thr, ph));
            assert(wit_weight(f, m, thr, n, base, m.len() as int)
                == wit_weight(t, m, thr, n, base, m.len() as int));
            assert(round_ok_at(f, m, thr, n));
        }
    }
}

#[verifier::rlimit(100)]
#[verifier::spinoff_prover]
proof fn lemma_push_linked(g0: Hashgraph, g1: Hashgraph, event: Event, h: EventHash, ent: Skel)
    requires
        forall|i: int| 0 <= i < g0.n() ==> #[trigger] g0.entry_linked(i),
        parents_ok(g0.skel@),
        g0.events@.len() == g0.skel@.len(),
        g0.hashes@.len() == g0.skel@.len(),
        g1.peers == g0.peers,
        g1.events@ == g0.events@.push(event),
        g1.hashes@ == g0.hashes@.push(h),
        g1.skel@ == g0.skel@.push(ent),
        h@ == hash_of_event(event),
        ent.creator < g0.peers.members@.len(),
        g0.peers.members@[ent.creator as int].id@ == event.creator@,
        ent.timestamp == event.timestamp,
        ent.coin == coin_of(event.signature@),
        match (ent.self_parent, event.self_parent) {
            (Option::Some(p), Option::Some(hh)) => p < g0.n() && g0.hashes@[p as int]@ == hh@,
            (Option::None, Option::None) => true,
            _ => false,
        },
        match (ent.other_parent, event.other_parent) {
            (Option::Some(p), Option::Some(hh)) => p < g0.n() && g0.hashes@[p as int]@ == hh@,
            (Option::None, Option::None) => true,
            _ => false,
        },
        ed25519_verifies(
            g0.peers.members@[ent.creator as int].public_key@,
            event_signing_bytes(event),
            event.signature@,
        ),
    ensures
        forall|i: int| 0 <= i < g1.n() ==> #[trigger] g1.entry_linked(i),
{
    let n = g0.n();
    assert forall|i: int| 0 <= i < g1.n() implies #[trigger] g1.entry_linked(i) by {
        if i < n {
            assert(g0.entry_linked(i));
            assert(skel_at_ok(g0.skel@, i));
            assert(g1.skel@[i] == g0.skel@[i]);
            assert(g1.events@[i] == g0.events@[i]);
            assert(g1.hashes@[i] == g0.hashes@[i]);
            match g0.skel@[i].self_parent {
                Option::Some(p) => {
                    if p < n {
                        assert(g1.hashes@[p as int] == g0.hashes@[p as int]);
                    }
                }
                Option::None => {}
            }
            match g0.skel@[i].other_parent {
                Option::Some(p) => {
                    if p < n {
                        assert(g1.hashes@[p as int] == g0.hashes@[p as int]);
                    }
                }
                Option::None => {}
            }
            assert(g1.entry_linked(i));
        } else {
            assert(g1.events@[i] == event);
            assert(g1.hashes@[i] == h);
            assert(g1.skel@[i] == ent);
            assert(g1.hashes@[i]@ == hash_of_event(g1.events@[i]));
            assert(g1.peers.members@[g1.skel@[i].creator as int].id@ == g1.events@[i].creator@);
            assert(g1.skel@[i].timestamp == g1.events@[i].timestamp);
            assert(g1.skel@[i].coin == coin_of(g1.events@[i].signature@));
            assert(ed25519_verifies(
                g1.peers.members@[g1.skel@[i].creator as int].public_key@,
                event_signing_bytes(g1.events@[i]),
                g1.events@[i].signature@,
            ));
            match (ent.self_parent, event.self_parent) {
                (Option::Some(p), Option::Some(hh)) => {
                    assert(g1.hashes@[p as int] == g0.hashes@[p as int]);
                }
                _ => {}
            }
            match (ent.other_parent, event.other_parent) {
                (Option::Some(p), Option::Some(hh)) => {
                    assert(g1.hashes@[p as int] == g0.hashes@[p as int]);
                }
                _ => {}
            }
            assert(g1.entry_linked(i));
        }
    }
}

proof fn lemma_push_hashes(g0: Hashgraph, g1: Hashgraph, h: EventHash)
    requires
        forall|i: int, j: int|
            0 <= i < g0.n() && 0 <= j < g0.n() && i != j
                ==> g0.hashes@[i]@ != g0.hashes@[j]@,
        g0.hashes@.len() == g0.skel@.len(),
        g1.hashes@ == g0.hashes@.push(h),
        g1.skel@.len() == g0.skel@.len() + 1,
        forall|i: int| 0 <= i < g0.n() ==> g0.hashes@[i]@ != h@,
    ensures
        forall|i: int, j: int|
            0 <= i < g1.n() && 0 <= j < g1.n() && i != j
                ==> g1.hashes@[i]@ != g1.hashes@[j]@,
{
    let n = g0.n();
    assert forall|i: int, j: int|
        0 <= i < g1.n() && 0 <= j < g1.n() && i != j
        implies g1.hashes@[i]@ != g1.hashes@[j]@ by {
        if i < n && j < n {
            assert(g0.hashes@[i]@ != g0.hashes@[j]@);
        } else if i < n {
            assert(g0.hashes@[i]@ != h@);
        } else {
            assert(g0.hashes@[j]@ != h@);
        }
    }
}

fn coin_bit(sig: &Vec<u8>) -> (r: bool)
    ensures
        r == coin_of(sig@),
{
    if sig.len() == 0 {
        true
    } else {
        sig[0] % 2 == 1
    }
}


impl Hashgraph {
    /// Appends an event whose checks have all passed, fixing its round and
    /// witness flag.
    #[verifier::rlimit(100)]
    #[verifier::spinoff_prover]
    fn finalize_insert(
        &mut self,
        event: Event,
        h: EventHash,
        sp: Option<usize>,
        op: Option<usize>,
        ci: usize,
    )
        requires
            old(self).wf(),
            h@ == hash_of_event(event),
            ci as int == peer_index_of(old(self).peers.members@, event.creator@),
            match (sp, event.self_parent) {
                (Option::Some(p), Option::Some(hh)) => p as int == hash_index_of(
                    old(self).hashes@,
                    hh@,
                ),
                (Option::None, Option::None) => true,
                _ => false,
            },
            match (op, event.other_parent) {
                (Option::Some(p), Option::Some(hh)) => p as int == hash_index_of(
                    old(self).hashes@,
                    hh@,
                ),
                (Option::None, Option::None) => true,
                _ => false,
            },
            insert_outcome(old(self).skel@, old(self).peers.members@, old(self).hashes@, event)
                == Result::<(), GraphError>::Ok(()),
        ensures
            final(self).wf(),
            final(self).peers == old(self).peers,
            final(self).events@ == old(self).events@.push(event),
            final(self).skel@ == old(self).skel@.push(new_skel_of(
                old(self).skel@,
                old(self).peers.members@,
                old(self).thr(),
                event_placeholder(
                    old(self).skel@,
                    old(self).peers.members@,
                    old(self).hashes@,
                    event,
                ),
            )),
            final(self).state@ == old(self).state@.push(CState {
                fame: Option::None,
                received_round: Option::None,
                consensus_timestamp: Option::None,
                consensus_order: Option::None,
            }),
            final(self).hashes@.len() == old(self).hashes@.len() + 1,
            forall|i: int|
                0 <= i < old(self).n() ==> final(self).hashes@[i] == old(self).hashes@[i],
            final(self).hashes@[old(self).n()]@ == hash_of_event(event),
    {
        let ghost s0 = self.skel@;
        let ghost m = self.peers.members@;
        let ghost hs0 = self.hashes@;
        let ghost thr = self.thr();
        let ghost ev = event;
        proof {
            lemma_peer_index_of(m, ev.creator@);
            match ev.self_parent {
                Option::Some(hh) => {
                    lemma_hash_index_of(hs0, hh@);
                }
                Option::None => {}
            }
            match ev.other_parent {
                Option::Some(hh) => {
                    lemma_hash_index_of(hs0, hh@);
                }
                Option::None => {}
            }
        }
        let n = self.skel.len();
        let ph = Skel {
            creator: ci,
            self_parent: sp,
            other_parent: op,
            timestamp: event.timestamp,
            coin: coin_bit(&event.signature),
            round: 0,
            is_witness: false,
        };
        proof {
            assert(ph == event_placeholder(s0, m, hs0, ev));
        }
        self.skel.push(ph);
        let ghost t = self.skel@;
        proof {
            lemma_push_structure(s0, ph, m);
            assert(self.rels_ok());
        }
        let base: u64 = {
            let sp_r: u64 = match sp {
                Option::Some(p) => self.skel[p].round,
                Option::None => 0,
            };
            let op_r: u64 = match op {
                Option::Some(p) => self.skel[p].round,
                Option::None => 0,
            };
            if sp_r >= op_r {
                sp_r
            } else {
                op_r
            }
        };
        proof {
            match sp {
                Option::Some(p) => {
                    assert(t[p as int] == s0[p as int]);
                    assert(s0[p as int].creator < m.len() && s0[p as int].round <= p as int);
                }
                Option::None => {}
            }
            match op {
                Option::Some(p) => {
                    assert(t[p as int] == s0[p as int]);
                    assert(s0[p as int].creator < m.len() && s0[p as int].round <= p as int);
                }
                Option::None => {}
            }
            assert(base as int == round_base(t, n as int));
            assert(base <= if n > 0 { n - 1 } else { 0int });
        }
        let ww = wit_weight_x(self, n, base);
        let bump = ww >= self.peers.supermajority;
        proof {
            if bump {
                assert(thr >= 1);
                lemma_wit_weight_pos(t, m, thr, n as int, base as int, m.len() as int);
                let c = choose|c: int| 0 <= c < m.len()
                    && witness_round_through(t, m, thr, n as int, base as int, c);
                let w = choose|w: int| 0 <= w < t.len() && #[trigger] t[w].creator == c
                    && t[w].is_witness && t[w].round == base as int
                    && strongly_sees(t, m, thr, n as int, w);
                lemma_anc_le(t, n as int, w);
                assert(w < n);
                assert(n >= 1);
            }
        }
        let round: u64 = if bump {
            base + 1
        } else {
            base
        };
        let wit: bool = match sp {
            Option::Some(p) => round > self.skel[p].round,
            Option::None => true,
        };
        let ent = Skel {
            creator: ci,
            self_parent: sp,
            other_parent: op,
            timestamp: event.timestamp,
            coin: ph.coin,
            round,
            is_witness: wit,
        };
        self.skel.set(n, ent);
        self.hashes.push(h);
        self.events.push(event);
        self.state.push(CState {
            fame: Option::None,
            received_round: Option::None,
            consensus_timestamp: Option::None,
            consensus_order: Option::None,
        });
        proof {
            let f = self.skel@;
            assert(f =~= s0.push(ent));
            assert(round as int == new_round_of(s0, m, thr, ph)) by {
                assert(round_base(t, n as int) == base as int);
            }
            assert(ent == new_skel_of(s0, m, thr, ph)) by {
                match sp {
                    Option::Some(p) => {
                        assert(t[p as int] == s0[p as int]);
                    }
                    Option::None => {}
                }
            }
            lemma_push_structure(s0, ent, m);
            lemma_push_rounds(s0, ph, ent, m, thr);
            lemma_push_linked(*old(self), *self, ev, h, ent);
            lemma_hash_index_of(hs0, hash_of_event(ev));
            lemma_push_hashes(*old(self), *self, h);
        }
    }

    /// Validates and inserts one event: rejects duplicates (an idempotent
    /// no-op), events with unknown parents, a self-parent by another creator,
    /// and events whose signature does not verify against the creator's
    /// public key. On success the event is appended and its round and witness
    /// flag are fixed, never to be revisited.
    pub fn insert(&mut self, event: Event) -> (r: Result<(), GraphError>)
        requires
            old(self).wf(),
        ensures
            final(self).wf(),
            r == insert_outcome(
                old(self).skel@,
                old(self).peers.members@,
                old(self).hashes@,
                event,
            ),
            r is Err ==> *final(self) == *old(self),
            r is Ok ==> {
                &&& final(self).peers == old(self).peers
                &&& final(self).events@ == old(self).events@.push(event)
                &&& final(self).skel@ == old(self).skel@.push(new_skel_of(
                    old(self).skel@,
                    old(self).peers.members@,
                    old(self).thr(),
                    event_placeholder(
                        old(self).skel@,
                        old(self).peers.members@,
                        old(self).hashes@,
                        event,
                    ),
                ))
                &&& final(self).state@ == old(self).state@.push(CState {
                    fame: Option::None,
                    received_round: Option::None,
                    consensus_timestamp: Option::None,
                    consensus_order: Option::None,
                })
                &&& final(self).hashes@.len() == old(self).hashes@.len() + 1
                &&& (forall|i: int|
                    0 <= i < old(self).n() ==> final(self).hashes@[i] == old(self).hashes@[i])
                &&& final(self).hashes@[old(self).n()]@ == hash_of_event(event)
            },
    {
        let ghost hs0 = self.hashes@;
        let ghost m = self.peers.members@;
        let h = compute_hash(&event);
        match find_hash(&self.hashes, &h.bytes) {
            Option::Some(_) => {
                return Result::Err(GraphError::DuplicateEvent);
            }
            Option::None => {}
        }
        let sp: Option<usize> = match &event.self_parent {
            Option::Some(ph) => {
                match find_hash(&self.hashes, &ph.bytes) {
                    Option::Some(i) => Option::Some(i),
                    Option::None => {
                        return Result::Err(GraphError::UnknownParent);
                    }
                }
            }
            Option::None => Option::None,
        };
        let op: Option<usize> = match &event.other_parent {
            Option::Some(ph) => {
                match find_hash(&self.hashes, &ph.bytes) {
                    Option::Some(i) => Option::Some(i),
                    Option::None => {
                        return Result::Err(GraphError::UnknownParent);
                    }
                }
            }
            Option::None => Option::None,
        };
        let ci: usize = match find_peer(&self.peers.members, &event.creator) {
            Option::Some(i) => i,
            Option::None => {
                return Result::Err(GraphError::InvalidSignature);
            }
        };
        proof {
            lemma_peer_index_of(m, event.creator@);
        }
        match sp {
            Option::Some(p) => {
                proof {
                    lemma_hash_index_of(hs0, event.self_parent->0@);
                }
                if self.skel[p].creator != ci {
                    return Result::Err(GraphError::InvalidSelfParent);
                }
            }
            Option::None => {}
        }
        let msg = signing_bytes(&event);
        if !ed25519_verify(&self.peers.members[ci].public_key, &msg, &event.signature) {
            return Result::Err(GraphError::InvalidSignature);
        }
        self.finalize_insert(event, h, sp, op, ci);
        Result::Ok(())
    }
}

} // verus!

verus! {

/// `s2`/`hs2` is `s1`/`hs1` with zero or more entries appended.
pub open spec fn store_extends(
    s1: Seq<Skel>,
    hs1: Seq<EventHash>,
    s2: Seq<Skel>,
    hs2: Seq<EventHash>,
) -> bool {
    &&& hs1.len() == s1.len()
    &&& hs2.len() == s2.len()
    &&& s1.len() <= s2.len()
    &&& (forall|i: int| 0 <= i < s1.len() ==> #[trigger] s2[i] == s1[i])
    &&& (forall|i: int| 0 <= i < hs1.len() ==> #[trigger] hs2[i] == hs1[i])
}

/// The event can never enter this store, whatever arrives later: it is a
/// duplicate, its self-parent belongs to another creator, or its creator or
/// signature is invalid. Only a missing parent is curable by growth.
pub open spec fn insert_blocked(
    s: Seq<Skel>,
    m: Seq<PeerInfo>,
    hs: Seq<EventHash>,
    e: Event,
) -> bool {
    &&& insert_outcome(s, m, hs, e) is Err
    &&& insert_outcome(s, m, hs, e) != Result::<(), GraphError>::Err(GraphError::UnknownParent)
}

/// A hash found in a store is found at the same index in any extension.
pub proof fn lemma_hash_index_extends(hs1: Seq<EventHash>, hs2: Seq<EventHash>, x: Seq<u8>)
    requires
        hash_index_of(hs1, x) >= 0,
        hs1.len() <= hs2.len(),
        forall|i: int| 0 <= i < hs1.len() ==> #[trigger] hs2[i] == hs1[i],
    ensures
        hash_index_of(hs2, x) == hash_index_of(hs1, x),
{
    let i1 = hash_index_of(hs1, x);
    lemma_hash_index_of(hs1, x);
    lemma_hash_index_of(hs2, x);
    assert(hs2[i1]@ == x);
    if hash_index_of(hs2, x) < 0 {
        assert(false);
    }
    let i2 = hash_index_of(hs2, x);
    if i2 < i1 {
        assert(hs1[i2]@ == x);
        assert(false);
    }
    if i2 > i1 {
        assert(hs2[i1]@ != x);
        assert(false);
    }
}

/// A blocked event stays blocked in any extension of the store.
pub proof fn lemma_blocked_extends(
    s1: Seq<Skel>,
    hs1: Seq<EventHash>,
    s2: Seq<Skel>,
    hs2: Seq<EventHash>,
    m: Seq<PeerInfo>,
    e: Event,
)
    requires
        store_extends(s1, hs1, s2, hs2),
        insert_blocked(s1, m, hs1, e),
    ensures
        insert_blocked(s2, m, hs2, e),
{
    lemma_hash_index_of(hs1, hash_of_event(e));
    lemma_hash_index_of(hs2, hash_of_event(e));
    if hash_index_of(hs1, hash_of_event(e)) >= 0 {
        lemma_hash_index_extends(hs1, hs2, hash_of_event(e));
    } else {
        if hash_index_of(hs2, hash_of_event(e)) >= 0 {
            // grown into a duplicate: still blocked
        } else {
            match e.self_parent {
                Option::Some(hh) => {
                    lemma_hash_index_of(hs1, hh@);
                    if hash_index_of(hs1, hh@) >= 0 {
                        lemma_hash_index_extends(hs1, hs2, hh@);
                        assert(s2[hash_index_of(hs2, hh@)] == s1[hash_index_of(hs1, hh@)]);
                    }
                }
                Option::None => {}
            }
            match e.other_parent {
                Option::Some(hh) => {
                    lemma_hash_index_of(hs1, hh@);
                    if hash_index_of(hs1, hh@) >= 0 {
                        lemma_hash_index_extends(hs1, hs2, hh@);
                    }
                }
                Option::None => {}
            }
        }
    }
}

} // verus!
