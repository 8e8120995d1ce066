//! Virtual voting: deciding, for every witness, a binary fame verdict from
//! the graph's topology alone. Witnesses one round above the candidate vote
//! by sight; later witnesses aggregate, weighted by creator, the votes of the
//! previous round's witnesses that they strongly see. A supermajority in one
//! direction decides; a tie falls back to the event's deterministic coin bit.
//!
//! Every executable step mirrors a spec function over the store's skeleton,
//! so the verdict is a pure function of the graph: two stores holding the
//! same events decide the same fame.

use vstd::prelude::*;
use crate::graph::Hashgraph;
use crate::graph::Skel;
use crate::graph::sees;
use crate::graph::strongly_sees;
use crate::peers::PeerInfo;
use crate::peers::sum_weights;
use crate::peers::lemma_sum_weights_mono;

verus! {

/// The largest round any stored event carries.
pub open spec fn max_round(s: Seq<Skel>) -> int
    decreases s.len(),
{
    if s.len() == 0 {
        0
    } else {
        let r = max_round(s.drop_last());
        if s.last().round as int >= r {
            s.last().round as int
        } else {
            r
        }
    }
}

pub proof fn lemma_max_round(s: Seq<Skel>)
    ensures
        max_round(s) >= 0,
        forall|i: int| 0 <= i < s.len() ==> (#[trigger] s[i]).round <= max_round(s),
    decreases s.len(),
{
    if s.len() > 0 {
        lemma_max_round(s.drop_last());
        assert(forall|i: int|
            0 <= i < s.len() - 1 ==> #[trigger] s[i] == s.drop_last()[i]);
    }
}

/// How witness `v` votes on the fame of witness `w`; meaningful when `v`'s
/// round is above `w`'s. One round up, `v` votes by sight; higher up, by the
/// weighted votes it strongly sees, with the supermajority first, then the
/// larger side, then the coin.
pub open spec fn vote(s: Seq<Skel>, m: Seq<PeerInfo>, thr: int, w: int, v: int) -> bool
    decreases s[v].round as int, 3int, 0int, 0int,
{
    if !(0 <= v < s.len() && 0 <= w < s.len()) {
        false
    } else if s[v].round <= s[w].round {
        false
    } else if s[v].round == s[w].round + 1 {
        sees(s, v, w)
    } else {
        let y = vote_weight(s, m, thr, w, v, true, m.len() as int);
        let n = vote_weight(s, m, thr, w, v, false, m.len() as int);
        if y >= thr {
            true
        } else if n >= thr {
            false
        } else if y > n {
            true
        } else if n > y {
            false
        } else {
            s[v].coin
        }
    }
}

/// The combined weight of the creators below `c` contributing a `dir` vote on
/// `w` among the previous-round witnesses that `v` strongly sees.
pub open spec fn vote_weight(
    s: Seq<Skel>,
    m: Seq<PeerInfo>,
    thr: int,
    w: int,
    v: int,
    dir: bool,
    c: int,
) -> int
    decreases s[v].round as int, 2int, c, 0int,
{
    if c <= 0 {
        0
    } else {
        vote_weight(s, m, thr, w, v, dir, c - 1) + if has_voter(
            s,
            m,
            thr,
            w,
            v,
            dir,
            c - 1,
            s.len() as int,
        ) {
            m[c - 1].weight as int
        } else {
            0
        }
    }
}

/// Creator `c` has, below index `k`, a witness of the round before `v`'s that
/// `v` strongly sees and that votes `dir` on `w`.
pub open spec fn has_voter(
    s: Seq<Skel>,
    m: Seq<PeerInfo>,
    thr: int,
    w: int,
    v: int,
    dir: bool,
    c: int,
    k: int,
) -> bool
    decreases s[v].round as int, 1int, 0int, k,
{
    if k <= 0 {
        false
    } else {
        let u = k - 1;
        (if s[u].is_witness && s[u].round + 1 == s[v].round && s[u].creator == c
            && strongly_sees(s, m, thr, v, u) {
            vote(s, m, thr, w, u) == dir
        } else {
            false
        }) || has_voter(s, m, thr, w, v, dir, c, k - 1)
    }
}

pub proof fn lemma_vote_weight_le(
    s: Seq<Skel>,
    m: Seq<PeerInfo>,
    thr: int,
    w: int,
    v: int,
    dir: bool,
    c: int,
)
    ensures
        0 <= vote_weight(s, m, thr, w, v, dir, c) <= sum_weights(m, c),
    decreases c,
{
    if c > 0 {
        lemma_vote_weight_le(s, m, thr, w, v, dir, c - 1);
    }
}

pub proof fn lemma_has_voter_mono(
    s: Seq<Skel>,
    m: Seq<PeerInfo>,
    thr: int,
    w: int,
    v: int,
    dir: bool,
    c: int,
    k1: int,
    k2: int,
)
    requires
        k1 <= k2,
        has_voter(s, m, thr, w, v, dir, c, k1),
    ensures
        has_voter(s, m, thr, w, v, dir, c, k2),
    decreases k2,
{
    if k1 < k2 {
        lemma_has_voter_mono(s, m, thr, w, v, dir, c, k1, k2 - 1);
    }
}

/// The verdict witness `v` can decide for `w` on its own: a supermajority of
/// voting weight in one direction, two or more rounds above `w`.
pub open spec fn decided_at(s: Seq<Skel>, m: Seq<PeerInfo>, thr: int, w: int, v: int) -> Option<
    bool,
> {
    if 0 <= v < s.len() && 0 <= w < s.len() && s[v].is_witness && s[v].round >= s[w].round + 2 {
        let y = vote_weight(s, m, thr, w, v, true, m.len() as int);
        let n = vote_weight(s, m, thr, w, v, false, m.len() as int);
        if y >= thr {
            Option::Some(true)
        } else if n >= thr {
            Option::Some(false)
        } else {
            Option::None
        }
    } else {
        Option::None
    }
}

/// The first verdict among the round-`r` witnesses, scanning from index `k`.
pub open spec fn scan_round(
    s: Seq<Skel>,
    m: Seq<PeerInfo>,
    thr: int,
    w: int,
    r: int,
    k: int,
) -> Option<bool>
    decreases s.len() - k,
{
    if k >= s.len() || k < 0 {
        Option::None
    } else if s[k].is_witness && s[k].round == r && decided_at(s, m, thr, w, k) is Some {
        decided_at(s, m, thr, w, k)
    } else {
        scan_round(s, m, thr, w, r, k + 1)
    }
}

/// The verdict of the first deciding round at or above `r`, rounds scanned in
/// order, witnesses within a round in store order.
pub open spec fn find_decision(s: Seq<Skel>, m: Seq<PeerInfo>, thr: int, w: int, r: int) -> Option<
    bool,
>
    decreases max_round(s) + 1 - r,
{
    if r > max_round(s) {
        Option::None
    } else {
        match scan_round(s, m, thr, w, r, 0) {
            Option::Some(b) => Option::Some(b),
            Option::None => find_decision(s, m, thr, w, r + 1),
        }
    }
}

/// The fame verdict the decider assigns to `w` on the current graph: `None`
/// while no round has reached a supermajority either way.
pub open spec fn fame_spec(s: Seq<Skel>, m: Seq<PeerInfo>, thr: int, w: int) -> Option<bool> {
    if 0 <= w < s.len() && s[w].is_witness {
        find_decision(s, m, thr, w, s[w].round + 2)
    } else {
        Option::None
    }
}

pub proof fn lemma_max_round_le(s: Seq<Skel>, b: int)
    requires
        forall|i: int| 0 <= i < s.len() ==> (#[trigger] s[i]).round <= b,
        b >= 0,
    ensures
        max_round(s) <= (if s.len() == 0 { 0int } else { b }),
    decreases s.len(),
{
    if s.len() > 0 {
        assert(forall|i: int|
            0 <= i < s.len() - 1 ==> #[trigger] s.drop_last()[i] == s[i]);
        lemma_max_round_le(s.drop_last(), b);
    }
}

pub(crate) fn max_round_x(g: &Hashgraph) -> (r: u64)
    ensures
        r as int == max_round(g.skel@),
{
    let n = g.skel.len();
    let mut acc: u64 = 0;
    let mut i: usize = 0;
    while i < n
        invariant
            i <= n,
            n == g.skel@.len(),
            acc as int == max_round(g.skel@.take(i as int)),
        decreases n - i,
    {
        proof {
            assert(g.skel@.take(i + 1 as int).drop_last() =~= g.skel@.take(i as int));
            assert(g.skel@.take(i + 1 as int).last() == g.skel@[i as int]);
        }
        if g.skel[i].round > acc {
            acc = g.skel[i].round;
        }
        i = i + 1;
    }
    proof {
        assert(g.skel@.take(n as int) =~= g.skel@);
    }
    acc
}

fn vote_x(g: &Hashgraph, w: usize, v: usize) -> (r: bool)
    requires
        g.rels_ok(),
        w < g.skel@.len(),
        v < g.skel@.len(),
    ensures
        r == vote(g.skel@, g.peers.members@, g.thr(), w as int, v as int),
    decreases g.skel@[v as int].round as int, 3int, 0int, 0int,
{
    let rv = g.skel[v].round;
    let rw = g.skel[w].round;
    if rv <= rw {
        false
    } else if rv == rw + 1 {
        g.can_see(v, w)
    } else {
        let y = vote_weight_x(g, w, v, true);
        let n = vote_weight_x(g, w, v, false);
        if y >= g.peers.supermajority {
            true
        } else if n >= g.peers.supermajority {
            false
        } else if y > n {
            true
        } else if n > y {
            false
        } else {
            g.skel[v].coin
        }
    }
}

fn vote_weight_x(g: &Hashgraph, w: usize, v: usize, dir: bool) -> (r: u64)
    requires
        g.rels_ok(),
        w < g.skel@.len(),
        v < g.skel@.len(),
    ensures
        r == vote_weight(
            g.skel@,
            g.peers.members@,
            g.thr(),
            w as int,
            v as int,
            dir,
            g.peers.members@.len() as int,
        ),
    decreases g.skel@[v as int].round as int, 2int, 0int, 1int,
{
    let n = g.peers.members.len();
    let mut acc: u64 = 0;
    let mut c: usize = 0;
    while c < n
        invariant
            g.rels_ok(),
            w < g.skel@.len(),
            v < g.skel@.len(),
            n == g.peers.members@.len(),
            c <= n,
            acc == vote_weight(g.skel@, g.peers.members@, g.thr(), w as int, v as int, dir, c as int),
        decreases n - c,
    {
        proof {
            lemma_vote_weight_le(
                g.skel@,
                g.peers.members@,
                g.thr(),
                w as int,
                v as int,
                dir,
                c as int + 1,
            );
            lemma_sum_weights_mono(g.peers.members@, c as int + 1, n as int);
        }
        if has_voter_x(g, w, v, dir, c) {
            acc = acc + g.peers.members[c].weight;
        }
        c = c + 1;
    }
    acc
}

fn has_voter_x(g: &Hashgraph, w: usize, v: usize, dir: bool, c: usize) -> (r: bool)
    requires
        g.rels_ok(),
        w < g.skel@.len(),
        v < g.skel@.len(),
    ensures
        r == has_voter(
            g.skel@,
            g.peers.members@,
            g.thr(),
            w as int,
            v as int,
            dir,
            c as int,
            g.skel@.len() as int,
        ),
    decreases g.skel@[v as int].round as int, 2int, 0int, 0int,
{
    let n = g.skel.len();
    let rv = g.skel[v].round;
    let mut u: usize = 0;
    while u < n
        invariant
            g.rels_ok(),
            w < g.skel@.len(),
            v < g.skel@.len(),
            n == g.skel@.len(),
            u <= n,
            rv == g.skel@[v as int].round,
            !has_voter(
                g.skel@,
                g.peers.members@,
                g.thr(),
                w as int,
                v as int,
                dir,
                c as int,
                u as int,
            ),
        decreases n - u,
    {
        let su = g.skel[u];
        if su.is_witness && su.round < rv && rv - su.round == 1 && su.creator == c {
            if g.can_strongly_see(v, u) {
                let vt = vote_x(g, w, u);
                if vt == dir {
                    proof {
                        lemma_has_voter_mono(
                            g.skel@,
                            g.peers.members@,
                            g.thr(),
                            w as int,
                            v as int,
                            dir,
                            c as int,
                            u as int + 1,
                            n as int,
                        );
                    }
                    return true;
                }
            }
        }
        u = u + 1;
    }
    false
}

fn decided_at_x(g: &Hashgraph, w: usize, v: usize) -> (r: Option<bool>)
    requires
        g.rels_ok(),
        w < g.skel@.len(),
        v < g.skel@.len(),
    ensures
        r == decided_at(g.skel@, g.peers.members@, g.thr(), w as int, v as int),
{
    let rv = g.skel[v].round;
    let rw = g.skel[w].round;
    if !(g.skel[v].is_witness && rv >= 2 && rw <= rv - 2) {
        return Option::None;
    }
    let y = vote_weight_x(g, w, v, true);
    let n = vote_weight_x(g, w, v, false);
    if y >= g.peers.supermajority {
        Option::Some(true)
    } else if n >= g.peers.supermajority {
        Option::Some(false)
    } else {
        Option::None
    }
}

fn scan_round_x(g: &Hashgraph, w: usize, r: u64) -> (res: Option<bool>)
    requires
        g.rels_ok(),
        w < g.skel@.len(),
    ensures
        res == scan_round(g.skel@, g.peers.members@, g.thr(), w as int, r as int, 0),
{
    let n = g.skel.len();
    let mut k: usize = 0;
    while k < n
        invariant
            g.rels_ok(),
            w < g.skel@.len(),
            n == g.skel@.len(),
            k <= n,
            scan_round(g.skel@, g.peers.members@, g.thr(), w as int, r as int, 0)
                == scan_round(g.skel@, g.peers.members@, g.thr(), w as int, r as int, k as int),
        decreases n - k,
    {
        if g.skel[k].is_witness && g.skel[k].round == r {
            let d = decided_at_x(g, w, k);
            match d {
                Option::Some(b) => {
                    return Option::Some(b);
                }
                Option::None => {}
            }
        }
        k = k + 1;
    }
    Option::None
}

fn election_x(g: &Hashgraph, w: usize) -> (res: Option<bool>)
    requires
        g.rels_ok(),
        w < g.skel@.len(),
    ensures
        res == fame_spec(g.skel@, g.peers.members@, g.thr(), w as int),
{
    if !g.skel[w].is_witness {
        return Option::None;
    }
    let mr = max_round_x(g);
    let rw = g.skel[w].round;
    if mr < 2 || rw > mr - 2 {
        return Option::None;
    }
    let mut r: u64 = rw + 2;
    loop
        invariant
            g.rels_ok(),
            w < g.skel@.len(),
            g.skel@[w as int].is_witness,
            rw == g.skel@[w as int].round,
            mr as int == max_round(g.skel@),
            rw + 2 <= r <= mr,
            find_decision(g.skel@, g.peers.members@, g.thr(), w as int, rw + 2 as int)
                == find_decision(g.skel@, g.peers.members@, g.thr(), w as int, r as int),
        decreases mr - r,
    {
        let sr = scan_round_x(g, w, r);
        match sr {
            Option::Some(b) => {
                return Option::Some(b);
            }
            Option::None => {
                if r == mr {
                    return Option::None;
                }
                r = r + 1;
            }
        }
    }
}

impl Hashgraph {
    /// Runs the fame decider over every undecided witness. A verdict already
    /// made is never revisited; an undecided witness receives exactly the
    /// verdict that the election spec assigns on the current graph. Nothing
    /// but the fame fields changes.
    pub fn decide_fame(&mut self)
        requires
            old(self).wf(),
        ensures
            final(self).wf(),
            final(self).peers == old(self).peers,
            final(self).events@ == old(self).events@,
            final(self).hashes@ == old(self).hashes@,
            final(self).skel@ == old(self).skel@,
            final(self).state@.len() == old(self).state@.len(),
            forall|i: int|
                0 <= i < old(self).state@.len() ==> {
                    &&& (#[trigger] final(self).state@[i]).fame == (
                    if old(self).state@[i].fame is Some {
                        old(self).state@[i].fame
                    } else {
                        fame_spec(old(self).skel@, old(self).peers.members@, old(self).thr(), i)
                    })
                    &&& final(self).state@[i].received_round == old(self).state@[i].received_round
                    &&& final(self).state@[i].consensus_timestamp
                        == old(self).state@[i].consensus_timestamp
                    &&& final(self).state@[i].consensus_order == old(self).state@[i].consensus_order
                },
    {
        let n = self.state.len();
        let mut i: usize = 0;
        while i < n
            invariant
                self.wf(),
                n == self.state@.len(),
                i <= n,
                self.peers == old(self).peers,
                self.events@ == old(self).events@,
                self.hashes@ == old(self).hashes@,
                self.skel@ == old(self).skel@,
                self.state@.len() == old(self).state@.len(),
                forall|k: int|
                    i <= k < n ==> #[trigger] self.state@[k] == old(self).state@[k],
                forall|k: int|
                    0 <= k < i ==> {
                        &&& (#[trigger] self.state@[k]).fame == (
                        if old(self).state@[k].fame is Some {
                            old(self).state@[k].fame
                        } else {
                            fame_spec(old(self).skel@, old(self).peers.members@, old(self).thr(), k)
                        })
                        &&& self.state@[k].received_round == old(self).state@[k].received_round
                        &&& self.state@[k].consensus_timestamp
                            == old(self).state@[k].consensus_timestamp
                        &&& self.state@[k].consensus_order == old(self).state@[k].consensus_order
                    },
            decreases n - i,
        {
            let ghost pre = *self;
            let already = self.state[i].fame.is_some();
            if !already {
                if self.skel[i].is_witness {
                    let verdict = election_x(self, i);
                    let mut st = self.state[i];
                    st.fame = verdict;
                    self.state.set(i, st);
                    proof {
                        assert forall|k: int| 0 <= k < self.n() implies #[trigger] self.entry_linked(
                            k,
                        ) by {
                            assert(pre.entry_linked(k));
                        }
                        assert forall|a: int, b: int|
                            0 <= a < self.n() && 0 <= b < self.n() && a != b
                            implies self.hashes@[a]@ != self.hashes@[b]@ by {
                            assert(pre.hashes@[a]@ != pre.hashes@[b]@);
                        }
                    }
                } else {
                    proof {
                        assert(fame_spec(
                            self.skel@,
                            self.peers.members@,
                            self.thr(),
                            i as int,
                        ) is None);
                    }
                }
            }
            i = i + 1;
        }
    }
}

} // verus!
