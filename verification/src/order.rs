//! Consensus ordering: once every witness of a round carries a fame verdict
//! the round is decided, events seen by all its famous witnesses receive that
//! round, their consensus timestamp is the median of the famous witnesses'
//! first-seeing timestamps, and finalized events are ranked into a strict
//! total order by received round, then timestamp, then event hash.

use vstd::prelude::*;
use crate::graph::Hashgraph;
use crate::graph::Skel;
use crate::graph::CState;
use crate::graph::sees;
use crate::graph::skel_at_ok;
use crate::event::EventHash;
use crate::fame::max_round;
use crate::fame::lemma_max_round;

verus! {

/// Every witness of round `r` carries a fame verdict.
pub open spec fn all_witnesses_decided(s: Seq<Skel>, st: Seq<CState>, r: int) -> bool {
    forall|w: int|
        0 <= w < s.len() && (#[trigger] s[w]).is_witness && s[w].round == r
            ==> st[w].fame is Some
}

/// `w` is a famous witness of round `r`.
pub open spec fn famous_at(s: Seq<Skel>, st: Seq<CState>, w: int, r: int) -> bool {
    0 <= w < s.len() && s[w].is_witness && s[w].round == r && st[w].fame == Option::Some(true)
}

pub open spec fn exists_famous(s: Seq<Skel>, st: Seq<CState>, r: int) -> bool {
    exists|w: int| famous_at(s, st, w, r)
}

/// Event `e` is received at round `r`: that round and every round below it
/// are decided (so the consensus index is handed out as rounds decide, in
/// round order), `r` has famous witnesses, and every one of them sees `e`.
pub open spec fn receives_at(s: Seq<Skel>, st: Seq<CState>, e: int, r: int) -> bool {
    &&& 0 <= e < s.len() && s[e].round <= r
    &&& (forall|q: int| 0 <= q <= r ==> #[trigger] all_witnesses_decided(s, st, q))
    &&& exists_famous(s, st, r)
    &&& forall|w: int| famous_at(s, st, w, r) ==> sees(s, w, e)
}

/// The first round at or above `r` at which `e` is received.
pub open spec fn first_receive(s: Seq<Skel>, st: Seq<CState>, e: int, r: int) -> Option<int>
    decreases max_round(s) + 1 - r,
{
    if r > max_round(s) {
        Option::None
    } else if receives_at(s, st, e, r) {
        Option::Some(r)
    } else {
        first_receive(s, st, e, r + 1)
    }
}

/// The earliest event in `w`'s self-ancestor chain from which `e` is
/// continuously seen: walk down while the self-parent still sees `e`.
pub open spec fn first_seer(s: Seq<Skel>, w: int, e: int) -> int
    decreases w,
{
    if 0 <= w < s.len() {
        match s[w].self_parent {
            Option::Some(p) => if 0 <= p < w && sees(s, p as int, e) {
                first_seer(s, p as int, e)
            } else {
                w
            },
            Option::None => w,
        }
    } else {
        w
    }
}

/// The first-seeing timestamps of the famous witnesses of round `r`, below
/// index `k`, in store order.
pub open spec fn ts_list(s: Seq<Skel>, st: Seq<CState>, e: int, r: int, k: int) -> Seq<u64>
    decreases k,
{
    if k <= 0 {
        Seq::empty()
    } else {
        ts_list(s, st, e, r, k - 1) + if famous_at(s, st, k - 1, r) {
            seq![s[first_seer(s, k - 1, e)].timestamp]
        } else {
            Seq::empty()
        }
    }
}

pub open spec fn sorted_insert(q: Seq<u64>, x: u64) -> Seq<u64>
    decreases q.len(),
{
    if q.len() == 0 {
        seq![x]
    } else if x <= q[0] {
        seq![x] + q
    } else {
        seq![q[0]] + sorted_insert(q.drop_first(), x)
    }
}

pub open spec fn sort_seq(q: Seq<u64>) -> Seq<u64>
    decreases q.len(),
{
    if q.len() == 0 {
        q
    } else {
        sorted_insert(sort_seq(q.drop_first()), q[0])
    }
}

pub proof fn lemma_sorted_insert_len(q: Seq<u64>, x: u64)
    ensures
        sorted_insert(q, x).len() == q.len() + 1,
    decreases q.len(),
{
    if q.len() > 0 && !(x <= q[0]) {
        lemma_sorted_insert_len(q.drop_first(), x);
    }
}

pub proof fn lemma_sort_seq_len(q: Seq<u64>)
    ensures
        sort_seq(q).len() == q.len(),
    decreases q.len(),
{
    if q.len() > 0 {
        lemma_sort_seq_len(q.drop_first());
        lemma_sorted_insert_len(sort_seq(q.drop_first()), q[0]);
    }
}

/// The Byzantine-robust middle of a list of timestamps: the lower median of
/// the sorted list, 0 for an empty list.
pub open spec fn median_of(q: Seq<u64>) -> u64 {
    if q.len() == 0 {
        0
    } else {
        sort_seq(q)[((q.len() - 1) / 2) as int]
    }
}

/// The consensus timestamp `e` gets when received at round `r`.
pub open spec fn consensus_ts(s: Seq<Skel>, st: Seq<CState>, e: int, r: int) -> u64 {
    median_of(ts_list(s, st, e, r, s.len() as int))
}

/// Strict lexicographic order on byte strings.
pub open spec fn lex_less(a: Seq<u8>, b: Seq<u8>) -> bool
    decreases a.len(),
{
    if a.len() == 0 {
        b.len() > 0
    } else if b.len() == 0 {
        false
    } else if a[0] < b[0] {
        true
    } else if a[0] > b[0] {
        false
    } else {
        lex_less(a.drop_first(), b.drop_first())
    }
}

/// The strict total order on finalized events: received round, then
/// consensus timestamp, then event hash.
pub open spec fn opt_u64(o: Option<u64>) -> u64 {
    match o {
        Option::Some(x) => x,
        Option::None => 0,
    }
}

pub open spec fn key_less(st: Seq<CState>, hs: Seq<EventHash>, a: int, b: int) -> bool {
    let ra = opt_u64(st[a].received_round);
    let rb = opt_u64(st[b].received_round);
    let ta = opt_u64(st[a].consensus_timestamp);
    let tb = opt_u64(st[b].consensus_timestamp);
    ra < rb || (ra == rb && (ta < tb || (ta == tb && lex_less(hs[a]@, hs[b]@))))
}

/// How many finalized events below `k` order strictly before `e`.
pub open spec fn rank_below(st: Seq<CState>, hs: Seq<EventHash>, e: int, k: int) -> int
    decreases k,
{
    if k <= 0 {
        0
    } else {
        rank_below(st, hs, e, k - 1) + if st[k - 1].received_round is Some && key_less(
            st,
            hs,
            k - 1,
            e,
        ) {
            1int
        } else {
            0int
        }
    }
}

pub proof fn lemma_rank_le(st: Seq<CState>, hs: Seq<EventHash>, e: int, k: int)
    ensures
        0 <= rank_below(st, hs, e, k) <= (if k >= 0 { k } else { 0int }),
    decreases k,
{
    if k > 0 {
        lemma_rank_le(st, hs, e, k - 1);
    }
}

/// The received round the orderer assigns to `i` on this pass.
pub open spec fn recv_val(s: Seq<Skel>, st: Seq<CState>, i: int) -> Option<u64> {
    if st[i].received_round is Some {
        st[i].received_round
    } else {
        match first_receive(s, st, i, s[i].round as int) {
            Option::Some(r) => Option::Some(r as u64),
            Option::None => Option::None,
        }
    }
}

/// The consensus timestamp the orderer assigns to `i` on this pass.
pub open spec fn ts_val(s: Seq<Skel>, st: Seq<CState>, i: int) -> Option<u64> {
    if st[i].consensus_timestamp is Some {
        st[i].consensus_timestamp
    } else if st[i].received_round is None {
        match first_receive(s, st, i, s[i].round as int) {
            Option::Some(r) => Option::Some(consensus_ts(s, st, i, r)),
            Option::None => Option::None,
        }
    } else {
        Option::None
    }
}

/// The state after received rounds and timestamps are assigned.
pub open spec fn mid_state(s: Seq<Skel>, st: Seq<CState>) -> Seq<CState> {
    Seq::new(
        st.len(),
        |i: int|
            CState {
                fame: st[i].fame,
                received_round: recv_val(s, st, i),
                consensus_timestamp: ts_val(s, st, i),
                consensus_order: st[i].consensus_order,
            },
    )
}

/// The consensus order the orderer assigns to `i` on this pass, over the
/// mid-pass state `mid`.
pub open spec fn order_val(mid: Seq<CState>, hs: Seq<EventHash>, i: int) -> Option<u64> {
    if mid[i].consensus_order is Some {
        mid[i].consensus_order
    } else if mid[i].received_round is Some {
        Option::Some(rank_below(mid, hs, i, mid.len() as int) as u64)
    } else {
        Option::None
    }
}

} // verus!

verus! {

fn first_seer_x(g: &Hashgraph, w: usize, e: usize) -> (r: usize)
    requires
        g.rels_ok(),
        w < g.skel@.len(),
        e < g.skel@.len(),
    ensures
        r as int == first_seer(g.skel@, w as int, e as int),
        r < g.skel@.len(),
    decreases w,
{
    proof {
        assert(skel_at_ok(g.skel@, w as int));
    }
    match g.skel[w].self_parent {
        Option::Some(p) => {
            if g.can_see(p, e) {
                first_seer_x(g, p, e)
            } else {
                w
            }
        }
        Option::None => w,
    }
}

fn round_decided_x(g: &Hashgraph, q: u64) -> (res: bool)
    requires
        g.wf(),
    ensures
        res == all_witnesses_decided(g.skel@, g.state@, q as int),
{
    let n = g.skel.len();
    let mut w: usize = 0;
    while w < n
        invariant
            g.wf(),
            n == g.skel@.len(),
            w <= n,
            forall|k: int|
                0 <= k < w && (#[trigger] g.skel@[k]).is_witness && g.skel@[k].round == q as int
                    ==> g.state@[k].fame is Some,
        decreases n - w,
    {
        if g.skel[w].is_witness && g.skel[w].round == q {
            if g.state[w].fame.is_none() {
                return false;
            }
        }
        w = w + 1;
    }
    true
}

fn receives_at_x(g: &Hashgraph, e: usize, r: u64) -> (res: bool)
    requires
        g.wf(),
        e < g.skel@.len(),
    ensures
        res == receives_at(g.skel@, g.state@, e as int, r as int),
{
    if g.skel[e].round > r {
        return false;
    }
    let mut q: u64 = 0;
    while q < r
        invariant
            g.wf(),
            e < g.skel@.len(),
            q <= r,
            forall|p: int| 0 <= p < q ==> #[trigger] all_witnesses_decided(g.skel@, g.state@, p),
        decreases r - q,
    {
        if !round_decided_x(g, q) {
            assert(!all_witnesses_decided(g.skel@, g.state@, q as int));
            return false;
        }
        q = q + 1;
    }
    if !round_decided_x(g, r) {
        assert(!all_witnesses_decided(g.skel@, g.state@, r as int));
        return false;
    }
    assert(forall|p: int|
        0 <= p <= r ==> #[trigger] all_witnesses_decided(g.skel@, g.state@, p));
    let n = g.skel.len();
    let mut found = false;
    let mut w: usize = 0;
    while w < n
        invariant
            g.wf(),
            e < g.skel@.len(),
            n == g.skel@.len(),
            w <= n,
            forall|k: int|
                0 <= k < w && (#[trigger] g.skel@[k]).is_witness && g.skel@[k].round == r as int
                    ==> g.state@[k].fame is Some,
            found == exists|k: int| 0 <= k < w && famous_at(g.skel@, g.state@, k, r as int),
            forall|k: int|
                0 <= k < w && famous_at(g.skel@, g.state@, k, r as int)
                    ==> sees(g.skel@, k, e as int),
        decreases n - w,
    {
        if g.skel[w].is_witness && g.skel[w].round == r {
            if g.state[w].fame.is_none() {
                assert(!all_witnesses_decided(g.skel@, g.state@, r as int));
                return false;
            }
            match g.state[w].fame {
                Option::Some(true) => {
                    assert(famous_at(g.skel@, g.state@, w as int, r as int));
                    if !g.can_see(w, e) {
                        return false;
                    }
                    found = true;
                }
                _ => {}
            }
        }
        w = w + 1;
    }
    if !found {
        proof {
            if exists_famous(g.skel@, g.state@, r as int) {
                let k = choose|k: int| famous_at(g.skel@, g.state@, k, r as int);
                assert(false);
            }
        }
        return false;
    }
    proof {
        assert forall|k: int| famous_at(g.skel@, g.state@, k, r as int)
            implies sees(g.skel@, k, e as int) by {}
    }
    true
}

fn first_receive_x(g: &Hashgraph, e: usize) -> (res: Option<u64>)
    requires
        g.wf(),
        e < g.skel@.len(),
    ensures
        match res {
            Option::Some(r) => first_receive(g.skel@, g.state@, e as int, g.skel@[e as int].round as int)
                == Option::Some(r as int),
            Option::None => first_receive(g.skel@, g.state@, e as int, g.skel@[e as int].round as int)
                is None,
        },
{
    let mr = max_round_x_local(g);
    let mut r: u64 = g.skel[e].round;
    proof {
        lemma_max_round(g.skel@);
        assert(g.skel@[e as int].round <= max_round(g.skel@));
    }
    loop
        invariant
            g.wf(),
            e < g.skel@.len(),
            mr as int == max_round(g.skel@),
            g.skel@[e as int].round <= r <= mr,
            first_receive(g.skel@, g.state@, e as int, g.skel@[e as int].round as int)
                == first_receive(g.skel@, g.state@, e as int, r as int),
        decreases mr - r,
    {
        if receives_at_x(g, e, r) {
            return Option::Some(r);
        }
        if r == mr {
            proof {
                assert(first_receive(g.skel@, g.state@, e as int, r as int)
                    == first_receive(g.skel@, g.state@, e as int, r as int + 1));
                assert(first_receive(g.skel@, g.state@, e as int, r as int + 1) is None);
            }
            return Option::None;
        }
        r = r + 1;
    }
}

fn max_round_x_local(g: &Hashgraph) -> (r: u64)
    ensures
        r as int == max_round(g.skel@),
{
    let n = g.skel.len();
    let mut acc: u64 = 0;
    let mut i: usize = 0;
    while i < n
        invariant
            i <= n,
            n == g.skel@.len(),
            acc as int == max_round(g.skel@.take(i as int)),
        decreases n - i,
    {
        proof {
            assert(g.skel@.take(i + 1 as int).drop_last() =~= g.skel@.take(i as int));
            assert(g.skel@.take(i + 1 as int).last() == g.skel@[i as int]);
        }
        if g.skel[i].round > acc {
            acc = g.skel[i].round;
        }
        i = i + 1;
    }
    proof {
        assert(g.skel@.take(n as int) =~= g.skel@);
    }
    acc
}

fn insert_from(q: &Vec<u64>, i: usize, x: u64) -> (r: Vec<u64>)
    requires
        i <= q@.len(),
    ensures
        r@ == sorted_insert(q@.skip(i as int), x),
    decreases q@.len() - i,
{
    if i >= q.len() {
        let mut out: Vec<u64> = Vec::new();
        out.push(x);
        proof {
            assert(q@.skip(i as int) =~= Seq::<u64>::empty());
            assert(out@ =~= seq![x]);
        }
        out
    } else if x <= q[i] {
        let mut out: Vec<u64> = Vec::new();
        out.push(x);
        let mut j: usize = i;
        while j < q.len()
            invariant
                i <= j <= q@.len(),
                out@ == seq![x] + q@.subrange(i as int, j as int),
            decreases q@.len() - j,
        {
            out.push(q[j]);
            assert(out@ == seq![x] + q@.subrange(i as int, j + 1 as int));
            j = j + 1;
        }
        proof {
            assert(q@.subrange(i as int, q@.len() as int) =~= q@.skip(i as int));
            assert(q@.skip(i as int).len() > 0);
            assert(q@.skip(i as int)[0] == q@[i as int]);
        }
        out
    } else {
        let mut rest = insert_from(q, i + 1, x);
        rest.insert(0, q[i]);
        proof {
            assert(q@.skip(i as int).len() > 0);
            assert(q@.skip(i as int)[0] == q@[i as int]);
            assert(q@.skip(i as int).drop_first() =~= q@.skip(i + 1 as int));
            assert(rest@ =~= seq![q@[i as int]] + sorted_insert(q@.skip(i + 1 as int), x));
        }
        rest
    }
}

fn sort_ts(v: &Vec<u64>) -> (r: Vec<u64>)
    ensures
        r@ == sort_seq(v@),
{
    let n = v.len();
    let mut out: Vec<u64> = Vec::new();
    proof {
        assert(v@.skip(n as int) =~= Seq::<u64>::empty());
    }
    let mut i: usize = n;
    while i > 0
        invariant
            i <= n,
            n == v@.len(),
            out@ == sort_seq(v@.skip(i as int)),
        decreases i,
    {
        i = i - 1;
        out = insert_from(&out, 0, v[i]);
        proof {
            assert(out@ == sorted_insert(sort_seq(v@.skip(i + 1 as int)), v@[i as int])) by {
                assert(sort_seq(v@.skip(i + 1 as int)).skip(0)
                    =~= sort_seq(v@.skip(i + 1 as int)));
            }
            assert(v@.skip(i as int).len() > 0);
            assert(v@.skip(i as int)[0] == v@[i as int]);
            assert(v@.skip(i as int).drop_first() =~= v@.skip(i + 1 as int));
        }
    }
    proof {
        assert(v@.skip(0) =~= v@);
    }
    out
}

fn median_x(v: &Vec<u64>) -> (r: u64)
    ensures
        r == median_of(v@),
{
    if v.len() == 0 {
        return 0;
    }
    proof {
        lemma_sort_seq_len(v@);
    }
    let sorted = sort_ts(v);
    sorted[(v.len() - 1) / 2]
}

fn lex_less_x(a: &Vec<u8>, b: &Vec<u8>) -> (r: bool)
    ensures
        r == lex_less(a@, b@),
{
    let mut i: usize = 0;
    proof {
        assert(a@.skip(0) =~= a@);
        assert(b@.skip(0) =~= b@);
    }
    while i < a.len() && i < b.len()
        invariant
            i <= a@.len(),
            i <= b@.len(),
            lex_less(a@, b@) == lex_less(a@.skip(i as int), b@.skip(i as int)),
        decreases a@.len() - i,
    {
        proof {
            assert(a@.skip(i as int)[0] == a@[i as int]);
            assert(b@.skip(i as int)[0] == b@[i as int]);
            assert(a@.skip(i as int).drop_first() =~= a@.skip(i + 1 as int));
            assert(b@.skip(i as int).drop_first() =~= b@.skip(i + 1 as int));
        }
        if a[i] < b[i] {
            return true;
        }
        if a[i] > b[i] {
            return false;
        }
        i = i + 1;
    }
    proof {
        assert(a@.skip(i as int).len() == a@.len() - i);
        assert(b@.skip(i as int).len() == b@.len() - i);
    }
    i >= a.len() && i < b.len()
}

} // verus!

verus! {

fn opt_u64_x(o: Option<u64>) -> (r: u64)
    ensures
        r == opt_u64(o),
{
    match o {
        Option::Some(x) => x,
        Option::None => 0,
    }
}

fn ts_for(g: &Hashgraph, e: usize, r: u64) -> (res: u64)
    requires
        g.wf(),
        e < g.skel@.len(),
    ensures
        res == consensus_ts(g.skel@, g.state@, e as int, r as int),
{
    let n = g.skel.len();
    let mut list: Vec<u64> = Vec::new();
    let mut k: usize = 0;
    while k < n
        invariant
            g.wf(),
            e < g.skel@.len(),
            n == g.skel@.len(),
            k <= n,
            list@ == ts_list(g.skel@, g.state@, e as int, r as int, k as int),
        decreases n - k,
    {
        let mut famous = false;
        if g.skel[k].is_witness && g.skel[k].round == r {
            match g.state[k].fame {
                Option::Some(true) => {
                    famous = true;
                }
                _ => {}
            }
        }
        if famous {
            let fs = first_seer_x(g, k, e);
            list.push(g.skel[fs].timestamp);
        }
        k = k + 1;
    }
    median_x(&list)
}

fn key_less_x(st: &Vec<CState>, hs: &Vec<EventHash>, a: usize, b: usize) -> (r: bool)
    requires
        a < st@.len(),
        b < st@.len(),
        a < hs@.len(),
        b < hs@.len(),
    ensures
        r == key_less(st@, hs@, a as int, b as int),
{
    let ra = opt_u64_x(st[a].received_round);
    let rb = opt_u64_x(st[b].received_round);
    let ta = opt_u64_x(st[a].consensus_timestamp);
    let tb = opt_u64_x(st[b].consensus_timestamp);
    if ra < rb {
        true
    } else if ra == rb {
        if ta < tb {
            true
        } else if ta == tb {
            lex_less_x(&hs[a].bytes, &hs[b].bytes)
        } else {
            false
        }
    } else {
        false
    }
}

fn rank_x(st: &Vec<CState>, hs: &Vec<EventHash>, e: usize) -> (r: u64)
    requires
        st@.len() == hs@.len(),
        e < st@.len(),
    ensures
        r == rank_below(st@, hs@, e as int, st@.len() as int),
{
    let n = st.len();
    let mut count: u64 = 0;
    let mut j: usize = 0;
    while j < n
        invariant
            n == st@.len(),
            st@.len() == hs@.len(),
            e < st@.len(),
            j <= n,
            count == rank_below(st@, hs@, e as int, j as int),
            count <= j,
        decreases n - j,
    {
        proof {
            lemma_rank_le(st@, hs@, e as int, j as int + 1);
        }
        if st[j].received_round.is_some() {
            if key_less_x(st, hs, j, e) {
                count = count + 1;
            }
        }
        j = j + 1;
    }
    count
}

impl Hashgraph {
    /// One ordering pass: every event not yet received that every famous
    /// witness of a decided round sees gets that round and the median of the
    /// famous witnesses' first-seeing timestamps; every finalized event
    /// without a consensus order gets its rank in the strict
    /// (received round, timestamp, hash) order. Decided fields are never
    /// revisited; nothing but received round, timestamp and order changes.
    pub fn update_order(&mut self)
        requires
            old(self).wf(),
        ensures
            final(self).wf(),
            final(self).peers == old(self).peers,
            final(self).events@ == old(self).events@,
            final(self).hashes@ == old(self).hashes@,
            final(self).skel@ == old(self).skel@,
            final(self).state@.len() == old(self).state@.len(),
            forall|i: int|
                0 <= i < old(self).state@.len() ==> {
                    &&& (#[trigger] final(self).state@[i]).fame == old(self).state@[i].fame
                    &&& final(self).state@[i].received_round == recv_val(
                        old(self).skel@,
                        old(self).state@,
                        i,
                    )
                    &&& final(self).state@[i].consensus_timestamp == ts_val(
                        old(self).skel@,
                        old(self).state@,
                        i,
                    )
                    &&& final(self).state@[i].consensus_order == order_val(
                        mid_state(old(self).skel@, old(self).state@),
                        old(self).hashes@,
                        i,
                    )
                },
    {
        let n = self.state.len();
        let ghost st0 = self.state@;
        let mut mid: Vec<CState> = Vec::new();
        let mut i: usize = 0;
        while i < n
            invariant
                self.wf(),
                *self == *old(self),
                n == self.state@.len(),
                i <= n,
                mid@.len() == i,
                forall|k: int|
                    0 <= k < i ==> #[trigger] mid@[k] == mid_state(self.skel@, self.state@)[k],
            decreases n - i,
        {
            let st = self.state[i];
            let newst: CState = if st.received_round.is_none() {
                match first_receive_x(self, i) {
                    Option::Some(r) => {
                        let ts = ts_for(self, i, r);
                        CState {
                            fame: st.fame,
                            received_round: Option::Some(r),
                            consensus_timestamp: if st.consensus_timestamp.is_none() {
                                Option::Some(ts)
                            } else {
                                st.consensus_timestamp
                            },
                            consensus_order: st.consensus_order,
                        }
                    }
                    Option::None => st,
                }
            } else {
                st
            };
            mid.push(newst);
            proof {
                assert(mid@[i as int] == mid_state(self.skel@, self.state@)[i as int]);
            }
            i = i + 1;
        }
        let ghost pre = *self;
        self.state = mid;
        proof {
            assert(self.state@ =~= mid_state(pre.skel@, st0));
            assert forall|k: int| 0 <= k < self.n() implies #[trigger] self.entry_linked(k) by {
                assert(pre.entry_linked(k));
            }
            assert forall|a: int, b: int|
                0 <= a < self.n() && 0 <= b < self.n() && a != b
                implies self.hashes@[a]@ != self.hashes@[b]@ by {
                assert(pre.hashes@[a]@ != pre.hashes@[b]@);
            }
        }
        let ghost midseq = self.state@;
        let mut fin: Vec<CState> = Vec::new();
        let mut j: usize = 0;
        while j < n
            invariant
                self.wf(),
                self.peers == old(self).peers,
                self.events@ == old(self).events@,
                self.hashes@ == old(self).hashes@,
                self.skel@ == old(self).skel@,
                self.state@ == midseq,
                midseq.len() == n,
                n == self.state@.len(),
                self.state@.len() == self.hashes@.len(),
                j <= n,
                fin@.len() == j,
                forall|k: int|
                    0 <= k < j ==> {
                        &&& (#[trigger] fin@[k]).fame == midseq[k].fame
                        &&& fin@[k].received_round == midseq[k].received_round
                        &&& fin@[k].consensus_timestamp == midseq[k].consensus_timestamp
                        &&& fin@[k].consensus_order == order_val(midseq, self.hashes@, k)
                    },
            decreases n - j,
        {
            let st = self.state[j];
            let newst: CState = if st.consensus_order.is_none() && st.received_round.is_some() {
                proof {
                    lemma_rank_le(self.state@, self.hashes@, j as int, self.state@.len() as int);
                }
                let rk = rank_x(&self.state, &self.hashes, j);
                CState {
                    fame: st.fame,
                    received_round: st.received_round,
                    consensus_timestamp: st.consensus_timestamp,
                    consensus_order: Option::Some(rk),
                }
            } else {
                st
            };
            fin.push(newst);
            proof {
                assert(fin@[j as int].consensus_order == order_val(midseq, self.hashes@, j as int));
            }
            j = j + 1;
        }
        let ghost pre2 = *self;
        self.state = fin;
        proof {
            assert forall|k: int| 0 <= k < self.n() implies #[trigger] self.entry_linked(k) by {
                assert(pre2.entry_linked(k));
            }
            assert forall|a: int, b: int|
                0 <= a < self.n() && 0 <= b < self.n() && a != b
                implies self.hashes@[a]@ != self.hashes@[b]@ by {
                assert(pre2.hashes@[a]@ != pre2.hashes@[b]@);
            }
        }
    }
}

} // verus!

verus! {

pub proof fn lemma_lex_irrefl(a: Seq<u8>)
    ensures
        !lex_less(a, a),
    decreases a.len(),
{
    if a.len() > 0 {
        lemma_lex_irrefl(a.drop_first());
    }
}

pub proof fn lemma_lex_total(a: Seq<u8>, b: Seq<u8>)
    requires
        a != b,
    ensures
        lex_less(a, b) || lex_less(b, a),
    decreases a.len(),
{
    if a.len() == 0 {
        if b.len() == 0 {
            assert(a =~= b);
        }
    } else if b.len() == 0 {
    } else if a[0] == b[0] {
        if a.len() != b.len() {
            assert(a.drop_first().len() != b.drop_first().len());
            lemma_lex_total(a.drop_first(), b.drop_first());
        } else if a.drop_first() == b.drop_first() {
            assert forall|i: int| 0 <= i < a.len() implies a[i] == b[i] by {
                if i > 0 {
                    assert(a.drop_first()[i - 1] == a[i]);
                    assert(b.drop_first()[i - 1] == b[i]);
                }
            }
            assert(a =~= b);
        } else {
            lemma_lex_total(a.drop_first(), b.drop_first());
        }
    }
}

pub proof fn lemma_lex_trans(a: Seq<u8>, b: Seq<u8>, c: Seq<u8>)
    requires
        lex_less(a, b),
        lex_less(b, c),
    ensures
        lex_less(a, c),
    decreases a.len(),
{
    if a.len() > 0 && b.len() > 0 && c.len() > 0 {
        if a[0] == b[0] && b[0] == c[0] {
            lemma_lex_trans(a.drop_first(), b.drop_first(), c.drop_first());
        }
    }
}

pub proof fn lemma_key_trans(st: Seq<CState>, hs: Seq<EventHash>, a: int, b: int, c: int)
    requires
        key_less(st, hs, a, b),
        key_less(st, hs, b, c),
    ensures
        key_less(st, hs, a, c),
{
    if opt_u64(st[a].received_round) == opt_u64(st[b].received_round)
        && opt_u64(st[b].received_round) == opt_u64(st[c].received_round)
        && opt_u64(st[a].consensus_timestamp) == opt_u64(st[b].consensus_timestamp)
        && opt_u64(st[b].consensus_timestamp) == opt_u64(st[c].consensus_timestamp) {
        lemma_lex_trans(hs[a]@, hs[b]@, hs[c]@);
    }
}

proof fn lemma_rank_pointwise(st: Seq<CState>, hs: Seq<EventHash>, i: int, j: int, k: int)
    requires
        0 <= i < st.len(),
        st[i].received_round is Some,
        key_less(st, hs, i, j),
        i != j,
    ensures
        rank_below(st, hs, j, k) >= rank_below(st, hs, i, k) + (if i < k {
            1int
        } else {
            0int
        }),
    decreases k,
{
    if k > 0 {
        lemma_rank_pointwise(st, hs, i, j, k - 1);
        if k - 1 == i {
            lemma_lex_irrefl(hs[i]@);
            assert(!key_less(st, hs, i, i));
        } else {
            if st[k - 1].received_round is Some && key_less(st, hs, k - 1, i) {
                lemma_key_trans(st, hs, k - 1, i, j);
            }
        }
    }
}

/// A piece of the agreement guarantee: the (received round, timestamp, hash)
/// order on finalized events is strict — two different finalized events with
/// different hashes never share a rank, so no store ever assigns the same
/// consensus order twice in one pass.
pub proof fn lemma_order_strict(st: Seq<CState>, hs: Seq<EventHash>, i: int, j: int)
    requires
        0 <= i < st.len(),
        0 <= j < st.len(),
        i != j,
        st.len() == hs.len(),
        st[i].received_round is Some,
        st[j].received_round is Some,
        hs[i]@ != hs[j]@,
    ensures
        rank_below(st, hs, i, st.len() as int) != rank_below(st, hs, j, st.len() as int),
{
    lemma_lex_total(hs[i]@, hs[j]@);
    if key_less(st, hs, i, j) {
        lemma_rank_pointwise(st, hs, i, j, st.len() as int);
    } else {
        assert(key_less(st, hs, j, i));
        lemma_rank_pointwise(st, hs, j, i, st.len() as int);
    }
}

} // verus!
