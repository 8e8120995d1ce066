//! The fixed participant set: stable identities, public keys and vote
//! weights, the total weight `W`, and the supermajority threshold
//! `2W/3 + 1` that both round assignment and virtual voting use.

use vstd::prelude::*;
use crate::event::hash_eq;

verus! {

/// One participant: its stable identity, its public key, and its vote weight.
pub struct PeerInfo {
    pub id: Vec<u8>,
    pub public_key: Vec<u8>,
    pub weight: u64,
}

/// The sum of the weights of the first `n` members.
pub open spec fn sum_weights(m: Seq<PeerInfo>, n: int) -> int
    decreases n,
{
    if n <= 0 {
        0
    } else {
        sum_weights(m, n - 1) + m[n - 1].weight
    }
}

/// No two members carry the same identity.
pub open spec fn distinct_ids(m: Seq<PeerInfo>) -> bool {
    forall|i: int, j: int|
        0 <= i < m.len() && 0 <= j < m.len() && i != j ==> m[i].id@ != m[j].id@
}

/// The index of the member with the given identity, or -1; scanning from the
/// front, so the first match wins.
pub open spec fn peer_index_of(m: Seq<PeerInfo>, id: Seq<u8>) -> int
    decreases m.len(),
{
    if m.len() == 0 {
        -1
    } else if m[0].id@ == id {
        0
    } else {
        let rest = peer_index_of(m.drop_first(), id);
        if rest < 0 {
            -1
        } else {
            rest + 1
        }
    }
}

pub proof fn lemma_peer_index_of(m: Seq<PeerInfo>, id: Seq<u8>)
    ensures
        peer_index_of(m, id) >= 0 ==> peer_index_of(m, id) < m.len()
            && m[peer_index_of(m, id)].id@ == id
            && forall|j: int| 0 <= j < peer_index_of(m, id) ==> m[j].id@ != id,
        peer_index_of(m, id) < 0 ==> forall|i: int| 0 <= i < m.len() ==> m[i].id@ != id,
    decreases m.len(),
{
    if m.len() > 0 && m[0].id@ != id {
        lemma_peer_index_of(m.drop_first(), id);
        if peer_index_of(m.drop_first(), id) < 0 {
            assert forall|i: int| 0 <= i < m.len() implies m[i].id@ != id by {
                if i > 0 {
                    assert(m.drop_first()[i - 1] == m[i]);
                }
            }
        } else {
            assert(m.drop_first()[peer_index_of(m.drop_first(), id)]
                == m[peer_index_of(m.drop_first(), id) + 1]);
            assert forall|j: int| 0 <= j < peer_index_of(m, id) implies m[j].id@ != id by {
                if j > 0 {
                    assert(m.drop_first()[j - 1] == m[j]);
                }
            }
        }
    }
}

/// The fixed, known participant set with its derived thresholds.
pub struct PeerSet {
    pub members: Vec<PeerInfo>,
    pub total_weight: u64,
    pub supermajority: u64,
}

impl PeerSet {
    /// Well-formedness: the recorded total is the sum of the weights, it is
    /// small enough that weight arithmetic cannot overflow, identities are
    /// distinct, and the threshold is `2W/3 + 1`.
    pub open spec fn wf(&self) -> bool {
        &&& sum_weights(self.members@, self.members@.len() as int) == self.total_weight
        &&& self.total_weight <= u64::MAX / 2
        &&& self.supermajority == 2 * self.total_weight / 3 + 1
        &&& distinct_ids(self.members@)
    }

    /// Builds the participant set, rejecting duplicate identities and weight
    /// totals large enough to overflow threshold arithmetic.
    pub fn new(members: Vec<PeerInfo>) -> (r: Option<PeerSet>)
        ensures
            r is Some ==> {
                &&& r->Some_0.wf()
                &&& r->Some_0.members@ == members@
            },
            r is Some <==> distinct_ids(members@)
                && sum_weights(members@, members@.len() as int) <= u64::MAX / 2,
    {
        let n = members.len();
        let mut i: usize = 0;
        while i < n
            invariant
                i <= n,
                n == members@.len(),
                forall|a: int, b: int|
                    0 <= a < i && 0 <= b < n && a != b ==> members@[a].id@ != members@[b].id@,
            decreases n - i,
        {
            let mut j: usize = 0;
            while j < n
                invariant
                    i < n,
                    j <= n,
                    n == members@.len(),
                    forall|b: int|
                        0 <= b < j && b != i ==> members@[i as int].id@ != members@[b].id@,
                decreases n - j,
            {
                if j != i {
                    if hash_eq(&members[i].id, &members[j].id) {
                        return Option::None;
                    }
                }
                j = j + 1;
            }
            i = i + 1;
        }
        let limit: u64 = 9223372036854775807;
        let mut total: u64 = 0;
        let mut k: usize = 0;
        while k < n
            invariant
                k <= n,
                n == members@.len(),
                total == sum_weights(members@, k as int),
                total <= limit,
                limit == u64::MAX / 2,
                distinct_ids(members@),
            decreases n - k,
        {
            let w = members[k].weight;
            if w > limit - total {
                proof {
                    assert(sum_weights(members@, k as int + 1) == total + w);
                    lemma_sum_weights_mono(members@, k as int + 1, n as int);
                    assert(sum_weights(members@, n as int) > limit);
                    assert(sum_weights(members@, members@.len() as int) > u64::MAX / 2);
                }
                return Option::None;
            }
            total = total + w;
            k = k + 1;
        }
        let sm: u64 = 2 * total / 3 + 1;
        Option::Some(PeerSet { members, total_weight: total, supermajority: sm })
    }

    pub fn len(&self) -> (r: usize)
        ensures
            r == self.members@.len(),
    {
        self.members.len()
    }
}

pub proof fn lemma_sum_weights_mono(m: Seq<PeerInfo>, a: int, b: int)
    requires
        0 <= a <= b,
    ensures
        sum_weights(m, a) <= sum_weights(m, b),
    decreases b,
{
    if a < b {
        lemma_sum_weights_mono(m, a, b - 1);
    }
}

} // verus!
