use vstd::prelude::*;

use crate::hasher::{merge, merge_spec};

verus! {

/// Whether node `i` ranks before node `j` for the key digest `key_digest`,
/// where `digests` holds every node's digest: the lower affinity comes first,
/// and of two equal affinities the lower registry index.
pub open spec fn precedes(digests: Seq<u64>, key_digest: u64, i: int, j: int) -> bool {
    let ai = merge_spec(digests[i], key_digest);
    let aj = merge_spec(digests[j], key_digest);
    ai < aj || (ai == aj && i < j)
}

/// Every element of `order` strictly ranks before every later one.
pub open spec fn strictly_ranked(digests: Seq<u64>, key_digest: u64, order: Seq<usize>) -> bool {
    forall|p: int, q: int|
        0 <= p < q < order.len() ==> precedes(
            digests,
            key_digest,
            #[trigger] order[p] as int,
            #[trigger] order[q] as int,
        )
}

/// `order` lists every index of `digests` in ranking order for `key_digest`.
pub open spec fn is_ranking(digests: Seq<u64>, key_digest: u64, order: Seq<usize>) -> bool {
    &&& order.len() == digests.len()
    &&& forall|p: int| 0 <= p < order.len() ==> #[trigger] order[p] < digests.len()
    &&& forall|i: int| 0 <= i < digests.len() ==> #[trigger] order.contains(i as usize)
    &&& strictly_ranked(digests, key_digest, order)
}

/// Whether index `i` sorts before index `j` by `keys`: the lower key first,
/// and of two equal keys the lower index.
pub open spec fn key_precedes(keys: Seq<u128>, i: int, j: int) -> bool {
    keys[i] < keys[j] || (keys[i] == keys[j] && i < j)
}

/// Every element of `order` sorts strictly before every later one by `keys`.
pub open spec fn keys_ranked(keys: Seq<u128>, order: Seq<usize>) -> bool {
    forall|p: int, q: int|
        0 <= p < q < order.len() ==> key_precedes(keys, #[trigger] order[p] as int, #[trigger] order[q] as int)
}

/// Sorts the indices of `keys` by ascending key, and equal keys by
/// ascending index.
pub fn rank_keys(keys: &Vec<u128>) -> (order: Vec<usize>)
    ensures
        order@.len() == keys@.len(),
        forall|p: int| 0 <= p < order@.len() ==> #[trigger] order@[p] < keys@.len(),
        forall|i: int| 0 <= i < keys@.len() ==> #[trigger] order@.contains(i as usize),
        keys_ranked(keys@, order@),
{
    let n: usize = keys.len();
    let mut order: Vec<usize> = Vec::new();
    let mut i: usize = 0;
    while i < n
        invariant
            i <= n,
            n == keys@.len(),
            order@.len() == i,
            forall|p: int| 0 <= p < i ==> #[trigger] order@[p] < i,
            forall|k: int| 0 <= k < i ==> #[trigger] order@.contains(k as usize),
            keys_ranked(keys@, order@),
        decreases n - i,
    {
        let a = keys[i];
        let mut pos: usize = 0;
        while pos < i && keys[order[pos]] <= a
            invariant
                pos <= i,
                i < n,
                n == keys@.len(),
                order@.len() == i,
                forall|p: int| 0 <= p < i ==> #[trigger] order@[p] < i,
                a == keys@[i as int],
                forall|p: int|
                    0 <= p < pos ==> key_precedes(keys@, #[trigger] order@[p] as int, i as int),
            decreases i - pos,
        {
            pos = pos + 1;
        }
        let ghost prev = order@;
        proof {
            assert forall|q: int| pos <= q < i implies key_precedes(
                keys@,
                i as int,
                #[trigger] prev[q] as int,
            ) by {
                if q > pos {
                    assert(key_precedes(keys@, prev[pos as int] as int, prev[q] as int));
                }
            }
        }
        order.insert(pos, i);
        proof {
            let s = order@;
            assert forall|p: int| 0 <= p < i + 1 implies #[trigger] s[p] < i + 1 by {
                if p < pos {
                    assert(s[p] == prev[p]);
                } else if p > pos {
                    assert(s[p] == prev[p - 1]);
                }
            }
            assert forall|k: int| 0 <= k < i + 1 implies #[trigger] s.contains(k as usize) by {
                if k == i {
                    assert(s[pos as int] == k as usize);
                } else {
                    assert(prev.contains(k as usize));
                    let p = choose|p: int| 0 <= p < prev.len() && prev[p] == k as usize;
                    if p < pos {
                        assert(s[p] == k as usize);
                    } else {
                        assert(s[p + 1] == k as usize);
                    }
                }
            }
            assert forall|p: int, q: int| 0 <= p < q < s.len() implies key_precedes(
                keys@,
                #[trigger] s[p] as int,
                #[trigger] s[q] as int,
            ) by {
                if q < pos {
                    assert(key_precedes(keys@, prev[p] as int, prev[q] as int));
                } else if q == pos {
                    assert(s[p] == prev[p]);
                } else if p < pos {
                    assert(s[q] == prev[q - 1]);
                    assert(s[p] == prev[p]);
                    assert(key_precedes(keys@, prev[p] as int, prev[q - 1] as int));
                } else if p == pos {
                    assert(s[q] == prev[q - 1]);
                } else {
                    assert(key_precedes(keys@, prev[p - 1] as int, prev[q - 1] as int));
                }
            }
        }
        i = i + 1;
    }
    order
}

/// Ranks the nodes whose digests are `digests` for the key digest
/// `key_digest`: returns their indices, most preferred first.
pub fn rank_digests(digests: &Vec<u64>, key_digest: u64) -> (order: Vec<usize>)
    ensures
        is_ranking(digests@, key_digest, order@),
{
    let n: usize = digests.len();
    let mut keys: Vec<u128> = Vec::new();
    let mut i: usize = 0;
    while i < n
        invariant
            i <= n,
            n == digests@.len(),
            keys@.len() == i,
            forall|k: int| 0 <= k < i ==> keys@[k] == merge_spec(digests@[k], key_digest) as u128,
        decreases n - i,
    {
        keys.push(merge(digests[i], key_digest) as u128);
        i = i + 1;
    }
    let order = rank_keys(&keys);
    assert forall|p: int, q: int| 0 <= p < q < order@.len() implies precedes(
        digests@,
        key_digest,
        #[trigger] order@[p] as int,
        #[trigger] order@[q] as int,
    ) by {
        assert(key_precedes(keys@, order@[p] as int, order@[q] as int));
    }
    order
}

/// Whether node `i` ranks before node `j` in the capacity-weighted ranking
/// for `key_digest`, where `scores` holds each node's score as an
/// order-preserving integer: the higher score comes first, then the lower
/// affinity, then the lower registry index.
pub open spec fn weighted_precedes(
    digests: Seq<u64>,
    key_digest: u64,
    scores: Seq<u64>,
    i: int,
    j: int,
) -> bool {
    scores[i] > scores[j] || (scores[i] == scores[j] && precedes(digests, key_digest, i, j))
}

/// `order` lists every index of `digests` in weighted ranking order.
pub open spec fn is_weighted_ranking(
    digests: Seq<u64>,
    key_digest: u64,
    scores: Seq<u64>,
    order: Seq<usize>,
) -> bool {
    &&& order.len() == digests.len()
    &&& forall|p: int| 0 <= p < order.len() ==> #[trigger] order[p] < digests.len()
    &&& forall|i: int| 0 <= i < digests.len() ==> #[trigger] order.contains(i as usize)
    &&& forall|p: int, q: int|
        0 <= p < q < order.len() ==> weighted_precedes(
            digests,
            key_digest,
            scores,
            #[trigger] order[p] as int,
            #[trigger] order[q] as int,
        )
}

/// The sort key of a node in the weighted ranking: the complement of its score
/// in the high half, its affinity in the low half.
pub open spec fn weighted_key(score: u64, affinity: u64) -> int {
    (u64::MAX - score) * 0x1_0000_0000_0000_0000 + affinity
}

/// Weighted keys order as scores descending, then affinities ascending, and
/// fit in a `u128`.
proof fn lemma_weighted_key_order(s1: u64, a1: u64, s2: u64, a2: u64)
    ensures
        weighted_key(s1, a1) < weighted_key(s2, a2) <==> (s1 > s2 || (s1 == s2 && a1 < a2)),
        weighted_key(s1, a1) == weighted_key(s2, a2) <==> (s1 == s2 && a1 == a2),
        0 <= weighted_key(s1, a1) <= u128::MAX,
{
    let c1 = u64::MAX - s1;
    let c2 = u64::MAX - s2;
    let m: int = 0x1_0000_0000_0000_0000;
    if c1 < c2 {
        assert(c1 * m + a1 < c2 * m + a2) by (nonlinear_arith)
            requires
                c1 < c2,
                0 <= a1 < m,
                0 <= a2 < m,
        ;
    }
    if c2 < c1 {
        assert(c2 * m + a2 < c1 * m + a1) by (nonlinear_arith)
            requires
                c2 < c1,
                0 <= a1 < m,
                0 <= a2 < m,
        ;
    }
    assert(0 <= c1 * m + a1 <= u128::MAX) by (nonlinear_arith)
        requires
            0 <= c1 <= u64::MAX,
            0 <= a1 < m,
            m == 0x1_0000_0000_0000_0000,
    ;
}

/// Ranks the nodes whose digests are `digests` by their scores `scores`
/// (order-preserving integer images of the weighted scores for
/// `key_digest`): returns their indices, most preferred first.
pub fn rank_weighted(digests: &Vec<u64>, key_digest: u64, scores: &Vec<u64>) -> (order: Vec<usize>)
    requires
        scores@.len() == digests@.len(),
    ensures
        is_weighted_ranking(digests@, key_digest, scores@, order@),
{
    let n: usize = digests.len();
    let mut keys: Vec<u128> = Vec::new();
    let mut i: usize = 0;
    while i < n
        invariant
            i <= n,
            n == digests@.len(),
            n == scores@.len(),
            keys@.len() == i,
            forall|k: int|
                0 <= k < i ==> keys@[k] == weighted_key(
                    scores@[k],
                    merge_spec(digests@[k], key_digest),
                ),
        decreases n - i,
    {
        let affinity = merge(digests[i], key_digest);
        proof {
            lemma_weighted_key_order(scores@[i as int], affinity, scores@[i as int], affinity);
        }
        let key: u128 = ((u64::MAX - scores[i]) as u128) * 0x1_0000_0000_0000_0000u128 + affinity as u128;
        keys.push(key);
        i = i + 1;
    }
    let order = rank_keys(&keys);
    assert forall|p: int, q: int| 0 <= p < q < order@.len() implies weighted_precedes(
        digests@,
        key_digest,
        scores@,
        #[trigger] order@[p] as int,
        #[trigger] order@[q] as int,
    ) by {
        let i = order@[p] as int;
        let j = order@[q] as int;
        assert(key_precedes(keys@, i, j));
        lemma_weighted_key_order(
            scores@[i],
            merge_spec(digests@[i], key_digest),
            scores@[j],
            merge_spec(digests@[j], key_digest),
        );
    }
    order
}

/// Neither of two nodes ranks before the other in both directions, and no node
/// ranks before itself.
proof fn lemma_precedes_asymmetric(digests: Seq<u64>, key_digest: u64, i: int, j: int)
    ensures
        !(precedes(digests, key_digest, i, j) && precedes(digests, key_digest, j, i)),
{
}

/// Whether index `i` sorts before index `j` by the integer keys `keys`.
spec fn int_key_precedes(keys: Seq<int>, i: int, j: int) -> bool {
    keys[i] < keys[j] || (keys[i] == keys[j] && i < j)
}

/// Every element of `order` sorts strictly before every later one by `keys`.
spec fn ranked_by(keys: Seq<int>, order: Seq<usize>) -> bool {
    forall|p: int, q: int|
        0 <= p < q < order.len() ==> int_key_precedes(keys, #[trigger] order[p] as int, #[trigger] order[q] as int)
}

proof fn lemma_int_key_asymmetric(keys: Seq<int>, i: int, j: int)
    ensures
        !(int_key_precedes(keys, i, j) && int_key_precedes(keys, j, i)),
{
}

/// Two sequences ranked by the same integer keys that hold the same elements
/// are equal.
proof fn lemma_ranked_by_unique(
    keys: Seq<int>,
    s: Seq<usize>,
    t: Seq<usize>,
)
    requires
        s.len() == t.len(),
        forall|x: usize| s.contains(x) <==> t.contains(x),
        ranked_by(keys, s),
        ranked_by(keys, t),
    ensures
        s == t,
    decreases s.len(),
{
    if s.len() == 0 {
        assert(s =~= t);
    } else {
        assert(s.contains(s[0]));
        let q = choose|q: int| 0 <= q < t.len() && t[q] == s[0];
        if q > 0 {
            assert(int_key_precedes(keys, t[0] as int, t[q] as int));
            assert(t.contains(t[0]));
            let p = choose|p: int| 0 <= p < s.len() && s[p] == t[0];
            if p == 0 {
                lemma_int_key_asymmetric(keys, t[0] as int, t[0] as int);
            } else {
                assert(int_key_precedes(keys, s[0] as int, s[p] as int));
                lemma_int_key_asymmetric(keys, t[0] as int, s[0] as int);
            }
        }
        let s1 = s.subrange(1, s.len() as int);
        let t1 = t.subrange(1, t.len() as int);
        assert forall|x: usize| s1.contains(x) <==> t1.contains(x) by {
            if s1.contains(x) {
                let p = choose|p: int| 0 <= p < s1.len() && s1[p] == x;
                assert(int_key_precedes(keys, s[0] as int, s[p + 1] as int));
                assert(x != s[0]);
                assert(s.contains(x));
                assert(t.contains(x));
                let r = choose|r: int| 0 <= r < t.len() && t[r] == x;
                assert(r != 0);
                assert(t1[r - 1] == x);
            }
            if t1.contains(x) {
                let p = choose|p: int| 0 <= p < t1.len() && t1[p] == x;
                assert(int_key_precedes(keys, t[0] as int, t[p + 1] as int));
                assert(x != t[0]);
                assert(t.contains(x));
                assert(s.contains(x));
                let r = choose|r: int| 0 <= r < s.len() && s[r] == x;
                assert(r != 0);
                assert(s1[r - 1] == x);
            }
        }
        assert(ranked_by(keys, s1)) by {
            assert forall|p: int, q: int| 0 <= p < q < s1.len() implies int_key_precedes(
                keys,
                #[trigger] s1[p] as int,
                #[trigger] s1[q] as int,
            ) by {
                assert(int_key_precedes(keys, s[p + 1] as int, s[q + 1] as int));
            }
        }
        assert(ranked_by(keys, t1)) by {
            assert forall|p: int, q: int| 0 <= p < q < t1.len() implies int_key_precedes(
                keys,
                #[trigger] t1[p] as int,
                #[trigger] t1[q] as int,
            ) by {
                assert(int_key_precedes(keys, t[p + 1] as int, t[q + 1] as int));
            }
        }
        lemma_ranked_by_unique(keys, s1, t1);
        assert(s =~= t) by {
            assert forall|p: int| 0 <= p < s.len() implies s[p] == t[p] by {
                if p > 0 {
                    assert(s[p] == s1[p - 1]);
                    assert(t[p] == t1[p - 1]);
                }
            }
        }
    }
}

/// Determinism: a key digest admits exactly one ranking of a registry, so
/// ranking the same registry for the same key twice gives the same order.
pub proof fn lemma_ranking_deterministic(
    digests: Seq<u64>,
    key_digest: u64,
    first: Seq<usize>,
    second: Seq<usize>,
)
    requires
        is_ranking(digests, key_digest, first),
        is_ranking(digests, key_digest, second),
    ensures
        first == second,
{
    let keys = Seq::new(digests.len(), |i: int| merge_spec(digests[i], key_digest) as int);
    assert forall|x: usize| first.contains(x) <==> second.contains(x) by {
        if first.contains(x) {
            let p = choose|p: int| 0 <= p < first.len() && first[p] == x;
            assert(first[p] < digests.len());
            assert(second.contains(x as int as usize));
        }
        if second.contains(x) {
            let p = choose|p: int| 0 <= p < second.len() && second[p] == x;
            assert(second[p] < digests.len());
            assert(first.contains(x as int as usize));
        }
    }
    assert forall|p: int, q: int| 0 <= p < q < first.len() implies int_key_precedes(
        keys,
        #[trigger] first[p] as int,
        #[trigger] first[q] as int,
    ) by {
        assert(precedes(digests, key_digest, first[p] as int, first[q] as int));
    }
    assert forall|p: int, q: int| 0 <= p < q < second.len() implies int_key_precedes(
        keys,
        #[trigger] second[p] as int,
        #[trigger] second[q] as int,
    ) by {
        assert(precedes(digests, key_digest, second[p] as int, second[q] as int));
    }
    lemma_ranked_by_unique(keys, first, second);
}

/// Determinism of the weighted ranking: digests, a key digest and scores
/// admit exactly one weighted ranking, ties of score included.
pub proof fn lemma_weighted_ranking_deterministic(
    digests: Seq<u64>,
    key_digest: u64,
    scores: Seq<u64>,
    first: Seq<usize>,
    second: Seq<usize>,
)
    requires
        is_weighted_ranking(digests, key_digest, scores, first),
        is_weighted_ranking(digests, key_digest, scores, second),
    ensures
        first == second,
{
    let keys = Seq::new(
        digests.len(),
        |i: int| weighted_key(scores[i], merge_spec(digests[i], key_digest)),
    );
    assert forall|x: usize| first.contains(x) <==> second.contains(x) by {
        if first.contains(x) {
            let p = choose|p: int| 0 <= p < first.len() && first[p] == x;
            assert(first[p] < digests.len());
            assert(second.contains(x as int as usize));
        }
        if second.contains(x) {
            let p = choose|p: int| 0 <= p < second.len() && second[p] == x;
            assert(second[p] < digests.len());
            assert(first.contains(x as int as usize));
        }
    }
    assert forall|p: int, q: int| 0 <= p < q < first.len() implies int_key_precedes(
        keys,
        #[trigger] first[p] as int,
        #[trigger] first[q] as int,
    ) by {
        let i = first[p] as int;
        let j = first[q] as int;
        assert(weighted_precedes(digests, key_digest, scores, i, j));
        lemma_weighted_key_order(
            scores[i],
            merge_spec(digests[i], key_digest),
            scores[j],
            merge_spec(digests[j], key_digest),
        );
    }
    assert forall|p: int, q: int| 0 <= p < q < second.len() implies int_key_precedes(
        keys,
        #[trigger] second[p] as int,
        #[trigger] second[q] as int,
    ) by {
        let i = second[p] as int;
        let j = second[q] as int;
        assert(weighted_precedes(digests, key_digest, scores, i, j));
        lemma_weighted_key_order(
            scores[i],
            merge_spec(digests[i], key_digest),
            scores[j],
            merge_spec(digests[j], key_digest),
        );
    }
    lemma_ranked_by_unique(keys, first, second);
}

/// Completeness: a ranking holds every node of the registry exactly once.
pub proof fn lemma_ranking_complete(digests: Seq<u64>, key_digest: u64, order: Seq<usize>)
    requires
        is_ranking(digests, key_digest, order),
    ensures
        order.len() == digests.len(),
        forall|i: int| 0 <= i < digests.len() ==> #[trigger] order.contains(i as usize),
        forall|p: int| 0 <= p < order.len() ==> #[trigger] order[p] < digests.len(),
        forall|p: int, q: int|
            0 <= p < order.len() && 0 <= q < order.len() && #[trigger] order[p] == #[trigger] order[q] ==> p == q,
{
    assert forall|p: int, q: int|
        0 <= p < order.len() && 0 <= q < order.len() && #[trigger] order[p] == #[trigger] order[q] implies p == q by {
        if p < q {
            assert(precedes(digests, key_digest, order[p] as int, order[q] as int));
        } else if q < p {
            assert(precedes(digests, key_digest, order[q] as int, order[p] as int));
        }
    }
}

/// In a ranking, the node at an earlier position is the one that precedes.
proof fn lemma_position_order(
    digests: Seq<u64>,
    key_digest: u64,
    order: Seq<usize>,
    p: int,
    q: int,
)
    requires
        is_ranking(digests, key_digest, order),
        0 <= p < order.len(),
        0 <= q < order.len(),
        order[p] != order[q],
    ensures
        p < q <==> precedes(digests, key_digest, order[p] as int, order[q] as int),
{
    if q < p {
        assert(precedes(digests, key_digest, order[q] as int, order[p] as int));
        lemma_precedes_asymmetric(digests, key_digest, order[p] as int, order[q] as int);
    }
}

/// Minimal disruption: adding a node `extra_digest` to a registry keeps the
/// relative order of every two nodes that were already there. Node `a` sits at
/// position `pa` and node `b` at `pb` in the ranking `before` of the old
/// registry, and at `qa` and `qb` in the ranking `after` of the new one.
pub proof fn lemma_minimal_disruption(
    digests: Seq<u64>,
    extra_digest: u64,
    key_digest: u64,
    before: Seq<usize>,
    after: Seq<usize>,
    pa: int,
    pb: int,
    qa: int,
    qb: int,
)
    requires
        is_ranking(digests, key_digest, before),
        is_ranking(digests.push(extra_digest), key_digest, after),
        0 <= pa < before.len(),
        0 <= pb < before.len(),
        0 <= qa < after.len(),
        0 <= qb < after.len(),
        before[pa] == after[qa],
        before[pb] == after[qb],
    ensures
        pa < pb <==> qa < qb,
{
    let grown = digests.push(extra_digest);
    if before[pa] != before[pb] {
        lemma_position_order(digests, key_digest, before, pa, pb);
        lemma_position_order(grown, key_digest, after, qa, qb);
        assert(grown[before[pa] as int] == digests[before[pa] as int]);
        assert(grown[before[pb] as int] == digests[before[pb] as int]);
    } else {
        lemma_ranking_complete(digests, key_digest, before);
        lemma_ranking_complete(grown, key_digest, after);
    }
}

} // verus!
