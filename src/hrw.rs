use vstd::prelude::*;

use std::hash::{BuildHasher, BuildHasherDefault, Hash};

use crate::hasher::DefaultHasher;
use crate::ranking::{is_ranking, lemma_ranking_deterministic, rank_digests};
use crate::HrwNode;
use vstd::std_specs::cmp::PartialEqSpec;

verus! {

#[verifier::external_type_specification]
#[verifier::external_body]
#[verifier::reject_recursive_types(H)]
pub struct ExBuildHasherDefault<H>(BuildHasherDefault<H>);

/// Relies on `BuildHasherDefault::default`: a builder of hashers made with
/// `H::default()`; it carries no state.
#[verifier::external_body]
fn default_build_hasher() -> BuildHasherDefault<DefaultHasher> {
    BuildHasherDefault::default()
}

/// Relies on `BuildHasher::hash_one`: feeds `value` to a fresh hasher of
/// `build_hasher` and returns that hasher's digest. What is fed depends on the
/// `Hash` impl of `T` and the digest on the hasher, so nothing is stated of it.
#[verifier::external_body]
fn hash_one<H: BuildHasher, T: Hash>(build_hasher: &H, value: &T) -> u64 {
    build_hasher.hash_one(value)
}

/// The sum of the capacities in `caps`.
pub open spec fn capacity_sum(caps: Seq<usize>) -> nat
    decreases caps.len(),
{
    if caps.len() == 0 {
        0
    } else {
        capacity_sum(caps.drop_last()) + caps.last() as nat
    }
}

/// `result` lists `nodes` in the order that `order` gives by index.
pub open spec fn lists_in_order<N>(nodes: Seq<N>, order: Seq<usize>, result: Seq<&N>) -> bool {
    &&& result.len() == order.len()
    &&& forall|p: int| 0 <= p < result.len() ==> *#[trigger] result[p] == nodes[order[p] as int]
}

/// Nodes sorted using the HRW algorithm.
pub struct HrwNodes<N, H = BuildHasherDefault<DefaultHasher>> {
    nodes: Vec<N>,
    digests: Vec<u64>,
    capacities: Vec<usize>,
    build_hasher: H,
    total_capacity: usize,
}

impl<N: HrwNode> HrwNodes<N> {
    /// Create a new instance with the default hasher.
    pub fn new(nodes: Vec<N>) -> (r: Self)
        ensures
            r.wf(),
            nodes@.len() > 0 ==> r.node_seq().len() > 0,
            N::obeys_eq_spec() ==> pairwise_distinct(r.node_seq()),
            r.node_seq().len() <= nodes@.len(),
            forall|k: int| 0 <= k < r.node_seq().len() ==> #[trigger] nodes@.contains(r.node_seq()[k]),
            N::obeys_eq_spec() && pairwise_distinct(nodes@) ==> r.node_seq() == nodes@,
            N::obeys_eq_spec() ==> forall|i: int|
                0 <= i < nodes@.len() && #[trigger] no_later_equal(nodes@, i) ==> r.node_seq().contains(
                    nodes@[i],
                ),
    {
        Self::with_build_hasher(default_build_hasher(), nodes)
    }
}

/// No node of `nodes` equals a later one.
pub open spec fn pairwise_distinct<N: PartialEq>(nodes: Seq<N>) -> bool {
    forall|i: int, j: int| 0 <= i < j < nodes.len() ==> !#[trigger] nodes[i].eq_spec(&nodes[j])
}

/// Determinism of a registry's ranking: two results that each list the
/// registry's `nodes` in a ranking for the same key digest are equal, so
/// sorting a registry twice for one key gives the same sequence.
pub proof fn lemma_sorted_deterministic<N>(
    nodes: Seq<N>,
    digests: Seq<u64>,
    key_digest: u64,
    first_order: Seq<usize>,
    first: Seq<&N>,
    second_order: Seq<usize>,
    second: Seq<&N>,
)
    requires
        is_ranking(digests, key_digest, first_order),
        lists_in_order(nodes, first_order, first),
        is_ranking(digests, key_digest, second_order),
        lists_in_order(nodes, second_order, second),
    ensures
        first == second,
{
    lemma_ranking_deterministic(digests, key_digest, first_order, second_order);
    assert forall|p: int| 0 <= p < first.len() implies first[p] == second[p] by {
        assert(*first[p] == nodes[first_order[p] as int]);
        assert(*second[p] == nodes[second_order[p] as int]);
    }
    assert(first =~= second);
}

/// No node of `nodes` after index `i` equals the node at `i`.
pub open spec fn no_later_equal<N: PartialEq>(nodes: Seq<N>, i: int) -> bool {
    forall|j: int| i < j < nodes.len() ==> !nodes[i].eq_spec(#[trigger] &nodes[j])
}

/// Removes from `kept` every node equal to `node`, with the digest and the
/// capacity at the same index; the others keep their order.
fn remove_equal<N: HrwNode>(
    kept: &mut Vec<N>,
    digests: &mut Vec<u64>,
    capacities: &mut Vec<usize>,
    node: &N,
)
    requires
        old(digests)@.len() == old(kept)@.len(),
        old(capacities)@.len() == old(kept)@.len(),
    ensures
        final(kept)@.len() <= old(kept)@.len(),
        final(digests)@.len() == final(kept)@.len(),
        final(capacities)@.len() == final(kept)@.len(),
        forall|p: int| 0 <= p < final(kept)@.len() ==> #[trigger] old(kept)@.contains(final(kept)@[p]),
        pairwise_distinct(old(kept)@) ==> pairwise_distinct(final(kept)@),
        N::obeys_eq_spec() ==> forall|p: int|
            0 <= p < final(kept)@.len() ==> !(#[trigger] final(kept)@[p]).eq_spec(node),
        N::obeys_eq_spec() ==> forall|m: int|
            0 <= m < old(kept)@.len() && !(#[trigger] old(kept)@[m]).eq_spec(node)
                ==> final(kept)@.contains(old(kept)@[m]),
{
    let ghost orig = kept@;
    let mut nk: Vec<N> = Vec::new();
    let mut nd: Vec<u64> = Vec::new();
    let mut nc: Vec<usize> = Vec::new();
    let ghost mut src: Seq<int> = Seq::empty();
    let n: usize = kept.len();
    let mut j: usize = 0;
    while kept.len() > 0
        invariant
            orig.len() == n,
            j + kept@.len() == orig.len(),
            kept@ == orig.subrange(j as int, orig.len() as int),
            digests@.len() == kept@.len(),
            capacities@.len() == kept@.len(),
            nd@.len() == nk@.len(),
            nc@.len() == nk@.len(),
            src.len() == nk@.len(),
            nk@.len() <= j,
            forall|p: int| 0 <= p < src.len() ==> 0 <= #[trigger] src[p] < j && nk@[p] == orig[src[p]],
            forall|p: int, q: int| 0 <= p < q < src.len() ==> #[trigger] src[p] < #[trigger] src[q],
            N::obeys_eq_spec() ==> forall|p: int| 0 <= p < nk@.len() ==> !(#[trigger] nk@[p]).eq_spec(node),
            N::obeys_eq_spec() ==> forall|m: int|
                0 <= m < j && !(#[trigger] orig[m]).eq_spec(node) ==> nk@.contains(orig[m]),
        decreases kept@.len(),
    {
        let x = kept.remove(0);
        let d = digests.remove(0);
        let c = capacities.remove(0);
        assert(x == orig[j as int]);
        let ghost prev = nk@;
        if !x.eq(node) {
            proof {
                src = src.push(j as int);
            }
            nk.push(x);
            nd.push(d);
            nc.push(c);
            proof {
                assert(nk@[nk@.len() - 1] == orig[j as int]);
            }
        }
        proof {
            if N::obeys_eq_spec() {
                assert forall|m: int|
                    0 <= m < j + 1 && !(#[trigger] orig[m]).eq_spec(node) implies nk@.contains(orig[m]) by {
                    if m < j {
                        assert(prev.contains(orig[m]));
                        let w = choose|w: int| 0 <= w < prev.len() && prev[w] == orig[m];
                        assert(nk@[w] == orig[m]);
                    } else {
                        assert(nk@[nk@.len() - 1] == orig[m]);
                    }
                }
            }
        }
        j = j + 1;
    }
    proof {
        assert forall|p: int| 0 <= p < nk@.len() implies #[trigger] orig.contains(nk@[p]) by {
            assert(nk@[p] == orig[src[p]]);
        }
        if pairwise_distinct(orig) {
            assert forall|a: int, b: int| 0 <= a < b < nk@.len() implies !#[trigger] nk@[a].eq_spec(&nk@[b]) by {
                assert(src[a] < src[b]);
                assert(!orig[src[a]].eq_spec(&orig[src[b]]));
            }
        }
    }
    *kept = nk;
    *digests = nd;
    *capacities = nc;
}

impl<N, H> HrwNodes<N, H> where N: HrwNode, H: BuildHasher {
    /// The nodes of the registry, by registry index.
    pub closed spec fn node_seq(&self) -> Seq<N> {
        self.nodes@
    }

    /// The digest of each node, by registry index.
    pub closed spec fn digest_seq(&self) -> Seq<u64> {
        self.digests@
    }

    /// The capacity of each node, by registry index.
    pub closed spec fn capacity_seq(&self) -> Seq<usize> {
        self.capacities@
    }

    /// The builder of hashers that the registry digests nodes and keys with.
    pub closed spec fn build_hasher_spec(&self) -> H {
        self.build_hasher
    }

    /// The total capacity of the registry.
    pub closed spec fn total_capacity_spec(&self) -> usize {
        self.total_capacity
    }

    /// Each node has one digest and one capacity, and the total capacity is
    /// their sum (held at `usize::MAX` where the sum does not fit).
    pub open spec fn wf(&self) -> bool {
        &&& self.digest_seq().len() == self.node_seq().len()
        &&& self.capacity_seq().len() == self.node_seq().len()
        &&& self.total_capacity_spec() as nat == if capacity_sum(self.capacity_seq()) <= usize::MAX {
            capacity_sum(self.capacity_seq())
        } else {
            usize::MAX as nat
        }
    }

    /// Create a new instance with a custom hasher.
    ///
    /// A node equal to one before it replaces it: the earlier one leaves the
    /// registry and the later one is added.
    pub fn with_build_hasher(build_hasher: H, nodes: Vec<N>) -> (r: Self)
        ensures
            r.wf(),
            r.build_hasher_spec() == build_hasher,
            nodes@.len() > 0 ==> r.node_seq().len() > 0,
            N::obeys_eq_spec() ==> pairwise_distinct(r.node_seq()),
            r.node_seq().len() <= nodes@.len(),
            forall|k: int| 0 <= k < r.node_seq().len() ==> #[trigger] nodes@.contains(r.node_seq()[k]),
            N::obeys_eq_spec() && pairwise_distinct(nodes@) ==> r.node_seq() == nodes@,
            N::obeys_eq_spec() ==> forall|i: int|
                0 <= i < nodes@.len() && #[trigger] no_later_equal(nodes@, i) ==> r.node_seq().contains(
                    nodes@[i],
                ),
    {
        let ghost input = nodes@;
        let n: usize = nodes.len();
        let mut kept: Vec<N> = Vec::new();
        let mut digests: Vec<u64> = Vec::new();
        let mut capacities: Vec<usize> = Vec::new();
        let mut rest = nodes;
        let mut taken: usize = 0;
        while rest.len() > 0
            invariant
                taken + rest@.len() == input.len(),
                input.len() == n,
                rest@ == input.subrange(taken as int, input.len() as int),
                kept@.len() <= taken,
                digests@.len() == kept@.len(),
                capacities@.len() == kept@.len(),
                forall|k: int| 0 <= k < kept@.len() ==> #[trigger] input.contains(kept@[k]),
                taken > 0 ==> kept@.len() > 0,
                N::obeys_eq_spec() ==> pairwise_distinct(kept@),
                N::obeys_eq_spec() && pairwise_distinct(input) ==> kept@ == input.subrange(0, taken as int),
                N::obeys_eq_spec() ==> forall|i: int|
                    0 <= i < taken && #[trigger] no_later_equal(input.subrange(0, taken as int), i)
                        ==> kept@.contains(input[i]),
            decreases rest@.len(),
        {
            let ghost before = kept@;
            let node = rest.remove(0);
            assert(node == input[taken as int]);
            let digest = hash_one(&build_hasher, &node);
            let capacity = node.capacity();
            let mut k: usize = 0;
            while k < kept.len() && !(kept[k] == node)
                invariant
                    k <= kept@.len(),
                    N::obeys_eq_spec() ==> forall|m: int| 0 <= m < k ==> !kept@[m].eq_spec(&node),
                decreases kept@.len() - k,
            {
                k = k + 1;
            }
            if k < kept.len() {
                proof {
                    if N::obeys_eq_spec() && pairwise_distinct(input) {
                        assert(kept@ == input.subrange(0, taken as int));
                        assert(!input[k as int].eq_spec(&input[taken as int]));
                    }
                }
                remove_equal(&mut kept, &mut digests, &mut capacities, &node);
            }
            let ghost trimmed = kept@;
            kept.push(node);
            digests.push(digest);
            capacities.push(capacity);
            proof {
                assert(kept@[trimmed.len() as int] == input[taken as int]);
                if N::obeys_eq_spec() {
                    assert forall|a: int, b: int| 0 <= a < b < kept@.len() implies !#[trigger] kept@[a].eq_spec(&kept@[b]) by {
                        if b < trimmed.len() {
                            assert(kept@[a] == trimmed[a] && kept@[b] == trimmed[b]);
                        } else {
                            assert(kept@[a] == trimmed[a]);
                        }
                    }
                }
                assert forall|m: int| 0 <= m < kept@.len() implies #[trigger] input.contains(kept@[m]) by {
                    if m < trimmed.len() {
                        assert(kept@[m] == trimmed[m]);
                        if k < before.len() {
                            assert(before.contains(trimmed[m]));
                            let w = choose|w: int| 0 <= w < before.len() && before[w] == trimmed[m];
                            assert(input.contains(before[w]));
                        } else {
                            assert(input.contains(before[m]));
                        }
                    } else {
                        assert(kept@[m] == input[taken as int]);
                    }
                }
            }
            proof {
                if N::obeys_eq_spec() {
                    let upto = input.subrange(0, taken + 1);
                    assert forall|i: int|
                        0 <= i < taken + 1 && #[trigger] no_later_equal(upto, i)
                            implies kept@.contains(input[i]) by {
                        if i == taken {
                            assert(kept@[trimmed.len() as int] == input[i]);
                        } else {
                            assert(no_later_equal(input.subrange(0, taken as int), i)) by {
                                assert forall|j: int| i < j < taken implies !input.subrange(
                                    0,
                                    taken as int,
                                )[i].eq_spec(#[trigger] &input.subrange(0, taken as int)[j]) by {
                                    assert(!upto[i].eq_spec(&upto[j]));
                                }
                            }
                            let m = choose|m: int| 0 <= m < before.len() && before[m] == input[i];
                            assert(!upto[i].eq_spec(&upto[taken as int]));
                            if k < before.len() {
                                assert(trimmed.contains(before[m]));
                                let w = choose|w: int| 0 <= w < trimmed.len() && trimmed[w] == before[m];
                                assert(kept@[w] == input[i]);
                            } else {
                                assert(kept@[m] == input[i]);
                            }
                        }
                    }
                }
            }
            taken = taken + 1;
        }
        assert(input.subrange(0, n as int) =~= input);
        let mut total_capacity: usize = 0;
        let mut i: usize = 0;
        while i < capacities.len()
            invariant
                i <= capacities@.len(),
                total_capacity as nat == if capacity_sum(capacities@.subrange(0, i as int)) <= usize::MAX {
                    capacity_sum(capacities@.subrange(0, i as int))
                } else {
                    usize::MAX as nat
                },
            decreases capacities@.len() - i,
        {
            proof {
                let next = capacities@.subrange(0, i + 1);
                assert(next.drop_last() =~= capacities@.subrange(0, i as int));
                assert(next.last() == capacities@[i as int]);
            }
            total_capacity = total_capacity.saturating_add(capacities[i]);
            i = i + 1;
        }
        assert(capacities@.subrange(0, capacities@.len() as int) =~= capacities@);
        HrwNodes { nodes: kept, digests, capacities, build_hasher, total_capacity }
    }

    /// Sort the nodes using the HRW algorithm, for the key digest
    /// `key_digest`: most preferred first.
    pub fn sorted_by_digest(&self, key_digest: u64) -> (r: Vec<&N>)
        requires
            self.wf(),
        ensures
            exists|order: Seq<usize>|
                is_ranking(self.digest_seq(), key_digest, order) && lists_in_order(
                    self.node_seq(),
                    order,
                    r@,
                ),
    {
        let order = rank_digests(&self.digests, key_digest);
        let mut r: Vec<&N> = Vec::new();
        let mut p: usize = 0;
        while p < order.len()
            invariant
                is_ranking(self.digests@, key_digest, order@),
                self.digests@.len() == self.nodes@.len(),
                p <= order@.len(),
                lists_in_order(self.nodes@, order@.subrange(0, p as int), r@),
            decreases order@.len() - p,
        {
            r.push(&self.nodes[order[p]]);
            p = p + 1;
        }
        assert(order@.subrange(0, order@.len() as int) =~= order@);
        r
    }

    /// The number of nodes in the registry.
    pub fn len(&self) -> (r: usize)
        ensures
            r == self.node_seq().len(),
    {
        self.nodes.len()
    }

    /// The node at registry index `i`.
    pub fn node(&self, i: usize) -> (r: &N)
        requires
            i < self.node_seq().len(),
        ensures
            *r == self.node_seq()[i as int],
    {
        &self.nodes[i]
    }

    /// The digest of the node at registry index `i`.
    pub fn digest(&self, i: usize) -> (r: u64)
        requires
            self.wf(),
            i < self.node_seq().len(),
        ensures
            r == self.digest_seq()[i as int],
    {
        self.digests[i]
    }

    /// The capacity of the node at registry index `i`, as read when the
    /// registry was built.
    pub fn capacity(&self, i: usize) -> (r: usize)
        requires
            self.wf(),
            i < self.node_seq().len(),
        ensures
            r == self.capacity_seq()[i as int],
    {
        self.capacities[i]
    }

    /// The total capacity of the registry.
    pub fn total_capacity(&self) -> (r: usize)
        ensures
            r == self.total_capacity_spec(),
    {
        self.total_capacity
    }

    /// The digest of `key` under the registry's hasher.
    pub fn key_digest<K: Hash>(&self, key: &K) -> u64 {
        hash_one(&self.build_hasher, key)
    }

    /// Sort the nodes using the HRW algorithm.
    pub fn sorted<K: Hash>(&self, key: &K) -> (r: Vec<&N>)
        requires
            self.wf(),
        ensures
            exists|key_digest: u64, order: Seq<usize>|
                is_ranking(self.digest_seq(), key_digest, order) && lists_in_order(
                    self.node_seq(),
                    order,
                    r@,
                ),
    {
        let key_digest = self.key_digest(key);
        self.sorted_by_digest(key_digest)
    }
}

} // verus!
