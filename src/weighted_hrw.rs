use vstd::prelude::*;

use std::hash::{BuildHasher, BuildHasherDefault};

use crate::hasher::DefaultHasher;
use crate::hrw::{lists_in_order, no_later_equal, pairwise_distinct, HrwNodes};
use crate::ranking::{is_weighted_ranking, lemma_weighted_ranking_deterministic, rank_weighted};
use crate::HrwNode;
use vstd::std_specs::cmp::PartialEqSpec;

verus! {

/// Determinism of a registry's weighted ranking: two results that each list
/// the registry's `nodes` in the weighted ranking for the same key digest and
/// scores are equal.
pub proof fn lemma_sorted_by_scores_deterministic<N>(
    nodes: Seq<N>,
    digests: Seq<u64>,
    key_digest: u64,
    scores: Seq<u64>,
    first_order: Seq<usize>,
    first: Seq<&N>,
    second_order: Seq<usize>,
    second: Seq<&N>,
)
    requires
        is_weighted_ranking(digests, key_digest, scores, first_order),
        lists_in_order(nodes, first_order, first),
        is_weighted_ranking(digests, key_digest, scores, second_order),
        lists_in_order(nodes, second_order, second),
    ensures
        first == second,
{
    lemma_weighted_ranking_deterministic(digests, key_digest, scores, first_order, second_order);
    assert forall|p: int| 0 <= p < first.len() implies first[p] == second[p] by {
        assert(*first[p] == nodes[first_order[p] as int]);
        assert(*second[p] == nodes[second_order[p] as int]);
    }
    assert(first =~= second);
}

/// Weighted nodes sorted using the HRW algorithm.
///
/// The registry is the same as for uniform ranking; what differs is the
/// order: each node gets a score from its affinity and its share of the total
/// capacity, and the highest score wins.
pub struct WeightedHrwNodes<N, H = BuildHasherDefault<DefaultHasher>> {
    registry: HrwNodes<N, H>,
}

impl<N: HrwNode> WeightedHrwNodes<N> {
    /// Create a new instance with the default hasher.
    pub fn new(nodes: Vec<N>) -> (r: Self)
        ensures
            r.registry_spec().wf(),
            nodes@.len() > 0 ==> r.registry_spec().node_seq().len() > 0,
            N::obeys_eq_spec() ==> pairwise_distinct(r.registry_spec().node_seq()),
            r.registry_spec().node_seq().len() <= nodes@.len(),
            forall|k: int|
                0 <= k < r.registry_spec().node_seq().len() ==> #[trigger] nodes@.contains(
                    r.registry_spec().node_seq()[k],
                ),
            N::obeys_eq_spec() && pairwise_distinct(nodes@) ==> r.registry_spec().node_seq()
                == nodes@,
            N::obeys_eq_spec() ==> forall|i: int|
                0 <= i < nodes@.len() && #[trigger] no_later_equal(nodes@, i)
                    ==> r.registry_spec().node_seq().contains(nodes@[i]),
    {
        WeightedHrwNodes { registry: HrwNodes::new(nodes) }
    }
}

impl<N, H> WeightedHrwNodes<N, H> where N: HrwNode, H: BuildHasher {
    /// The registry of nodes, digests and capacities.
    pub closed spec fn registry_spec(&self) -> HrwNodes<N, H> {
        self.registry
    }

    /// Create a new instance with a custom hasher.
    pub fn with_hasher(hasher: H, nodes: Vec<N>) -> (r: Self)
        ensures
            r.registry_spec().wf(),
            r.registry_spec().build_hasher_spec() == hasher,
            nodes@.len() > 0 ==> r.registry_spec().node_seq().len() > 0,
            N::obeys_eq_spec() ==> pairwise_distinct(r.registry_spec().node_seq()),
            r.registry_spec().node_seq().len() <= nodes@.len(),
            forall|k: int|
                0 <= k < r.registry_spec().node_seq().len() ==> #[trigger] nodes@.contains(
                    r.registry_spec().node_seq()[k],
                ),
            N::obeys_eq_spec() && pairwise_distinct(nodes@) ==> r.registry_spec().node_seq()
                == nodes@,
            N::obeys_eq_spec() ==> forall|i: int|
                0 <= i < nodes@.len() && #[trigger] no_later_equal(nodes@, i)
                    ==> r.registry_spec().node_seq().contains(nodes@[i]),
    {
        WeightedHrwNodes { registry: HrwNodes::with_build_hasher(hasher, nodes) }
    }

    /// The registry of nodes, digests and capacities.
    pub fn registry(&self) -> (r: &HrwNodes<N, H>)
        ensures
            *r == self.registry_spec(),
    {
        &self.registry
    }

    /// Sort the nodes by their weighted scores for the key digest
    /// `key_digest`, highest score first; `scores[i]` is the score of the node
    /// at registry index `i` as an order-preserving integer.
    pub fn sorted_by_scores(&self, key_digest: u64, scores: &Vec<u64>) -> (r: Vec<&N>)
        requires
            self.registry_spec().wf(),
            scores@.len() == self.registry_spec().node_seq().len(),
        ensures
            exists|order: Seq<usize>|
                is_weighted_ranking(
                    self.registry_spec().digest_seq(),
                    key_digest,
                    scores@,
                    order,
                ) && lists_in_order(self.registry_spec().node_seq(), order, r@),
    {
        let n: usize = self.registry.len();
        let mut digests: Vec<u64> = Vec::new();
        let mut i: usize = 0;
        while i < n
            invariant
                self.registry_spec().wf(),
                n == self.registry_spec().node_seq().len(),
                i <= n,
                digests@ == self.registry_spec().digest_seq().subrange(0, i as int),
            decreases n - i,
        {
            digests.push(self.registry.digest(i));
            i = i + 1;
        }
        assert(digests@ =~= self.registry_spec().digest_seq());
        let order = rank_weighted(&digests, key_digest, scores);
        let mut r: Vec<&N> = Vec::new();
        let mut p: usize = 0;
        while p < order.len()
            invariant
                is_weighted_ranking(digests@, key_digest, scores@, order@),
                n == self.registry_spec().node_seq().len(),
                digests@.len() == n,
                p <= order@.len(),
                lists_in_order(self.registry_spec().node_seq(), order@.subrange(0, p as int), r@),
            decreases order@.len() - p,
        {
            r.push(self.registry.node(order[p]));
            p = p + 1;
        }
        assert(order@.subrange(0, order@.len() as int) =~= order@);
        r
    }
}

} // verus!
