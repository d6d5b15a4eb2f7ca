mod hasher;
mod hrw;
mod ranking;
mod weighted_hrw;

use vstd::prelude::*;

pub use hasher::{merge, merge_spec, rapidhash_v3_of, DefaultHasher};
pub use hrw::{
    capacity_sum, lemma_sorted_deterministic, lists_in_order, no_later_equal, pairwise_distinct,
    HrwNodes,
};
pub use ranking::{
    is_ranking, is_weighted_ranking, key_precedes, keys_ranked, lemma_minimal_disruption,
    lemma_ranking_complete, lemma_ranking_deterministic, lemma_weighted_ranking_deterministic,
    precedes, rank_digests, rank_keys, rank_weighted, strictly_ranked, weighted_key,
    weighted_precedes,
};
pub use weighted_hrw::{lemma_sorted_by_scores_deterministic, WeightedHrwNodes};

verus! {

/// Target node which will be used for the hashing.
pub trait HrwNode: std::hash::Hash + PartialEq + Eq {
    /// Capacity of the node.
    ///
    /// The capacity decides what portion of the keyspace the node gets in
    /// capacity-weighted ranking: the higher the capacity, the more likely the
    /// node is chosen. The capacities of all nodes sum up to the total
    /// capacity of the keyspace, and a node's share is its capacity over that
    /// total.
    fn capacity(&self) -> usize {
        1
    }
}

impl HrwNode for u8 {}
impl HrwNode for u16 {}
impl HrwNode for u32 {}
impl HrwNode for u64 {}
impl HrwNode for usize {}
impl HrwNode for i8 {}
impl HrwNode for i16 {}
impl HrwNode for i32 {}
impl HrwNode for i64 {}
impl HrwNode for isize {}
impl HrwNode for char {}
impl HrwNode for String {}
impl<'a> HrwNode for &'a str {}
impl<'a> HrwNode for &'a [u8] {}

} // verus!
