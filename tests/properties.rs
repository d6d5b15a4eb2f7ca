use hrw_hash::{merge, rank_digests, DefaultHasher, HrwNodes};
use std::hash::Hasher;

#[test]
fn merge_of_equal_digests_is_zero() {
    assert_eq!(merge(0, 0), 0);
    assert_eq!(merge(7, 7), 0);
}

#[test]
fn merge_exact_values() {
    assert_eq!(merge(1, 2), 815575690806614222);
    assert_eq!(merge(42, 7), 12427753613712565569);
}

#[test]
fn default_hasher_digests_rapidhash_v3() {
    let empty = DefaultHasher::new();
    assert_eq!(empty.finish(), 232177599295442350);

    let mut h = DefaultHasher::new();
    h.write(b"ab");
    h.write(b"c");
    assert_eq!(h.finish(), 14647777377830833570);

    let mut whole = DefaultHasher::new();
    whole.write(&[0, 1, 2, 3, 4, 5, 6, 7]);
    assert_eq!(whole.finish(), 15732834091190890302);
}

#[test]
fn rank_digests_orders_by_ascending_affinity() {
    let digests: Vec<u64> = vec![11, 22, 33, 44, 55];
    let key = 9u64;
    let order = rank_digests(&digests, key);
    assert_eq!(order.len(), digests.len());
    for w in order.windows(2) {
        assert!(merge(digests[w[0]], key) <= merge(digests[w[1]], key));
    }
    let mut seen = order.clone();
    seen.sort();
    assert_eq!(seen, vec![0, 1, 2, 3, 4]);
}

#[test]
fn equal_affinities_keep_registry_order() {
    let digests: Vec<u64> = vec![5, 5, 5];
    assert_eq!(rank_digests(&digests, 123), vec![0, 1, 2]);
}

#[test]
fn empty_registry_ranks_nothing() {
    let hrw: HrwNodes<u32> = HrwNodes::new(Vec::new());
    assert!(hrw.sorted(&42u32).is_empty());
    assert!(hrw.sorted(&"any key").is_empty());
    assert!(rank_digests(&Vec::new(), 5).is_empty());
}

#[test]
fn ranking_twice_gives_the_same_order() {
    let hrw = HrwNodes::new((0..20u32).collect());
    for key in 0..100u32 {
        assert_eq!(hrw.sorted(&key), hrw.sorted(&key));
    }
}

#[test]
fn ranking_holds_every_node_once() {
    let hrw = HrwNodes::new((0..25u64).collect());
    for key in 0..50u64 {
        let mut ranked: Vec<u64> = hrw.sorted(&key).into_iter().copied().collect();
        ranked.sort();
        assert_eq!(ranked, (0..25u64).collect::<Vec<_>>());
    }
}

#[test]
fn duplicate_nodes_are_stored_once() {
    let hrw = HrwNodes::new(vec![3u8, 1, 3, 2, 1]);
    let mut ranked: Vec<u8> = hrw.sorted(&0u8).into_iter().copied().collect();
    ranked.sort();
    assert_eq!(ranked, vec![1, 2, 3]);
}

#[test]
fn adding_a_node_keeps_the_order_of_the_others() {
    let small = HrwNodes::new((0..12u32).collect());
    let large = HrwNodes::new((0..13u32).collect());
    for key in 0..200u32 {
        let before: Vec<u32> = small.sorted(&key).into_iter().copied().collect();
        let after: Vec<u32> = large
            .sorted(&key)
            .into_iter()
            .copied()
            .filter(|n| *n != 12)
            .collect();
        assert_eq!(before, after);
    }
}
