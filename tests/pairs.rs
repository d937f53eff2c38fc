use simcheck::pairs::{pair_keys, tally, PairKey, ScoredPair};

#[test]
fn every_pair_once_for_four() {
    let keys = pair_keys(4);
    assert_eq!(keys.len(), 6);
    let expected = [(0, 1), (0, 2), (1, 2), (0, 3), (1, 3), (2, 3)];
    for (k, (a, b)) in keys.iter().zip(expected.iter()) {
        assert_eq!(k.first, *a);
        assert_eq!(k.second, *b);
    }
}

#[test]
fn pair_count_formula() {
    for n in 2..12usize {
        assert_eq!(pair_keys(n).len(), n * (n - 1) / 2);
    }
}

#[test]
fn fewer_than_two_submissions_have_no_pairs() {
    assert!(pair_keys(0).is_empty());
    assert!(pair_keys(1).is_empty());
    let r = tally(&pair_keys(1), &Vec::new());
    assert!(r.retained.is_empty());
    assert!(r.failed.is_empty());
    assert!(r.stats.empty());
}

#[test]
fn key_is_unordered() {
    assert_eq!(PairKey::new(3, 1), PairKey::new(1, 3));
    let k = PairKey::new(7, 2);
    assert_eq!(k.first, 2);
    assert_eq!(k.second, 7);
}

#[test]
fn tally_retains_non_zero_and_counts_all() {
    let keys = pair_keys(3);
    let outcomes = vec![Some(0u8), Some(96), Some(40)];
    let r = tally(&keys, &outcomes);
    assert_eq!(r.stats.len(), 3);
    assert_eq!(r.stats.num_zeroes(), 1);
    assert_eq!(
        r.retained,
        vec![
            ScoredPair { pair: PairKey { first: 0, second: 2 }, score: 96 },
            ScoredPair { pair: PairKey { first: 1, second: 2 }, score: 40 },
        ]
    );
    assert!(r.failed.is_empty());
}

#[test]
fn tally_skips_failed_comparison() {
    let keys = pair_keys(3);
    let outcomes = vec![Some(50u8), None, Some(0)];
    let r = tally(&keys, &outcomes);
    assert_eq!(r.stats.len(), 2);
    assert_eq!(r.failed, vec![PairKey { first: 0, second: 2 }]);
    assert_eq!(r.retained.len(), 1);
    assert_eq!(r.retained[0].score, 50);
}

#[test]
fn tally_twice_is_identical() {
    let keys = pair_keys(4);
    let outcomes = vec![Some(10u8), Some(0), Some(99), None, Some(5), Some(100)];
    let a = tally(&keys, &outcomes);
    let b = tally(&keys, &outcomes);
    assert_eq!(a.retained, b.retained);
    assert_eq!(a.failed, b.failed);
    assert_eq!(a.stats.sum(), b.stats.sum());
    assert_eq!(a.stats.len(), b.stats.len());
}
