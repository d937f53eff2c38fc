//! Deduplicated all-pairs comparison: every unordered pair of distinct
//! submissions is enumerated exactly once, and the scores that come back are
//! tallied into retained pairs and the statistics stream.
use crate::stats::Similarities;
use vstd::prelude::*;

verus! {

/// An unordered pair of distinct submissions, named by their positions in the
/// submission list and kept in canonical order: `first < second`.
#[derive(Clone, Copy, Debug, PartialEq, Eq, Structural)]
pub struct PairKey {
    pub first: usize,
    pub second: usize,
}

/// A retained pair together with its score.
#[derive(Clone, Copy, Debug, PartialEq, Eq, Structural)]
pub struct ScoredPair {
    pub pair: PairKey,
    pub score: u8,
}

/// The canonical key of the pair `{a, b}`.
pub open spec fn key_of(a: usize, b: usize) -> PairKey {
    if a < b {
        PairKey { first: a, second: b }
    } else {
        PairKey { first: b, second: a }
    }
}

/// Every unordered pair of distinct positions below `n`, each once: the pairs
/// whose larger position is `j` come after all those whose larger position is
/// below `j`, in increasing order of the smaller position.
pub open spec fn all_pairs(n: nat) -> Seq<PairKey>
    decreases n,
{
    if n == 0 {
        Seq::empty()
    } else {
        all_pairs((n - 1) as nat) + Seq::new(
            (n - 1) as nat,
            |i: int| PairKey { first: i as usize, second: (n - 1) as usize },
        )
    }
}

/// The scores that came back, in order, skipping failed comparisons.
pub open spec fn scores_of(outcomes: Seq<Option<u8>>) -> Seq<u8>
    decreases outcomes.len(),
{
    if outcomes.len() == 0 {
        Seq::empty()
    } else {
        let rest = scores_of(outcomes.drop_last());
        match outcomes.last() {
            Some(s) => rest.push(s),
            None => rest,
        }
    }
}

/// The pairs whose comparison succeeded with a score above zero, in order.
pub open spec fn retained_of(keys: Seq<PairKey>, outcomes: Seq<Option<u8>>) -> Seq<ScoredPair>
    decreases outcomes.len(),
{
    if outcomes.len() == 0 || keys.len() != outcomes.len() {
        Seq::empty()
    } else {
        let rest = retained_of(keys.drop_last(), outcomes.drop_last());
        match outcomes.last() {
            Some(s) => if s > 0 {
                rest.push(ScoredPair { pair: keys.last(), score: s })
            } else {
                rest
            },
            None => rest,
        }
    }
}

/// The pairs whose comparison failed, in order.
pub open spec fn failed_of(keys: Seq<PairKey>, outcomes: Seq<Option<u8>>) -> Seq<PairKey>
    decreases outcomes.len(),
{
    if outcomes.len() == 0 || keys.len() != outcomes.len() {
        Seq::empty()
    } else {
        let rest = failed_of(keys.drop_last(), outcomes.drop_last());
        match outcomes.last() {
            Some(_) => rest,
            None => rest.push(keys.last()),
        }
    }
}

/// The number of unordered pairs of `n` distinct submissions.
pub open spec fn pair_count(n: nat) -> nat {
    (n * (n - 1) / 2) as nat
}

pub proof fn lemma_all_pairs_len(n: nat)
    ensures
        all_pairs(n).len() == pair_count(n),
    decreases n,
{
    lemma_all_pairs_len_double(n);
}

proof fn lemma_all_pairs_len_double(n: nat)
    ensures
        2 * all_pairs(n).len() == n * (n - 1),
    decreases n,
{
    if n > 0 {
        let m = (n - 1) as nat;
        lemma_all_pairs_len_double(m);
        let l = all_pairs(m).len() as int;
        let t = Seq::new(m, |i: int| PairKey { first: i as usize, second: m as usize });
        assert(all_pairs(n) == all_pairs(m) + t);
        assert(all_pairs(n).len() == l + m);
        assert(2 * (l + m) == n * (n - 1)) by (nonlinear_arith)
            requires
                2 * l == m * (m - 1),
                n == m + 1,
        ;
    } else {
        assert(n * (n - 1) == 0) by (nonlinear_arith)
            requires
                n == 0,
        ;
    }
}

/// Every key of `all_pairs(n)` is canonical and names two positions below
/// `n`; no key occurs twice; and every pair of distinct positions below `n`
/// occurs, in either order, as the key `key_of(a, b)`.
pub proof fn lemma_all_pairs_exactly_once(n: nat)
    requires
        n <= usize::MAX,
    ensures
        forall|k: int|
            0 <= k < all_pairs(n).len() ==> (#[trigger] all_pairs(n)[k]).first
                < all_pairs(n)[k].second && all_pairs(n)[k].second < n,
        forall|k1: int, k2: int|
            0 <= k1 < all_pairs(n).len() && 0 <= k2 < all_pairs(n).len() && #[trigger] all_pairs(
                n,
            )[k1] == #[trigger] all_pairs(n)[k2] ==> k1 == k2,
        forall|a: usize, b: usize|
            a < n && b < n && a != b ==> #[trigger] all_pairs(n).contains(key_of(a, b)),
    decreases n,
{
    if n > 0 {
        let m = (n - 1) as nat;
        lemma_all_pairs_exactly_once(m);
        let p = all_pairs(m);
        let t = Seq::new(m, |i: int| PairKey { first: i as usize, second: m as usize });
        assert(all_pairs(n) == p + t);
        let q = all_pairs(n);
        assert forall|k: int| 0 <= k < q.len() implies (#[trigger] q[k]).first < q[k].second
            && q[k].second < n by {
            if k < p.len() {
                assert(q[k] == p[k]);
            } else {
                assert(q[k] == t[k - p.len()]);
            }
        }
        assert forall|k1: int, k2: int|
            0 <= k1 < q.len() && 0 <= k2 < q.len() && #[trigger] q[k1] == #[trigger] q[k2] implies k1
            == k2 by {
            if k1 < p.len() {
                assert(q[k1] == p[k1]);
            } else {
                assert(q[k1] == t[k1 - p.len()]);
            }
            if k2 < p.len() {
                assert(q[k2] == p[k2]);
            } else {
                assert(q[k2] == t[k2 - p.len()]);
            }
        }
        assert forall|a: usize, b: usize| a < n && b < n && a != b implies #[trigger] all_pairs(
            n,
        ).contains(key_of(a, b)) by {
            let k = key_of(a, b);
            if k.second < m {
                assert(p.contains(k));
                let i = choose|i: int| 0 <= i < p.len() && p[i] == k;
                assert(all_pairs(n)[i] == k);
            } else {
                assert(t[k.first as int] == k);
                assert(all_pairs(n)[p.len() + k.first] == k);
            }
        }
    }
}

impl PairKey {
    /// The canonical key of two distinct positions, whatever their order.
    pub fn new(a: usize, b: usize) -> (r: PairKey)
        requires
            a != b,
        ensures
            r == key_of(a, b),
    {
        if a < b {
            PairKey { first: a, second: b }
        } else {
            PairKey { first: b, second: a }
        }
    }
}

/// A pair has one key: `{a, b}` and `{b, a}` are the same pair, so the score
/// found for it is the same in either order.
pub proof fn lemma_key_unordered(a: usize, b: usize)
    ensures
        key_of(a, b) == key_of(b, a),
{
}

/// The keys of all unordered pairs among `n` submissions, each exactly once,
/// in the order of `all_pairs`.
pub fn pair_keys(n: usize) -> (r: Vec<PairKey>)
    ensures
        r@ == all_pairs(n as nat),
        r@.len() == pair_count(n as nat),
{
    let mut keys: Vec<PairKey> = Vec::new();
    let mut j: usize = 0;
    while j < n
        invariant
            j <= n,
            keys@ == all_pairs(j as nat),
        decreases n - j,
    {
        let mut i: usize = 0;
        while i < j
            invariant
                i <= j < n,
                keys@ == all_pairs(j as nat) + Seq::new(
                    i as nat,
                    |x: int| PairKey { first: x as usize, second: j },
                ),
            decreases j - i,
        {
            keys.push(PairKey { first: i, second: j });
            i = i + 1;
            assert(keys@ =~= all_pairs(j as nat) + Seq::new(
                i as nat,
                |x: int| PairKey { first: x as usize, second: j },
            ));
        }
        j = j + 1;
        assert(keys@ =~= all_pairs(j as nat));
    }
    proof {
        lemma_all_pairs_len(n as nat);
    }
    keys
}

/// What one batch of comparisons yields: the retained pairs (score above
/// zero), the pairs whose comparison failed, and every score that came back.
pub struct PairReport {
    pub retained: Vec<ScoredPair>,
    pub failed: Vec<PairKey>,
    pub stats: Similarities,
}

/// The report on `keys`, where `outcomes[k]` is the score of `keys[k]`, or
/// `None` where comparing that pair failed.
pub open spec fn is_report_of(r: PairReport, keys: Seq<PairKey>, outcomes: Seq<Option<u8>>) -> bool {
    &&& r.stats@ == scores_of(outcomes)
    &&& r.retained@ == retained_of(keys, outcomes)
    &&& r.failed@ == failed_of(keys, outcomes)
}

proof fn lemma_tally_counts(keys: Seq<PairKey>, outcomes: Seq<Option<u8>>)
    requires
        keys.len() == outcomes.len(),
    ensures
        scores_of(outcomes).len() + failed_of(keys, outcomes).len() == outcomes.len(),
        retained_of(keys, outcomes).len() <= scores_of(outcomes).len(),
    decreases outcomes.len(),
{
    if outcomes.len() > 0 {
        lemma_tally_counts(keys.drop_last(), outcomes.drop_last());
    }
}

/// Tallies the outcome of each pair: every score that came back goes into the
/// statistics stream once, a pair is retained when its score is above zero,
/// and a failed comparison is recorded and skipped.
pub fn tally(keys: &Vec<PairKey>, outcomes: &Vec<Option<u8>>) -> (r: PairReport)
    requires
        keys@.len() == outcomes@.len(),
    ensures
        is_report_of(r, keys@, outcomes@),
        r.stats@.len() + r.failed@.len() == keys@.len(),
        r.retained@.len() <= r.stats@.len(),
{
    let mut retained: Vec<ScoredPair> = Vec::new();
    let mut failed: Vec<PairKey> = Vec::new();
    let mut stats = Similarities::new();
    let mut k: usize = 0;
    while k < keys.len()
        invariant
            k <= keys@.len() == outcomes@.len(),
            stats@ == scores_of(outcomes@.subrange(0, k as int)),
            retained@ == retained_of(keys@.subrange(0, k as int), outcomes@.subrange(0, k as int)),
            failed@ == failed_of(keys@.subrange(0, k as int), outcomes@.subrange(0, k as int)),
        decreases keys@.len() - k,
    {
        let ghost ks = keys@.subrange(0, k + 1);
        let ghost os = outcomes@.subrange(0, k + 1);
        assert(ks.drop_last() == keys@.subrange(0, k as int));
        assert(os.drop_last() == outcomes@.subrange(0, k as int));
        match outcomes[k] {
            Some(s) => {
                if s > 0 {
                    retained.push(ScoredPair { pair: keys[k], score: s });
                }
                stats.add(s);
            },
            None => {
                failed.push(keys[k]);
            },
        }
        k = k + 1;
    }
    assert(keys@.subrange(0, k as int) == keys@);
    assert(outcomes@.subrange(0, k as int) == outcomes@);
    proof {
        lemma_tally_counts(keys@, outcomes@);
    }
    PairReport { retained, failed, stats }
}

proof fn lemma_no_failures(keys: Seq<PairKey>, outcomes: Seq<Option<u8>>)
    requires
        keys.len() == outcomes.len(),
        forall|k: int| 0 <= k < outcomes.len() ==> (#[trigger] outcomes[k]) is Some,
    ensures
        failed_of(keys, outcomes).len() == 0,
    decreases outcomes.len(),
{
    if outcomes.len() > 0 {
        let o = outcomes.drop_last();
        assert forall|k: int| 0 <= k < o.len() implies (#[trigger] o[k]) is Some by {
            assert(o[k] == outcomes[k]);
        }
        lemma_no_failures(keys.drop_last(), o);
        assert(outcomes[outcomes.len() - 1] is Some);
    }
}

/// For `n` submissions whose comparisons all succeed, exactly
/// `n * (n - 1) / 2` scores reach the statistics stream, and at most that
/// many pairs are retained.
pub proof fn lemma_comparison_count(n: nat, outcomes: Seq<Option<u8>>)
    requires
        outcomes.len() == all_pairs(n).len(),
        forall|k: int| 0 <= k < outcomes.len() ==> (#[trigger] outcomes[k]) is Some,
    ensures
        scores_of(outcomes).len() == pair_count(n),
        retained_of(all_pairs(n), outcomes).len() <= pair_count(n),
{
    lemma_all_pairs_len(n);
    lemma_tally_counts(all_pairs(n), outcomes);
    lemma_no_failures(all_pairs(n), outcomes);
}

/// A batch of fewer than two submissions has no pair to compare: its report
/// holds no retained pair, no failure and no score.
pub proof fn lemma_fewer_than_two(n: nat, r: PairReport, outcomes: Seq<Option<u8>>)
    requires
        n < 2,
        outcomes.len() == all_pairs(n).len(),
        is_report_of(r, all_pairs(n), outcomes),
    ensures
        all_pairs(n).len() == 0,
        r.retained@.len() == 0,
        r.failed@.len() == 0,
        r.stats@.len() == 0,
{
    lemma_all_pairs_len(n);
    assert(n * (n - 1) == 0) by (nonlinear_arith)
        requires
            n < 2,
    ;
    assert(pair_count(n) == 0);
    assert(outcomes.len() == 0);
}

/// Tallying the same outcomes twice yields the same retained pairs, the same
/// failures and the same score stream.
pub proof fn lemma_report_deterministic(
    keys: Seq<PairKey>,
    outcomes: Seq<Option<u8>>,
    r1: PairReport,
    r2: PairReport,
)
    requires
        is_report_of(r1, keys, outcomes),
        is_report_of(r2, keys, outcomes),
    ensures
        r1.retained@ == r2.retained@,
        r1.failed@ == r2.failed@,
        r1.stats@ == r2.stats@,
{
}

} // verus!
