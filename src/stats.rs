//! Running statistics over a stream of similarity scores.
use vstd::prelude::*;

verus! {

/// Number of zero scores in `s`.
pub open spec fn count_zeroes(s: Seq<u8>) -> nat
    decreases s.len(),
{
    if s.len() == 0 {
        0
    } else {
        count_zeroes(s.drop_last()) + if s.last() == 0 { 1nat } else { 0nat }
    }
}

/// The non-zero scores of `s`, in their order.
pub open spec fn non_zeroes(s: Seq<u8>) -> Seq<u8>
    decreases s.len(),
{
    if s.len() == 0 {
        Seq::empty()
    } else if s.last() == 0 {
        non_zeroes(s.drop_last())
    } else {
        non_zeroes(s.drop_last()).push(s.last())
    }
}

/// Sum of the scores of `s`.
pub open spec fn sum(s: Seq<u8>) -> nat
    decreases s.len(),
{
    if s.len() == 0 {
        0
    } else {
        sum(s.drop_last()) + s.last() as nat
    }
}

/// Sum of the squares of the scores of `s`.
pub open spec fn sum_of_squares(s: Seq<u8>) -> nat
    decreases s.len(),
{
    if s.len() == 0 {
        0
    } else {
        sum_of_squares(s.drop_last()) + (s.last() as nat) * (s.last() as nat)
    }
}

/// Sum over `s` of `(c * x - d)^2`: with `c` the count and `d` the sum, this
/// is the sum of squared deviations from the mean, scaled by `c^2`.
pub open spec fn scaled_deviations(s: Seq<u8>, c: int, d: int) -> int
    decreases s.len(),
{
    if s.len() == 0 {
        0
    } else {
        let e = c * (s.last() as int) - d;
        scaled_deviations(s.drop_last(), c, d) + e * e
    }
}

pub proof fn lemma_zeroes_partition(s: Seq<u8>)
    ensures
        count_zeroes(s) + non_zeroes(s).len() == s.len(),
    decreases s.len(),
{
    if s.len() > 0 {
        lemma_zeroes_partition(s.drop_last());
    }
}

pub proof fn lemma_sum_bound(s: Seq<u8>)
    ensures
        sum(s) <= 255 * s.len(),
        sum_of_squares(s) <= 65025 * s.len(),
    decreases s.len(),
{
    if s.len() > 0 {
        lemma_sum_bound(s.drop_last());
        let x = s.last() as nat;
        assert(x * x <= 65025) by (nonlinear_arith)
            requires
                x <= 255,
        ;
    }
}

/// Expands the sum of squared deviations: summing `(c * x - d)^2` over the
/// scores equals `c^2 * sum_of_squares - 2 * c * d * sum + len * d^2`.
pub proof fn lemma_scaled_deviations_expand(s: Seq<u8>, c: int, d: int)
    ensures
        scaled_deviations(s, c, d) == c * c * sum_of_squares(s) - 2 * c * d * sum(s) + s.len()
            * d * d,
    decreases s.len(),
{
    if s.len() > 0 {
        let t = s.drop_last();
        lemma_scaled_deviations_expand(t, c, d);
        let x = s.last() as int;
        let q = sum_of_squares(t) as int;
        let m = sum(t) as int;
        let n = t.len() as int;
        let r = scaled_deviations(s, c, d);
        let rt = scaled_deviations(t, c, d);
        let q1 = sum_of_squares(s) as int;
        let m1 = sum(s) as int;
        let n1 = s.len() as int;
        assert(r == rt + (c * x - d) * (c * x - d));
        assert(r == c * c * q1 - 2 * c * d * m1 + n1 * d * d) by (nonlinear_arith)
            requires
                r == rt + (c * x - d) * (c * x - d),
                rt == c * c * q - 2 * c * d * m + n * d * d,
                q1 == q + x * x,
                m1 == m + x,
                n1 == n + 1,
        ;
    } else {
        assert(c * c * 0 - 2 * c * d * 0 + 0 * d * d == 0) by (nonlinear_arith);
    }
}

/// Population variance, scaled: for `n` scores with sum `S`, the sum of
/// `(n * x - S)^2` is `n * (n * sum_of_squares - S^2)`. Hence the population
/// variance is `(n * sum_of_squares - S^2) / n^2`, and that numerator is never
/// negative.
pub proof fn lemma_variance_numerator(s: Seq<u8>)
    ensures
        scaled_deviations(s, s.len() as int, sum(s) as int) == s.len() * (s.len()
            * sum_of_squares(s) - sum(s) * sum(s)),
        sum(s) * sum(s) <= s.len() * sum_of_squares(s),
{
    let n = s.len() as int;
    let m = sum(s) as int;
    let q = sum_of_squares(s) as int;
    lemma_scaled_deviations_expand(s, n, m);
    assert(n * n * q - 2 * n * m * m + n * m * m == n * (n * q - m * m)) by (nonlinear_arith);
    lemma_scaled_deviations_nonneg(s, n, m);
    if n > 0 {
        assert(n * (n * q - m * m) >= 0 ==> n * q - m * m >= 0) by (nonlinear_arith)
            requires
                n > 0,
        ;
    } else {
        assert(s.len() == 0);
    }
}

proof fn lemma_scaled_deviations_nonneg(s: Seq<u8>, c: int, d: int)
    ensures
        scaled_deviations(s, c, d) >= 0,
    decreases s.len(),
{
    if s.len() > 0 {
        lemma_scaled_deviations_nonneg(s.drop_last(), c, d);
        let e = c * (s.last() as int) - d;
        assert(e * e >= 0) by (nonlinear_arith);
    }
}

/// Zero scores add nothing to a sum: the non-zero scores have the same sum
/// and the same sum of squares as the whole stream, so the mean and deviation
/// over the non-zero scores divide these sums by their own count.
pub proof fn lemma_non_zeroes_sums(s: Seq<u8>)
    ensures
        sum(non_zeroes(s)) == sum(s),
        sum_of_squares(non_zeroes(s)) == sum_of_squares(s),
    decreases s.len(),
{
    if s.len() > 0 {
        lemma_non_zeroes_sums(s.drop_last());
        let t = non_zeroes(s.drop_last());
        if s.last() != 0 {
            assert(non_zeroes(s).drop_last() == t);
        }
    }
}

/// The stream of similarity scores of one run, each in `[0, 100]`.
#[derive(Clone, Debug)]
pub struct Similarities {
    nums: Vec<u8>,
}

impl View for Similarities {
    type V = Seq<u8>;

    closed spec fn view(&self) -> Seq<u8> {
        self.nums@
    }
}

impl Similarities {
    /// An empty stream.
    pub fn new() -> (r: Self)
        ensures
            r@ == Seq::<u8>::empty(),
    {
        Similarities { nums: Vec::new() }
    }

    /// Appends one score.
    pub fn add(&mut self, num: u8)
        ensures
            final(self)@ == old(self)@.push(num),
    {
        self.nums.push(num);
    }

    pub fn empty(&self) -> (r: bool)
        ensures
            r == (self@.len() == 0),
    {
        self.nums.len() == 0
    }

    pub fn len(&self) -> (r: usize)
        ensures
            r == self@.len(),
    {
        self.nums.len()
    }

    /// Number of scores that are not zero.
    pub fn len_non_zeroes(&self) -> (r: usize)
        ensures
            r == non_zeroes(self@).len(),
    {
        let mut n: usize = 0;
        let mut i: usize = 0;
        while i < self.nums.len()
            invariant
                i <= self.nums@.len(),
                n == non_zeroes(self.nums@.subrange(0, i as int)).len(),
                n <= i,
            decreases self.nums@.len() - i,
        {
            assert(self.nums@.subrange(0, i + 1).drop_last() == self.nums@.subrange(0, i as int));
            if self.nums[i] > 0 {
                n = n + 1;
            }
            i = i + 1;
        }
        assert(self.nums@.subrange(0, i as int) == self.nums@);
        n
    }

    /// Number of scores equal to zero.
    pub fn num_zeroes(&self) -> (r: usize)
        ensures
            r == count_zeroes(self@),
    {
        let mut n: usize = 0;
        let mut i: usize = 0;
        while i < self.nums.len()
            invariant
                i <= self.nums@.len(),
                n == count_zeroes(self.nums@.subrange(0, i as int)),
                n <= i,
            decreases self.nums@.len() - i,
        {
            assert(self.nums@.subrange(0, i + 1).drop_last() == self.nums@.subrange(0, i as int));
            if self.nums[i] == 0 {
                n = n + 1;
            }
            i = i + 1;
        }
        assert(self.nums@.subrange(0, i as int) == self.nums@);
        n
    }

    /// Sum of all scores; the mean is this divided by `len`.
    pub fn sum(&self) -> (r: u128)
        ensures
            r == sum(self@),
    {
        let mut total: u128 = 0;
        let mut i: usize = 0;
        while i < self.nums.len()
            invariant
                i <= self.nums@.len(),
                total == sum(self.nums@.subrange(0, i as int)),
            decreases self.nums@.len() - i,
        {
            let ghost p = self.nums@.subrange(0, i + 1);
            assert(p.drop_last() == self.nums@.subrange(0, i as int));
            proof {
                lemma_sum_bound(p);
            }
            total = total + self.nums[i] as u128;
            i = i + 1;
        }
        assert(self.nums@.subrange(0, i as int) == self.nums@);
        total
    }

    /// Sum of the non-zero scores; their mean is this divided by
    /// `len_non_zeroes`.
    pub fn sum_non_zeroes(&self) -> (r: u128)
        ensures
            r == sum(non_zeroes(self@)),
    {
        proof {
            lemma_non_zeroes_sums(self@);
        }
        self.sum()
    }

    /// Sum of the squares of the non-zero scores.
    pub fn sum_of_squares_non_zeroes(&self) -> (r: u128)
        ensures
            r == sum_of_squares(non_zeroes(self@)),
    {
        proof {
            lemma_non_zeroes_sums(self@);
        }
        self.sum_of_squares()
    }

    /// Sum of the squares of all scores.
    pub fn sum_of_squares(&self) -> (r: u128)
        ensures
            r == sum_of_squares(self@),
    {
        let mut total: u128 = 0;
        let mut i: usize = 0;
        while i < self.nums.len()
            invariant
                i <= self.nums@.len(),
                total == sum_of_squares(self.nums@.subrange(0, i as int)),
            decreases self.nums@.len() - i,
        {
            let ghost p = self.nums@.subrange(0, i + 1);
            assert(p.drop_last() == self.nums@.subrange(0, i as int));
            proof {
                lemma_sum_bound(p);
            }
            let x = self.nums[i] as u128;
            total = total + x * x;
            i = i + 1;
        }
        assert(self.nums@.subrange(0, i as int) == self.nums@);
        total
    }
}

} // verus!
