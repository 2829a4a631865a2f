//! Counters, gauges and the counting part of histograms.

pub mod metric_names;

use vstd::prelude::*;

verus! {

/// A counter that goes up.
pub struct Counter {
    pub value: u64,
}

impl Counter {
    /// A counter at zero.
    pub fn new() -> (r: Self)
        ensures
            r.value == 0,
    {
        Counter { value: 0 }
    }

    /// Adds `n`; past the largest number it starts again from zero.
    pub fn inc_by(&mut self, n: u64)
        ensures
            final(self).value == (old(self).value + n) % 0x1_0000_0000_0000_0000,
    {
        self.value = self.value.wrapping_add(n);
    }

    /// Adds 1.
    pub fn inc(&mut self)
        ensures
            final(self).value == (old(self).value + 1) % 0x1_0000_0000_0000_0000,
    {
        self.inc_by(1);
    }

    /// The current value.
    pub fn get(&self) -> (r: u64)
        ensures
            r == self.value,
    {
        self.value
    }

    /// Sets the counter to zero.
    pub fn reset(&mut self)
        ensures
            final(self).value == 0,
    {
        self.value = 0;
    }
}

impl Default for Counter {
    fn default() -> (r: Self)
        ensures
            r.value == 0,
    {
        Counter::new()
    }
}

/// The number of 64 bits, with sign, that `x` comes to when it wraps around.
pub open spec fn wrapped(x: int) -> int {
    (x + 0x8000_0000_0000_0000) % 0x1_0000_0000_0000_0000 - 0x8000_0000_0000_0000
}

/// A value that goes up and down.
pub struct Gauge {
    pub value: i64,
}

impl Gauge {
    /// A gauge at zero.
    pub fn new() -> (r: Self)
        ensures
            r.value == 0,
    {
        Gauge { value: 0 }
    }

    /// Sets the gauge.
    pub fn set(&mut self, val: i64)
        ensures
            final(self).value == val,
    {
        self.value = val;
    }

    /// Adds `n`, wrapping around.
    pub fn inc_by(&mut self, n: i64)
        ensures
            final(self).value == wrapped(old(self).value + n),
    {
        self.value = self.value.wrapping_add(n);
    }

    /// Takes away `n`, wrapping around.
    pub fn dec_by(&mut self, n: i64)
        ensures
            final(self).value == wrapped(old(self).value - n),
    {
        self.value = self.value.wrapping_sub(n);
    }

    /// The current value.
    pub fn get(&self) -> (r: i64)
        ensures
            r == self.value,
    {
        self.value
    }
}

impl Default for Gauge {
    fn default() -> (r: Self)
        ensures
            r.value == 0,
    {
        Gauge::new()
    }
}

/// What comes of a gauge when `n` is added and taken away again is the gauge.
pub proof fn law_gauge_decrement_undoes_increment(value: i64, n: i64)
    ensures
        wrapped(wrapped(value + n) - n) == value,
{
}

/// The counts of a histogram: how many observations fell into each bucket, how
/// many into none, how many there were, and their sum in fixed point.
#[derive(Debug, Clone)]
pub struct BucketCounts {
    pub counts: Vec<u64>,
    pub overflow: u64,
    pub total_count: u64,
    pub sum_fixed: i64,
}

/// The sum of the first counts.
pub open spec fn sum_of(counts: Seq<u64>) -> nat
    decreases counts.len(),
{
    if counts.len() == 0 {
        0
    } else {
        sum_of(counts.drop_last()) + counts.last() as nat
    }
}

proof fn lemma_sum_grows(counts: Seq<u64>, i: int, j: int)
    requires
        0 <= i <= j <= counts.len(),
    ensures
        sum_of(counts.take(i)) <= sum_of(counts.take(j)),
    decreases j - i,
{
    if i < j {
        lemma_sum_grows(counts, i, j - 1);
        assert(counts.take(j).drop_last() =~= counts.take(j - 1));
    }
}

/// The first bucket up to which there are `target` observations, with the
/// number before it.
pub open spec fn is_rank_bucket(counts: Seq<u64>, target: u64, i: int, before: u64) -> bool {
    &&& 0 <= i < counts.len()
    &&& before == sum_of(counts.take(i))
    &&& sum_of(counts.take(i + 1)) >= target
    &&& forall|j: int| 0 <= j < i ==> sum_of(#[trigger] counts.take(j + 1)) < target
}

proof fn lemma_sum_one_more(counts: Seq<u64>, i: int)
    requires
        0 <= i < counts.len(),
        counts[i] < u64::MAX,
    ensures
        sum_of(counts.update(i, (counts[i] + 1) as u64)) == sum_of(counts) + 1,
    decreases counts.len(),
{
    let after = counts.update(i, (counts[i] + 1) as u64);
    if i == counts.len() - 1 {
        assert(after.drop_last() =~= counts.drop_last());
    } else {
        lemma_sum_one_more(counts.drop_last(), i);
        assert(after.drop_last() =~= counts.drop_last().update(i, (counts[i] + 1) as u64));
    }
}

proof fn lemma_sum_of_zeros(counts: Seq<u64>)
    requires
        forall|i: int| 0 <= i < counts.len() ==> counts[i] == 0,
    ensures
        sum_of(counts) == 0,
    decreases counts.len(),
{
    if counts.len() > 0 {
        lemma_sum_of_zeros(counts.drop_last());
    }
}

proof fn lemma_sum_bounds(counts: Seq<u64>, i: int)
    requires
        0 <= i < counts.len(),
    ensures
        counts[i] <= sum_of(counts),
    decreases counts.len(),
{
    if i < counts.len() - 1 {
        lemma_sum_bounds(counts.drop_last(), i);
    }
}

/// `after` is `before` with one more observation of `scaled` in `bucket`, or in
/// none.
pub open spec fn recorded(
    before: BucketCounts,
    after: BucketCounts,
    bucket: Option<usize>,
    scaled: i64,
) -> bool {
    &&& after.total_count == (before.total_count + 1) % 0x1_0000_0000_0000_0000
    &&& after.sum_fixed == wrapped(before.sum_fixed + scaled)
    &&& match bucket {
        Some(i) => {
            &&& after.overflow == before.overflow
            &&& after.counts@.len() == before.counts@.len()
            &&& after.counts@[i as int] == (before.counts@[i as int] + 1)
                % 0x1_0000_0000_0000_0000
            &&& forall|j: int|
                #![trigger after.counts@[j]]
                0 <= j < before.counts@.len() && j != i ==> after.counts@[j] == before.counts@[j]
        },
        None => {
            &&& after.overflow == (before.overflow + 1) % 0x1_0000_0000_0000_0000
            &&& after.counts@ == before.counts@
        },
    }
}

/// `bucket` is the first of `n` buckets whose bound `within` holds against an
/// observation, or none of them is.
pub open spec fn is_first_within<F: Fn(usize) -> bool>(
    within: F,
    n: nat,
    bucket: Option<usize>,
) -> bool {
    match bucket {
        Some(i) => i < n && call_ensures(within, (i,), true) && forall|j: usize|
            j < i ==> #[trigger] call_ensures(within, (j,), false),
        None => forall|j: usize| j < n ==> #[trigger] call_ensures(within, (j,), false),
    }
}

/// How many of the observations fell into `bucket`.
pub open spec fn times(seen: Seq<Option<usize>>, bucket: Option<usize>) -> nat
    decreases seen.len(),
{
    if seen.len() == 0 {
        0
    } else {
        times(seen.drop_last(), bucket) + if seen.last() == bucket {
            1nat
        } else {
            0
        }
    }
}

proof fn lemma_times_bound(seen: Seq<Option<usize>>, bucket: Option<usize>)
    ensures
        times(seen, bucket) <= seen.len(),
    decreases seen.len(),
{
    if seen.len() > 0 {
        lemma_times_bound(seen.drop_last(), bucket);
    }
}

/// The counts tell how many observations fell into each bucket, how many into
/// none, and how many there were, and one more observation keeps it so.
pub proof fn law_counts_tally_observations(
    before: BucketCounts,
    after: BucketCounts,
    seen: Seq<Option<usize>>,
    bucket: Option<usize>,
    scaled: i64,
)
    requires
        before.tallies(seen),
        seen.len() < u64::MAX,
        bucket matches Some(i) ==> i < before.counts@.len(),
        recorded(before, after, bucket, scaled),
    ensures
        after.tallies(seen.push(bucket)),
{
    let more = seen.push(bucket);
    assert(more.drop_last() =~= seen);
    lemma_times_bound(seen, bucket);
    assert forall|i: usize| i < after.counts@.len() implies after.counts@[i as int] == #[trigger] times(
        more,
        Some(i),
    ) by {
        assert(before.counts@[i as int] == times(seen, Some(i)));
    }
    assert(before.overflow == times(seen, None));
}

impl BucketCounts {
    /// The counts are those of the observations `seen`, given by their buckets.
    pub open spec fn tallies(&self, seen: Seq<Option<usize>>) -> bool {
        &&& self.total_count == seen.len()
        &&& self.overflow == times(seen, None)
        &&& forall|i: usize|
            i < self.counts@.len() ==> self.counts@[i as int] == #[trigger] times(seen, Some(i))
    }

    /// Records an observation of `scaled` in the first bucket whose bound it
    /// does not exceed, or in none. `within` compares it to the bound of a
    /// bucket.
    pub fn observe<F: Fn(usize) -> bool>(&mut self, within: &F, scaled: i64)
        requires
            forall|i: usize| i < old(self).counts@.len() ==> call_requires(*within, (i,)),
        ensures
            old(self).balanced() && old(self).total_count < u64::MAX ==> final(self).balanced(),
            exists|bucket: Option<usize>| #[trigger]
                is_first_within(*within, old(self).counts@.len(), bucket) && recorded(
                    *old(self),
                    *final(self),
                    bucket,
                    scaled,
                ),
    {
        let mut bucket: Option<usize> = None;
        let n: usize = self.counts.len();
        let mut i: usize = 0;
        while i < n && bucket.is_none()
            invariant
                *self == *old(self),
                n == self.counts@.len(),
                i <= n,
                forall|j: usize| j < n ==> call_requires(*within, (j,)),
                match bucket {
                    Some(_) => is_first_within(*within, n as nat, bucket),
                    None => forall|j: usize| j < i ==> #[trigger] call_ensures(*within, (j,), false),
                },
            decreases
                n - i + if bucket is None {
                    1int
                } else {
                    0
                },
        {
            if within(i) {
                bucket = Some(i);
            } else {
                i += 1;
            }
        }
        assert(is_first_within(*within, n as nat, bucket));
        self.record(bucket, scaled);
    }

    /// Each observation is counted in one bucket or above the last.
    pub open spec fn balanced(&self) -> bool {
        sum_of(self.counts@) + self.overflow == self.total_count
    }

    /// No observations, `n` buckets.
    pub fn new(n: usize) -> (r: Self)
        ensures
            r.balanced(),
            r.tallies(Seq::empty()),
            r.counts@ == Seq::new(n as nat, |i: int| 0u64),
            r.overflow == 0,
            r.total_count == 0,
            r.sum_fixed == 0,
    {
        let counts: Vec<u64> = vec![0u64; n];
        proof {
            assert(counts@ =~= Seq::new(n as nat, |i: int| 0u64));
            lemma_sum_of_zeros(counts@);
        }
        BucketCounts { counts, overflow: 0, total_count: 0, sum_fixed: 0 }
    }

    /// Records an observation of `scaled` in `bucket`, or in none.
    pub fn record(&mut self, bucket: Option<usize>, scaled: i64)
        requires
            bucket matches Some(i) ==> i < old(self).counts@.len(),
        ensures
            old(self).balanced() && old(self).total_count < u64::MAX ==> final(self).balanced(),
            recorded(*old(self), *final(self), bucket, scaled),
    {
        self.total_count = self.total_count.wrapping_add(1);
        self.sum_fixed = self.sum_fixed.wrapping_add(scaled);
        match bucket {
            Some(i) => {
                let n: u64 = self.counts[i].wrapping_add(1);
                self.counts.set(i, n);
                proof {
                    lemma_sum_bounds(old(self).counts@, i as int);
                    if old(self).counts@[i as int] < u64::MAX {
                        lemma_sum_one_more(old(self).counts@, i as int);
                    }
                }
            },
            None => {
                self.overflow = self.overflow.wrapping_add(1);
            },
        }
    }

    /// The number of observations.
    pub fn count(&self) -> (r: u64)
        ensures
            r == self.total_count,
    {
        self.total_count
    }

    /// The bucket in which the observation of rank `target` lies, with the
    /// number of those before it and of those in it.
    pub fn rank_bucket(&self, target: u64) -> (r: Option<(usize, u64, u64)>)
        requires
            sum_of(self.counts@) <= u64::MAX,
        ensures
            match r {
                Some((i, before, count)) => is_rank_bucket(self.counts@, target, i as int, before)
                    && count == self.counts@[i as int],
                None => forall|j: int|
                    0 <= j < self.counts@.len() ==> sum_of(#[trigger] self.counts@.take(j + 1))
                        < target,
            },
    {
        let ghost s = self.counts@;
        let mut cumulative: u64 = 0;
        let mut i: usize = 0;
        assert(s.take(0) =~= Seq::<u64>::empty());
        while i < self.counts.len()
            invariant
                i <= s.len(),
                s == self.counts@,
                sum_of(s) <= u64::MAX,
                cumulative == sum_of(s.take(i as int)),
                forall|j: int| 0 <= j < i ==> sum_of(#[trigger] s.take(j + 1)) < target,
            decreases s.len() - i,
        {
            proof {
                assert(s.take(i + 1).drop_last() =~= s.take(i as int));
                lemma_sum_grows(s, i + 1, s.len() as int);
                assert(s.take(s.len() as int) =~= s);
            }
            let count: u64 = self.counts[i];
            let before: u64 = cumulative;
            cumulative = cumulative + count;
            if cumulative >= target {
                return Some((i, before, count));
            }
            i += 1;
        }
        None
    }
}

/// A gauge counts as 64-bit numbers do: exactly while the result fits, and else a
/// multiple of 2^64 off.
pub proof fn law_gauge_wraps_around(x: int)
    ensures
        -0x8000_0000_0000_0000 <= wrapped(x) < 0x8000_0000_0000_0000,
        -0x8000_0000_0000_0000 <= x < 0x8000_0000_0000_0000 ==> wrapped(x) == x,
        wrapped(x + 0x1_0000_0000_0000_0000) == wrapped(x),
        wrapped(x - 0x1_0000_0000_0000_0000) == wrapped(x),
{
}

/// An observation adds its value to the sum.
pub proof fn law_observations_are_summed_up(
    before: BucketCounts,
    after: BucketCounts,
    bucket: Option<usize>,
    scaled: i64,
)
    requires
        recorded(before, after, bucket, scaled),
        i64::MIN <= before.sum_fixed + scaled <= i64::MAX,
        before.total_count < u64::MAX,
    ensures
        after.sum_fixed == before.sum_fixed + scaled,
        after.total_count == before.total_count + 1,
        after.counts@.len() == before.counts@.len(),
{
}

/// The bucket of a rank is the first in which the counts reach it: it lies behind the
/// counts of the buckets before, and not behind its own.
pub proof fn law_rank_falls_into_its_bucket(counts: Seq<u64>, target: u64, i: int, before: u64)
    requires
        is_rank_bucket(counts, target, i, before),
        target > 0,
    ensures
        0 <= i < counts.len(),
        before < target <= before + counts[i],
        before == sum_of(counts.take(i)),
{
    assert(counts.take(i + 1).drop_last() =~= counts.take(i));
    if i > 0 {
        assert(sum_of(counts.take((i - 1) + 1)) < target);
    }
}

/// Counts are summed up one by one.
pub proof fn law_counts_are_summed_up(counts: Seq<u64>, last: u64)
    ensures
        sum_of(Seq::empty()) == 0,
        sum_of(counts.push(last)) == sum_of(counts) + last,
{
    assert(counts.push(last).drop_last() =~= counts);
}

/// An observation goes into the first bucket that it is within, and into none where
/// it is within none.
pub proof fn law_first_bucket_is_taken<F: Fn(usize) -> bool>(
    within: F,
    n: nat,
    bucket: Option<usize>,
    j: usize,
)
    requires
        is_first_within(within, n, bucket),
        j < n,
    ensures
        bucket matches Some(i) ==> i < n && call_ensures(within, (i,), true) && (j < i
            ==> call_ensures(within, (j,), false)),
        bucket is None ==> call_ensures(within, (j,), false),
{
}

} // verus!
