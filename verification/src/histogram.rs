//! Latency histograms: `hdrhistogram` behind contracts over the multiset of
//! samples it holds.

use hdrhistogram::Histogram;
use vstd::multiset::Multiset;
use vstd::prelude::*;

verus! {

/// An `hdrhistogram::Histogram` with 64-bit counters.
#[verifier::external_body]
#[derive(Debug)]
pub struct Latencies {
    inner: Histogram<u64>,
}

/// The samples of a histogram, each as the highest value of its bucket.
pub uninterp spec fn histogram_samples(h: Latencies) -> Multiset<u64>;

/// Lowest discernible value, highest trackable value and significant digits
/// of a histogram.
pub uninterp spec fn histogram_bounds(h: Latencies) -> (u64, u64, u8);

/// The highest value of the bucket in which a histogram with these bounds
/// counts `value`, clamped to the range of the histogram.
pub uninterp spec fn histogram_bucket(bounds: (u64, u64, u8), value: u64) -> u64;

/// The highest trackable value of a histogram lies below this: above it the
/// top of the last bucket is not a number of its own.
pub const HIGH_LIMIT: u64 = 0x8000_0000_0000_0000;

/// Bounds of a histogram.
#[derive(Debug, Clone, Copy, PartialEq, Eq, Structural)]
pub struct Bounds {
    /// Lowest discernible value.
    pub low: u64,
    /// Highest trackable value.
    pub high: u64,
    /// Significant decimal digits.
    pub sigfig: u8,
}

impl Bounds {
    /// The bounds as a tuple.
    pub open spec fn tuple(self) -> (u64, u64, u8) {
        (self.low, self.high, self.sigfig)
    }

    /// Bounds a histogram can be made with whose buckets all end below the
    /// largest number.
    pub open spec fn valid(self) -> bool {
        &&& 1 <= self.low < 0x2000_0000_0000
        &&& 2 * self.low <= self.high < HIGH_LIMIT
        &&& self.sigfig <= 5
    }

    /// Whether a histogram can be made with these bounds.
    pub fn is_valid(self) -> (r: bool)
        ensures
            r == self.valid(),
    {
        1 <= self.low && self.low < 0x2000_0000_0000 && 2 * self.low <= self.high && self.high
            < HIGH_LIMIT && self.sigfig <= 5
    }
}

/// The histogram has room for `n` more samples before its counters saturate.
pub open spec fn has_room(h: Latencies, n: nat) -> bool {
    histogram_samples(h).len() + n <= u64::MAX
}

/// `n` equal samples.
pub open spec fn copies(bucket: u64, n: nat) -> Multiset<u64>
    decreases n,
{
    if n == 0 {
        Multiset::empty()
    } else {
        copies(bucket, (n - 1) as nat).insert(bucket)
    }
}

/// `n` equal samples are `n` samples.
pub(crate) proof fn lemma_copies(bucket: u64, n: nat)
    ensures
        copies(bucket, n).len() == n,
    decreases n,
{
    broadcast use vstd::multiset::group_multiset_axioms;

    if n > 0 {
        lemma_copies(bucket, (n - 1) as nat);
    }
}

/// `Histogram::new_with_bounds`: an empty histogram.
#[verifier::external_body]
pub(crate) fn new_histogram(bounds: Bounds) -> (r: Latencies)
    requires
        bounds.valid(),
    ensures
        histogram_bounds(r) == bounds.tuple(),
        histogram_samples(r) == Multiset::<u64>::empty(),
{
    let made = Histogram::new_with_bounds(bounds.low, bounds.high, bounds.sigfig);
    Latencies { inner: made.expect("the bounds are valid") }
}

/// `Histogram::saturating_record`: counts `value` in its bucket, clamped to
/// the range of the histogram. Nothing is claimed of the samples once the
/// counters saturate.
#[verifier::external_body]
pub(crate) fn record(h: &mut Latencies, value: u64)
    ensures
        histogram_bounds(*final(h)) == histogram_bounds(*old(h)),
        has_room(*old(h), 1) ==> histogram_samples(*final(h)) == histogram_samples(*old(h)).insert(
            histogram_bucket(histogram_bounds(*old(h)), value),
        ),
{
    h.inner.saturating_record(value);
}

/// `Histogram::saturating_record_n`: counts `value` `n` times in its bucket,
/// clamped to the range of the histogram. It takes `value` for a maximum even
/// where it counts nothing, so `n` is above 0. Nothing is claimed of the
/// samples once the counters saturate.
#[verifier::external_body]
fn record_n(h: &mut Latencies, value: u64, n: u64)
    requires
        n > 0,
    ensures
        histogram_bounds(*final(h)) == histogram_bounds(*old(h)),
        has_room(*old(h), n as nat) ==> histogram_samples(*final(h)) == histogram_samples(*old(h)).add(
            copies(histogram_bucket(histogram_bounds(*old(h)), value), n as nat),
        ),
{
    h.inner.saturating_record_n(value, n);
}

/// `Histogram::add` of a histogram with the same bounds, which cannot fail:
/// every sample of `other` is counted. Nothing is claimed of the samples
/// once the counters saturate.
#[verifier::external_body]
pub(crate) fn merge(h: &mut Latencies, other: &Latencies)
    requires
        histogram_bounds(*old(h)) == histogram_bounds(*other),
        histogram_bounds(*other).1 < HIGH_LIMIT,
    ensures
        histogram_bounds(*final(h)) == histogram_bounds(*old(h)),
        has_room(*old(h), histogram_samples(*other).len()) ==> histogram_samples(*final(h))
            == histogram_samples(*old(h)).add(histogram_samples(*other)),
{
    h.inner.add(&other.inner).expect("equal bounds");
}

/// `Histogram::len`: the number of samples, up to the largest count.
#[verifier::external_body]
pub(crate) fn sample_count(h: &Latencies) -> (r: u64)
    ensures
        histogram_samples(*h).len() <= u64::MAX ==> r == histogram_samples(*h).len(),
        r < u64::MAX ==> r == histogram_samples(*h).len(),
{
    h.inner.len()
}

/// `Histogram::reset`: drops every sample and keeps the bounds.
#[verifier::external_body]
pub(crate) fn clear(h: &mut Latencies)
    ensures
        histogram_bounds(*final(h)) == histogram_bounds(*old(h)),
        histogram_samples(*final(h)) == Multiset::<u64>::empty(),
{
    h.inner.reset();
}

/// `Histogram::max`: the highest value of the highest bucket with a sample,
/// and 0 without samples. Nothing is claimed of a histogram that does not
/// tell 0 and 1 apart.
#[verifier::external_body]
pub(crate) fn max_value(h: &Latencies) -> (r: u64)
    requires
        histogram_bounds(*h).1 < HIGH_LIMIT,
    ensures
        histogram_bounds(*h).0 == 1 && histogram_samples(*h).len() > 0 ==> histogram_samples(
            *h,
        ).contains(r) && forall|v: u64| #[trigger] histogram_samples(*h).contains(v) ==> v <= r,
        histogram_bounds(*h).0 == 1 && histogram_samples(*h).len() == 0 ==> r == 0,
{
    h.inner.max()
}

/// The value at a percentile of these samples, in whole percent above 0.
pub uninterp spec fn histogram_percentile(samples: Multiset<u64>, percent: u8) -> u64;

/// `Histogram::value_at_percentile`: a function of the samples and the
/// percentile. It is 0 without samples and otherwise one of them; that is
/// left unsaid of counts too large to be exact in the computation.
#[verifier::external_body]
pub(crate) fn percentile(h: &Latencies, percent: u8) -> (r: u64)
    requires
        1 <= percent <= 100,
        histogram_samples(*h).len() <= u64::MAX,
    ensures
        r == histogram_percentile(histogram_samples(*h), percent),
        histogram_samples(*h).len() == 0 ==> r == 0,
        0 < histogram_samples(*h).len() <= 0x20_0000_0000_0000 ==> histogram_samples(*h).contains(
            r,
        ),
{
    h.inner.value_at_percentile(percent.into())
}

/// The pairs list the samples: every value that occurs once, in ascending
/// order, with how often it occurs.
pub open spec fn lists_samples(pairs: Seq<(u64, u64)>, samples: Multiset<u64>) -> bool {
    &&& forall|i: int|
        0 <= i < pairs.len() ==> (#[trigger] pairs[i]).1 > 0 && pairs[i].1 == samples.count(
            pairs[i].0,
        )
    &&& forall|i: int, j: int|
        0 <= i < j < pairs.len() ==> (#[trigger] pairs[i]).0 < (#[trigger] pairs[j]).0
    &&& forall|v: u64| #[trigger]
        samples.count(v) > 0 ==> exists|i: int| 0 <= i < pairs.len() && (#[trigger] pairs[i]).0 == v
}

/// `Histogram::iter_recorded`: every bucket with a sample in ascending order,
/// as its highest value and its count.
#[verifier::external_body]
fn recorded_buckets(h: &Latencies) -> (r: Vec<(u64, u64)>)
    ensures
        lists_samples(r@, histogram_samples(*h)),
{
    h.inner.iter_recorded().map(|v| (v.value_iterated_to(), v.count_at_value())).collect()
}

impl Latencies {
    /// An empty histogram.
    pub fn new(bounds: Bounds) -> (r: Self)
        requires
            bounds.valid(),
        ensures
            histogram_bounds(r) == bounds.tuple(),
            histogram_samples(r) == Multiset::<u64>::empty(),
    {
        new_histogram(bounds)
    }

    /// Counts a sample, clamped to the range of the histogram.
    pub fn record(&mut self, value_ns: u64)
        ensures
            histogram_bounds(*final(self)) == histogram_bounds(*old(self)),
            has_room(*old(self), 1) ==> histogram_samples(*final(self)) == histogram_samples(
                *old(self),
            ).insert(histogram_bucket(histogram_bounds(*old(self)), value_ns)),
    {
        record(self, value_ns)
    }

    /// Counts `n` equal samples, clamped to the range of the histogram.
    pub fn record_n(&mut self, value_ns: u64, n: u64)
        ensures
            histogram_bounds(*final(self)) == histogram_bounds(*old(self)),
            has_room(*old(self), n as nat) ==> histogram_samples(*final(self))
                == histogram_samples(*old(self)).add(
                copies(histogram_bucket(histogram_bounds(*old(self)), value_ns), n as nat),
            ),
    {
        if n > 0 {
            record_n(self, value_ns, n);
        } else {
            proof {
                broadcast use vstd::multiset::group_multiset_axioms;

                assert(histogram_samples(*self).add(
                    copies(histogram_bucket(histogram_bounds(*self), value_ns), 0),
                ) =~= histogram_samples(*self));
            }
        }
    }

    /// Number of samples.
    pub fn count(&self) -> (r: u64)
        ensures
            histogram_samples(*self).len() <= u64::MAX ==> r == histogram_samples(*self).len(),
            r < u64::MAX ==> r == histogram_samples(*self).len(),
    {
        sample_count(self)
    }

    /// Every value recorded, as the highest value of its bucket, in ascending
    /// order with its count.
    pub fn recorded(&self) -> (r: Vec<(u64, u64)>)
        ensures
            lists_samples(r@, histogram_samples(*self)),
    {
        recorded_buckets(self)
    }
}

} // verus!
