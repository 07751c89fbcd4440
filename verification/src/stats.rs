//! Latency bookkeeping for the field harness. Samples are durations in
//! nanoseconds. The tail decides what the harness measures, so the histogram's
//! buckets account for every sample, including those past the last boundary.
//! Shares, bars and millisecond texts are floating point and are drawn by the
//! harness.
use vstd::prelude::*;

use crate::text::{decimal, push_decimal, push_str_chars, string_of};

verus! {

/// A set of latency samples, in nanoseconds.
#[derive(Clone, Debug, Default)]
pub struct LatencySamples {
    samples: Vec<u64>,
}

impl View for LatencySamples {
    type V = Seq<u64>;

    closed spec fn view(&self) -> Seq<u64> {
        self.samples@
    }
}

pub open spec fn sum_of(s: Seq<u64>) -> nat
    decreases s.len(),
{
    if s.len() == 0 {
        0
    } else {
        sum_of(s.drop_last()) + s.last() as nat
    }
}

pub open spec fn is_least(s: Seq<u64>, v: u64) -> bool {
    s.contains(v) && forall|k: int| 0 <= k < s.len() ==> v <= #[trigger] s[k]
}

pub open spec fn is_greatest(s: Seq<u64>, v: u64) -> bool {
    s.contains(v) && forall|k: int| 0 <= k < s.len() ==> #[trigger] s[k] <= v
}

impl LatencySamples {
    /// An empty set with room for `capacity` samples.
    pub fn with_capacity(capacity: usize) -> (s: LatencySamples)
        ensures
            s@.len() == 0,
    {
        LatencySamples { samples: Vec::with_capacity(capacity) }
    }

    /// Adds a sample.
    pub fn push(&mut self, nanos: u64)
        ensures
            final(self)@ == old(self)@.push(nanos),
    {
        self.samples.push(nanos);
    }

    pub fn len(&self) -> (n: usize)
        ensures
            n == self@.len(),
    {
        self.samples.len()
    }

    pub fn is_empty(&self) -> (b: bool)
        ensures
            b == (self@.len() == 0),
    {
        self.samples.len() == 0
    }

    /// Every sample, in arrival order.
    pub fn samples(&self) -> (s: &[u64])
        ensures
            s@ == self@,
    {
        self.samples.as_slice()
    }

    /// The mean, rounded down to a whole nanosecond.
    pub fn mean(&self) -> (m: Option<u64>)
        ensures
            match m {
                Some(v) => self@.len() > 0 && v == sum_of(self@) / self@.len(),
                None => self@.len() == 0,
            },
    {
        let n = self.samples.len();
        if n == 0 {
            return None;
        }
        let mut total: u128 = 0;
        let mut k: usize = 0;
        while k < n
            invariant
                n == self.samples@.len(),
                k <= n,
                total == sum_of(self.samples@.take(k as int)),
                total <= k * 0x1_0000_0000_0000_0000,
            decreases n - k,
        {
            assert(self.samples@.take(k + 1).drop_last() =~= self.samples@.take(k as int));
            total = total + self.samples[k] as u128;
            k = k + 1;
        }
        assert(self.samples@.take(n as int) =~= self.samples@);
        let mean = total / (n as u128);
        proof {
            lemma_mean_bound(self.samples@);
        }
        Some(mean as u64)
    }

    /// The smallest sample.
    pub fn min(&self) -> (m: Option<u64>)
        ensures
            match m {
                Some(v) => is_least(self@, v),
                None => self@.len() == 0,
            },
    {
        let n = self.samples.len();
        if n == 0 {
            return None;
        }
        let mut best = self.samples[0];
        assert(self.samples@.take(1)[0] == best);
        let mut k: usize = 1;
        while k < n
            invariant
                n == self.samples@.len(),
                1 <= k <= n,
                self.samples@.take(k as int).contains(best),
                forall|j: int| 0 <= j < k ==> best <= #[trigger] self.samples@[j],
            decreases n - k,
        {
            if self.samples[k] < best {
                best = self.samples[k];
                assert(self.samples@.take(k + 1)[k as int] == best);
            } else {
                assert(self.samples@.take(k + 1)[self.samples@.take(k as int).index_of(best)] == best);
            }
            k = k + 1;
        }
        assert(self.samples@.take(n as int) =~= self.samples@);
        Some(best)
    }

    /// The largest sample.
    pub fn max(&self) -> (m: Option<u64>)
        ensures
            match m {
                Some(v) => is_greatest(self@, v),
                None => self@.len() == 0,
            },
    {
        let n = self.samples.len();
        if n == 0 {
            return None;
        }
        let mut best = self.samples[0];
        assert(self.samples@.take(1)[0] == best);
        let mut k: usize = 1;
        while k < n
            invariant
                n == self.samples@.len(),
                1 <= k <= n,
                self.samples@.take(k as int).contains(best),
                forall|j: int| 0 <= j < k ==> #[trigger] self.samples@[j] <= best,
            decreases n - k,
        {
            if self.samples[k] > best {
                best = self.samples[k];
                assert(self.samples@.take(k + 1)[k as int] == best);
            } else {
                assert(self.samples@.take(k + 1)[self.samples@.take(k as int).index_of(best)] == best);
            }
            k = k + 1;
        }
        assert(self.samples@.take(n as int) =~= self.samples@);
        Some(best)
    }
}

proof fn lemma_sum_bound(s: Seq<u64>)
    ensures
        sum_of(s) <= s.len() * 0xFFFF_FFFF_FFFF_FFFF,
    decreases s.len(),
{
    if s.len() > 0 {
        lemma_sum_bound(s.drop_last());
    }
}

proof fn lemma_mean_bound(s: Seq<u64>)
    requires
        s.len() > 0,
    ensures
        sum_of(s) / s.len() <= 0xFFFF_FFFF_FFFF_FFFF,
{
    lemma_sum_bound(s);
    let n = s.len() as int;
    let t = sum_of(s) as int;
    assert(t / n <= 0xFFFF_FFFF_FFFF_FFFF) by (nonlinear_arith)
        requires
            n > 0,
            0 <= t <= n * 0xFFFF_FFFF_FFFF_FFFF,
    ;
}

proof fn lemma_sum_between(s: Seq<u64>, lo: int, hi: int)
    requires
        forall|k: int| 0 <= k < s.len() ==> lo <= #[trigger] s[k] <= hi,
    ensures
        s.len() * lo <= sum_of(s) <= s.len() * hi,
    decreases s.len(),
{
    if s.len() > 0 {
        let t = s.drop_last();
        assert forall|k: int| 0 <= k < t.len() implies lo <= #[trigger] t[k] <= hi by {
            assert(t[k] == s[k]);
        }
        lemma_sum_between(t, lo, hi);
        assert(lo <= s[s.len() - 1] <= hi);
        let n = t.len() as int;
        assert((n + 1) * lo == n * lo + lo && (n + 1) * hi == n * hi + hi) by (nonlinear_arith);
    }
}

/// The mean of a non-empty set of samples lies between its smallest and
/// largest sample.
pub proof fn mean_lies_between_min_and_max(samples: LatencySamples, lo: u64, hi: u64)
    requires
        samples@.len() > 0,
        is_least(samples@, lo),
        is_greatest(samples@, hi),
    ensures
        lo <= sum_of(samples@) / samples@.len() <= hi,
{
    let s = samples@;
    lemma_sum_between(s, lo as int, hi as int);
    let n = s.len() as int;
    let t = sum_of(s) as int;
    assert(lo <= t / n <= hi) by (nonlinear_arith)
        requires
            n > 0,
            n * lo <= t <= n * hi,
    ;
}

// ---------------------------------------------------------------------------
// Histogram
// ---------------------------------------------------------------------------

pub open spec fn spaces(n: nat) -> Seq<char> {
    Seq::new(n, |k: int| ' ')
}

/// Right-aligned in a field of `w` characters.
pub open spec fn pad_left(s: Seq<char>, w: nat) -> Seq<char> {
    if s.len() < w {
        spaces((w - s.len()) as nat) + s
    } else {
        s
    }
}

/// Left-aligned in a field of `w` characters.
pub open spec fn pad_right(s: Seq<char>, w: nat) -> Seq<char> {
    if s.len() < w {
        s + spaces((w - s.len()) as nat)
    } else {
        s
    }
}

pub open spec fn range_label(low: u64, high: u64) -> Seq<char> {
    pad_left(decimal(low as nat), 4) + "-"@ + pad_right(decimal(high as nat), 4) + "ms"@
}

pub open spec fn overflow_label(low: u64) -> Seq<char> {
    pad_left(decimal(low as nat), 4) + "+     ms"@
}

/// Whole milliseconds of a sample.
pub open spec fn millis_of(nanos: u64) -> int {
    nanos as int / 1_000_000
}

pub open spec fn count_between(s: Seq<u64>, low: int, high: int) -> nat
    decreases s.len(),
{
    if s.len() == 0 {
        0
    } else {
        count_between(s.drop_last(), low, high) + if low <= millis_of(s.last()) < high {
            1nat
        } else {
            0nat
        }
    }
}

pub open spec fn count_from(s: Seq<u64>, low: int) -> nat
    decreases s.len(),
{
    if s.len() == 0 {
        0
    } else {
        count_from(s.drop_last(), low) + if low <= millis_of(s.last()) {
            1nat
        } else {
            0nat
        }
    }
}

pub open spec fn lower_edge(buckets: Seq<u64>, i: int) -> u64 {
    if i == 0 {
        0
    } else {
        buckets[i - 1]
    }
}

/// Samples in row `i` of a histogram over `buckets`: those from the lower
/// edge up to the boundary, or at or past the last boundary for the last row.
pub open spec fn bucket_count(s: Seq<u64>, buckets: Seq<u64>, i: int) -> nat {
    if i < buckets.len() {
        count_between(s, lower_edge(buckets, i) as int, buckets[i] as int)
    } else {
        count_from(s, lower_edge(buckets, i) as int)
    }
}

fn push_padded_left(out: &mut Vec<char>, s: &Vec<char>, w: usize)
    ensures
        final(out)@ == old(out)@ + pad_left(s@, w as nat),
{
    let ghost start = out@;
    let n = s.len();
    if n < w {
        let mut k: usize = 0;
        while k < w - n
            invariant
                n < w,
                k <= w - n,
                out@ == start + spaces(k as nat),
            decreases w - n - k,
        {
            out.push(' ');
            assert(spaces((k + 1) as nat) =~= spaces(k as nat).push(' '));
            k = k + 1;
        }
    }
    crate::text::push_all(out, s.as_slice());
    assert(out@ =~= start + pad_left(s@, w as nat));
}

fn push_padded_right(out: &mut Vec<char>, s: &Vec<char>, w: usize)
    ensures
        final(out)@ == old(out)@ + pad_right(s@, w as nat),
{
    let ghost start = out@;
    crate::text::push_all(out, s.as_slice());
    let n = s.len();
    if n < w {
        let ghost mid = out@;
        let mut k: usize = 0;
        while k < w - n
            invariant
                n < w,
                k <= w - n,
                out@ == mid + spaces(k as nat),
            decreases w - n - k,
        {
            out.push(' ');
            assert(spaces((k + 1) as nat) =~= spaces(k as nat).push(' '));
            k = k + 1;
        }
    }
    assert(out@ =~= start + pad_right(s@, w as nat));
}

fn decimal_chars(n: u64) -> (out: Vec<char>)
    ensures
        out@ == decimal(n as nat),
{
    let mut out: Vec<char> = Vec::new();
    push_decimal(&mut out, n);
    assert(out@ =~= decimal(n as nat));
    out
}

fn range_label_chars(low: u64, high: u64) -> (out: Vec<char>)
    ensures
        out@ == range_label(low, high),
{
    let mut out: Vec<char> = Vec::new();
    push_padded_left(&mut out, &decimal_chars(low), 4);
    push_str_chars(&mut out, "-");
    push_padded_right(&mut out, &decimal_chars(high), 4);
    push_str_chars(&mut out, "ms");
    assert(out@ =~= range_label(low, high));
    out
}

fn overflow_label_chars(low: u64) -> (out: Vec<char>)
    ensures
        out@ == overflow_label(low),
{
    let mut out: Vec<char> = Vec::new();
    push_padded_left(&mut out, &decimal_chars(low), 4);
    push_str_chars(&mut out, "+     ms");
    out
}

impl LatencySamples {
    fn count_in(&self, low: u64, high: Option<u64>) -> (c: usize)
        ensures
            c == match high {
                Some(h) => count_between(self@, low as int, h as int),
                None => count_from(self@, low as int),
            },
            c <= self@.len(),
    {
        let n = self.samples.len();
        let mut c: usize = 0;
        let mut k: usize = 0;
        while k < n
            invariant
                n == self.samples@.len(),
                k <= n,
                c <= k,
                c == match high {
                    Some(h) => count_between(self.samples@.take(k as int), low as int, h as int),
                    None => count_from(self.samples@.take(k as int), low as int),
                },
            decreases n - k,
        {
            assert(self.samples@.take(k + 1).drop_last() =~= self.samples@.take(k as int));
            let millis = self.samples[k] / 1_000_000;
            let inside = match high {
                Some(h) => low <= millis && millis < h,
                None => low <= millis,
            };
            if inside {
                c = c + 1;
            }
            k = k + 1;
        }
        assert(self.samples@.take(n as int) =~= self.samples@);
        c
    }

    /// How many samples fall in each bucket of a histogram: for each
    /// ascending boundary in `buckets_ms`, the samples from the previous
    /// boundary (0 for the first) up to it, in whole milliseconds; then one
    /// more count for every sample at or past the last boundary. Every sample
    /// is counted.
    pub fn bucket_counts(&self, buckets_ms: &[u64]) -> (counts: Vec<usize>)
        ensures
            counts@.len() == buckets_ms@.len() + 1,
            forall|i: int| 0 <= i <= buckets_ms@.len() ==> #[trigger] counts@[i] == bucket_count(self@, buckets_ms@, i),
    {
        let m = buckets_ms.len();
        let mut counts: Vec<usize> = Vec::new();
        let mut previous: u64 = 0;
        let mut i: usize = 0;
        while i < m
            invariant
                m == buckets_ms@.len(),
                i <= m,
                previous == lower_edge(buckets_ms@, i as int),
                counts@.len() == i,
                forall|k: int| 0 <= k < i ==> #[trigger] counts@[k] == bucket_count(self@, buckets_ms@, k),
            decreases m - i,
        {
            let boundary = buckets_ms[i];
            let count = self.count_in(previous, Some(boundary));
            counts.push(count);
            previous = boundary;
            i = i + 1;
        }
        let count = self.count_in(previous, None);
        counts.push(count);
        counts
    }
}

/// The label of a histogram row: `low-high ms` for a bucket, `low+ ms` for
/// the last row.
pub fn bucket_label(low: u64, high: Option<u64>) -> (label: String)
    ensures
        label@ == match high {
            Some(h) => range_label(low, h),
            None => overflow_label(low),
        },
{
    let out = match high {
        Some(h) => range_label_chars(low, h),
        None => overflow_label_chars(low),
    };
    string_of(out.as_slice())
}

} // verus!
