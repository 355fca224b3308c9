//! Latency measurement and a bounded window of samples with quantiles.

use vstd::prelude::*;
use vstd::relations::{sorted_by, total_ordering};
use vstd::seq_lib::lemma_sorted_unique;

verus! {

#[verifier::external_type_specification]
#[verifier::external_body]
pub struct ExInstant(std::time::Instant);

/// Relies on `std::time::Instant::now`: a reading of the monotonic clock.
#[verifier::external_body]
fn instant_now() -> std::time::Instant {
    std::time::Instant::now()
}

/// Relies on `Instant::elapsed` and `Duration::as_nanos`: nanoseconds since `t`.
#[verifier::external_body]
fn nanos_since(t: &std::time::Instant) -> u128 {
    t.elapsed().as_nanos()
}

/// Relies on `slice::sort_unstable`, documented to sort the slice in ascending order
/// (a permutation of what it held).
#[verifier::external_body]
fn sort_ascending(v: &mut Vec<u64>)
    ensures
        final(v)@.to_multiset() == old(v)@.to_multiset(),
        sorted_by(final(v)@, |a: u64, b: u64| a <= b),
{
    v.sort_unstable();
}

/// Times one operation from `start` to `finish`.
pub struct LatencyMeasurement {
    pub start_time: std::time::Instant,
    pub operation: String,
}

impl LatencyMeasurement {
    pub fn start(operation: &str) -> (r: LatencyMeasurement)
        ensures
            r.operation@ == operation@,
    {
        LatencyMeasurement { start_time: instant_now(), operation: operation.to_owned() }
    }

    /// Nanoseconds since `start`, saturating at the largest `u64`.
    pub fn finish(self) -> u64 {
        let n = nanos_since(&self.start_time);
        if n > u64::MAX as u128 {
            u64::MAX
        } else {
            n as u64
        }
    }
}

/// Summary of the samples in a tracker's window. `mean` is the sum over the count,
/// rounded down.
#[derive(Clone, Copy, Debug, PartialEq, Eq, Structural)]
pub struct LatencyDistribution {
    pub min: u64,
    pub max: u64,
    pub mean: u64,
    pub p50: u64,
    pub p95: u64,
    pub p99: u64,
    pub p999: u64,
    pub sample_count: usize,
}

impl LatencyDistribution {
    /// The distribution of no samples.
    pub open spec fn empty_spec() -> LatencyDistribution {
        LatencyDistribution { min: u64::MAX, max: 0, mean: 0, p50: 0, p95: 0, p99: 0, p999: 0, sample_count: 0 }
    }

    pub fn empty() -> (r: LatencyDistribution)
        ensures
            r == LatencyDistribution::empty_spec(),
    {
        LatencyDistribution { min: u64::MAX, max: 0, mean: 0, p50: 0, p95: 0, p99: 0, p999: 0, sample_count: 0 }
    }
}

pub open spec fn ascending() -> spec_fn(u64, u64) -> bool {
    |a: u64, b: u64| a <= b
}

pub open spec fn sum_u64(s: Seq<u64>) -> int
    decreases s.len(),
{
    if s.len() == 0 {
        0
    } else {
        sum_u64(s.drop_last()) + s.last()
    }
}

/// Index of the `num / den` quantile among `n` sorted samples.
pub open spec fn quantile_index(n: int, num: int, den: int) -> int {
    n * num / den
}

/// `d` summarizes the sorted samples `t`.
pub open spec fn summarizes(d: LatencyDistribution, t: Seq<u64>) -> bool {
    &&& d.sample_count == t.len()
    &&& d.min == t[0]
    &&& d.max == t[t.len() - 1]
    &&& d.mean == sum_u64(t) / (t.len() as int)
    &&& d.p50 == t[quantile_index(t.len() as int, 50, 100)]
    &&& d.p95 == t[quantile_index(t.len() as int, 95, 100)]
    &&& d.p99 == t[quantile_index(t.len() as int, 99, 100)]
    &&& d.p999 == t[quantile_index(t.len() as int, 999, 1000)]
}

/// The most recent samples, at most `max_samples` of them (at least one is kept).
pub struct LatencyTracker {
    samples: Vec<u64>,
    head: usize,
    max_samples: usize,
}

impl View for LatencyTracker {
    type V = Seq<u64>;

    /// The samples in the window, oldest first.
    closed spec fn view(&self) -> Seq<u64> {
        self.samples@.skip(self.head as int) + self.samples@.take(self.head as int)
    }
}

impl LatencyTracker {
    /// How many samples the window holds.
    pub open spec fn window(&self) -> int {
        if self.max_samples_spec() == 0 {
            1
        } else {
            self.max_samples_spec() as int
        }
    }

    pub closed spec fn max_samples_spec(&self) -> usize {
        self.max_samples
    }

    pub closed spec fn wf(&self) -> bool {
        &&& self.samples@.len() <= self.window()
        &&& self.head < self.window()
        &&& (self.samples@.len() < self.window() ==> self.head == 0)
    }

    pub fn new(max_samples: usize) -> (r: LatencyTracker)
        ensures
            r.wf(),
            r@ == Seq::<u64>::empty(),
            r.max_samples_spec() == max_samples,
    {
        let r = LatencyTracker { samples: Vec::new(), head: 0, max_samples };
        assert(r@ =~= Seq::<u64>::empty());
        r
    }

    /// Adds a sample; when the window is full the oldest leaves.
    pub fn record_latency(&mut self, latency_nanos: u64)
        requires
            old(self).wf(),
        ensures
            final(self).wf(),
            final(self).max_samples_spec() == old(self).max_samples_spec(),
            final(self)@ == (if old(self)@.len() < old(self).window() {
                old(self)@.push(latency_nanos)
            } else {
                old(self)@.drop_first().push(latency_nanos)
            }),
    {
        let cap: usize = if self.max_samples == 0 { 1 } else { self.max_samples };
        let ghost s0 = self.samples@;
        let ghost h0 = self.head as int;
        if self.samples.len() < cap {
            self.samples.push(latency_nanos);
            assert(self@ =~= s0.push(latency_nanos)) by {
                assert(s0.skip(0) =~= s0);
                assert(self.samples@.skip(0) =~= self.samples@);
                assert(self.samples@.take(0) =~= Seq::<u64>::empty());
            }
            assert(s0.skip(0) + s0.take(0) =~= s0);
        } else {
            let h = self.head;
            self.samples.set(h, latency_nanos);
            self.head = if h + 1 == cap { 0 } else { h + 1 };
            let ghost old_view = s0.skip(h0) + s0.take(h0);
            let ghost want = old_view.drop_first().push(latency_nanos);
            assert(self@ =~= want) by {
                let s1 = self.samples@;
                let h1 = self.head as int;
                assert(s1.len() == cap);
                assert forall|k: int| 0 <= k < cap implies #[trigger] (s1.skip(h1) + s1.take(h1))[k] == want[k] by {
                    if k < cap - 1 {
                        assert(want[k] == old_view[k + 1]);
                        if k + 1 < cap - h0 {
                            assert(old_view[k + 1] == s0[h0 + k + 1]);
                        } else {
                            assert(old_view[k + 1] == s0[k + 1 - (cap - h0)]);
                        }
                    } else {
                        assert(want[k] == latency_nanos);
                    }
                    if k < cap - h1 {
                        assert((s1.skip(h1) + s1.take(h1))[k] == s1[h1 + k]);
                    } else {
                        assert((s1.skip(h1) + s1.take(h1))[k] == s1[k - (cap - h1)]);
                    }
                }
            }
        }
    }

    /// Drops every sample.
    pub fn reset(&mut self)
        ensures
            final(self).wf(),
            final(self)@ == Seq::<u64>::empty(),
            final(self).max_samples_spec() == old(self).max_samples_spec(),
    {
        self.samples.clear();
        self.head = 0;
        assert(self@ =~= Seq::<u64>::empty());
    }

    /// Minimum, maximum, mean and quantiles of the window: over the samples sorted
    /// ascending, the `p` quantile is the one at index `count * p` rounded down.
    pub fn get_distribution(&self) -> (r: LatencyDistribution)
        requires
            self.wf(),
        ensures
            self@.len() == 0 ==> r == LatencyDistribution::empty_spec(),
            self@.len() > 0 ==> forall|t: Seq<u64>|
                sorted_by(t, ascending()) && t.to_multiset() == self@.to_multiset() ==> summarizes(r, t),
    {
        if self.samples.len() == 0 {
            assert(self@ =~= Seq::<u64>::empty());
            return LatencyDistribution::empty();
        }
        let mut v: Vec<u64> = Vec::new();
        let mut i: usize = 0;
        while i < self.samples.len()
            invariant
                0 <= i <= self.samples@.len(),
                v@ == self.samples@.take(i as int),
            decreases self.samples.len() - i,
        {
            v.push(self.samples[i]);
            i = i + 1;
            assert(v@ =~= self.samples@.take(i as int));
        }
        assert(self.samples@.take(i as int) =~= self.samples@);
        let ghost before = v@;
        sort_ascending(&mut v);
        let n = v.len();
        proof {
            broadcast use vstd::seq_lib::group_to_multiset_ensures;
            assert(before.to_multiset().len() == before.len());
            assert(v@.to_multiset().len() == v@.len());
        }
        let mut sum: u128 = 0;
        let mut k: usize = 0;
        while k < n
            invariant
                0 <= k <= n,
                n == v@.len(),
                sum == sum_u64(v@.take(k as int)),
                sum <= k * 0xffff_ffff_ffff_ffff,
            decreases n - k,
        {
            assert(v@.take(k as int + 1).drop_last() =~= v@.take(k as int));
            assert(sum + v@[k as int] <= (k + 1) * 0xffff_ffff_ffff_ffff) by (nonlinear_arith)
                requires
                    sum <= k * 0xffff_ffff_ffff_ffff,
                    v[k as int] <= 0xffff_ffff_ffff_ffff,
            ;
            assert((k + 1) * 0xffff_ffff_ffff_ffff <= 0xffff_ffff_ffff_ffff_ffff_ffff_ffff_ffff) by (nonlinear_arith)
                requires
                    k < 0x1_0000_0000_0000_0000,
            ;
            sum = sum + v[k] as u128;
            k = k + 1;
        }
        assert(v@.take(n as int) =~= v@);
        let mean = sum / (n as u128);
        assert(mean <= 0xffff_ffff_ffff_ffff) by (nonlinear_arith)
            requires
                mean as int == sum as int / (n as int),
                sum <= n * 0xffff_ffff_ffff_ffff,
                n > 0,
        ;
        let nn = n as u128;
        let i50 = (nn * 50 / 100) as usize;
        let i95 = (nn * 95 / 100) as usize;
        let i99 = (nn * 99 / 100) as usize;
        let i999 = (nn * 999 / 1000) as usize;
        assert(nn * 50 / 100 < nn) by (nonlinear_arith) requires nn > 0;
        assert(nn * 95 / 100 < nn) by (nonlinear_arith) requires nn > 0;
        assert(nn * 99 / 100 < nn) by (nonlinear_arith) requires nn > 0;
        assert(nn * 999 / 1000 < nn) by (nonlinear_arith) requires nn > 0;
        let r = LatencyDistribution {
            min: v[0],
            max: v[n - 1],
            mean: mean as u64,
            p50: v[i50],
            p95: v[i95],
            p99: v[i99],
            p999: v[i999],
            sample_count: n,
        };
        proof {
            assert(self.samples@.take(self.head as int) + self.samples@.skip(self.head as int) =~= self.samples@);
            assert(summarizes(r, v@));
            assert(before == self.samples@);
            let sk = self.samples@.skip(self.head as int);
            let tk = self.samples@.take(self.head as int);
            assert(self@ == sk + tk);
            vstd::seq_lib::lemma_multiset_commutative(sk, tk);
            vstd::seq_lib::lemma_multiset_commutative(tk, sk);
            assert(sk.to_multiset().add(tk.to_multiset()) =~= tk.to_multiset().add(sk.to_multiset())) by {
                broadcast use vstd::multiset::group_multiset_axioms;
            }
            assert((sk + tk).to_multiset() == (tk + sk).to_multiset());
            assert(tk + sk == self.samples@);
            assert(v@.to_multiset() == self@.to_multiset());
            assert(total_ordering(ascending())) by {
                assert(vstd::relations::reflexive(ascending()));
                assert(vstd::relations::antisymmetric(ascending()));
                assert(vstd::relations::transitive(ascending()));
                assert(vstd::relations::strongly_connected(ascending()));
            }
            assert forall|t: Seq<u64>| sorted_by(t, ascending()) && t.to_multiset() == self@.to_multiset() implies summarizes(r, t) by {
                lemma_sorted_unique(v@, t, ascending());
            }
        }
        r
    }
}

} // verus!
