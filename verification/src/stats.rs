//! Latency recording: one bounded-memory percentile sketch per
//! operation kind, fed with elapsed nanoseconds, summarized as the
//! 50th, 95th and 99th percentile.

use vstd::prelude::*;

verus! {

/// One percentile sketch: a histogram of hdrhistogram, opaque to the
/// verifier, reached only through the trusted functions below.
#[verifier::external_body]
pub struct Sketch {
    hist: hdrhistogram::Histogram<u64>,
}

/// The number of samples a sketch has recorded.
pub uninterp spec fn hist_len(h: Sketch) -> nat;

/// The value hdrhistogram reports at a whole-number percentile of a
/// sketch: a function of the sketch and the percentile alone.
pub uninterp spec fn percentile_of(h: Sketch, pct: u8) -> u64;

/// Relies on hdrhistogram's `Histogram::new`: a fresh, empty,
/// auto-resizing histogram; up to five significant figures are
/// accepted.
#[verifier::external_body]
fn hist_new(sigfig: u8) -> (r: Sketch)
    requires
        1 <= sigfig <= 5,
    ensures
        hist_len(r) == 0,
{
    Sketch { hist: hdrhistogram::Histogram::new(sigfig).expect("sigfig within bounds") }
}

/// Relies on hdrhistogram's `Histogram::record` on an auto-resizing
/// histogram: every value is accepted — the one error path needs a
/// `usize` too narrow for a thirty-two-bit bin count — and the total
/// grows by one, saturating at the counter's maximum.
#[verifier::external_body]
fn hist_record(h: &mut Sketch, value: u64)
    ensures
        hist_len(*old(h)) < u64::MAX ==> hist_len(*final(h)) == hist_len(*old(h)) + 1,
        hist_len(*old(h)) >= u64::MAX ==> hist_len(*final(h)) == hist_len(*old(h)),
{
    let _ = h.hist.record(value);
}

/// Relies on hdrhistogram's `value_at_percentile`: deterministic in
/// the sketch and the percentile, zero on an empty sketch, and — by
/// its cumulative scan — nondecreasing in the percentile.
#[verifier::external_body]
fn hist_percentile(h: &Sketch, pct: u8) -> (r: u64)
    ensures
        r == percentile_of(*h, pct),
        hist_len(*h) == 0 ==> r == 0,
        forall|q: u8| q <= pct ==> #[trigger] percentile_of(*h, q) <= r,
{
    h.hist.value_at_percentile(pct.into())
}

/// Relies on hdrhistogram's `Histogram::len`: the recorded total,
/// which saturates at the counter's maximum.
#[verifier::external_body]
fn hist_count(h: &Sketch) -> (r: u64)
    ensures
        r == hist_len(*h) || hist_len(*h) > u64::MAX,
{
    h.hist.len()
}

/// Approximate percentiles of one operation kind's recorded latencies.
#[derive(Clone, Copy, PartialEq, Eq, Structural, Debug)]
pub struct LatencyReport {
    pub p50: u64,
    pub p95: u64,
    pub p99: u64,
}

/// One report per operation kind.
#[derive(Clone, Copy, PartialEq, Eq, Structural, Debug)]
pub struct StatsSummary {
    pub add_order: LatencyReport,
    pub cancel_order: LatencyReport,
    pub match_order: LatencyReport,
}

/// The report one sketch yields: its three reported percentiles.
spec fn report_spec(h: Sketch) -> LatencyReport {
    LatencyReport {
        p50: percentile_of(h, 50),
        p95: percentile_of(h, 95),
        p99: percentile_of(h, 99),
    }
}

/// The three reported percentiles of one sketch.
fn report_of(h: &Sketch) -> (r: LatencyReport)
    ensures
        r == report_spec(*h),
        hist_len(*h) == 0 ==> r == (LatencyReport { p50: 0, p95: 0, p99: 0 }),
        r.p50 <= r.p95 <= r.p99,
{
    LatencyReport {
        p50: hist_percentile(h, 50),
        p95: hist_percentile(h, 95),
        p99: hist_percentile(h, 99),
    }
}

/// One percentile sketch per operation kind, each fed elapsed
/// nanoseconds by the reconciliation loop.
pub struct LatencyStats {
    add_order: Sketch,
    cancel_order: Sketch,
    match_order: Sketch,
}

impl LatencyStats {
    /// How many samples each sketch holds: add, cancel, match.
    pub closed spec fn counts(&self) -> (nat, nat, nat) {
        (hist_len(self.add_order), hist_len(self.cancel_order), hist_len(self.match_order))
    }

    /// The summary the recorder reports of its current sketches.
    pub closed spec fn summary_spec(&self) -> StatsSummary {
        StatsSummary {
            add_order: report_spec(self.add_order),
            cancel_order: report_spec(self.cancel_order),
            match_order: report_spec(self.match_order),
        }
    }

    pub fn new() -> (r: LatencyStats)
        ensures
            r.counts() == (0nat, 0nat, 0nat),
    {
        LatencyStats {
            add_order: hist_new(3),
            cancel_order: hist_new(3),
            match_order: hist_new(3),
        }
    }

    /// Appends one sample to the add sketch; the others are untouched.
    pub fn record_add(&mut self, nanos: u64)
        ensures
            final(self).counts().1 == old(self).counts().1,
            final(self).counts().2 == old(self).counts().2,
            old(self).counts().0 < u64::MAX ==> final(self).counts().0 == old(self).counts().0
                + 1,
            old(self).counts().0 >= u64::MAX ==> final(self).counts().0 == old(
                self,
            ).counts().0,
    {
        hist_record(&mut self.add_order, nanos);
    }

    /// Appends one sample to the cancel sketch; the others are
    /// untouched.
    pub fn record_cancel(&mut self, nanos: u64)
        ensures
            final(self).counts().0 == old(self).counts().0,
            final(self).counts().2 == old(self).counts().2,
            old(self).counts().1 < u64::MAX ==> final(self).counts().1 == old(self).counts().1
                + 1,
            old(self).counts().1 >= u64::MAX ==> final(self).counts().1 == old(
                self,
            ).counts().1,
    {
        hist_record(&mut self.cancel_order, nanos);
    }

    /// Appends one sample to the match sketch; the others are
    /// untouched.
    pub fn record_match(&mut self, nanos: u64)
        ensures
            final(self).counts().0 == old(self).counts().0,
            final(self).counts().1 == old(self).counts().1,
            old(self).counts().2 < u64::MAX ==> final(self).counts().2 == old(self).counts().2
                + 1,
            old(self).counts().2 >= u64::MAX ==> final(self).counts().2 == old(
                self,
            ).counts().2,
    {
        hist_record(&mut self.match_order, nanos);
    }

    /// How many samples the add sketch holds, for callers that cannot
    /// read the ghost counts.
    pub fn add_count(&self) -> (r: u64)
        ensures
            r == self.counts().0 || self.counts().0 > u64::MAX,
    {
        hist_count(&self.add_order)
    }

    /// The three percentile reports, a function of the sketches alone:
    /// within each kind the percentiles are nondecreasing, and a kind
    /// that has recorded nothing reports zeros. The sketch trades
    /// exactness for bounded memory, so the values approximate the
    /// recorded distribution.
    pub fn get_stats(&self) -> (r: StatsSummary)
        ensures
            r == self.summary_spec(),
            self.counts().0 == 0 ==> r.add_order == (LatencyReport { p50: 0, p95: 0, p99: 0 }),
            self.counts().1 == 0 ==> r.cancel_order == (LatencyReport {
                p50: 0,
                p95: 0,
                p99: 0,
            }),
            self.counts().2 == 0 ==> r.match_order == (LatencyReport {
                p50: 0,
                p95: 0,
                p99: 0,
            }),
            r.add_order.p50 <= r.add_order.p95 <= r.add_order.p99,
            r.cancel_order.p50 <= r.cancel_order.p95 <= r.cancel_order.p99,
            r.match_order.p50 <= r.match_order.p95 <= r.match_order.p99,
    {
        StatsSummary {
            add_order: report_of(&self.add_order),
            cancel_order: report_of(&self.cancel_order),
            match_order: report_of(&self.match_order),
        }
    }
}

impl Default for LatencyStats {
    fn default() -> (r: Self)
        ensures
            r.counts() == (0nat, 0nat, 0nat),
    {
        Self::new()
    }
}

} // verus!
