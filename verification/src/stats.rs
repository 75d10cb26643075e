//! The crawler's throughput counters and the periodic report made of them.

use vstd::prelude::*;

verus! {

/// Milliseconds in a minute.
pub const MINUTE_MS: u64 = 60000;

/// Counters kept while crawling. The three event counters wrap around on
/// overflow, as atomic counters do.
pub struct CrawlStats {
    /// Pages scraped without error since the start.
    pub scraped: u64,
    /// Pages scraped without error since the last report.
    pub scraped_since_report: u64,
    /// Pages whose scraping failed since the start.
    pub errors: u64,
    /// Sum of the per-minute rates of all reports so far.
    pub rate_sum: u64,
    /// Number of reports so far.
    pub reports: u64,
}

/// What one report says.
pub struct IntervalReport {
    /// Pages scraped without error since the start.
    pub scraped_total: u64,
    /// The last interval's successes scaled to a minute.
    pub per_minute: u64,
    /// The mean of the per-minute rates of all reports, this one included.
    pub average_per_minute: u64,
    /// Pages scraped without error in the last interval.
    pub last_interval: u64,
    /// Pages whose scraping failed since the start.
    pub errors: u64,
}

/// The per-minute rate that a report gives for `count` successes in an
/// interval of `interval_ms` milliseconds: the count times the whole number
/// of such intervals in a minute.
pub open spec fn rate_per_minute(count: u64, interval_ms: u64) -> int {
    count * (MINUTE_MS / interval_ms) as int
}

/// Whether a report can be made from these counters for an interval of
/// `interval_ms` milliseconds without an arithmetic overflow.
pub open spec fn can_report(stats: CrawlStats, interval_ms: u64) -> bool {
    &&& interval_ms > 0
    &&& stats.rate_sum + rate_per_minute(stats.scraped_since_report, interval_ms) <= u64::MAX
    &&& stats.reports < u64::MAX
}

/// A report can be made for every interval of at least one millisecond
/// whose sums do not overflow, and its per-minute rate is the interval's
/// successes times the whole number of such intervals in 60000 milliseconds.
pub proof fn lemma_report_formula(stats: CrawlStats, interval_ms: u64)
    ensures
        can_report(stats, interval_ms) <==> (interval_ms > 0 && stats.reports < u64::MAX
            && stats.rate_sum + stats.scraped_since_report * (60000u64 / interval_ms) as int
            <= u64::MAX),
        rate_per_minute(stats.scraped_since_report, interval_ms) == stats.scraped_since_report * (
        60000u64 / interval_ms) as int,
{
}

impl CrawlStats {
    /// All counters at zero.
    pub fn new() -> (s: CrawlStats)
        ensures
            s.scraped == 0,
            s.scraped_since_report == 0,
            s.errors == 0,
            s.rate_sum == 0,
            s.reports == 0,
    {
        CrawlStats { scraped: 0, scraped_since_report: 0, errors: 0, rate_sum: 0, reports: 0 }
    }

    /// Counts a page scraped without error.
    pub fn record_success(&mut self)
        ensures
            final(self).scraped == vstd::wrapping::u64_specs::wrapping_add(old(self).scraped, 1),
            final(self).scraped_since_report == vstd::wrapping::u64_specs::wrapping_add(
                old(self).scraped_since_report,
                1,
            ),
            final(self).errors == old(self).errors,
            final(self).rate_sum == old(self).rate_sum,
            final(self).reports == old(self).reports,
    {
        self.scraped = self.scraped.wrapping_add(1);
        self.scraped_since_report = self.scraped_since_report.wrapping_add(1);
    }

    /// Counts a page whose scraping failed.
    pub fn record_failure(&mut self)
        ensures
            final(self).errors == vstd::wrapping::u64_specs::wrapping_add(old(self).errors, 1),
            final(self).scraped == old(self).scraped,
            final(self).scraped_since_report == old(self).scraped_since_report,
            final(self).rate_sum == old(self).rate_sum,
            final(self).reports == old(self).reports,
    {
        self.errors = self.errors.wrapping_add(1);
    }

    /// Whether [`CrawlStats::report`] can be called for an interval of
    /// `interval_ms` milliseconds.
    pub fn report_fits(&self, interval_ms: u64) -> (r: bool)
        ensures
            r == can_report(*self, interval_ms),
            r == (interval_ms > 0 && self.reports < u64::MAX && self.rate_sum
                + self.scraped_since_report * (60000u64 / interval_ms) as int <= u64::MAX),
    {
        proof {
            lemma_report_formula(*self, interval_ms);
        }
        if interval_ms == 0 || self.reports == u64::MAX {
            return false;
        }
        let per_minute = self.scraped_since_report.checked_mul(MINUTE_MS / interval_ms);
        match per_minute {
            Some(p) => self.rate_sum.checked_add(p).is_some(),
            None => {
                assert(self.rate_sum + rate_per_minute(self.scraped_since_report, interval_ms)
                    > u64::MAX);
                false
            },
        }
    }

    /// Closes an interval of `interval_ms` milliseconds: reports the counters,
    /// adds the interval's per-minute rate to the running mean, and starts
    /// counting the next interval from zero.
    pub fn report(&mut self, interval_ms: u64) -> (r: IntervalReport)
        requires
            can_report(*old(self), interval_ms),
        ensures
            r.last_interval == old(self).scraped_since_report,
            r.per_minute == rate_per_minute(old(self).scraped_since_report, interval_ms),
            r.per_minute == old(self).scraped_since_report * (60000u64 / interval_ms) as int,
            r.scraped_total == old(self).scraped,
            r.errors == old(self).errors,
            final(self).rate_sum == old(self).rate_sum + r.per_minute,
            final(self).reports == old(self).reports + 1,
            r.average_per_minute == final(self).rate_sum / final(self).reports,
            final(self).scraped_since_report == 0,
            final(self).scraped == old(self).scraped,
            final(self).errors == old(self).errors,
    {
        let last = self.scraped_since_report;
        self.scraped_since_report = 0;
        assert(last * (MINUTE_MS / interval_ms) <= u64::MAX) by (nonlinear_arith)
            requires
                self.rate_sum + last * (MINUTE_MS / interval_ms) as int <= u64::MAX,
                self.rate_sum >= 0,
        ;
        let per_minute = last * (MINUTE_MS / interval_ms);
        self.rate_sum = self.rate_sum + per_minute;
        self.reports = self.reports + 1;
        IntervalReport {
            scraped_total: self.scraped,
            per_minute,
            average_per_minute: self.rate_sum / self.reports,
            last_interval: last,
            errors: self.errors,
        }
    }
}

} // verus!
