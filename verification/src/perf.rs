//! Per-operation latency accounting.
use vstd::prelude::*;
use crate::text::{decimal_digits, push_decimal};

verus! {

/// Counts and total microseconds of each kind of operation.
#[derive(Debug, Clone)]
pub struct PerfStats {
    pub put_count: u64,
    pub put_total_us: u64,
    pub get_count: u64,
    pub get_total_us: u64,
    pub scan_count: u64,
    pub scan_total_us: u64,
    pub flush_count: u64,
    pub flush_total_us: u64,
    pub compact_count: u64,
    pub compact_total_us: u64,
}

/// The mean of `total` over `count` (zero when nothing was counted).
pub open spec fn spec_avg(total: u64, count: u64) -> u64 {
    if count == 0 { 0 } else { total / count }
}

impl Default for PerfStats {
    fn default() -> (r: PerfStats)
        ensures
            r == (PerfStats {
                put_count: 0, put_total_us: 0, get_count: 0, get_total_us: 0, scan_count: 0, scan_total_us: 0,
                flush_count: 0, flush_total_us: 0, compact_count: 0, compact_total_us: 0,
            }),
    {
        PerfStats {
            put_count: 0, put_total_us: 0, get_count: 0, get_total_us: 0, scan_count: 0, scan_total_us: 0,
            flush_count: 0, flush_total_us: 0, compact_count: 0, compact_total_us: 0,
        }
    }
}

impl PerfStats {
    pub fn record_put(&mut self, us: u64)
        requires
            old(self).put_count < u64::MAX,
            old(self).put_total_us + us <= u64::MAX,
        ensures
            *final(self) == (PerfStats { put_count: (old(self).put_count + 1) as u64,
                put_total_us: (old(self).put_total_us + us) as u64, ..*old(self) }),
    {
        self.put_count = self.put_count + 1;
        self.put_total_us = self.put_total_us + us;
    }

    pub fn record_get(&mut self, us: u64)
        requires
            old(self).get_count < u64::MAX,
            old(self).get_total_us + us <= u64::MAX,
        ensures
            *final(self) == (PerfStats { get_count: (old(self).get_count + 1) as u64,
                get_total_us: (old(self).get_total_us + us) as u64, ..*old(self) }),
    {
        self.get_count = self.get_count + 1;
        self.get_total_us = self.get_total_us + us;
    }

    pub fn record_scan(&mut self, us: u64)
        requires
            old(self).scan_count < u64::MAX,
            old(self).scan_total_us + us <= u64::MAX,
        ensures
            *final(self) == (PerfStats { scan_count: (old(self).scan_count + 1) as u64,
                scan_total_us: (old(self).scan_total_us + us) as u64, ..*old(self) }),
    {
        self.scan_count = self.scan_count + 1;
        self.scan_total_us = self.scan_total_us + us;
    }

    pub fn record_flush(&mut self, us: u64)
        requires
            old(self).flush_count < u64::MAX,
            old(self).flush_total_us + us <= u64::MAX,
        ensures
            *final(self) == (PerfStats { flush_count: (old(self).flush_count + 1) as u64,
                flush_total_us: (old(self).flush_total_us + us) as u64, ..*old(self) }),
    {
        self.flush_count = self.flush_count + 1;
        self.flush_total_us = self.flush_total_us + us;
    }

    pub fn record_compact(&mut self, us: u64)
        requires
            old(self).compact_count < u64::MAX,
            old(self).compact_total_us + us <= u64::MAX,
        ensures
            *final(self) == (PerfStats { compact_count: (old(self).compact_count + 1) as u64,
                compact_total_us: (old(self).compact_total_us + us) as u64, ..*old(self) }),
    {
        self.compact_count = self.compact_count + 1;
        self.compact_total_us = self.compact_total_us + us;
    }

    pub fn avg_put_us(&self) -> (r: u64)
        ensures
            r == spec_avg(self.put_total_us, self.put_count),
    {
        if self.put_count == 0 { 0 } else { self.put_total_us / self.put_count }
    }

    pub fn avg_get_us(&self) -> (r: u64)
        ensures
            r == spec_avg(self.get_total_us, self.get_count),
    {
        if self.get_count == 0 { 0 } else { self.get_total_us / self.get_count }
    }

    pub fn avg_scan_us(&self) -> (r: u64)
        ensures
            r == spec_avg(self.scan_total_us, self.scan_count),
    {
        if self.scan_count == 0 { 0 } else { self.scan_total_us / self.scan_count }
    }

    /// Mean flush time in whole milliseconds.
    pub fn avg_flush_ms(&self) -> (r: u64)
        ensures
            r == spec_avg(self.flush_total_us, self.flush_count) / 1000,
    {
        if self.flush_count == 0 { 0 } else { self.flush_total_us / self.flush_count / 1000 }
    }

    /// The summary text.
    pub open spec fn spec_summary(&self) -> Seq<char> {
        "Performance Summary:\n  put:   avg "@ + decimal_digits(spec_avg(self.put_total_us, self.put_count) as nat)
            + "\u{3bc}s, count "@ + decimal_digits(self.put_count as nat)
            + "\n  get:   avg "@ + decimal_digits(spec_avg(self.get_total_us, self.get_count) as nat)
            + "\u{3bc}s, count "@ + decimal_digits(self.get_count as nat)
            + "\n  scan:  avg "@ + decimal_digits(spec_avg(self.scan_total_us, self.scan_count) as nat)
            + "\u{3bc}s, count "@ + decimal_digits(self.scan_count as nat)
            + "\n  flush: avg "@ + decimal_digits((spec_avg(self.flush_total_us, self.flush_count) / 1000) as nat)
            + "ms, count "@ + decimal_digits(self.flush_count as nat)
    }

    /// A human-readable summary of the averages and counts.
    pub fn summary(&self) -> (r: String)
        ensures
            r@ == self.spec_summary(),
    {
        let mut s = "Performance Summary:\n  put:   avg ".to_owned();
        push_decimal(&mut s, self.avg_put_us());
        s.append("\u{3bc}s, count ");
        push_decimal(&mut s, self.put_count);
        s.append("\n  get:   avg ");
        push_decimal(&mut s, self.avg_get_us());
        s.append("\u{3bc}s, count ");
        push_decimal(&mut s, self.get_count);
        s.append("\n  scan:  avg ");
        push_decimal(&mut s, self.avg_scan_us());
        s.append("\u{3bc}s, count ");
        push_decimal(&mut s, self.scan_count);
        s.append("\n  flush: avg ");
        push_decimal(&mut s, self.avg_flush_ms());
        s.append("ms, count ");
        push_decimal(&mut s, self.flush_count);
        s
    }
}

} // verus!
