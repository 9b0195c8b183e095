//! Throttled progress reporting for long-running per-block stages: the
//! tracker decides when a percentage line is due and what it says; the
//! caller supplies the clock and writes the line.
use vstd::prelude::*;
use crate::text::push_str;

verus! {

/// At most one progress line per this many milliseconds.
pub const PROGRESS_INTERVAL_MILLIS: u64 = 1000;

/// Progress through an estimated `total` units of work.
pub struct ProgressTracker {
    pub label: String,
    pub total: usize,
    /// Units completed so far.
    pub count: usize,
    /// Milliseconds since the start at which the last line was due.
    pub last_report_millis: u64,
}

/// The count shown after `n` more units: capped at the total.
pub open spec fn shown_count(count: int, n: int, total: int) -> int {
    if count + n < total { count + n } else { total }
}

/// Whether a line is due at `now`, the last one having been due at `last`.
pub open spec fn report_due(now: u64, last: u64) -> bool {
    (if now >= last { now - last } else { 0 }) >= PROGRESS_INTERVAL_MILLIS
}

impl ProgressTracker {
    /// A tracker for `total` units under `label`, with nothing done yet.
    /// With `total == 0` it never reports.
    pub fn new(label: &str, total: usize) -> (t: Self)
        ensures
            t.label@ == label@,
            t.total == total,
            t.count == 0,
            t.last_report_millis == 0,
    {
        let mut l = String::new();
        push_str(&mut l, label);
        ProgressTracker { label: l, total, count: 0, last_report_millis: 0 }
    }

    /// Records `n` more completed units at `now_millis` (milliseconds since
    /// the start). Returns the percentage to show when a line is due: at
    /// least a second after the last one, with the count capped at the
    /// total. Nothing happens when `total` or `n` is 0.
    pub fn add(&mut self, n: usize, now_millis: u64) -> (pct: Option<u64>)
        requires
            old(self).total > 0 && n > 0 ==> old(self).count + n <= usize::MAX,
            old(self).total > 0 && n > 0 && report_due(now_millis, old(self).last_report_millis)
                ==> shown_count(old(self).count as int, n as int, old(self).total as int) * 100 <= usize::MAX,
        ensures
            old(self).total == 0 || n == 0 ==> *final(self) == *old(self) && pct is None,
            old(self).total > 0 && n > 0 ==> {
                &&& final(self).label == old(self).label
                &&& final(self).total == old(self).total
                &&& final(self).count == old(self).count + n
                &&& report_due(now_millis, old(self).last_report_millis) ==> {
                    &&& final(self).last_report_millis == now_millis
                    &&& pct == Some((shown_count(old(self).count as int, n as int, old(self).total as int) * 100
                        / old(self).total as int) as u64)
                }
                &&& !report_due(now_millis, old(self).last_report_millis) ==> {
                    &&& final(self).last_report_millis == old(self).last_report_millis
                    &&& pct is None
                }
            },
    {
        if self.total == 0 || n == 0 {
            return None;
        }
        self.count = self.count + n;
        let count = if self.count < self.total { self.count } else { self.total };
        let last = self.last_report_millis;
        if now_millis.saturating_sub(last) >= PROGRESS_INTERVAL_MILLIS {
            self.last_report_millis = now_millis;
            Some((count * 100 / self.total) as u64)
        } else {
            None
        }
    }

    /// The final line always shows 100% (the total is only an estimate), and
    /// there is none when `total == 0`.
    pub fn finish(&self) -> (pct: Option<u64>)
        ensures
            pct == (if self.total > 0 { Some(100u64) } else { None }),
    {
        if self.total > 0 {
            Some(100)
        } else {
            None
        }
    }
}

} // verus!
