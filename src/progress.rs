//! Progress of a long run: how many items are done out of how many, and
//! when a report is due. Reports are advisory and change no result.
use vstd::prelude::*;

verus! {

pub struct ProgressTracker {
    pub total: u64,
    pub processed: u64,
    pub label: String,
}

impl ProgressTracker {
    pub fn new(total: u64, label: &str) -> (r: Self)
        ensures
            r.total == total,
            r.processed == 0,
            r.label@ == label@,
    {
        ProgressTracker { total, processed: 0, label: label.to_string() }
    }

    /// Items done so far.
    pub fn counter(&self) -> (r: u64)
        ensures
            r == self.processed,
    {
        self.processed
    }

    /// Counts one more item done. Gives the new count when a report is due:
    /// every `report_interval` items and at the last one.
    pub fn increment_and_report(&mut self, report_interval: u64) -> (r: Option<u64>)
        requires
            report_interval > 0,
        ensures
            final(self).total == old(self).total,
            final(self).label@ == old(self).label@,
            final(self).processed == if old(self).processed < u64::MAX {
                old(self).processed + 1
            } else {
                u64::MAX as int
            },
            r is Some <==> (final(self).processed % report_interval == 0 || final(self).processed
                == final(self).total),
            r matches Some(n) ==> n == final(self).processed,
    {
        self.processed = self.processed.saturating_add(1);
        let current = self.processed;
        if current % report_interval == 0 || current == self.total {
            Some(current)
        } else {
            None
        }
    }
}

} // verus!
