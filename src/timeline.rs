use vstd::prelude::*;

verus! {

/// One appearance of an asset: which asset, during which half-open interval
/// of milliseconds, where on the frame, and at which layer.
#[derive(Debug, Clone, Copy, PartialEq, Eq, Structural)]
pub struct TimelineEntry {
    pub asset_id: u32,
    pub start_time_ms: u64,
    pub end_time_ms: u64,
    pub position_x: i32,
    pub position_y: i32,
    pub z_order: i32,
}

impl TimelineEntry {
    /// Whether a timestamp lies in `[start_time_ms, end_time_ms)`.
    pub open spec fn active_at(self, t: u64) -> bool {
        self.start_time_ms <= t && t < self.end_time_ms
    }

    pub fn new(
        asset_id: u32,
        start_time_ms: u64,
        end_time_ms: u64,
        position_x: i32,
        position_y: i32,
        z_order: i32,
    ) -> (r: Self)
        ensures
            r == (TimelineEntry { asset_id, start_time_ms, end_time_ms, position_x, position_y, z_order }),
    {
        TimelineEntry { asset_id, start_time_ms, end_time_ms, position_x, position_y, z_order }
    }

    /// Checks whether this entry is shown at `timestamp_ms`.
    pub fn is_active(&self, timestamp_ms: u64) -> (r: bool)
        ensures
            r == self.active_at(timestamp_ms),
    {
        timestamp_ms >= self.start_time_ms && timestamp_ms < self.end_time_ms
    }

    /// Length of the interval in milliseconds, zero when it is empty.
    pub fn duration_ms(&self) -> (r: u64)
        ensures
            r == (if self.end_time_ms >= self.start_time_ms {
                self.end_time_ms - self.start_time_ms
            } else {
                0
            }),
    {
        self.end_time_ms.saturating_sub(self.start_time_ms)
    }
}

} // verus!
