//! Frame numbers and timestamps of a container being played back.
use vstd::prelude::*;

verus! {

/// When frame `frame` starts at `fps_num / fps_den` frames per second:
/// `frame × 1000 × fps_den / fps_num` milliseconds, rounded down and capped
/// at `u64::MAX`.
pub open spec fn frame_timestamp(frame: u64, fps_num: u32, fps_den: u32) -> nat {
    let t = frame * 1000 * fps_den / (fps_num as int);
    if t > u64::MAX {
        u64::MAX as nat
    } else {
        t as nat
    }
}

/// The timestamp of frame `frame`, or `None` for a zero frame rate.
pub fn frame_timestamp_ms(frame: u64, fps_num: u32, fps_den: u32) -> (r: Option<u64>)
    ensures
        r is None <==> fps_num == 0,
        r matches Some(t) ==> t == frame_timestamp(frame, fps_num, fps_den),
{
    if fps_num == 0 {
        return None;
    }
    proof {
        assert(frame * 1000 * fps_den <= 0xFFFF_FFFF_FFFF_FFFF * 1000 * 0xFFFF_FFFF)
            by (nonlinear_arith)
            requires
                frame <= 0xFFFF_FFFF_FFFF_FFFF,
                fps_den <= 0xFFFF_FFFF,
        ;
        assert(frame * 1000 * fps_den >= 0) by (nonlinear_arith)
            requires
                frame >= 0,
                fps_den >= 0,
        ;
    }
    let t: u128 = frame as u128 * 1000 * fps_den as u128 / fps_num as u128;
    if t > u64::MAX as u128 {
        Some(u64::MAX)
    } else {
        Some(t as u64)
    }
}

/// How many whole frames `duration_ms` holds at `fps_num / fps_den` frames
/// per second, at least one and capped at `u64::MAX`; `None` for a zero denominator.
pub fn frame_count(duration_ms: u64, fps_num: u32, fps_den: u32) -> (r: Option<u64>)
    ensures
        r is None <==> fps_den == 0,
        r matches Some(n) ==> n == if duration_ms * fps_num / (fps_den * 1000) > u64::MAX {
            u64::MAX as int
        } else if duration_ms * fps_num / (fps_den * 1000) >= 1 {
            duration_ms * fps_num / (fps_den * 1000)
        } else {
            1
        },
{
    if fps_den == 0 {
        return None;
    }
    proof {
        assert(duration_ms * fps_num <= 0xFFFF_FFFF_FFFF_FFFF * 0xFFFF_FFFF) by (nonlinear_arith)
            requires
                duration_ms <= 0xFFFF_FFFF_FFFF_FFFF,
                fps_num <= 0xFFFF_FFFF,
        ;
        assert(duration_ms * fps_num / (fps_den * 1000) <= duration_ms * fps_num) by (nonlinear_arith)
            requires
                duration_ms * fps_num >= 0,
                fps_den >= 1,
        ;
    }
    let n: u128 = duration_ms as u128 * fps_num as u128 / (fps_den as u128 * 1000);
    if n > u64::MAX as u128 {
        Some(u64::MAX)
    } else if n >= 1 {
        Some(n as u64)
    } else {
        Some(1)
    }
}

/// `min(v, limit)`.
pub open spec fn clamp_to(v: int, limit: int) -> int {
    if v > limit {
        limit
    } else {
        v
    }
}

/// A player's position in a container: which frame comes next, at a
/// frame rate of `fps_num / fps_den`.
pub struct PlaybackState {
    pub fps_num: u32,
    pub fps_den: u32,
    pub duration_ms: u64,
    pub total_frames: u64,
    pub current_frame: u64,
}

impl PlaybackState {
    /// Playback from the first frame; `None` when the frame rate has a zero
    /// numerator or denominator. The number of frames is the duration times
    /// the frame rate, rounded up.
    pub fn new(fps_num: u32, fps_den: u32, duration_ms: u64) -> (r: Option<Self>)
        ensures
            r is None <==> fps_num == 0 || fps_den == 0,
            r matches Some(p) ==> p.fps_num == fps_num && p.fps_den == fps_den && p.duration_ms
                == duration_ms && p.current_frame == 0 && p.total_frames
                == crate::encoder::estimated_frame_count(duration_ms, fps_num, fps_den),
    {
        if fps_num == 0 || fps_den == 0 {
            return None;
        }
        let total_frames = crate::encoder::estimate_frame_count(duration_ms, fps_num, fps_den);
        Some(PlaybackState { fps_num, fps_den, duration_ms, total_frames, current_frame: 0 })
    }

    /// When the current frame starts.
    pub fn timestamp_ms(&self) -> (r: u64)
        requires
            self.fps_num > 0,
        ensures
            r == frame_timestamp(self.current_frame, self.fps_num, self.fps_den),
    {
        match frame_timestamp_ms(self.current_frame, self.fps_num, self.fps_den) {
            Some(t) => t,
            None => 0,
        }
    }

    /// The timestamp of the frame to show next, moving on past it; `None`
    /// once the timestamps reach the duration.
    pub fn next_frame(&mut self) -> (r: Option<u64>)
        requires
            old(self).fps_num > 0,
        ensures
            final(self).fps_num == old(self).fps_num,
            final(self).fps_den == old(self).fps_den,
            final(self).duration_ms == old(self).duration_ms,
            final(self).total_frames == old(self).total_frames,
            ({
                let t = frame_timestamp(old(self).current_frame, old(self).fps_num, old(self).fps_den);
                &&& r is None <==> t >= old(self).duration_ms
                &&& r matches Some(v) ==> v == t
                &&& final(self).current_frame == if r is None {
                    old(self).current_frame as int
                } else {
                    clamp_to(old(self).current_frame + 1, u64::MAX as int)
                }
            }),
    {
        let t = self.timestamp_ms();
        if t >= self.duration_ms {
            return None;
        }
        self.current_frame = self.current_frame.saturating_add(1);
        Some(t)
    }

    /// How long one frame lasts: `1000 × fps_den / fps_num` milliseconds,
    /// rounded down.
    pub fn frame_length_ms(&self) -> (r: u64)
        requires
            self.fps_num > 0,
        ensures
            r == 1000 * self.fps_den / (self.fps_num as int),
    {
        proof {
            assert(1000 * self.fps_den / (self.fps_num as int) <= 1000 * self.fps_den) by (nonlinear_arith)
                requires
                    self.fps_num >= 1,
                    self.fps_den >= 0,
            ;
        }
        (1000 * self.fps_den as u64) / self.fps_num as u64
    }

    /// Moves to the frame shown at `time_ms`, at most the last frame.
    pub fn seek_time_ms(&mut self, time_ms: u64)
        requires
            old(self).fps_den > 0,
        ensures
            final(self).fps_num == old(self).fps_num,
            final(self).fps_den == old(self).fps_den,
            final(self).duration_ms == old(self).duration_ms,
            final(self).total_frames == old(self).total_frames,
            final(self).current_frame == clamp_to(
                time_ms * old(self).fps_num / (old(self).fps_den * 1000),
                if old(self).total_frames > 0 {
                    old(self).total_frames - 1
                } else {
                    0
                },
            ),
    {
        proof {
            assert(time_ms * self.fps_num <= 0xFFFF_FFFF_FFFF_FFFF * 0xFFFF_FFFF) by (nonlinear_arith)
                requires
                    time_ms <= 0xFFFF_FFFF_FFFF_FFFF,
                    self.fps_num <= 0xFFFF_FFFF,
            ;
            assert(time_ms * self.fps_num >= 0) by (nonlinear_arith)
                requires
                    time_ms >= 0,
                    self.fps_num >= 0,
            ;
        }
        let target: u128 = time_ms as u128 * self.fps_num as u128 / (self.fps_den as u128 * 1000);
        let last = self.total_frames.saturating_sub(1);
        self.current_frame = if target > last as u128 {
            last
        } else {
            target as u64
        };
    }

    /// Moves to the frame at the fraction `num / den` of the video, at most
    /// the last frame.
    pub fn seek_position(&mut self, num: u64, den: u64)
        requires
            den > 0,
        ensures
            final(self).fps_num == old(self).fps_num,
            final(self).fps_den == old(self).fps_den,
            final(self).duration_ms == old(self).duration_ms,
            final(self).total_frames == old(self).total_frames,
            final(self).current_frame == clamp_to(
                num * old(self).total_frames / (den as int),
                if old(self).total_frames > 0 {
                    old(self).total_frames - 1
                } else {
                    0
                },
            ),
    {
        proof {
            assert(num * self.total_frames <= 0xFFFF_FFFF_FFFF_FFFF * 0xFFFF_FFFF_FFFF_FFFF)
                by (nonlinear_arith)
                requires
                    num <= 0xFFFF_FFFF_FFFF_FFFF,
                    self.total_frames <= 0xFFFF_FFFF_FFFF_FFFF,
            ;
            assert(num * self.total_frames >= 0) by (nonlinear_arith)
                requires
                    num >= 0,
                    self.total_frames >= 0,
            ;
        }
        let target: u128 = num as u128 * self.total_frames as u128 / den as u128;
        let last = self.total_frames.saturating_sub(1);
        self.current_frame = if target > last as u128 {
            last
        } else {
            target as u64
        };
    }
}

/// Milliseconds as microseconds, capped at `i64::MAX`.
pub fn tick_from_ms(ms: u64) -> (r: i64)
    ensures
        r == clamp_to(ms * 1000, i64::MAX as int),
{
    if ms > (i64::MAX as u64) / 1000 {
        i64::MAX
    } else {
        (ms * 1000) as i64
    }
}

} // verus!
