//! Clock and timestamp helpers.
//!
//! OMT timestamps use 100 ns ticks (`10_000_000` = 1 second). A timestamp of
//! `-1` asks the sender to generate timestamps automatically.
//!
//! [`TimestampClock`] follows libomtnet `OMTClock`: automatic timestamps
//! advance by one frame interval, and skip forward when the presentation clock
//! falls behind the wall clock. Waiting while the clock is ahead of the wall
//! clock is left to the caller ([`TimestampClock::is_ahead`]).
use vstd::prelude::*;
use crate::types::{sat_i64, saturating_add_i64, saturating_mul_i64, saturating_sub_i64};
use std::time::Instant;

verus! {

/// OMT clock ticks per second (10,000,000).
pub const TICKS_PER_SECOND: i64 = 10_000_000;

/// Auto-timestamp sentinel (`-1`).
pub const AUTO_TIMESTAMP: i64 = -1;

/// A point in time of the monotonic clock.
#[verifier::external_type_specification]
#[verifier::external_body]
pub struct ExInstant(std::time::Instant);

/// Ticks of a duration of `secs` seconds and `nanos` nanoseconds, as
/// libomtnet computes them: whole seconds scaled (saturating), plus the
/// nanoseconds in whole ticks.
pub open spec fn duration_ticks(secs: u64, nanos: u32) -> i64 {
    sat_i64(sat_i64((secs as i64) * TICKS_PER_SECOND) + (nanos as int) * TICKS_PER_SECOND / 1_000_000_000)
}

/// Ticks of a duration given as whole seconds and nanoseconds.
pub fn ticks_from_duration(secs: u64, nanos: u32) -> (r: i64)
    requires
        nanos < 1_000_000_000,
    ensures
        r == duration_ticks(secs, nanos),
{
    let s = secs as i64;
    let whole = saturating_mul_i64(s, TICKS_PER_SECOND);
    let frac = (nanos as i64) * TICKS_PER_SECOND / 1_000_000_000;
    saturating_add_i64(whole, frac)
}

/// `SystemTime::now().duration_since(UNIX_EPOCH)` (zero before the epoch),
/// as whole seconds and the nanoseconds below a second.
/// Claimed: the nanoseconds are below one second (`Duration::subsec_nanos`).
#[verifier::external_body]
fn since_epoch() -> (r: (u64, u32))
    ensures
        r.1 < 1_000_000_000,
{
    let d = std::time::SystemTime::now().duration_since(std::time::UNIX_EPOCH).unwrap_or_default();
    (d.as_secs(), d.subsec_nanos())
}

/// `Instant::now()`.
#[verifier::external_body]
fn instant_now() -> Instant {
    Instant::now()
}

/// `Instant::elapsed` of `start`, as whole seconds and the nanoseconds below
/// a second.
/// Claimed: the nanoseconds are below one second (`Duration::subsec_nanos`).
#[verifier::external_body]
fn elapsed_parts(start: &Instant) -> (r: (u64, u32))
    ensures
        r.1 < 1_000_000_000,
{
    let d = start.elapsed();
    (d.as_secs(), d.subsec_nanos())
}

/// Wall-clock timestamp in OMT ticks since the UNIX epoch.
pub fn now_timestamp() -> (r: i64)
    ensures
        exists|secs: u64, nanos: u32| nanos < 1_000_000_000 && r == duration_ticks(secs, nanos),
{
    let (secs, nanos) = since_epoch();
    ticks_from_duration(secs, nanos)
}

/// Resolve `-1` to "now"; otherwise return `ts` unchanged.
pub fn resolve_timestamp(ts: i64) -> (r: i64)
    ensures
        ts != AUTO_TIMESTAMP ==> r == ts,
        ts == AUTO_TIMESTAMP ==> exists|secs: u64, nanos: u32| nanos < 1_000_000_000 && r == duration_ticks(secs, nanos),
{
    if ts == AUTO_TIMESTAMP {
        now_timestamp()
    } else {
        ts
    }
}

/// The numbers a [`TimestampClock`] keeps.
pub struct ClockState {
    pub audio: bool,
    pub last: Option<i64>,
    pub clock_ts: i64,
    pub frame_rate_n: i32,
    pub frame_rate_d: i32,
    pub sample_rate: i32,
    pub frame_interval: i64,
}

/// The frame interval in ticks: one audio block for audio clocks with a
/// sample rate and block size, one video frame for a frame rate, 1/60 s
/// otherwise.
pub open spec fn interval_for(audio: bool, n: i32, d: i32, sample_rate: i32, samples: i32) -> i64 {
    if audio && sample_rate > 0 && samples > 0 {
        (sat_i64((samples as i64) * TICKS_PER_SECOND) / (sample_rate as i64)) as i64
    } else if n > 0 && d > 0 {
        (sat_i64((d as i64) * TICKS_PER_SECOND) / (n as i64)) as i64
    } else {
        (TICKS_PER_SECOND / 60) as i64
    }
}

/// The frame interval is the whole number of 100 ns ticks in one frame
/// period: for a video clock with frame rate `n / d` (both positive) it is
/// `d * 10_000_000 / n` rounded down, so `n` intervals never exceed `d`
/// seconds and `n` intervals plus `n` ticks do; for an audio clock with a
/// sample rate and block size it is the ticks in one block of `samples`
/// samples. 30000/1001 frames per second gives 333666 ticks.
pub proof fn lemma_interval_is_one_period(audio: bool, n: i32, d: i32, sample_rate: i32, samples: i32)
    ensures
        !(audio && sample_rate > 0 && samples > 0) && n > 0 && d > 0 ==> {
            &&& interval_for(audio, n, d, sample_rate, samples) as int * n <= d * 10_000_000
            &&& d * 10_000_000 < (interval_for(audio, n, d, sample_rate, samples) as int + 1) * n
            &&& interval_for(audio, n, d, sample_rate, samples) == d * 10_000_000 / (n as int)
        },
        audio && sample_rate > 0 && samples > 0 ==> {
            &&& interval_for(audio, n, d, sample_rate, samples) as int * sample_rate <= samples
                * 10_000_000
            &&& samples * 10_000_000 < (interval_for(audio, n, d, sample_rate, samples) as int + 1)
                * sample_rate
        },
        !audio && n == 30000 && d == 1001 ==> interval_for(audio, n, d, sample_rate, samples)
            == 333666,
        !(audio && sample_rate > 0 && samples > 0) && !(n > 0 && d > 0) ==> interval_for(
            audio,
            n,
            d,
            sample_rate,
            samples,
        ) == 166666,
{
    if audio && sample_rate > 0 && samples > 0 {
        let t = samples as int * 10_000_000;
        assert(0 < t <= 0x7fff_ffff * 10_000_000);
        assert(sat_i64(t) == t);
        vstd::arithmetic::div_mod::lemma_fundamental_div_mod(t, sample_rate as int);
        let q = t / (sample_rate as int);
        assert(0 <= q <= t) by {
            vstd::arithmetic::div_mod::lemma_div_pos_is_pos(t, sample_rate as int);
            vstd::arithmetic::div_mod::lemma_div_is_ordered_by_denominator(t, 1, sample_rate as int);
        }
        assert(q * sample_rate <= t && t < (q + 1) * sample_rate) by (nonlinear_arith)
            requires
                t == sample_rate * q + t % (sample_rate as int),
                0 <= t % (sample_rate as int) < sample_rate,
        ;
    } else if n > 0 && d > 0 {
        let t = d as int * 10_000_000;
        assert(0 < t <= 0x7fff_ffff * 10_000_000);
        assert(sat_i64(t) == t);
        vstd::arithmetic::div_mod::lemma_fundamental_div_mod(t, n as int);
        let q = t / (n as int);
        assert(0 <= q <= t) by {
            vstd::arithmetic::div_mod::lemma_div_pos_is_pos(t, n as int);
            vstd::arithmetic::div_mod::lemma_div_is_ordered_by_denominator(t, 1, n as int);
        }
        assert(q * n <= t && t < (q + 1) * n) by (nonlinear_arith)
            requires
                t == n * q + t % (n as int),
                0 <= t % (n as int) < n,
        ;
        if n == 30000 && d == 1001 {
            assert(10_010_000_000int / 30000 == 333666);
        }
    }
}

/// The state after a reset for new rates.
pub open spec fn reset_state(s: ClockState, n: i32, d: i32, sample_rate: i32, samples: i32) -> ClockState {
    ClockState {
        audio: s.audio,
        last: None,
        clock_ts: 0,
        frame_rate_n: n,
        frame_rate_d: d,
        sample_rate,
        frame_interval: interval_for(s.audio, n, d, sample_rate, samples),
    }
}

/// Whether the rates changed since the last frame (sample rate for audio
/// clocks, frame rate for video clocks).
pub open spec fn rates_changed(s: ClockState, n: i32, d: i32, sample_rate: i32) -> bool {
    (s.audio && sample_rate != s.sample_rate) || (!s.audio && (n != s.frame_rate_n || d
        != s.frame_rate_d))
}

/// The state a frame is stamped from: reset when the rates changed.
pub open spec fn prepared_state(s: ClockState, n: i32, d: i32, sample_rate: i32, samples: i32) -> ClockState {
    if rates_changed(s, n, d, sample_rate) {
        reset_state(s, n, d, sample_rate, samples)
    } else {
        s
    }
}

/// The skipping of late frames: while the presentation clock trails the wall
/// clock by more than an interval, both the timestamp and the clock advance
/// by an interval. Gives the final timestamp and clock.
pub open spec fn skip_late(ts: i64, clock: i64, diff: int, interval: i64) -> (i64, i64)
    decreases 0 - diff,
{
    if interval >= 1 && diff < 0 - interval {
        skip_late(sat_i64(ts + interval), sat_i64(clock + interval), diff + interval, interval)
    } else {
        (ts, clock)
    }
}

/// An automatic timestamp after the first frame, at wall-clock reading
/// `wall`: the next interval, skipping intervals when late. Gives the
/// timestamp and the new state.
pub open spec fn advance_state(s: ClockState, wall: i64, sample_rate: i32, samples: i32) -> (i64, ClockState) {
    let fi = if s.audio && sample_rate > 0 && samples > 0 {
        interval_for(true, 0, 0, sample_rate, samples)
    } else {
        s.frame_interval
    };
    let interval: i64 = if fi >= 1 {
        fi
    } else {
        1
    };
    let last = match s.last {
        Some(v) => v,
        None => 0,
    };
    let ts0 = sat_i64(last + interval);
    let clock0 = sat_i64(s.clock_ts + interval);
    let skipped = skip_late(ts0, clock0, sat_i64(clock0 - wall) as int, interval);
    (skipped.0, ClockState { last: Some(skipped.0), clock_ts: skipped.1, frame_interval: fi, ..s })
}

proof fn lemma_skip_late_grows(ts: i64, clock: i64, diff: int, interval: i64)
    ensures
        skip_late(ts, clock, diff, interval).0 >= ts,
    decreases 0 - diff,
{
    if interval >= 1 && diff < 0 - interval {
        lemma_skip_late_grows(sat_i64(ts + interval), sat_i64(clock + interval), diff + interval, interval);
    }
}

/// The state of a clock that has stamped nothing yet.
pub open spec fn fresh_clock(audio: bool) -> ClockState {
    ClockState {
        audio,
        last: None,
        clock_ts: 0,
        frame_rate_n: -1i32,
        frame_rate_d: -1i32,
        sample_rate: -1i32,
        frame_interval: -1i64,
    }
}

/// Whether resolving `ts` (rates `n`/`d`, `sample_rate`, `samples`) on a
/// clock in state `s` may give `r` and leave the clock in state `s1`: a
/// timestamp other than `-1` is kept; for `-1`, the first frame (and the
/// first after a change of rates) is `0`, a later one advances at some
/// wall-clock reading.
pub open spec fn resolved(
    s: ClockState,
    ts: i64,
    n: i32,
    d: i32,
    sample_rate: i32,
    samples: i32,
    r: i64,
    s1: ClockState,
) -> bool {
    let s0 = prepared_state(s, n, d, sample_rate, samples);
    if ts != AUTO_TIMESTAMP {
        r == ts && s1 == ClockState { last: Some(ts), ..s0 }
    } else if s0.last is None {
        r == 0 && s1 == ClockState { last: Some(0), ..reset_state(s0, n, d, sample_rate, samples) }
    } else {
        exists|wall: i64| (r, s1) == #[trigger] advance_state(s0, wall, sample_rate, samples)
    }
}

/// Automatic timestamps after the first frame never go back: each is at
/// least the previous one plus one interval (saturating), so strictly later
/// until the top of the range.
pub proof fn lemma_auto_timestamps_increase(s: ClockState, wall: i64, sample_rate: i32, samples: i32)
    requires
        s.last is Some,
    ensures
        advance_state(s, wall, sample_rate, samples).0 >= s.last->0,
        s.last->0 < i64::MAX ==> advance_state(s, wall, sample_rate, samples).0 > s.last->0,
{
    let fi = if s.audio && sample_rate > 0 && samples > 0 {
        interval_for(true, 0, 0, sample_rate, samples)
    } else {
        s.frame_interval
    };
    let interval: i64 = if fi >= 1 {
        fi
    } else {
        1
    };
    let ts0 = sat_i64(s.last->0 + interval);
    let clock0 = sat_i64(s.clock_ts + interval);
    lemma_skip_late_grows(ts0, clock0, sat_i64(clock0 - wall) as int, interval);
}

/// Tracks auto-generated presentation timestamps for a sender.
pub struct TimestampClock {
    audio: bool,
    last: Option<i64>,
    start: Instant,
    clock_ts: i64,
    frame_rate_n: i32,
    frame_rate_d: i32,
    sample_rate: i32,
    frame_interval: i64,
}

impl TimestampClock {
    /// The numbers the clock keeps.
    pub closed spec fn state(&self) -> ClockState {
        ClockState {
            audio: self.audio,
            last: self.last,
            clock_ts: self.clock_ts,
            frame_rate_n: self.frame_rate_n,
            frame_rate_d: self.frame_rate_d,
            sample_rate: self.sample_rate,
            frame_interval: self.frame_interval,
        }
    }

    /// Create a video (`audio = false`) or audio (`audio = true`) clock.
    pub fn new(audio: bool) -> (r: TimestampClock)
        ensures
            r.state() == fresh_clock(audio),
    {
        TimestampClock {
            audio,
            last: None,
            start: instant_now(),
            clock_ts: 0,
            frame_rate_n: -1,
            frame_rate_d: -1,
            sample_rate: -1,
            frame_interval: -1,
        }
    }

    /// The frame interval for the given rates.
    fn interval(audio: bool, n: i32, d: i32, sample_rate: i32, samples: i32) -> (r: i64)
        ensures
            r == interval_for(audio, n, d, sample_rate, samples),
    {
        if audio && sample_rate > 0 && samples > 0 {
            saturating_mul_i64(samples as i64, TICKS_PER_SECOND) / (sample_rate as i64)
        } else if n > 0 && d > 0 {
            saturating_mul_i64(d as i64, TICKS_PER_SECOND) / (n as i64)
        } else {
            TICKS_PER_SECOND / 60
        }
    }

    /// Restart the presentation clock for new rates.
    fn reset(&mut self, n: i32, d: i32, sample_rate: i32, samples: i32)
        ensures
            final(self).state() == reset_state(old(self).state(), n, d, sample_rate, samples),
    {
        self.frame_rate_n = n;
        self.frame_rate_d = d;
        self.sample_rate = sample_rate;
        self.frame_interval = Self::interval(self.audio, n, d, sample_rate, samples);
        self.start = instant_now();
        self.clock_ts = 0;
        self.last = None;
    }

    /// Wall-clock ticks since the presentation clock started.
    fn wall_ticks(&self) -> (r: i64)
        ensures
            exists|secs: u64, nanos: u32| nanos < 1_000_000_000 && r == duration_ticks(secs, nanos),
    {
        let (secs, nanos) = elapsed_parts(&self.start);
        ticks_from_duration(secs, nanos)
    }

    /// The next automatic timestamp at wall-clock reading `wall` (ticks since
    /// the clock started), for a clock that has stamped a frame.
    pub fn advance(&mut self, wall: i64, sample_rate: i32, samples: i32) -> (r: i64)
        ensures
            (r, final(self).state()) == advance_state(old(self).state(), wall, sample_rate, samples),
    {
        if self.audio && sample_rate > 0 && samples > 0 {
            self.frame_interval = Self::interval(true, 0, 0, sample_rate, samples);
        }
        let interval: i64 = if self.frame_interval >= 1 {
            self.frame_interval
        } else {
            1
        };
        let last = match self.last {
            Some(v) => v,
            None => 0,
        };
        let mut timestamp = saturating_add_i64(last, interval);
        self.clock_ts = saturating_add_i64(self.clock_ts, interval);
        let mut diff = saturating_sub_i64(self.clock_ts, wall);
        let ghost d0: int = diff as int;
        let ghost t0 = timestamp;
        let ghost c0 = self.clock_ts;
        let ghost mid = self.state();
        while diff < -interval
            invariant
                interval >= 1,
                self.state() == (ClockState { clock_ts: self.clock_ts, ..mid }),
                skip_late(timestamp, self.clock_ts, diff as int, interval) == skip_late(t0, c0, d0, interval),
            decreases 0 - diff,
        {
            timestamp = saturating_add_i64(timestamp, interval);
            self.clock_ts = saturating_add_i64(self.clock_ts, interval);
            diff = diff + interval;
        }
        self.last = Some(timestamp);
        timestamp
    }

    /// Resolve a frame timestamp like libomtnet `OMTClock.Process`, without
    /// its waiting.
    ///
    /// A timestamp other than `-1` is kept. For `-1`: the first frame (and
    /// the first after a change of rates) starts at `0`; later frames advance
    /// by the video or audio interval, skipping forward when the presentation
    /// clock trails the wall clock by more than one interval.
    pub fn resolve(&mut self, ts: i64, n: i32, d: i32, sample_rate: i32, samples: i32) -> (r: i64)
        ensures
            resolved(old(self).state(), ts, n, d, sample_rate, samples, r, final(self).state()),
    {
        if (self.audio && sample_rate != self.sample_rate) || (!self.audio && (n != self.frame_rate_n
            || d != self.frame_rate_d)) {
            self.reset(n, d, sample_rate, samples);
        }
        if ts != AUTO_TIMESTAMP {
            self.last = Some(ts);
            return ts;
        }
        if self.last.is_none() {
            self.reset(n, d, sample_rate, samples);
            self.last = Some(0);
            return 0;
        }
        let wall = self.wall_ticks();
        let ghost s0 = self.state();
        let r = self.advance(wall, sample_rate, samples);
        assert(advance_state(s0, wall, sample_rate, samples) == (r, self.state()));
        r
    }

    /// Whether the presentation clock is ahead of the wall clock (the caller
    /// waits while it is, as libomtnet paces frames).
    pub fn is_ahead(&self) -> (r: bool)
        ensures
            exists|secs: u64, nanos: u32|
                nanos < 1_000_000_000 && r == (self.state().clock_ts > #[trigger] duration_ticks(secs, nanos)),
    {
        let wall = self.wall_ticks();
        self.clock_ts > wall
    }
}

} // verus!
