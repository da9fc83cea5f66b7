use vstd::arithmetic::div_mod::{lemma_div_is_ordered, lemma_fundamental_div_mod};
use vstd::prelude::*;

verus! {

/// Timeline steps per beat division.
pub const STEP_DIVISIONS: u32 = 24;

/// Beat divisions per beat.
pub const BEAT_DIVISIONS: u32 = 4;

/// Timeline units per beat.
pub const TICKS_PER_BEAT: u32 = STEP_DIVISIONS * BEAT_DIVISIONS;

/// A position or length on the timeline, in ticks (96 per beat).
#[derive(Default, Debug, Copy, Clone, PartialEq, Eq, Structural, PartialOrd, Ord, Hash)]
pub struct TlUnit(pub usize);

/// Where a timeline-capable node sits on the timeline, and how much is
/// trimmed from its start and end.
#[derive(Default, Debug, Copy, Clone, PartialEq, Eq, Structural)]
pub struct TimelineTransform {
    pub position: TlUnit,
    pub start_offset: TlUnit,
    pub end_offset: TlUnit,
}

/// The rates that relate frames to timeline units: the sample rate in
/// frames per second and the tempo in thousandths of a beat per minute.
#[derive(Debug, Copy, Clone, PartialEq, Eq, Structural)]
pub struct Config {
    pub sample_rate: u32,
    pub millibpm: u32,
}

/// Numerator of the number of frames in one tick: a tick lasts
/// `frames_scale / ticks_scale` frames (60 seconds per minute, and 1000 for
/// the tempo's thousandths, over 96 ticks per beat).
pub open spec fn frames_scale(c: Config) -> int {
    60000 * c.sample_rate
}

/// Denominator of the number of frames in one tick.
pub open spec fn ticks_scale(c: Config) -> int {
    96 * c.millibpm
}

/// `x`, held at `usize::MAX`.
pub open spec fn clamp_usize(x: int) -> int {
    if x > usize::MAX {
        usize::MAX as int
    } else {
        x
    }
}

/// Frames before tick `u`, rounded down.
pub open spec fn tl_to_frames(c: Config, u: int) -> int {
    clamp_usize(u * frames_scale(c) / ticks_scale(c))
}

/// Whole ticks before frame `f`, rounded down.
pub open spec fn frames_to_tl(c: Config, f: int) -> int {
    clamp_usize(f * ticks_scale(c) / frames_scale(c))
}

impl Config {
    /// Both rates are positive.
    pub open spec fn wf(self) -> bool {
        self.sample_rate > 0 && self.millibpm > 0
    }

    /// A tick lasts at least one frame (the tempo is at most 625 beats per
    /// minute per frame per second).
    pub open spec fn ticks_within_frames(self) -> bool {
        ticks_scale(self) <= frames_scale(self)
    }

    pub fn new(sample_rate: u32, millibpm: u32) -> (r: Config)
        ensures
            r.sample_rate == sample_rate,
            r.millibpm == millibpm,
    {
        Config { sample_rate, millibpm }
    }

    /// Frames before the given timeline position, rounded down.
    pub fn tl_units_to_frames(&self, timeline_unit: TlUnit) -> (r: usize)
        requires
            self.wf(),
        ensures
            r == tl_to_frames(*self, timeline_unit.0 as int),
    {
        let u = timeline_unit.0 as u128;
        let sr = self.sample_rate as u128;
        assert(u * (60000 * sr) < 0x1_0000_0000_0000_0000_0000_0000_0000) by (nonlinear_arith)
            requires
                u < 0x1_0000_0000_0000_0000,
                sr < 0x1_0000_0000,
        ;
        let num: u128 = u * (60000 * sr);
        let den: u128 = 96 * (self.millibpm as u128);
        let q = num / den;
        if q > usize::MAX as u128 {
            usize::MAX
        } else {
            q as usize
        }
    }

    /// Whole timeline units before the given frame, rounded down.
    pub fn frames_to_tl_units(&self, frames: usize) -> (r: TlUnit)
        requires
            self.wf(),
        ensures
            r.0 == frames_to_tl(*self, frames as int),
    {
        let f = frames as u128;
        let mb = self.millibpm as u128;
        assert(f * (96 * mb) < 0x1_0000_0000_0000_0000_0000_0000_0000) by (nonlinear_arith)
            requires
                f < 0x1_0000_0000_0000_0000,
                mb < 0x1_0000_0000,
        ;
        let num: u128 = f * (96 * mb);
        let den: u128 = 60000 * (self.sample_rate as u128);
        let q = num / den;
        if q > usize::MAX as u128 {
            TlUnit(usize::MAX)
        } else {
            TlUnit(q as usize)
        }
    }
}

/// Whether a buffer of `buffer_len` frames from transport frame `position`
/// misses the span of a timeline node of base length `length`: it ends
/// before the node starts, or starts after the node's trimmed end.
pub open spec fn outside_span(
    c: Config,
    t: TimelineTransform,
    length: int,
    position: int,
    buffer_len: int,
) -> bool {
    let tl = frames_to_tl(c, position);
    let span = frames_to_tl(c, buffer_len);
    tl + span < t.position.0 || tl > t.position.0 + length - t.start_offset.0 - t.end_offset.0
}

/// Decides whether the engine may skip rendering a timeline node for this
/// buffer because the transport lies wholly outside the node's span.
pub fn outside_timeline_span(
    config: &Config,
    transform: TimelineTransform,
    length: TlUnit,
    position: usize,
    buffer_len: usize,
) -> (r: bool)
    requires
        config.wf(),
    ensures
        r == outside_span(*config, transform, length.0 as int, position as int, buffer_len as int),
{
    let tl = config.frames_to_tl_units(position).0 as u128;
    let span = config.frames_to_tl_units(buffer_len).0 as u128;
    let start = transform.position.0 as u128;
    let trimmed = tl + transform.start_offset.0 as u128 + transform.end_offset.0 as u128;
    tl + span < start || trimmed > start + length.0 as u128
}

/// Floor division bounds: `(x / d) * d <= x < (x / d) * d + d`.
proof fn lemma_div_bounds(x: int, d: int)
    requires
        0 <= x,
        0 < d,
    ensures
        0 <= x / d,
        (x / d) * d <= x < (x / d) * d + d,
{
    lemma_fundamental_div_mod(x, d);
    assert(0 <= x % d < d);
    assert(x == d * (x / d) + x % d);
    vstd::arithmetic::mul::lemma_mul_is_commutative(x / d, d);
    assert(x / d >= 0) by {
        vstd::arithmetic::div_mod::lemma_div_pos_is_pos(x, d);
    }
}

/// Converting a frame position to ticks never rounds it past the frame, so
/// the result needs no clamping.
proof fn lemma_frames_to_tl_unclamped(c: Config, f: int)
    requires
        c.wf(),
        c.ticks_within_frames(),
        0 <= f <= usize::MAX,
    ensures
        f * ticks_scale(c) / frames_scale(c) <= f,
        frames_to_tl(c, f) == f * ticks_scale(c) / frames_scale(c),
{
    let b = ticks_scale(c);
    let t = frames_scale(c);
    assert(0 <= f * b <= f * t) by (nonlinear_arith)
        requires
            0 <= f,
            0 < b <= t,
    ;
    lemma_div_bounds(f * b, t);
    let q = f * b / t;
    assert(q <= f) by (nonlinear_arith)
        requires
            q * t <= f * b,
            f * b <= f * t,
            0 < t,
    ;
}

/// A frame that falls exactly on a tick boundary comes back unchanged from
/// a conversion to ticks and back.
pub proof fn lemma_quantized_frames_round_trip(c: Config, f: int)
    requires
        c.wf(),
        c.ticks_within_frames(),
        0 <= f <= usize::MAX,
        (f * ticks_scale(c)) % frames_scale(c) == 0,
    ensures
        tl_to_frames(c, frames_to_tl(c, f)) == f,
{
    let b = ticks_scale(c);
    let t = frames_scale(c);
    lemma_frames_to_tl_unclamped(c, f);
    let q = f * b / t;
    lemma_fundamental_div_mod(f * b, t);
    assert(q * t == f * b) by (nonlinear_arith)
        requires
            f * b == t * q + 0,
    ;
    assert(q * t / b == f) by {
        assert(q * t == f * b);
        vstd::arithmetic::div_mod::lemma_div_by_multiple(f, b);
    }
}

/// A tick whose start falls exactly on a frame comes back unchanged from a
/// conversion to frames and back.
pub proof fn lemma_quantized_ticks_round_trip(c: Config, u: int)
    requires
        c.wf(),
        c.ticks_within_frames(),
        0 <= u,
        (u * frames_scale(c)) % ticks_scale(c) == 0,
        u * frames_scale(c) / ticks_scale(c) <= usize::MAX,
    ensures
        frames_to_tl(c, tl_to_frames(c, u)) == u,
{
    let b = ticks_scale(c);
    let t = frames_scale(c);
    let g = u * t / b;
    lemma_fundamental_div_mod(u * t, b);
    assert(g * b == u * t) by (nonlinear_arith)
        requires
            u * t == b * g + 0,
    ;
    assert(0 <= g) by {
        assert(0 <= u * t) by (nonlinear_arith)
            requires
                0 <= u,
                0 < t,
        ;
        vstd::arithmetic::div_mod::lemma_div_pos_is_pos(u * t, b);
    }
    lemma_frames_to_tl_unclamped(c, g);
    assert(g * b / t == u) by {
        vstd::arithmetic::div_mod::lemma_div_by_multiple(u, t);
    }
}

/// Converting a frame to ticks and back lands at or before the frame, less
/// than one tick (plus the rounding frame) earlier; measured in ticks the
/// round trip is off by at most one.
pub proof fn lemma_frames_round_trip_error(c: Config, f: int)
    requires
        c.wf(),
        c.ticks_within_frames(),
        0 <= f <= usize::MAX,
    ensures
        tl_to_frames(c, frames_to_tl(c, f)) <= f,
        (f - tl_to_frames(c, frames_to_tl(c, f))) * ticks_scale(c) < frames_scale(c) + ticks_scale(
            c,
        ),
        frames_to_tl(c, tl_to_frames(c, frames_to_tl(c, f))) <= frames_to_tl(c, f),
        frames_to_tl(c, tl_to_frames(c, frames_to_tl(c, f))) + 1 >= frames_to_tl(c, f),
{
    let b = ticks_scale(c);
    let t = frames_scale(c);
    lemma_frames_to_tl_unclamped(c, f);
    let q = f * b / t;
    lemma_div_bounds(f * b, t);
    assert(0 <= q * t) by (nonlinear_arith)
        requires
            0 <= q,
            0 < t,
    ;
    lemma_div_bounds(q * t, b);
    let g = q * t / b;
    // g * b <= q * t <= f * b, so g <= f
    assert(g <= f) by (nonlinear_arith)
        requires
            g * b <= q * t,
            q * t <= f * b,
            0 < b,
    ;
    assert(tl_to_frames(c, q) == g);
    assert((f - g) * b < t + b) by (nonlinear_arith)
        requires
            f * b < q * t + t,
            q * t < g * b + b,
    ;
    lemma_frames_to_tl_unclamped(c, g);
    lemma_div_bounds(g * b, t);
    let q2 = g * b / t;
    assert(g * b <= f * b) by (nonlinear_arith)
        requires
            g <= f,
            0 < b,
    ;
    lemma_div_is_ordered(g * b, f * b, t);
    // q * t - b < g * b, and b <= t, so q2 + 1 > q - 1 + ... i.e. q2 >= q - 1
    assert(q2 + 1 >= q) by (nonlinear_arith)
        requires
            q * t < g * b + b,
            g * b < q2 * t + t,
            b <= t,
            0 < t,
    ;
}

} // verus!
