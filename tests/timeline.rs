use chordial::timeline::{outside_timeline_span, Config, TimelineTransform, TlUnit, TICKS_PER_BEAT};

#[test]
fn one_beat_at_120_bpm() {
    let c = Config::new(48000, 120_000);
    assert_eq!(TICKS_PER_BEAT, 96);
    assert_eq!(c.tl_units_to_frames(TlUnit(96)), 24000);
    assert_eq!(c.frames_to_tl_units(24000), TlUnit(96));
    assert_eq!(c.frames_to_tl_units(23999), TlUnit(95));
    assert_eq!(c.frames_to_tl_units(0), TlUnit(0));
}

#[test]
fn quantized_round_trip_is_identity() {
    let c = Config::new(48000, 120_000);
    // one tick is 250 frames here
    for f in [0usize, 250, 24000, 480000] {
        assert_eq!(c.tl_units_to_frames(c.frames_to_tl_units(f)), f);
    }
}

#[test]
fn round_trip_error_below_one_tick() {
    let c = Config::new(44100, 133_000);
    for f in 0..5000usize {
        let t = c.frames_to_tl_units(f);
        let g = c.tl_units_to_frames(t);
        assert!(g <= f);
        let t2 = c.frames_to_tl_units(g);
        assert!(t2.0 <= t.0 && t2.0 + 1 >= t.0);
    }
}

#[test]
fn huge_tick_clamps() {
    let c = Config::new(48000, 1_000);
    assert_eq!(c.tl_units_to_frames(TlUnit(usize::MAX)), usize::MAX);
}

#[test]
fn timeline_span_skipping() {
    let c = Config::new(48000, 120_000);
    // a node at beat 1 (tick 96) lasting one beat
    let tf = TimelineTransform { position: TlUnit(96), start_offset: TlUnit(0), end_offset: TlUnit(0) };
    // a 128-frame buffer at frame 0 ends long before tick 96
    assert!(outside_timeline_span(&c, tf, TlUnit(96), 0, 128));
    // frame 24000 is tick 96: inside
    assert!(!outside_timeline_span(&c, tf, TlUnit(96), 24000, 128));
    // tick 192 is the end, still inside; tick 193 is past it
    assert!(!outside_timeline_span(&c, tf, TlUnit(96), 48000, 128));
    assert!(outside_timeline_span(&c, tf, TlUnit(96), 48250, 128));
    // trimming the end moves it earlier
    let trimmed = TimelineTransform { end_offset: TlUnit(10), ..tf };
    assert!(outside_timeline_span(&c, trimmed, TlUnit(96), 48000, 128));
}
