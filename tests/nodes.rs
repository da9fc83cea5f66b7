use chordial::block::{MidiBlock, MidiNoteDesc};
use chordial::chain::MidiMessageChain;
use chordial::midi::{MidiMessage, MidiStatusByte, MidiStatusCode};
use chordial::nodes::{
    merge_midi, silent_midi, Envelope, EnvelopePhase, MidiClip, MidiSplit, Osc, PolyOsc, Transport,
    Trigger,
};
use chordial::timeline::{Config, TlUnit};

fn msg(code: MidiStatusCode, channel: u8, a: u8, b: u8) -> MidiMessage {
    MidiMessage::new(MidiStatusByte::new(code, channel), [a, b])
}

#[test]
fn midi_split_routes_by_channel() {
    let mut input = silent_midi(2);
    input[1].push(msg(MidiStatusCode::NoteOn, 3, 60, 100));
    let mut split = MidiSplit::new();
    for output in 0..16usize {
        let frames = split.render_output(output, &input);
        assert_eq!(frames.len(), 2);
        assert_eq!(frames[0].len(), 0);
        assert_eq!(frames[1].len(), if output == 3 { 1 } else { 0 });
    }
    let cleared = split.render_output(3, &input);
    assert_eq!(cleared[1].get(0).data(), &[0x90, 60, 100]);
    split.keep_channel = true;
    let kept = split.render_output(3, &input);
    assert_eq!(kept[1].get(0).data(), &[0x93, 60, 100]);
}

#[test]
fn midi_fan_in_concatenates() {
    let mut acc = silent_midi(3);
    acc[0].push(msg(MidiStatusCode::NoteOn, 0, 1, 1));
    let mut src = silent_midi(3);
    src[0].push(msg(MidiStatusCode::NoteOn, 1, 2, 2));
    src[2].push(msg(MidiStatusCode::NoteOff, 1, 3, 0));
    merge_midi(&mut acc, &src);
    assert_eq!(acc[0].len(), 2);
    assert_eq!(acc[0].get(0).data()[1], 1);
    assert_eq!(acc[0].get(1).data()[1], 2);
    assert_eq!(acc[1].len(), 0);
    assert_eq!(acc[2].len(), 1);
}

#[test]
fn trigger_spikes_at_one_beat() {
    let config = Config::new(48000, 120_000);
    let mut t = Trigger::new();
    assert_eq!(t.spike_index(&config, TlUnit(96), 24576), Some(24000));
    t.advance(24576);
    assert_eq!(t.spike_index(&config, TlUnit(96), 24576), None);
    t.seek(23000);
    assert_eq!(t.spike_index(&config, TlUnit(96), 512), None);
    assert_eq!(t.spike_index(&config, TlUnit(96), 1001), Some(1000));
}

#[test]
fn midi_clip_note_on_and_off() {
    let config = Config::new(48000, 120_000);
    let mut block = MidiBlock::new();
    block.add_note(0, MidiNoteDesc { pos: TlUnit(0), len: TlUnit(96), note: 69, vel: 127 });
    assert_eq!(block.timeline_length(), TlUnit(96));
    let mut clip = MidiClip::new();
    let first = clip.render(&block, &config, TlUnit(0), 24000);
    assert_eq!(first[0].len(), 1);
    assert_eq!(first[0].get(0).data(), &[0x90, 69, 127]);
    assert!(first[1..].iter().all(|c| c.len() == 0));
    clip.advance(24000);
    let second = clip.render(&block, &config, TlUnit(0), 10);
    assert_eq!(second[0].len(), 1);
    assert_eq!(second[0].get(0).data(), &[0x80, 69, 127]);
    assert_eq!(second[1].len(), 0);
}

#[test]
fn midi_clip_offset_by_position() {
    let config = Config::new(48000, 120_000);
    let mut block = MidiBlock::new();
    block.add_note(5, MidiNoteDesc { pos: TlUnit(4), len: TlUnit(0), note: 40, vel: 9 });
    let mut clip = MidiClip::new();
    clip.seek(24000);
    // the note starts at tick 96 + 4 = 100, which is frame 25000
    let frames = clip.render(&block, &config, TlUnit(96), 1001);
    assert_eq!(frames[1000].get(0).data(), &[0x95, 40, 9]);
    assert_eq!(frames.iter().map(|c| c.len()).sum::<usize>(), 1);
}

#[test]
fn envelope_latches_gate() {
    let mut e = Envelope::new();
    assert_eq!(e.latch(0, false), EnvelopePhase::Idle);
    assert_eq!(e.latch(1, true), EnvelopePhase::Held { start: 1 });
    assert_eq!(e.latch(2, true), EnvelopePhase::Held { start: 1 });
    e.advance(10);
    assert_eq!(e.latch(3, false), EnvelopePhase::Released { start: 1, end: 13 });
    e.seek(0);
    assert_eq!(e.latch(0, false), EnvelopePhase::Idle);
}

#[test]
fn transport_advances_only_when_playing() {
    let mut t = Transport::new();
    t.finish_render(128);
    assert_eq!(t.position, 0);
    t.playing = true;
    t.finish_render(128);
    t.finish_render(64);
    assert_eq!(t.position, 192);
    t.seek(usize::MAX - 1);
    t.finish_render(8);
    assert_eq!(t.position, usize::MAX);
}

#[test]
fn oscillators_reset_on_seek() {
    let mut o = Osc::new();
    o.advance(100);
    assert_eq!(o.pos, 100);
    o.seek(7);
    assert_eq!(o.pos, 7);
    let mut p = PolyOsc::new();
    p.voices.apply_midi_message(msg(MidiStatusCode::NoteOn, 0, 60, 1), 0);
    p.advance(3);
    p.seek(0);
    assert_eq!(p.pos, 0);
    assert!(p.voices.voices.is_empty());
}

#[test]
fn block_editing() {
    let mut b = MidiBlock::new();
    let n = |pos: usize, len: usize, note: u8| MidiNoteDesc { pos: TlUnit(pos), len: TlUnit(len), note, vel: 1 };
    b.add_note(2, n(0, 10, 60));
    b.add_note(2, n(20, 30, 61));
    b.add_note(9, n(5, 5, 62));
    assert_eq!(b.get_channel_note_count(2), 2);
    assert_eq!(b.timeline_length(), TlUnit(50));
    b.update_note(2, 1, n(1, 1, 70));
    assert_eq!(b.get_note(2, 1), Some(n(1, 1, 70)));
    assert_eq!(b.timeline_length(), TlUnit(10));
    b.remove_note(2, 0);
    assert_eq!(b.get_note(2, 0), Some(n(1, 1, 70)));
    assert_eq!(b.get_note(2, 1), None);
    assert_eq!(MidiBlock::new().timeline_length(), TlUnit(0));
    let _ = MidiMessageChain::new();
}

#[test]
fn block_actions_by_name() {
    let mut b = MidiBlock::new();
    assert!(b.apply_action(b"add_note", &[2, 60, 96, 0, 100]));
    assert!(b.apply_action(b"add_note", &[2, 62, 48, 96, 90]));
    assert_eq!(b.get_note(2, 1), Some(MidiNoteDesc { pos: TlUnit(96), len: TlUnit(48), note: 62, vel: 90 }));
    assert!(b.apply_action(b"update_note", &[2, 0, 64, 10, 5, 1]));
    assert_eq!(b.get_note(2, 0), Some(MidiNoteDesc { pos: TlUnit(5), len: TlUnit(10), note: 64, vel: 1 }));
    assert!(b.apply_action(b"remove_note", &[2, 0]));
    assert_eq!(b.get_channel_note_count(2), 1);
    // refused: unknown name, bad channel, bad index, wrong arity, value out of range
    assert!(!b.apply_action(b"add", &[2, 60, 1, 0, 1]));
    assert!(!b.apply_action(b"add_note", &[16, 60, 1, 0, 1]));
    assert!(!b.apply_action(b"remove_note", &[2, 5]));
    assert!(!b.apply_action(b"remove_note", &[2]));
    assert!(!b.apply_action(b"add_note", &[2, 300, 1, 0, 1]));
    assert!(!b.apply_action(b"add_note", &[2, 60, -1, 0, 1]));
    assert_eq!(b.get_channel_note_count(2), 1);
}
