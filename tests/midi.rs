use chordial::chain::MidiMessageChain;
use chordial::midi::{
    MidiMessage, MidiStatusByte, MidiStatusCode, MidiVoiceDesc, MonoVoiceTracker, PolyVoiceTracker,
};

fn note_on(channel: u8, note: u8, vel: u8) -> MidiMessage {
    MidiMessage::new(MidiStatusByte::new(MidiStatusCode::NoteOn, channel), [note, vel])
}

fn note_off(channel: u8, note: u8) -> MidiMessage {
    MidiMessage::new(MidiStatusByte::new(MidiStatusCode::NoteOff, channel), [note, 0])
}

#[test]
fn status_byte_splits_code_and_channel() {
    let b = MidiStatusByte::new(MidiStatusCode::NoteOn, 3);
    assert_eq!(b.0, 0x93);
    assert_eq!(b.channel(), 3);
    assert_eq!(b.code(), MidiStatusCode::NoteOn);
    let m = MidiMessage::new(MidiStatusByte::new(MidiStatusCode::PitchBendChange, 15), [1, 2]);
    assert_eq!(m.data(), &[0xEF, 1, 2]);
    assert_eq!(m.status_byte().code(), MidiStatusCode::PitchBendChange);
    assert_eq!(MidiStatusCode::from_u8(0xB0), MidiStatusCode::CtrlChange);
    assert_eq!(MidiStatusCode::ChannelPressure.to_u8(), 0xD0);
}

#[test]
fn mono_tracker_replaces_and_releases() {
    let mut t = MonoVoiceTracker::new();
    t.apply_midi_message(note_on(0, 60, 100), 0);
    t.apply_midi_message(note_on(1, 64, 90), 0);
    let v = t.voice.unwrap();
    assert_eq!((v.channel, v.note, v.velocity), (1, 64, 90));
    // a note-off for another key is ignored
    t.apply_midi_message(note_off(0, 60), 0);
    assert!(t.voice.is_some());
    // release length 0 drops the voice at once
    t.apply_midi_message(note_off(1, 64), 0);
    assert!(t.voice.is_none());
}

#[test]
fn mono_tracker_release_tail() {
    let mut t = MonoVoiceTracker::new();
    t.release_length = 10;
    t.apply_midi_message(note_on(2, 50, 1), 0);
    t.advance(5);
    // velocity zero counts as a note-off
    t.apply_midi_message(note_on(2, 50, 0), 3);
    let v = t.voice.unwrap();
    assert!(v.released);
    assert_eq!(v.release_point, 8);
    t.advance(12);
    assert!(t.voice.is_some());
    t.advance(1);
    assert!(t.voice.is_none());
}

#[test]
fn mono_tracker_chain_and_tick() {
    let mut t = MonoVoiceTracker::new();
    let mut chain = MidiMessageChain::new();
    chain.push(note_on(0, 60, 100));
    chain.push(note_on(0, 62, 100));
    t.apply_midi_chain(&chain, 0);
    assert_eq!(t.voice.unwrap().note, 62);
    t.tick();
    t.tick();
    assert_eq!(t.voice.unwrap().progress, 2);
}

#[test]
fn poly_tracker_cap_and_keys() {
    let mut t = PolyVoiceTracker::new();
    t.polyphony = 2;
    t.apply_midi_message(note_on(0, 60, 100), 0);
    t.apply_midi_message(note_on(0, 62, 100), 0);
    t.apply_midi_message(note_on(0, 64, 100), 0);
    assert_eq!(t.voices.len(), 2);
    // same key on another channel is another voice, but the tracker is full
    t.apply_midi_message(note_on(1, 60, 100), 0);
    assert_eq!(t.voices.len(), 2);
    t.apply_midi_message(note_off(0, 60), 0);
    assert_eq!(t.voices.len(), 1);
    assert_eq!(t.voices[0].note, 62);
}

#[test]
fn poly_tracker_unlimited_replaces_same_key() {
    let mut t = PolyVoiceTracker::new();
    t.apply_midi_message(note_on(0, 60, 100), 0);
    t.advance(10);
    t.apply_midi_message(note_on(0, 60, 50), 0);
    assert_eq!(t.voices.len(), 1);
    assert_eq!(
        t.voices[0],
        MidiVoiceDesc { note: 60, channel: 0, velocity: 50, progress: 0, release_point: 0, released: false }
    );
}

#[test]
fn poly_tracker_release_and_purge() {
    let mut t = PolyVoiceTracker::new();
    t.release_length = 4;
    t.apply_midi_message(note_on(0, 60, 100), 0);
    t.apply_midi_message(note_on(0, 61, 100), 0);
    t.apply_midi_message(note_off(0, 60), 2);
    assert!(t.voices[0].released);
    assert_eq!(t.voices[0].release_point, 2);
    t.advance(5);
    assert_eq!(t.voices.len(), 2);
    t.advance(1);
    assert_eq!(t.voices.len(), 1);
    assert_eq!(t.voices[0].note, 61);
    t.tick();
    assert_eq!(t.voices[0].progress, 7);
    t.purge_dead_voices();
    assert_eq!(t.voices.len(), 1);
    t.kill_all_voices();
    assert!(t.voices.is_empty());
}

#[test]
fn poly_tracker_ignores_other_messages() {
    let mut t = PolyVoiceTracker::new();
    let cc = MidiMessage::new(MidiStatusByte::new(MidiStatusCode::CtrlChange, 0), [7, 100]);
    t.apply_midi_message(cc, 0);
    assert!(t.voices.is_empty());
    let mut chain = MidiMessageChain::new();
    chain.push(note_on(4, 70, 1));
    chain.push(note_on(5, 71, 1));
    t.apply_midi_chain(&chain, 0);
    assert_eq!(t.voices.len(), 2);
}

#[test]
fn chain_append_keeps_order() {
    let mut a = MidiMessageChain::new();
    a.push(note_on(0, 1, 1));
    let mut b = MidiMessageChain::default();
    assert!(b.is_empty());
    for k in 0..6u8 {
        b.push(note_on(1, k, 1));
    }
    a.append(&b);
    assert_eq!(a.len(), 7);
    assert_eq!(a.get(0).data()[1], 1);
    assert_eq!(a.get(6).data()[1], 5);
    a.clear();
    assert_eq!(a.len(), 0);
}
