use chordial::block::{MidiBlock, MidiNoteDesc};
use chordial::timeline::TlUnit;

fn note(pos: usize, len: usize, note: u8, vel: u8) -> MidiNoteDesc {
    MidiNoteDesc { pos: TlUnit(pos), len: TlUnit(len), note, vel }
}

fn sample_block() -> MidiBlock {
    let mut b = MidiBlock::new();
    b.add_note(0, note(0, 96, 69, 127));
    b.add_note(0, note(96, 48, 71, 100));
    b.add_note(15, note(384, 0, 1, 2));
    b
}

#[test]
fn payload_layout_little_endian() {
    let mut b = MidiBlock::new();
    b.add_note(3, note(0x0102, 5, 60, 90));
    let bytes = b.save_with_order(true);
    let mut expected = vec![3u8];
    expected.extend_from_slice(&1u64.to_le_bytes());
    expected.extend_from_slice(&0x0102u64.to_le_bytes());
    expected.extend_from_slice(&5u64.to_le_bytes());
    expected.extend_from_slice(&[60, 90]);
    assert_eq!(bytes, expected);
    let big = b.save_with_order(false);
    assert_eq!(&big[1..9], &1u64.to_be_bytes());
    assert!(MidiBlock::new().save_with_order(true).is_empty());
}

#[test]
fn payload_round_trip_both_orders() {
    let b = sample_block();
    for little in [true, false] {
        let bytes = b.save_with_order(little);
        assert_eq!(bytes.len(), 2 * 9 + 3 * 18);
        let back = MidiBlock::load_with_order(&bytes, little).unwrap();
        assert_eq!(back.channels, b.channels);
    }
}

#[test]
fn payload_rejects_malformed() {
    let b = sample_block();
    let bytes = b.save_with_order(true);
    assert!(MidiBlock::load_with_order(&bytes[..bytes.len() - 1], true).is_none());
    assert!(MidiBlock::load_with_order(&bytes[..5], true).is_none());
    let mut bad = bytes.clone();
    bad[0] = 16;
    assert!(MidiBlock::load_with_order(&bad, true).is_none());
    // a record may repeat a channel: its notes are appended
    let mut twice = bytes[..9 + 2 * 18].to_vec();
    twice.extend_from_slice(&bytes[..9 + 2 * 18]);
    let back = MidiBlock::load_with_order(&twice, true).unwrap();
    assert_eq!(back.get_channel_note_count(0), 4);
}

#[test]
fn payload_native_order() {
    let b = sample_block();
    let bytes = b.save();
    let mut c = MidiBlock::new();
    assert!(c.load(&bytes));
    assert_eq!(c.channels, b.channels);
    assert!(!c.load(&[200]));
    assert_eq!(c.channels, b.channels);
}

#[test]
fn payload_native_order_matches_machine() {
    let b = sample_block();
    let little = u32::from_ne_bytes([1, 0, 0, 0]) == 1;
    assert_eq!(b.save(), b.save_with_order(little));
}
