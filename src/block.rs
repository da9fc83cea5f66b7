use vstd::prelude::*;

use crate::project::bytes_equal;
use crate::timeline::{clamp_usize, TlUnit};

verus! {

/// Number of MIDI channels a block holds notes for.
pub const MIDI_CHANNELS: usize = 16;

/// One note of a block: start and length on the timeline, key and velocity.
#[derive(Debug, Copy, Clone, PartialEq, Eq, Structural)]
pub struct MidiNoteDesc {
    pub pos: TlUnit,
    pub len: TlUnit,
    pub note: u8,
    pub vel: u8,
}

/// A resource of notes: for each of the 16 channels, an ordered list.
pub struct MidiBlock {
    pub channels: Vec<Vec<MidiNoteDesc>>,
}

/// Tick at which a note ends.
pub open spec fn note_end(n: MidiNoteDesc) -> int {
    n.pos.0 + n.len.0
}

/// Largest note end in a list of notes, 0 for none.
pub open spec fn max_end(s: Seq<MidiNoteDesc>) -> int
    decreases s.len(),
{
    if s.len() == 0 {
        0
    } else {
        let m = max_end(s.drop_last());
        if note_end(s.last()) > m {
            note_end(s.last())
        } else {
            m
        }
    }
}

/// Largest note end over the first `k` channels.
pub open spec fn max_end_channels(chs: Seq<Seq<MidiNoteDesc>>, k: int) -> int
    decreases k,
{
    if k <= 0 {
        0
    } else {
        let m = max_end_channels(chs, k - 1);
        if max_end(chs[k - 1]) > m {
            max_end(chs[k - 1])
        } else {
            m
        }
    }
}

impl MidiBlock {
    /// The notes of each channel.
    pub open spec fn view(&self) -> Seq<Seq<MidiNoteDesc>> {
        self.channels@.map_values(|c: Vec<MidiNoteDesc>| c@)
    }

    pub open spec fn wf(&self) -> bool {
        self.channels@.len() == MIDI_CHANNELS
    }

    /// A block with 16 empty channels.
    pub fn new() -> (r: MidiBlock)
        ensures
            r.wf(),
            forall|c: int| 0 <= c < MIDI_CHANNELS ==> (#[trigger] r.view()[c]).len() == 0,
    {
        let mut channels: Vec<Vec<MidiNoteDesc>> = Vec::new();
        let mut c: usize = 0;
        while c < MIDI_CHANNELS
            invariant
                c <= MIDI_CHANNELS,
                channels@.len() == c,
                forall|j: int| 0 <= j < c ==> (#[trigger] channels@[j])@.len() == 0,
            decreases MIDI_CHANNELS - c,
        {
            channels.push(Vec::new());
            c += 1;
        }
        MidiBlock { channels }
    }

    /// Appends a note to a channel.
    pub fn add_note(&mut self, channel: usize, note: MidiNoteDesc)
        requires
            old(self).wf(),
            channel < MIDI_CHANNELS,
        ensures
            final(self).wf(),
            final(self).view() == old(self).view().update(
                channel as int,
                old(self).view()[channel as int].push(note),
            ),
    {
        let mut notes: Vec<MidiNoteDesc> = Vec::new();
        self.channels.set_and_swap(channel, &mut notes);
        notes.push(note);
        self.channels.set_and_swap(channel, &mut notes);
        proof {
            assert(self.view() =~= old(self).view().update(
                channel as int,
                old(self).view()[channel as int].push(note),
            ));
        }
    }

    /// Replaces note `idx` of a channel.
    pub fn update_note(&mut self, channel: usize, idx: usize, note: MidiNoteDesc)
        requires
            old(self).wf(),
            channel < MIDI_CHANNELS,
            idx < old(self).view()[channel as int].len(),
        ensures
            final(self).wf(),
            final(self).view() == old(self).view().update(
                channel as int,
                old(self).view()[channel as int].update(idx as int, note),
            ),
    {
        let mut notes: Vec<MidiNoteDesc> = Vec::new();
        self.channels.set_and_swap(channel, &mut notes);
        notes.set(idx, note);
        self.channels.set_and_swap(channel, &mut notes);
        proof {
            assert(self.view() =~= old(self).view().update(
                channel as int,
                old(self).view()[channel as int].update(idx as int, note),
            ));
        }
    }

    /// Removes note `idx` of a channel; later notes move down by one.
    pub fn remove_note(&mut self, channel: usize, idx: usize)
        requires
            old(self).wf(),
            channel < MIDI_CHANNELS,
            idx < old(self).view()[channel as int].len(),
        ensures
            final(self).wf(),
            final(self).view() == old(self).view().update(
                channel as int,
                old(self).view()[channel as int].remove(idx as int),
            ),
    {
        let mut notes: Vec<MidiNoteDesc> = Vec::new();
        self.channels.set_and_swap(channel, &mut notes);
        notes.remove(idx);
        self.channels.set_and_swap(channel, &mut notes);
        proof {
            assert(self.view() =~= old(self).view().update(
                channel as int,
                old(self).view()[channel as int].remove(idx as int),
            ));
        }
    }

    /// Number of notes on a channel.
    pub fn get_channel_note_count(&self, channel: usize) -> (r: usize)
        requires
            self.wf(),
            channel < MIDI_CHANNELS,
        ensures
            r == self.view()[channel as int].len(),
    {
        self.channels[channel].len()
    }

    /// Note `idx` of a channel, if there is one.
    pub fn get_note(&self, channel: usize, idx: usize) -> (r: Option<MidiNoteDesc>)
        requires
            self.wf(),
            channel < MIDI_CHANNELS,
        ensures
            r == if idx < self.view()[channel as int].len() {
                Some(self.view()[channel as int][idx as int])
            } else {
                None::<MidiNoteDesc>
            },
    {
        if idx < self.channels[channel].len() {
            Some(self.channels[channel][idx])
        } else {
            None
        }
    }

    /// The tick at which the last note ends (0 for an empty block), held at
    /// `usize::MAX`.
    pub fn timeline_length(&self) -> (r: TlUnit)
        requires
            self.wf(),
        ensures
            r.0 == clamp_usize(max_end_channels(self.view(), MIDI_CHANNELS as int)),
    {
        let mut max: usize = 0;
        let mut c: usize = 0;
        while c < MIDI_CHANNELS
            invariant
                self.wf(),
                c <= MIDI_CHANNELS,
                max == clamp_usize(max_end_channels(self.view(), c as int)),
            decreases MIDI_CHANNELS - c,
        {
            let notes = &self.channels[c];
            let mut cm: usize = 0;
            let mut k: usize = 0;
            while k < notes.len()
                invariant
                    *notes == self.channels@[c as int],
                    k <= notes@.len(),
                    cm == clamp_usize(max_end(notes@.subrange(0, k as int))),
                decreases notes@.len() - k,
            {
                proof {
                    assert(notes@.subrange(0, k as int + 1).drop_last() =~= notes@.subrange(0, k as int));
                }
                let e = notes[k].pos.0.saturating_add(notes[k].len.0);
                if e > cm {
                    cm = e;
                }
                k += 1;
            }
            proof {
                assert(notes@.subrange(0, k as int) =~= notes@);
                assert(self.view()[c as int] == notes@);
            }
            if cm > max {
                max = cm;
            }
            c += 1;
        }
        TlUnit(max)
    }
}

pub open spec fn add_note_name() -> Seq<u8> {
    seq![0x61u8, 0x64u8, 0x64u8, 0x5Fu8, 0x6Eu8, 0x6Fu8, 0x74u8, 0x65u8]
}

pub open spec fn update_note_name() -> Seq<u8> {
    seq![0x75u8, 0x70u8, 0x64u8, 0x61u8, 0x74u8, 0x65u8, 0x5Fu8, 0x6Eu8, 0x6Fu8, 0x74u8, 0x65u8]
}

pub open spec fn remove_note_name() -> Seq<u8> {
    seq![0x72u8, 0x65u8, 0x6Du8, 0x6Fu8, 0x76u8, 0x65u8, 0x5Fu8, 0x6Eu8, 0x6Fu8, 0x74u8, 0x65u8]
}

/// The note that the arguments (key, length, position, velocity) of an
/// action describe, when each is in range.
pub open spec fn note_of(value: i64, len: i64, pos: i64, vel: i64) -> Option<MidiNoteDesc> {
    if 0 <= value <= 255 && 0 <= vel <= 255 && 0 <= len <= usize::MAX && 0 <= pos <= usize::MAX {
        Some(
            MidiNoteDesc {
                pos: TlUnit(pos as usize),
                len: TlUnit(len as usize),
                note: value as u8,
                vel: vel as u8,
            },
        )
    } else {
        None
    }
}

/// The channels after a named edit, or `None` for an unknown action, a
/// wrong number of arguments, or an argument out of range. The channel
/// comes first; `add_note` takes key, length, position and velocity;
/// `update_note` an index and then those four; `remove_note` an index.
pub open spec fn action_result(b: Seq<Seq<MidiNoteDesc>>, action: Seq<u8>, args: Seq<i64>) -> Option<
    Seq<Seq<MidiNoteDesc>>,
> {
    if args.len() == 0 || !(0 <= args[0] < MIDI_CHANNELS) {
        None
    } else {
        let c = args[0] as int;
        if action == add_note_name() && args.len() == 5 {
            match note_of(args[1], args[2], args[3], args[4]) {
                Some(n) => Some(b.update(c, b[c].push(n))),
                None => None,
            }
        } else if action == update_note_name() && args.len() == 6 && 0 <= args[1] < b[c].len() {
            match note_of(args[2], args[3], args[4], args[5]) {
                Some(n) => Some(b.update(c, b[c].update(args[1] as int, n))),
                None => None,
            }
        } else if action == remove_note_name() && args.len() == 2 && 0 <= args[1] < b[c].len() {
            Some(b.update(c, b[c].remove(args[1] as int)))
        } else {
            None
        }
    }
}

fn make_note(value: i64, len: i64, pos: i64, vel: i64) -> (r: Option<MidiNoteDesc>)
    ensures
        r == note_of(value, len, pos, vel),
{
    if 0 <= value && value <= 255 && 0 <= vel && vel <= 255 && 0 <= len && len as u64 <= usize::MAX as u64
        && 0 <= pos && pos as u64 <= usize::MAX as u64 {
        Some(
            MidiNoteDesc {
                pos: TlUnit(pos as usize),
                len: TlUnit(len as usize),
                note: value as u8,
                vel: vel as u8,
            },
        )
    } else {
        None
    }
}

impl MidiBlock {
    /// Applies a named edit (see `action_result`); returns false and leaves
    /// the block unchanged when the action does not apply.
    pub fn apply_action(&mut self, action: &[u8], args: &[i64]) -> (ok: bool)
        requires
            old(self).wf(),
        ensures
            final(self).wf(),
            match action_result(old(self).view(), action@, args@) {
                Some(v) => ok && final(self).view() == v,
                None => !ok && final(self).view() == old(self).view(),
            },
    {
        if args.len() == 0 || args[0] < 0 || args[0] >= MIDI_CHANNELS as i64 {
            return false;
        }
        let c = args[0] as usize;
        let count = self.channels[c].len();
        proof {
            assert(count == self.view()[c as int].len());
        }
        let add = vec![0x61u8, 0x64u8, 0x64u8, 0x5Fu8, 0x6Eu8, 0x6Fu8, 0x74u8, 0x65u8];
        let upd = vec![0x75u8, 0x70u8, 0x64u8, 0x61u8, 0x74u8, 0x65u8, 0x5Fu8, 0x6Eu8, 0x6Fu8, 0x74u8, 0x65u8];
        let rem = vec![0x72u8, 0x65u8, 0x6Du8, 0x6Fu8, 0x76u8, 0x65u8, 0x5Fu8, 0x6Eu8, 0x6Fu8, 0x74u8, 0x65u8];
        proof {
            assert(add@ =~= add_note_name());
            assert(upd@ =~= update_note_name());
            assert(rem@ =~= remove_note_name());
        }
        if bytes_equal(action, add.as_slice()) && args.len() == 5 {
            match make_note(args[1], args[2], args[3], args[4]) {
                Some(n) => {
                    self.add_note(c, n);
                    true
                },
                None => false,
            }
        } else if bytes_equal(action, upd.as_slice()) && args.len() == 6 && 0 <= args[1]
            && (args[1] as u64) < count as u64 {
            match make_note(args[2], args[3], args[4], args[5]) {
                Some(n) => {
                    self.update_note(c, args[1] as usize, n);
                    true
                },
                None => false,
            }
        } else if bytes_equal(action, rem.as_slice()) && args.len() == 2 && 0 <= args[1] && (args[1] as u64)
            < count as u64 {
            self.remove_note(c, args[1] as usize);
            true
        } else {
            false
        }
    }
}

} // verus!
