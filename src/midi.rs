use vstd::prelude::*;

use crate::chain::MidiMessageChain;

verus! {

/// Mask selecting the status code (high nibble) of a status byte.
pub const MIDI_CODE_MASK: u8 = 0xF0;

/// Mask selecting the channel (low nibble) of a status byte.
pub const MIDI_CHANNEL_MASK: u8 = 0x0F;

/// One three-byte MIDI message: status, data1, data2.
#[derive(Debug, Copy, Clone, Default)]
pub struct MidiMessage {
    pub data: [u8; 3],
}

/// A raw MIDI status byte: status code in the high nibble, channel in the low one.
#[derive(Debug, Copy, Clone, PartialEq, Eq, Structural)]
pub struct MidiStatusByte(pub u8);

/// The status codes this engine understands.
#[derive(Debug, Copy, Clone, PartialEq, Eq, Structural)]
pub enum MidiStatusCode {
    NoteOff,
    NoteOn,
    PolyKeyPressure,
    CtrlChange,
    ChannelPressure,
    PitchBendChange,
}

/// The high-nibble byte value of each status code.
pub open spec fn code_byte(c: MidiStatusCode) -> u8 {
    match c {
        MidiStatusCode::NoteOff => 0x80u8,
        MidiStatusCode::NoteOn => 0x90u8,
        MidiStatusCode::PolyKeyPressure => 0xA0u8,
        MidiStatusCode::CtrlChange => 0xB0u8,
        MidiStatusCode::ChannelPressure => 0xD0u8,
        MidiStatusCode::PitchBendChange => 0xE0u8,
    }
}

/// Whether `b` is the high-nibble value of a known status code.
pub open spec fn is_code_byte(b: u8) -> bool {
    b == 0x80u8 || b == 0x90u8 || b == 0xA0u8 || b == 0xB0u8 || b == 0xD0u8 || b == 0xE0u8
}

/// Status code (high nibble) of a status byte.
pub open spec fn code_bits(status: u8) -> u8 {
    status & 0xF0u8
}

/// Channel (low nibble) of a status byte.
pub open spec fn channel_bits(status: u8) -> u8 {
    status & 0x0Fu8
}

/// A message is a note-on when its code nibble is 0x9.
pub open spec fn is_note_on(m: MidiMessage) -> bool {
    code_bits(m.data[0]) == 0x90u8
}

/// A message is a note-off when its code nibble is 0x8.
pub open spec fn is_note_off(m: MidiMessage) -> bool {
    code_bits(m.data[0]) == 0x80u8
}

/// Channel a message is addressed to.
pub open spec fn msg_channel(m: MidiMessage) -> u8 {
    channel_bits(m.data[0])
}

impl MidiStatusCode {
    /// Decodes a code nibble (already masked with 0xF0).
    pub fn from_u8(byte: u8) -> (r: MidiStatusCode)
        requires
            is_code_byte(byte),
        ensures
            code_byte(r) == byte,
    {
        if byte == 0x80u8 {
            MidiStatusCode::NoteOff
        } else if byte == 0x90u8 {
            MidiStatusCode::NoteOn
        } else if byte == 0xA0u8 {
            MidiStatusCode::PolyKeyPressure
        } else if byte == 0xB0u8 {
            MidiStatusCode::CtrlChange
        } else if byte == 0xD0u8 {
            MidiStatusCode::ChannelPressure
        } else {
            MidiStatusCode::PitchBendChange
        }
    }

    /// The code's high-nibble byte value.
    pub fn to_u8(&self) -> (r: u8)
        ensures
            r == code_byte(*self),
    {
        match self {
            MidiStatusCode::NoteOff => 0x80u8,
            MidiStatusCode::NoteOn => 0x90u8,
            MidiStatusCode::PolyKeyPressure => 0xA0u8,
            MidiStatusCode::CtrlChange => 0xB0u8,
            MidiStatusCode::ChannelPressure => 0xD0u8,
            MidiStatusCode::PitchBendChange => 0xE0u8,
        }
    }
}

impl MidiStatusByte {
    /// Combines a status code and a channel in 0..16.
    pub fn new(code: MidiStatusCode, channel: u8) -> (r: MidiStatusByte)
        requires
            channel < 16,
        ensures
            r.0 == code_byte(code) | channel,
            code_bits(r.0) == code_byte(code),
            channel_bits(r.0) == channel,
    {
        let c = code.to_u8();
        let b = c | channel;
        assert(code_bits(b) == c && channel_bits(b) == channel) by {
            assert((c == 0x80u8 || c == 0x90u8 || c == 0xA0u8 || c == 0xB0u8 || c == 0xD0u8
                || c == 0xE0u8) && channel < 16 ==> (c | channel) & 0xF0u8 == c && (c | channel)
                & 0x0Fu8 == channel) by (bit_vector);
        }
        MidiStatusByte(b)
    }

    pub fn from_u8(byte: u8) -> (r: MidiStatusByte)
        ensures
            r.0 == byte,
    {
        MidiStatusByte(byte)
    }

    /// The status code; the byte must carry a known one.
    pub fn code(&self) -> (r: MidiStatusCode)
        requires
            is_code_byte(code_bits(self.0)),
        ensures
            code_byte(r) == code_bits(self.0),
    {
        MidiStatusCode::from_u8(self.0 & MIDI_CODE_MASK)
    }

    pub fn channel(&self) -> (r: u8)
        ensures
            r == channel_bits(self.0),
            r < 16,
    {
        let b = self.0;
        assert(b & 0x0Fu8 < 16) by (bit_vector);
        b & MIDI_CHANNEL_MASK
    }
}

impl MidiMessage {
    pub fn new(status: MidiStatusByte, data: [u8; 2]) -> (r: MidiMessage)
        ensures
            r.data[0] == status.0,
            r.data[1] == data[0],
            r.data[2] == data[1],
    {
        MidiMessage { data: [status.0, data[0], data[1]] }
    }

    pub fn status_byte(&self) -> (r: MidiStatusByte)
        ensures
            r.0 == self.data[0],
    {
        MidiStatusByte(self.data[0])
    }

    pub fn data(&self) -> (r: &[u8; 3])
        ensures
            *r == self.data,
    {
        &self.data
    }
}


/// One sounding (or releasing) note.
#[derive(Copy, Clone, PartialEq, Eq, Hash, Debug, Structural)]
pub struct MidiVoiceDesc {
    pub note: u8,
    pub channel: u8,
    pub velocity: u8,
    pub progress: u32,
    pub release_point: u32,
    pub released: bool,
}

/// Tracks at most one voice: each new note replaces the previous one.
pub struct MonoVoiceTracker {
    pub voice: Option<MidiVoiceDesc>,
    pub release_length: u32,
    pub zero_crossing: bool,
}

/// Tracks one voice per (channel, note) key, at most `polyphony` of them
/// (0 means no limit). Keys are unique within `voices`.
pub struct PolyVoiceTracker {
    pub voices: Vec<MidiVoiceDesc>,
    pub polyphony: u8,
    pub release_length: u32,
    pub zero_crossing: bool,
}

/// `a + b`, held at `u32::MAX`.
pub open spec fn sat_add_u32(a: u32, b: u32) -> u32 {
    if a + b > u32::MAX {
        u32::MAX
    } else {
        (a + b) as u32
    }
}

/// The voice a note-on message starts.
pub open spec fn voice_of(m: MidiMessage) -> MidiVoiceDesc {
    MidiVoiceDesc {
        note: m.data[1],
        channel: msg_channel(m),
        velocity: m.data[2],
        progress: 0,
        release_point: 0,
        released: false,
    }
}

/// A note-on with non-zero velocity starts a voice.
pub open spec fn starts_voice(m: MidiMessage) -> bool {
    is_note_on(m) && m.data[2] != 0
}

/// A note-off, or a note-on with velocity zero, releases a voice.
pub open spec fn ends_voice(m: MidiMessage) -> bool {
    (is_note_on(m) && m.data[2] == 0) || is_note_off(m)
}

/// `v` marked released at `buffer_progress` frames past its current progress.
pub open spec fn released_at(v: MidiVoiceDesc, buffer_progress: u32) -> MidiVoiceDesc {
    MidiVoiceDesc {
        released: true,
        release_point: sat_add_u32(v.progress, buffer_progress),
        ..v
    }
}

/// `v` moved forward by `samples` frames.
pub open spec fn bumped(v: MidiVoiceDesc, samples: u32) -> MidiVoiceDesc {
    MidiVoiceDesc { progress: sat_add_u32(v.progress, samples), ..v }
}

/// A released voice whose release tail has fully played.
pub open spec fn is_dead(v: MidiVoiceDesc, release_length: u32) -> bool {
    v.released && v.progress >= v.release_point && v.progress - v.release_point
        >= release_length
}

pub open spec fn key_matches(v: MidiVoiceDesc, channel: u8, note: u8) -> bool {
    v.channel == channel && v.note == note
}

/// The mono tracker's voice after releasing (channel, note).
pub open spec fn mono_released(
    voice: Option<MidiVoiceDesc>,
    release_length: u32,
    channel: u8,
    note: u8,
    buffer_progress: u32,
) -> Option<MidiVoiceDesc> {
    match voice {
        None => None,
        Some(v) => if !key_matches(v, channel, note) {
            Some(v)
        } else if release_length == 0 {
            None
        } else {
            Some(released_at(v, buffer_progress))
        },
    }
}

/// The mono tracker's voice after one message.
pub open spec fn mono_applied(
    voice: Option<MidiVoiceDesc>,
    release_length: u32,
    m: MidiMessage,
    buffer_progress: u32,
) -> Option<MidiVoiceDesc> {
    if starts_voice(m) {
        Some(voice_of(m))
    } else if ends_voice(m) {
        mono_released(voice, release_length, msg_channel(m), m.data[1], buffer_progress)
    } else {
        voice
    }
}

/// The mono tracker's voice after `samples` frames.
pub open spec fn mono_advanced(voice: Option<MidiVoiceDesc>, release_length: u32, samples: u32) -> Option<
    MidiVoiceDesc,
> {
    match voice {
        None => None,
        Some(v) => if is_dead(bumped(v, samples), release_length) {
            None
        } else {
            Some(bumped(v, samples))
        },
    }
}

/// The mono tracker's voice after each message of `msgs`, in order.
pub open spec fn mono_applied_all(
    voice: Option<MidiVoiceDesc>,
    release_length: u32,
    msgs: Seq<MidiMessage>,
    buffer_progress: u32,
) -> Option<MidiVoiceDesc>
    decreases msgs.len(),
{
    if msgs.len() == 0 {
        voice
    } else {
        mono_applied(
            mono_applied_all(voice, release_length, msgs.drop_last(), buffer_progress),
            release_length,
            msgs.last(),
            buffer_progress,
        )
    }
}

impl MonoVoiceTracker {
    /// Applies every message of the chain, in order.
    pub fn apply_midi_chain(&mut self, chain: &MidiMessageChain, buffer_progress: u32)
        ensures
            final(self).voice == mono_applied_all(
                old(self).voice,
                old(self).release_length,
                chain@,
                buffer_progress,
            ),
            final(self).release_length == old(self).release_length,
            final(self).zero_crossing == old(self).zero_crossing,
    {
        let n = chain.len();
        let mut i: usize = 0;
        while i < n
            invariant
                n == chain@.len(),
                i <= n,
                self.release_length == old(self).release_length,
                self.zero_crossing == old(self).zero_crossing,
                self.voice == mono_applied_all(
                    old(self).voice,
                    old(self).release_length,
                    chain@.subrange(0, i as int),
                    buffer_progress,
                ),
            decreases n - i,
        {
            let m = chain.get(i);
            proof {
                assert(chain@.subrange(0, i as int + 1).drop_last() =~= chain@.subrange(0, i as int));
            }
            self.apply_midi_message(m, buffer_progress);
            i += 1;
        }
        proof {
            assert(chain@.subrange(0, n as int) =~= chain@);
        }
    }

    pub fn new() -> (r: MonoVoiceTracker)
        ensures
            r.voice.is_none(),
            r.release_length == 0,
            r.zero_crossing,
    {
        MonoVoiceTracker { voice: None, release_length: 0, zero_crossing: true }
    }

    /// A note-on with velocity replaces the voice; a note-off (or velocity 0)
    /// for the voice's key releases it; other messages are ignored.
    pub fn apply_midi_message(&mut self, msg: MidiMessage, buffer_progress: u32)
        ensures
            final(self).voice == mono_applied(
                old(self).voice,
                old(self).release_length,
                msg,
                buffer_progress,
            ),
            final(self).release_length == old(self).release_length,
            final(self).zero_crossing == old(self).zero_crossing,
    {
        let status = msg.status_byte();
        let channel = status.channel();
        let code = status.0 & MIDI_CODE_MASK;
        if code == 0x90u8 {
            if msg.data[2] != 0 {
                self.voice = Some(
                    MidiVoiceDesc {
                        note: msg.data[1],
                        channel,
                        velocity: msg.data[2],
                        progress: 0,
                        release_point: 0,
                        released: false,
                    },
                );
            } else {
                self.release_voice(channel, msg.data[1], buffer_progress);
            }
        } else if code == 0x80u8 {
            self.release_voice(channel, msg.data[1], buffer_progress);
        }
    }

    /// Releases the voice if it has the given key: drops it at once when the
    /// release length is zero, else marks it released.
    pub fn release_voice(&mut self, channel: u8, note: u8, buffer_progress: u32)
        ensures
            final(self).voice == mono_released(
                old(self).voice,
                old(self).release_length,
                channel,
                note,
                buffer_progress,
            ),
            final(self).release_length == old(self).release_length,
            final(self).zero_crossing == old(self).zero_crossing,
    {
        match self.voice {
            None => {},
            Some(v) => {
                if v.note == note && v.channel == channel {
                    if self.release_length == 0 {
                        self.voice = None;
                    } else {
                        self.voice = Some(
                            MidiVoiceDesc {
                                released: true,
                                release_point: v.progress.saturating_add(buffer_progress),
                                ..v
                            },
                        );
                    }
                }
            },
        }
    }

    /// Moves the voice forward and drops it once its release tail is over.
    pub fn advance(&mut self, samples: u32)
        ensures
            final(self).voice == mono_advanced(old(self).voice, old(self).release_length, samples),
            final(self).release_length == old(self).release_length,
            final(self).zero_crossing == old(self).zero_crossing,
    {
        match self.voice {
            None => {},
            Some(v) => {
                self.voice = Some(MidiVoiceDesc { progress: v.progress.saturating_add(samples), ..v });
                self.purge_dead_voices();
            },
        }
    }

    /// Moves the voice forward by one frame, without dropping it.
    pub fn tick(&mut self)
        ensures
            final(self).voice == (match old(self).voice {
                Some(v) => Some(bumped(v, 1)),
                None => None,
            }),
            final(self).release_length == old(self).release_length,
            final(self).zero_crossing == old(self).zero_crossing,
    {
        match self.voice {
            None => {},
            Some(v) => {
                self.voice = Some(MidiVoiceDesc { progress: v.progress.saturating_add(1), ..v });
            },
        }
    }

    /// Drops the voice if its release tail is over.
    pub fn purge_dead_voices(&mut self)
        ensures
            final(self).voice == (match old(self).voice {
                Some(v) => if is_dead(v, old(self).release_length) {
                    None
                } else {
                    Some(v)
                },
                None => None,
            }),
            final(self).release_length == old(self).release_length,
            final(self).zero_crossing == old(self).zero_crossing,
    {
        match self.voice {
            None => {},
            Some(v) => {
                if v.released && v.progress >= v.release_point && v.progress - v.release_point
                    >= self.release_length {
                    self.voice = None;
                }
            },
        }
    }
}


/// No two voices share a (channel, note) key.
pub open spec fn unique_keys(s: Seq<MidiVoiceDesc>) -> bool {
    forall|i: int, j: int|
        0 <= i < s.len() && 0 <= j < s.len() && i != j ==> !key_matches(
            #[trigger] s[i],
            #[trigger] s[j].channel,
            s[j].note,
        )
}

pub open spec fn has_key(s: Seq<MidiVoiceDesc>, channel: u8, note: u8) -> bool {
    exists|i: int| 0 <= i < s.len() && key_matches(#[trigger] s[i], channel, note)
}

/// Index of the voice with the given key (meaningful when `has_key`).
pub open spec fn key_index(s: Seq<MidiVoiceDesc>, channel: u8, note: u8) -> int {
    choose|i: int| 0 <= i < s.len() && key_matches(#[trigger] s[i], channel, note)
}

/// Voices after inserting `d`, replacing the voice with the same key.
pub open spec fn poly_inserted(s: Seq<MidiVoiceDesc>, d: MidiVoiceDesc) -> Seq<MidiVoiceDesc> {
    if has_key(s, d.channel, d.note) {
        s.update(key_index(s, d.channel, d.note), d)
    } else {
        s.push(d)
    }
}

/// Voices after releasing the key: removed when the release length is zero,
/// else marked released.
pub open spec fn poly_released(
    s: Seq<MidiVoiceDesc>,
    release_length: u32,
    channel: u8,
    note: u8,
    buffer_progress: u32,
) -> Seq<MidiVoiceDesc> {
    if !has_key(s, channel, note) {
        s
    } else if release_length == 0 {
        s.remove(key_index(s, channel, note))
    } else {
        let i = key_index(s, channel, note);
        s.update(i, released_at(s[i], buffer_progress))
    }
}

/// Voices after one message, for a tracker with the given bounds.
pub open spec fn poly_applied(
    s: Seq<MidiVoiceDesc>,
    polyphony: u8,
    release_length: u32,
    m: MidiMessage,
    buffer_progress: u32,
) -> Seq<MidiVoiceDesc> {
    if starts_voice(m) {
        if s.len() < polyphony || polyphony == 0 {
            poly_inserted(s, voice_of(m))
        } else {
            s
        }
    } else if ends_voice(m) {
        poly_released(s, release_length, msg_channel(m), m.data[1], buffer_progress)
    } else {
        s
    }
}

/// Voices moved forward by `samples` frames, without those whose release is over.
pub open spec fn poly_advanced(s: Seq<MidiVoiceDesc>, release_length: u32, samples: u32) -> Seq<
    MidiVoiceDesc,
> {
    s.map_values(|v: MidiVoiceDesc| bumped(v, samples)).filter(
        |v: MidiVoiceDesc| !is_dead(v, release_length),
    )
}

/// The poly tracker's voices after each message of `msgs`, in order.
pub open spec fn poly_applied_all(
    s: Seq<MidiVoiceDesc>,
    polyphony: u8,
    release_length: u32,
    msgs: Seq<MidiMessage>,
    buffer_progress: u32,
) -> Seq<MidiVoiceDesc>
    decreases msgs.len(),
{
    if msgs.len() == 0 {
        s
    } else {
        poly_applied(
            poly_applied_all(s, polyphony, release_length, msgs.drop_last(), buffer_progress),
            polyphony,
            release_length,
            msgs.last(),
            buffer_progress,
        )
    }
}

impl PolyVoiceTracker {
    /// Applies every message of the chain, in order.
    pub fn apply_midi_chain(&mut self, chain: &MidiMessageChain, buffer_progress: u32)
        requires
            old(self).wf(),
        ensures
            final(self).wf(),
            final(self).voices@ == poly_applied_all(
                old(self).voices@,
                old(self).polyphony,
                old(self).release_length,
                chain@,
                buffer_progress,
            ),
            final(self).polyphony == old(self).polyphony,
            final(self).release_length == old(self).release_length,
            final(self).zero_crossing == old(self).zero_crossing,
    {
        let n = chain.len();
        let mut i: usize = 0;
        while i < n
            invariant
                n == chain@.len(),
                i <= n,
                self.wf(),
                self.polyphony == old(self).polyphony,
                self.release_length == old(self).release_length,
                self.zero_crossing == old(self).zero_crossing,
                self.voices@ == poly_applied_all(
                    old(self).voices@,
                    old(self).polyphony,
                    old(self).release_length,
                    chain@.subrange(0, i as int),
                    buffer_progress,
                ),
            decreases n - i,
        {
            let m = chain.get(i);
            proof {
                assert(chain@.subrange(0, i as int + 1).drop_last() =~= chain@.subrange(0, i as int));
            }
            self.apply_midi_message(m, buffer_progress);
            i += 1;
        }
        proof {
            assert(chain@.subrange(0, n as int) =~= chain@);
        }
    }

    pub open spec fn wf(&self) -> bool {
        unique_keys(self.voices@)
    }

    pub fn new() -> (r: PolyVoiceTracker)
        ensures
            r.wf(),
            r.voices@.len() == 0,
            r.polyphony == 0,
            r.release_length == 0,
            r.zero_crossing,
    {
        PolyVoiceTracker { voices: Vec::new(), polyphony: 0, release_length: 0, zero_crossing: true }
    }

    fn find_voice(&self, channel: u8, note: u8) -> (r: Option<usize>)
        requires
            self.wf(),
        ensures
            match r {
                Some(i) => i < self.voices@.len() && key_matches(self.voices@[i as int], channel, note)
                    && key_index(self.voices@, channel, note) == i as int,
                None => !has_key(self.voices@, channel, note),
            },
    {
        let mut i: usize = 0;
        while i < self.voices.len()
            invariant
                i <= self.voices@.len(),
                unique_keys(self.voices@),
                forall|j: int| 0 <= j < i ==> !key_matches(#[trigger] self.voices@[j], channel, note),
            decreases self.voices@.len() - i,
        {
            if self.voices[i].channel == channel && self.voices[i].note == note {
                proof {
                    let s = self.voices@;
                    assert(has_key(s, channel, note));
                    let k = key_index(s, channel, note);
                    if k != i as int {
                        assert(!key_matches(s[k], s[i as int].channel, s[i as int].note));
                    }
                }
                return Some(i);
            }
            i += 1;
        }
        None
    }

    /// A note-on with velocity inserts (or replaces) the voice of its key,
    /// unless the tracker is full; a note-off (or velocity 0) releases it.
    pub fn apply_midi_message(&mut self, msg: MidiMessage, buffer_progress: u32)
        requires
            old(self).wf(),
        ensures
            final(self).wf(),
            final(self).voices@ == poly_applied(
                old(self).voices@,
                old(self).polyphony,
                old(self).release_length,
                msg,
                buffer_progress,
            ),
            final(self).polyphony == old(self).polyphony,
            final(self).release_length == old(self).release_length,
            final(self).zero_crossing == old(self).zero_crossing,
    {
        let status = msg.status_byte();
        let channel = status.channel();
        let code = status.0 & MIDI_CODE_MASK;
        let polyphony = self.polyphony as usize;
        if code == 0x90u8 {
            let desc = MidiVoiceDesc {
                note: msg.data[1],
                channel,
                velocity: msg.data[2],
                progress: 0,
                release_point: 0,
                released: false,
            };
            if desc.velocity != 0 {
                if self.voices.len() < polyphony || polyphony == 0 {
                    self.insert_voice(desc);
                }
            } else {
                self.release_voice(channel, msg.data[1], buffer_progress);
            }
        } else if code == 0x80u8 {
            self.release_voice(channel, msg.data[1], buffer_progress);
        }
    }

    fn insert_voice(&mut self, desc: MidiVoiceDesc)
        requires
            old(self).wf(),
        ensures
            final(self).wf(),
            final(self).voices@ == poly_inserted(old(self).voices@, desc),
            final(self).polyphony == old(self).polyphony,
            final(self).release_length == old(self).release_length,
            final(self).zero_crossing == old(self).zero_crossing,
    {
        match self.find_voice(desc.channel, desc.note) {
            Some(i) => {
                self.voices.set(i, desc);
            },
            None => {
                self.voices.push(desc);
            },
        }
    }

    /// Releases the voice of the given key, if any.
    pub fn release_voice(&mut self, channel: u8, note: u8, buffer_progress: u32)
        requires
            old(self).wf(),
        ensures
            final(self).wf(),
            final(self).voices@ == poly_released(
                old(self).voices@,
                old(self).release_length,
                channel,
                note,
                buffer_progress,
            ),
            final(self).polyphony == old(self).polyphony,
            final(self).release_length == old(self).release_length,
            final(self).zero_crossing == old(self).zero_crossing,
    {
        match self.find_voice(channel, note) {
            None => {},
            Some(i) => {
                if self.release_length == 0 {
                    self.voices.remove(i);
                    assert forall|a: int, b: int|
                        0 <= a < self.voices@.len() && 0 <= b < self.voices@.len() && a != b
                            implies !key_matches(#[trigger] self.voices@[a], #[trigger] self.voices@[b].channel, self.voices@[b].note) by {
                        let s = old(self).voices@;
                        let a0 = if a < i { a } else { a + 1 };
                        let b0 = if b < i { b } else { b + 1 };
                        assert(self.voices@[a] == s[a0]);
                        assert(self.voices@[b] == s[b0]);
                    }
                } else {
                    let v = self.voices[i];
                    self.voices.set(
                        i,
                        MidiVoiceDesc {
                            released: true,
                            release_point: v.progress.saturating_add(buffer_progress),
                            ..v
                        },
                    );
                }
            },
        }
    }

    /// Moves every voice forward and drops those whose release is over.
    pub fn advance(&mut self, samples: u32)
        requires
            old(self).wf(),
        ensures
            final(self).wf(),
            final(self).voices@ == poly_advanced(old(self).voices@, old(self).release_length, samples),
            final(self).polyphony == old(self).polyphony,
            final(self).release_length == old(self).release_length,
            final(self).zero_crossing == old(self).zero_crossing,
    {
        let rl = self.release_length;
        let mut kept: Vec<MidiVoiceDesc> = Vec::new();
        let mut i: usize = 0;
        let ghost s = self.voices@;
        let ghost f = |v: MidiVoiceDesc| bumped(v, samples);
        let ghost p = |v: MidiVoiceDesc| !is_dead(v, rl);
        while i < self.voices.len()
            invariant
                s == self.voices@,
                unique_keys(s),
                rl == self.release_length,
                f == (|v: MidiVoiceDesc| bumped(v, samples)),
                p == (|v: MidiVoiceDesc| !is_dead(v, rl)),
                i <= s.len(),
                kept@ == s.subrange(0, i as int).map_values(f).filter(p),
                unique_keys(kept@),
                forall|k: int| #![trigger kept@[k]]
                    0 <= k < kept@.len() ==> exists|j: int|
                        0 <= j < i && key_matches(#[trigger] s[j], kept@[k].channel, kept@[k].note),
            decreases s.len() - i,
        {
            let v = self.voices[i];
            let b = MidiVoiceDesc { progress: v.progress.saturating_add(samples), ..v };
            proof {
                let pre = s.subrange(0, i as int).map_values(f);
                let post = s.subrange(0, i as int + 1).map_values(f);
                assert(post =~= pre.push(b));
                assert(post.drop_last() =~= pre);
                reveal(Seq::filter);
            }
            if !(b.released && b.progress >= b.release_point && b.progress - b.release_point >= rl) {
                proof {
                    assert forall|k: int| 0 <= k < kept@.len() implies !key_matches(
                        #[trigger] kept@[k],
                        b.channel,
                        b.note,
                    ) by {
                        let j = choose|j: int|
                            0 <= j < i && key_matches(#[trigger] s[j], kept@[k].channel, kept@[k].note);
                        assert(!key_matches(s[j], s[i as int].channel, s[i as int].note));
                    }
                }
                kept.push(b);
                proof {
                    assert forall|k: int| #![trigger kept@[k]]
                        0 <= k < kept@.len() implies exists|j: int|
                            0 <= j < i + 1 && key_matches(#[trigger] s[j], kept@[k].channel, kept@[k].note) by {
                        if k == kept@.len() - 1 {
                            assert(key_matches(s[i as int], kept@[k].channel, kept@[k].note));
                        } else {
                            let j = choose|j: int|
                                0 <= j < i && key_matches(#[trigger] s[j], kept@[k].channel, kept@[k].note);
                            assert(key_matches(s[j], kept@[k].channel, kept@[k].note));
                        }
                    }
                }
            }
            i += 1;
        }
        proof {
            assert(s.subrange(0, s.len() as int) =~= s);
        }
        self.voices = kept;
    }

    /// Drops the voices whose release is over.
    pub fn purge_dead_voices(&mut self)
        requires
            old(self).wf(),
        ensures
            final(self).wf(),
            final(self).voices@ == old(self).voices@.filter(
                |v: MidiVoiceDesc| !is_dead(v, old(self).release_length),
            ),
            final(self).polyphony == old(self).polyphony,
            final(self).release_length == old(self).release_length,
            final(self).zero_crossing == old(self).zero_crossing,
    {
        let ghost s = self.voices@;
        self.advance(0);
        proof {
            assert(s.map_values(|v: MidiVoiceDesc| bumped(v, 0)) =~= s);
        }
    }

    /// Moves every voice forward by one frame, without dropping any.
    pub fn tick(&mut self)
        requires
            old(self).wf(),
        ensures
            final(self).wf(),
            final(self).voices@ == old(self).voices@.map_values(|v: MidiVoiceDesc| bumped(v, 1)),
            final(self).polyphony == old(self).polyphony,
            final(self).release_length == old(self).release_length,
            final(self).zero_crossing == old(self).zero_crossing,
    {
        let mut i: usize = 0;
        while i < self.voices.len()
            invariant
                i <= self.voices@.len(),
                self.voices@.len() == old(self).voices@.len(),
                self.polyphony == old(self).polyphony,
                self.release_length == old(self).release_length,
                self.zero_crossing == old(self).zero_crossing,
                forall|j: int| 0 <= j < i ==> #[trigger] self.voices@[j] == bumped(old(self).voices@[j], 1),
                forall|j: int| i <= j < self.voices@.len() ==> #[trigger] self.voices@[j] == old(self).voices@[j],
            decreases self.voices@.len() - i,
        {
            let v = self.voices[i];
            self.voices.set(i, MidiVoiceDesc { progress: v.progress.saturating_add(1), ..v });
            i += 1;
        }
        proof {
            assert(self.voices@ =~= old(self).voices@.map_values(|v: MidiVoiceDesc| bumped(v, 1)));
            let s = self.voices@;
            let o = old(self).voices@;
            assert forall|a: int, b: int|
                0 <= a < s.len() && 0 <= b < s.len() && a != b implies !key_matches(
                    #[trigger] s[a],
                    #[trigger] s[b].channel,
                    s[b].note,
                ) by {
                assert(!key_matches(o[a], o[b].channel, o[b].note));
            }
        }
    }

    /// Drops every voice.
    pub fn kill_all_voices(&mut self)
        ensures
            final(self).wf(),
            final(self).voices@.len() == 0,
            final(self).polyphony == old(self).polyphony,
            final(self).release_length == old(self).release_length,
            final(self).zero_crossing == old(self).zero_crossing,
    {
        self.voices.clear();
    }
}

} // verus!
