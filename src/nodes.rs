use vstd::prelude::*;

use crate::block::{MidiBlock, MidiNoteDesc, MIDI_CHANNELS};
use crate::chain::MidiMessageChain;
use crate::midi::{
    channel_bits, code_bits, MidiMessage, MonoVoiceTracker, PolyVoiceTracker, MIDI_CHANNEL_MASK,
    MIDI_CODE_MASK,
};
use crate::timeline::{frames_to_tl, tl_to_frames, Config, TlUnit};

verus! {

/// The graph's root: one audio input, rendered into the host's buffer.
pub struct Sink;

/// One audio output of silence, reserved for external input.
pub struct Source;

/// Multiplies an audio input by a per-frame control input.
pub struct Amplify;

/// A chain per frame, each empty.
pub fn silent_midi(frames: usize) -> (r: Vec<MidiMessageChain>)
    ensures
        r@.len() == frames,
        forall|i: int| 0 <= i < frames ==> (#[trigger] r@[i])@.len() == 0,
{
    let mut r: Vec<MidiMessageChain> = Vec::new();
    let mut i: usize = 0;
    while i < frames
        invariant
            i <= frames,
            r@.len() == i,
            forall|j: int| 0 <= j < i ==> (#[trigger] r@[j])@.len() == 0,
        decreases frames - i,
    {
        r.push(MidiMessageChain::new());
        i += 1;
    }
    r
}

/// Fan-in of MIDI: appends, frame by frame, the messages of `src` after
/// those already in `acc`.
pub fn merge_midi(acc: &mut Vec<MidiMessageChain>, src: &Vec<MidiMessageChain>)
    requires
        old(acc)@.len() == src@.len(),
        forall|i: int|
            0 <= i < src@.len() ==> (#[trigger] old(acc)@[i])@.len() + src@[i]@.len() < usize::MAX,
    ensures
        final(acc)@.len() == old(acc)@.len(),
        forall|i: int| 0 <= i < src@.len() ==> (#[trigger] final(acc)@[i])@ == old(acc)@[i]@ + src@[i]@,
{
    let n = src.len();
    let mut i: usize = 0;
    while i < n
        invariant
            n == src@.len(),
            acc@.len() == n,
            i <= n,
            forall|j: int| 0 <= j < i ==> (#[trigger] acc@[j])@ == old(acc)@[j]@ + src@[j]@,
            forall|j: int| i <= j < n ==> #[trigger] acc@[j] == old(acc)@[j],
            forall|j: int|
                0 <= j < n ==> (#[trigger] old(acc)@[j])@.len() + src@[j]@.len() < usize::MAX,
        decreases n - i,
    {
        let mut chain = MidiMessageChain::new();
        acc.set_and_swap(i, &mut chain);
        assert(chain == old(acc)@[i as int]);
        chain.append(&src[i]);
        acc.set_and_swap(i, &mut chain);
        i += 1;
    }
}

/// The message MIDI Split emits on an output for `m`: unchanged, or with the
/// channel nibble cleared.
pub open spec fn split_message(m: MidiMessage, keep_channel: bool) -> MidiMessage {
    if keep_channel {
        m
    } else {
        MidiMessage { data: [code_bits(m.data[0]), m.data[1], m.data[2]] }
    }
}

/// The messages of one frame that MIDI Split emits on `output`.
pub open spec fn split_messages(msgs: Seq<MidiMessage>, output: int, keep_channel: bool) -> Seq<
    MidiMessage,
>
    decreases msgs.len(),
{
    if msgs.len() == 0 {
        Seq::empty()
    } else {
        let rest = split_messages(msgs.drop_last(), output, keep_channel);
        if channel_bits(msgs.last().data[0]) == output {
            rest.push(split_message(msgs.last(), keep_channel))
        } else {
            rest
        }
    }
}

/// Routes each message to the output numbered by its channel.
pub struct MidiSplit {
    pub keep_channel: bool,
}

impl MidiSplit {
    pub fn new() -> (r: MidiSplit)
        ensures
            !r.keep_channel,
    {
        MidiSplit { keep_channel: false }
    }

    /// What output `output` carries for the given input frames.
    pub fn render_output(&self, output: usize, input: &Vec<MidiMessageChain>) -> (r: Vec<MidiMessageChain>)
        ensures
            r@.len() == input@.len(),
            forall|i: int|
                0 <= i < input@.len() ==> (#[trigger] r@[i])@ == split_messages(
                    input@[i]@,
                    output as int,
                    self.keep_channel,
                ),
    {
        let mut r: Vec<MidiMessageChain> = Vec::new();
        let n = input.len();
        let mut i: usize = 0;
        while i < n
            invariant
                n == input@.len(),
                i <= n,
                r@.len() == i,
                forall|j: int|
                    0 <= j < i ==> (#[trigger] r@[j])@ == split_messages(
                        input@[j]@,
                        output as int,
                        self.keep_channel,
                    ),
            decreases n - i,
        {
            let m = &input[i];
            let mut out = MidiMessageChain::new();
            let len = m.len();
            let mut k: usize = 0;
            while k < len
                invariant
                    len == m@.len(),
                    k <= len,
                    out@ == split_messages(m@.subrange(0, k as int), output as int, self.keep_channel),
                    out@.len() <= k,
                decreases len - k,
            {
                let msg = m.get(k);
                proof {
                    assert(m@.subrange(0, k as int + 1).drop_last() =~= m@.subrange(0, k as int));
                }
                let status = msg.data[0];
                if (status & MIDI_CHANNEL_MASK) as usize == output {
                    if self.keep_channel {
                        out.push(msg);
                    } else {
                        out.push(MidiMessage { data: [status & MIDI_CODE_MASK, msg.data[1], msg.data[2]] });
                    }
                }
                k += 1;
            }
            proof {
                assert(m@.subrange(0, len as int) =~= m@);
            }
            r.push(out);
            i += 1;
        }
        r
    }
}

/// Emits a single 1.0 at the frame where the transport meets the node's
/// timeline position.
pub struct Trigger {
    pub tl_pos: usize,
}

impl Trigger {
    pub fn new() -> (r: Trigger)
        ensures
            r.tl_pos == 0,
    {
        Trigger { tl_pos: 0 }
    }

    /// Index within a buffer of `buffer_len` frames of the spike, for a node
    /// placed at `position` on the timeline.
    pub fn spike_index(&self, config: &Config, position: TlUnit, buffer_len: usize) -> (r: Option<usize>)
        requires
            config.wf(),
        ensures
            ({
                let at = tl_to_frames(*config, position.0 as int);
                r == if at >= self.tl_pos && at - self.tl_pos < buffer_len {
                    Some((at - self.tl_pos) as usize)
                } else {
                    None::<usize>
                }
            }),
    {
        let at = config.tl_units_to_frames(position);
        if at >= self.tl_pos && at - self.tl_pos < buffer_len {
            Some(at - self.tl_pos)
        } else {
            None
        }
    }

    /// Moves the playback frame forward (held at `usize::MAX`).
    pub fn advance(&mut self, frames: usize)
        ensures
            final(self).tl_pos == if old(self).tl_pos + frames > usize::MAX {
                usize::MAX as int
            } else {
                old(self).tl_pos + frames
            },
    {
        self.tl_pos = self.tl_pos.saturating_add(frames);
    }

    pub fn seek(&mut self, position: usize)
        ensures
            final(self).tl_pos == position,
    {
        self.tl_pos = position;
    }
}

/// The note-on or note-off that note `n` of channel `ch` emits at frame
/// `f`, for a clip placed at tick `clip_pos`: the note-on at the first frame
/// whose tick reaches the note's start, the note-off at the first frame whose
/// tick reaches its end (notes of length 0 get none).
pub open spec fn note_event(c: Config, clip_pos: int, ch: int, n: MidiNoteDesc, f: int) -> Option<
    MidiMessage,
> {
    let tl = frames_to_tl(c, f);
    let prev = if f > 0 {
        frames_to_tl(c, f - 1)
    } else {
        0
    };
    let start = n.pos.0 + clip_pos;
    let end = start + n.len.0;
    if tl >= start && (f == 0 || prev < start) {
        Some(MidiMessage { data: [(0x90u8 | ch as u8) as u8, n.note, n.vel] })
    } else if tl >= end && prev < end && n.len.0 > 0 {
        Some(MidiMessage { data: [(0x80u8 | ch as u8) as u8, n.note, n.vel] })
    } else {
        None
    }
}

/// The events of a channel's notes at frame `f`, in note order.
pub open spec fn channel_events(
    c: Config,
    clip_pos: int,
    ch: int,
    notes: Seq<MidiNoteDesc>,
    f: int,
) -> Seq<MidiMessage>
    decreases notes.len(),
{
    if notes.len() == 0 {
        Seq::empty()
    } else {
        let rest = channel_events(c, clip_pos, ch, notes.drop_last(), f);
        match note_event(c, clip_pos, ch, notes.last(), f) {
            Some(m) => rest.push(m),
            None => rest,
        }
    }
}

/// The events of the first `k` channels at frame `f`, channel by channel.
pub open spec fn clip_events(
    c: Config,
    clip_pos: int,
    chs: Seq<Seq<MidiNoteDesc>>,
    k: int,
    f: int,
) -> Seq<MidiMessage>
    decreases k,
{
    if k <= 0 {
        Seq::empty()
    } else {
        clip_events(c, clip_pos, chs, k - 1, f) + channel_events(c, clip_pos, k - 1, chs[k - 1], f)
    }
}

/// Number of notes in the first `k` channels.
pub open spec fn notes_in(chs: Seq<Seq<MidiNoteDesc>>, k: int) -> int
    decreases k,
{
    if k <= 0 {
        0
    } else {
        notes_in(chs, k - 1) + chs[k - 1].len()
    }
}

proof fn lemma_notes_in_monotonic(chs: Seq<Seq<MidiNoteDesc>>, a: int, b: int)
    requires
        0 <= a <= b,
    ensures
        notes_in(chs, a) <= notes_in(chs, b),
    decreases b - a,
{
    if a < b {
        lemma_notes_in_monotonic(chs, a, b - 1);
    }
}

/// Plays a block of notes from the timeline.
pub struct MidiClip {
    pub playback_pos: usize,
}

impl MidiClip {
    pub fn new() -> (r: MidiClip)
        ensures
            r.playback_pos == 0,
    {
        MidiClip { playback_pos: 0 }
    }

    /// The events of `frames` frames from the playback position, for a clip
    /// placed at `clip_pos` that plays `block`.
    pub fn render(&self, block: &MidiBlock, config: &Config, clip_pos: TlUnit, frames: usize) -> (r: Vec<
        MidiMessageChain,
    >)
        requires
            block.wf(),
            config.wf(),
            self.playback_pos + frames <= usize::MAX,
            notes_in(block.view(), MIDI_CHANNELS as int) < usize::MAX,
        ensures
            r@.len() == frames,
            forall|i: int|
                0 <= i < frames ==> (#[trigger] r@[i])@ == clip_events(
                    *config,
                    clip_pos.0 as int,
                    block.view(),
                    MIDI_CHANNELS as int,
                    self.playback_pos + i,
                ),
    {
        let mut r: Vec<MidiMessageChain> = Vec::new();
        let mut i: usize = 0;
        while i < frames
            invariant
                block.wf(),
                config.wf(),
                self.playback_pos + frames <= usize::MAX,
                notes_in(block.view(), MIDI_CHANNELS as int) < usize::MAX,
                i <= frames,
                r@.len() == i,
                forall|j: int|
                    0 <= j < i ==> (#[trigger] r@[j])@ == clip_events(
                        *config,
                        clip_pos.0 as int,
                        block.view(),
                        MIDI_CHANNELS as int,
                        self.playback_pos + j,
                    ),
            decreases frames - i,
        {
            let f = self.playback_pos + i;
            let tl = config.frames_to_tl_units(f).0 as u128;
            let prev: u128 = if f > 0 {
                config.frames_to_tl_units(f - 1).0 as u128
            } else {
                0
            };
            let mut out = MidiMessageChain::new();
            let mut c: usize = 0;
            while c < MIDI_CHANNELS
                invariant
                    block.wf(),
                    config.wf(),
                    notes_in(block.view(), MIDI_CHANNELS as int) < usize::MAX,
                    c <= MIDI_CHANNELS,
                    tl == frames_to_tl(*config, f as int),
                    prev == (if f > 0 { frames_to_tl(*config, f - 1) } else { 0 }),
                    out@ == clip_events(*config, clip_pos.0 as int, block.view(), c as int, f as int),
                    out@.len() <= notes_in(block.view(), c as int),
                decreases MIDI_CHANNELS - c,
            {
                let notes = &block.channels[c];
                proof {
                    assert(block.view()[c as int] == notes@);
                    lemma_notes_in_monotonic(block.view(), c as int + 1, MIDI_CHANNELS as int);
                }
                let ghost base = out@;
                let mut k: usize = 0;
                while k < notes.len()
                    invariant
                        *notes == block.channels@[c as int],
                        block.view()[c as int] == notes@,
                        notes_in(block.view(), c as int + 1) < usize::MAX,
                        notes_in(block.view(), c as int + 1) == notes_in(block.view(), c as int) + notes@.len(),
                        c < MIDI_CHANNELS,
                        k <= notes@.len(),
                        tl == frames_to_tl(*config, f as int),
                        prev == (if f > 0 { frames_to_tl(*config, f - 1) } else { 0 }),
                        base.len() <= notes_in(block.view(), c as int),
                        out@ == base + channel_events(
                            *config,
                            clip_pos.0 as int,
                            c as int,
                            notes@.subrange(0, k as int),
                            f as int,
                        ),
                        out@.len() <= base.len() + k,
                    decreases notes@.len() - k,
                {
                    proof {
                        assert(notes@.subrange(0, k as int + 1).drop_last() =~= notes@.subrange(0, k as int));
                    }
                    let n = notes[k];
                    let start: u128 = n.pos.0 as u128 + clip_pos.0 as u128;
                    let end: u128 = start + n.len.0 as u128;
                    let ch = c as u8;
                    if tl >= start && (f == 0 || prev < start) {
                        out.push(MidiMessage { data: [0x90u8 | ch, n.note, n.vel] });
                    } else if tl >= end && prev < end && n.len.0 > 0 {
                        out.push(MidiMessage { data: [0x80u8 | ch, n.note, n.vel] });
                    }
                    proof {
                        assert(out@ =~= base + channel_events(
                            *config,
                            clip_pos.0 as int,
                            c as int,
                            notes@.subrange(0, k as int + 1),
                            f as int,
                        ));
                    }
                    k += 1;
                }
                proof {
                    assert(notes@.subrange(0, k as int) =~= notes@);
                }
                c += 1;
            }
            r.push(out);
            i += 1;
        }
        r
    }

    /// Moves the playback position forward (held at `usize::MAX`).
    pub fn advance(&mut self, frames: usize)
        ensures
            final(self).playback_pos == if old(self).playback_pos + frames > usize::MAX {
                usize::MAX as int
            } else {
                old(self).playback_pos + frames
            },
    {
        self.playback_pos = self.playback_pos.saturating_add(frames);
    }

    pub fn seek(&mut self, position: usize)
        ensures
            final(self).playback_pos == position,
    {
        self.playback_pos = position;
    }
}

/// What an envelope outputs at one frame, decided by its latch.
#[derive(Debug, Copy, Clone, PartialEq, Eq, Structural)]
pub enum EnvelopePhase {
    /// Before the first trigger: silence.
    Idle,
    /// Gate held since frame `start`: attack, decay, then sustain.
    Held { start: usize },
    /// Gate opened at `start` and closed at `end`: the release fade.
    Released { start: usize, end: usize },
}

/// The latched trigger state of an ADSR envelope. The gain curve itself is
/// computed by the host from the phase.
pub struct Envelope {
    pub pos: usize,
    pub start: usize,
    pub end: usize,
    pub active: bool,
}

impl Envelope {
    pub fn new() -> (r: Envelope)
        ensures
            r.pos == 0,
            r.start == usize::MAX,
            r.end == usize::MAX,
            !r.active,
    {
        Envelope { pos: 0, start: usize::MAX, end: usize::MAX, active: false }
    }

    /// Takes the trigger state at buffer offset `i` (`gate` is true when the
    /// trigger input is at least 0.5). Opening records the start frame and
    /// activates; closing records the end frame and releases. Returns the
    /// phase at that frame.
    pub fn latch(&mut self, i: usize, gate: bool) -> (r: EnvelopePhase)
        requires
            old(self).pos + i <= usize::MAX,
        ensures
            final(self).pos == old(self).pos,
            ({
                let now = (old(self).pos + i) as usize;
                &&& final(self).active == gate
                &&& final(self).start == if !old(self).active && gate {
                    now
                } else {
                    old(self).start
                }
                &&& final(self).end == if old(self).active && !gate {
                    now
                } else {
                    old(self).end
                }
                &&& r == if now < final(self).start {
                    EnvelopePhase::Idle
                } else if final(self).active {
                    EnvelopePhase::Held { start: final(self).start }
                } else {
                    EnvelopePhase::Released { start: final(self).start, end: final(self).end }
                }
            }),
    {
        let now = self.pos + i;
        if !self.active && gate {
            self.start = now;
            self.active = true;
        } else if self.active && !gate {
            self.end = now;
            self.active = false;
        }
        if now < self.start {
            EnvelopePhase::Idle
        } else if self.active {
            EnvelopePhase::Held { start: self.start }
        } else {
            EnvelopePhase::Released { start: self.start, end: self.end }
        }
    }

    /// Moves the frame counter forward (held at `usize::MAX`).
    pub fn advance(&mut self, frames: usize)
        ensures
            final(self).pos == if old(self).pos + frames > usize::MAX {
                usize::MAX as int
            } else {
                old(self).pos + frames
            },
            final(self).start == old(self).start,
            final(self).end == old(self).end,
            final(self).active == old(self).active,
    {
        self.pos = self.pos.saturating_add(frames);
    }

    pub fn seek(&mut self, position: usize)
        ensures
            final(self).pos == position,
            final(self).start == old(self).start,
            final(self).end == old(self).end,
            final(self).active == old(self).active,
    {
        self.pos = position;
    }
}

/// Monophonic oscillator state: a frame counter and the voice tracker.
pub struct Osc {
    pub pos: usize,
    pub voices: MonoVoiceTracker,
}

impl Osc {
    pub fn new() -> (r: Osc)
        ensures
            r.pos == 0,
            r.voices.voice.is_none(),
            r.voices.release_length == 0,
    {
        Osc { pos: 0, voices: MonoVoiceTracker::new() }
    }

    /// Moves the frame counter forward (held at `usize::MAX`).
    pub fn advance(&mut self, frames: usize)
        ensures
            final(self).pos == if old(self).pos + frames > usize::MAX {
                usize::MAX as int
            } else {
                old(self).pos + frames
            },
    {
        self.pos = self.pos.saturating_add(frames);
    }

    pub fn seek(&mut self, position: usize)
        ensures
            final(self).pos == position,
    {
        self.pos = position;
    }
}

/// Polyphonic oscillator state: a frame counter and the voice tracker.
pub struct PolyOsc {
    pub pos: usize,
    pub voices: PolyVoiceTracker,
}

impl PolyOsc {
    pub open spec fn wf(&self) -> bool {
        self.voices.wf()
    }

    pub fn new() -> (r: PolyOsc)
        ensures
            r.wf(),
            r.pos == 0,
            r.voices.voices@.len() == 0,
            r.voices.polyphony == 0,
            r.voices.release_length == 0,
    {
        PolyOsc { pos: 0, voices: PolyVoiceTracker::new() }
    }

    /// Moves the frame counter forward (held at `usize::MAX`).
    pub fn advance(&mut self, frames: usize)
        ensures
            final(self).pos == if old(self).pos + frames > usize::MAX {
                usize::MAX as int
            } else {
                old(self).pos + frames
            },
    {
        self.pos = self.pos.saturating_add(frames);
    }

    /// Jumps to a position and silences every voice.
    pub fn seek(&mut self, position: usize)
        ensures
            final(self).wf(),
            final(self).pos == position,
            final(self).voices.voices@.len() == 0,
            final(self).voices.polyphony == old(self).voices.polyphony,
            final(self).voices.release_length == old(self).voices.release_length,
    {
        self.pos = position;
        self.voices.kill_all_voices();
    }
}

/// The engine's transport: whether it plays, and the frame it is at.
pub struct Transport {
    pub playing: bool,
    pub position: usize,
}

impl Transport {
    pub fn new() -> (r: Transport)
        ensures
            !r.playing,
            r.position == 0,
    {
        Transport { playing: false, position: 0 }
    }

    /// Bookkeeping after a render of `frames` frames: a playing transport
    /// moves on by exactly that many frames (held at `usize::MAX`), a stopped
    /// one stays.
    pub fn finish_render(&mut self, frames: usize)
        ensures
            final(self).playing == old(self).playing,
            old(self).playing && old(self).position + frames <= usize::MAX ==> final(self).position
                == old(self).position + frames,
            old(self).playing && old(self).position + frames > usize::MAX ==> final(self).position
                == usize::MAX,
            !old(self).playing ==> final(self).position == old(self).position,
    {
        if self.playing {
            self.position = self.position.saturating_add(frames);
        }
    }

    pub fn seek(&mut self, position: usize)
        ensures
            final(self).playing == old(self).playing,
            final(self).position == position,
    {
        self.position = position;
    }
}

} // verus!
