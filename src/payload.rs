use vstd::bytes::{
    lemma_auto_spec_u64_to_from_le_bytes, spec_u64_from_le_bytes, spec_u64_to_le_bytes,
    u64_from_le_bytes, u64_to_le_bytes,
};
use vstd::prelude::*;

use crate::block::{MidiBlock, MidiNoteDesc, MIDI_CHANNELS};
use crate::timeline::TlUnit;

verus! {

/// Bytes of one encoded note: position, length, key, velocity.
pub const NOTE_BYTES: usize = 18;

/// `x` as eight bytes, least significant first when `little`, else most
/// significant first.
pub open spec fn word(x: u64, little: bool) -> Seq<u8> {
    if little {
        spec_u64_to_le_bytes(x)
    } else {
        spec_u64_to_le_bytes(x).reverse()
    }
}

/// The number eight bytes at `p` encode in the given byte order.
pub open spec fn word_at(data: Seq<u8>, p: int, little: bool) -> u64 {
    let s = data.subrange(p, p + 8);
    spec_u64_from_le_bytes(
        if little {
            s
        } else {
            s.reverse()
        },
    )
}

pub open spec fn note_bytes(n: MidiNoteDesc, little: bool) -> Seq<u8> {
    word(n.pos.0 as u64, little) + word(n.len.0 as u64, little) + seq![n.note, n.vel]
}

pub open spec fn notes_bytes(s: Seq<MidiNoteDesc>, little: bool) -> Seq<u8>
    decreases s.len(),
{
    if s.len() == 0 {
        Seq::empty()
    } else {
        notes_bytes(s.drop_last(), little) + note_bytes(s.last(), little)
    }
}

/// One channel's record: channel number, note count, then the notes.
pub open spec fn record_bytes(ch: int, s: Seq<MidiNoteDesc>, little: bool) -> Seq<u8> {
    seq![ch as u8] + word(s.len() as u64, little) + notes_bytes(s, little)
}

/// The payload of a block's first `k` channels: a record for each channel
/// that has notes, in channel order.
pub open spec fn block_bytes(chs: Seq<Seq<MidiNoteDesc>>, k: int, little: bool) -> Seq<u8>
    decreases k,
{
    if k <= 0 {
        Seq::empty()
    } else {
        block_bytes(chs, k - 1, little) + if chs[k - 1].len() == 0 {
            Seq::<u8>::empty()
        } else {
            record_bytes(k - 1, chs[k - 1], little)
        }
    }
}

/// The note encoded at `p`, when its position and length fit `usize`.
pub open spec fn note_at(data: Seq<u8>, p: int, little: bool) -> Option<MidiNoteDesc> {
    let pos = word_at(data, p, little);
    let len = word_at(data, p + 8, little);
    if pos <= usize::MAX && len <= usize::MAX {
        Some(
            MidiNoteDesc {
                pos: TlUnit(pos as usize),
                len: TlUnit(len as usize),
                note: data[p + 16],
                vel: data[p + 17],
            },
        )
    } else {
        None
    }
}

/// Reads `count` notes from `p0`: the notes and the position after them.
pub open spec fn parse_notes(data: Seq<u8>, p0: int, count: nat, little: bool) -> Option<
    (Seq<MidiNoteDesc>, int),
>
    decreases count,
{
    if count == 0 {
        Some((Seq::empty(), p0))
    } else {
        match parse_notes(data, p0, (count - 1) as nat, little) {
            Some((ns, p)) => if 0 <= p && p + 18 <= data.len() {
                match note_at(data, p, little) {
                    Some(n) => Some((ns.push(n), p + 18)),
                    None => None,
                }
            } else {
                None
            },
            None => None,
        }
    }
}

/// Reads records from `pos` to the end, appending each record's notes to
/// its channel in `acc`.
pub open spec fn parse_records(data: Seq<u8>, pos: int, acc: Seq<Seq<MidiNoteDesc>>, little: bool) -> Option<
    Seq<Seq<MidiNoteDesc>>,
>
    decreases data.len() - pos,
{
    if pos == data.len() {
        Some(acc)
    } else if pos < 0 || pos + 9 > data.len() {
        None
    } else {
        let ch = data[pos] as int;
        if ch >= MIDI_CHANNELS || acc.len() != MIDI_CHANNELS {
            None
        } else {
            match parse_notes(data, pos + 9, word_at(data, pos + 1, little) as nat, little) {
                Some((ns, p)) => if pos < p <= data.len() {
                    parse_records(data, p, acc.update(ch, acc[ch] + ns), little)
                } else {
                    None
                },
                None => None,
            }
        }
    }
}

/// Sixteen empty channels.
pub open spec fn empty_channels() -> Seq<Seq<MidiNoteDesc>> {
    Seq::new(MIDI_CHANNELS as nat, |i: int| Seq::<MidiNoteDesc>::empty())
}

/// The channels a payload decodes to, if it is well formed.
pub open spec fn decode(data: Seq<u8>, little: bool) -> Option<Seq<Seq<MidiNoteDesc>>> {
    parse_records(data, 0, empty_channels(), little)
}

/// Relies on `u16::from_ne_bytes`: the bytes `[1, 0]` read as 1 on a
/// little-endian machine and as 256 on a big-endian one.
#[verifier::external_body]
fn native_probe() -> (r: u16)
    ensures
        r == 1 || r == 256,
{
    u16::from_ne_bytes([1, 0])
}

/// Whether this machine stores integers least significant byte first.
fn native_is_little() -> bool {
    native_probe() == 1
}

fn push_word(out: &mut Vec<u8>, x: u64, little: bool)
    ensures
        final(out)@ == old(out)@ + word(x, little),
{
    let b = u64_to_le_bytes(x);
    let mut i: usize = 0;
    while i < 8
        invariant
            b@ == spec_u64_to_le_bytes(x),
            b@.len() == 8,
            i <= 8,
            out@ == old(out)@ + word(x, little).subrange(0, i as int),
        decreases 8 - i,
    {
        if little {
            out.push(b[i]);
        } else {
            out.push(b[7 - i]);
        }
        proof {
            assert(out@ =~= old(out)@ + word(x, little).subrange(0, i as int + 1));
        }
        i += 1;
    }
    proof {
        assert(word(x, little).subrange(0, 8) =~= word(x, little));
    }
}

fn read_word(data: &[u8], p: usize, little: bool) -> (r: u64)
    requires
        p + 8 <= data@.len(),
    ensures
        r == word_at(data@, p as int, little),
{
    let mut v: Vec<u8> = Vec::new();
    let mut i: usize = 0;
    let ghost s = data@.subrange(p as int, p + 8);
    let n = data.len();
    while i < 8
        invariant
            n == data@.len(),
            p + 8 <= data@.len(),
            s == data@.subrange(p as int, p + 8),
            i <= 8,
            v@ == (if little {
                s
            } else {
                s.reverse()
            }).subrange(0, i as int),
        decreases 8 - i,
    {
        if little {
            v.push(data[p + i]);
        } else {
            v.push(data[p + 7 - i]);
        }
        proof {
            assert(v@ =~= (if little {
                s
            } else {
                s.reverse()
            }).subrange(0, i as int + 1));
        }
        i += 1;
    }
    proof {
        assert(v@ =~= (if little {
            s
        } else {
            s.reverse()
        }));
    }
    u64_from_le_bytes(v.as_slice())
}

/// Once `k` notes cannot be read, no larger count can.
proof fn lemma_notes_fail(data: Seq<u8>, p0: int, k: nat, count: nat, little: bool)
    requires
        k <= count,
        parse_notes(data, p0, k, little).is_none(),
    ensures
        parse_notes(data, p0, count, little).is_none(),
    decreases count - k,
{
    if k < count {
        lemma_notes_fail(data, p0, k, (count - 1) as nat, little);
    }
}

proof fn lemma_word(data: Seq<u8>, q: int, x: u64, little: bool)
    requires
        0 <= q,
        q + 8 <= data.len(),
        data.subrange(q, q + 8) == word(x, little),
    ensures
        word_at(data, q, little) == x,
{
    lemma_auto_spec_u64_to_from_le_bytes();
    let le = spec_u64_to_le_bytes(x);
    if !little {
        assert(le.reverse().reverse() =~= le);
    }
}

proof fn lemma_word_len(x: u64, little: bool)
    ensures
        word(x, little).len() == 8,
{
    lemma_auto_spec_u64_to_from_le_bytes();
}

proof fn lemma_notes_len(s: Seq<MidiNoteDesc>, little: bool)
    ensures
        notes_bytes(s, little).len() == 18 * s.len(),
    decreases s.len(),
{
    if s.len() > 0 {
        lemma_notes_len(s.drop_last(), little);
        lemma_word_len(s.last().pos.0 as u64, little);
        lemma_word_len(s.last().len.0 as u64, little);
    }
}

/// Notes written at `q` read back as the same notes.
proof fn lemma_parse_written_notes(data: Seq<u8>, q: int, ns: Seq<MidiNoteDesc>, little: bool)
    requires
        0 <= q,
        q + 18 * ns.len() <= data.len(),
        data.subrange(q, q + 18 * ns.len()) == notes_bytes(ns, little),
    ensures
        parse_notes(data, q, ns.len(), little) == Some((ns, q + 18 * ns.len())),
    decreases ns.len(),
{
    if ns.len() > 0 {
        let pre = ns.drop_last();
        let n = ns.last();
        lemma_notes_len(pre, little);
        lemma_notes_len(ns, little);
        let p = q + 18 * pre.len();
        let whole = data.subrange(q, q + 18 * ns.len());
        assert(data.subrange(q, p) =~= whole.subrange(0, 18 * pre.len() as int));
        assert(whole.subrange(0, 18 * pre.len() as int) =~= notes_bytes(pre, little));
        lemma_parse_written_notes(data, q, pre, little);
        lemma_word_len(n.pos.0 as u64, little);
        lemma_word_len(n.len.0 as u64, little);
        let nb = note_bytes(n, little);
        assert(whole.subrange(18 * pre.len() as int, 18 * ns.len() as int) =~= nb);
        assert(data.subrange(p, p + 8) =~= nb.subrange(0, 8));
        assert(nb.subrange(0, 8) =~= word(n.pos.0 as u64, little));
        assert(data.subrange(p + 8, p + 16) =~= nb.subrange(8, 16));
        assert(nb.subrange(8, 16) =~= word(n.len.0 as u64, little));
        lemma_word(data, p, n.pos.0 as u64, little);
        lemma_word(data, p + 8, n.len.0 as u64, little);
        assert(data[p + 16] == nb[16]);
        assert(data[p + 17] == nb[17]);
        assert(note_at(data, p, little) == Some(n));
        assert(pre.push(n) =~= ns);
    }
}

/// The payload of fewer channels is a prefix of the payload of more.
proof fn lemma_block_prefix(chs: Seq<Seq<MidiNoteDesc>>, k: int, m: int, little: bool)
    requires
        0 <= k <= m,
    ensures
        block_bytes(chs, k, little).len() <= block_bytes(chs, m, little).len(),
        block_bytes(chs, m, little).subrange(0, block_bytes(chs, k, little).len() as int)
            == block_bytes(chs, k, little),
    decreases m - k,
{
    if k < m {
        lemma_block_prefix(chs, k, m - 1, little);
        let a = block_bytes(chs, k, little);
        let b = block_bytes(chs, m - 1, little);
        let c = block_bytes(chs, m, little);
        assert(c.subrange(0, b.len() as int) =~= b);
        assert(c.subrange(0, a.len() as int) =~= b.subrange(0, a.len() as int));
    } else {
        assert(block_bytes(chs, m, little).subrange(0, block_bytes(chs, k, little).len() as int)
            =~= block_bytes(chs, k, little));
    }
}

/// The first `k` channels of `chs`, the others empty.
pub open spec fn channels_upto(chs: Seq<Seq<MidiNoteDesc>>, k: int) -> Seq<Seq<MidiNoteDesc>> {
    Seq::new(
        MIDI_CHANNELS as nat,
        |c: int|
            if c < k {
                chs[c]
            } else {
                Seq::<MidiNoteDesc>::empty()
            },
    )
}

/// Reading the record of a non-empty channel `k` moves from the end of the
/// first `k` channels' payload to the end of the first `k + 1`.
proof fn lemma_record_step(chs: Seq<Seq<MidiNoteDesc>>, k: int, little: bool)
    requires
        chs.len() == MIDI_CHANNELS,
        0 <= k < MIDI_CHANNELS,
        chs[k].len() > 0,
        chs[k].len() <= usize::MAX,
    ensures
        parse_records(
            block_bytes(chs, MIDI_CHANNELS as int, little),
            block_bytes(chs, k, little).len() as int,
            channels_upto(chs, k),
            little,
        ) == parse_records(
            block_bytes(chs, MIDI_CHANNELS as int, little),
            block_bytes(chs, k + 1, little).len() as int,
            channels_upto(chs, k + 1),
            little,
        ),
{
    let d = block_bytes(chs, MIDI_CHANNELS as int, little);
    let pos = block_bytes(chs, k, little).len() as int;
    let ns = chs[k];
    let rec = record_bytes(k, ns, little);
    let next = block_bytes(chs, k + 1, little);
    lemma_block_prefix(chs, k + 1, MIDI_CHANNELS as int, little);
    lemma_notes_len(ns, little);
    lemma_word_len(ns.len() as u64, little);
    assert(next =~= block_bytes(chs, k, little) + rec);
    let end = next.len() as int;
    assert(d.subrange(0, end) == next);
    assert(d.subrange(pos, end) =~= rec) by {
        assert(d.subrange(pos, end) =~= next.subrange(pos, end));
    }
    assert(d[pos] == rec[0]);
    assert(d.subrange(pos + 1, pos + 9) =~= rec.subrange(1, 9));
    assert(rec.subrange(1, 9) =~= word(ns.len() as u64, little));
    lemma_word(d, pos + 1, ns.len() as u64, little);
    assert(d.subrange(pos + 9, pos + 9 + 18 * ns.len()) =~= rec.subrange(9, 9 + 18 * ns.len() as int));
    assert(rec.subrange(9, 9 + 18 * ns.len() as int) =~= notes_bytes(ns, little));
    lemma_parse_written_notes(d, pos + 9, ns, little);
    let acc = channels_upto(chs, k);
    assert(acc[k] + ns =~= ns);
    assert(acc.update(k, acc[k] + ns) =~= channels_upto(chs, k + 1));
}

proof fn lemma_records_from(chs: Seq<Seq<MidiNoteDesc>>, k: int, little: bool)
    requires
        chs.len() == MIDI_CHANNELS,
        0 <= k <= MIDI_CHANNELS,
        forall|c: int| 0 <= c < MIDI_CHANNELS ==> (#[trigger] chs[c]).len() <= usize::MAX,
    ensures
        parse_records(
            block_bytes(chs, MIDI_CHANNELS as int, little),
            block_bytes(chs, k, little).len() as int,
            channels_upto(chs, k),
            little,
        ) == Some(chs),
    decreases MIDI_CHANNELS - k,
{
    lemma_block_prefix(chs, k, MIDI_CHANNELS as int, little);
    if k == MIDI_CHANNELS {
        assert(channels_upto(chs, k) =~= chs);
    } else {
        lemma_records_from(chs, k + 1, little);
        if chs[k].len() == 0 {
            assert(block_bytes(chs, k + 1, little) =~= block_bytes(chs, k, little));
            assert forall|c: int| 0 <= c < MIDI_CHANNELS implies channels_upto(chs, k + 1)[c]
                =~= channels_upto(chs, k)[c] by {}
            assert(channels_upto(chs, k + 1) =~= channels_upto(chs, k));
        } else {
            lemma_record_step(chs, k, little);
        }
    }
}

/// A payload written for sixteen channels reads back as the same channels.
pub proof fn lemma_payload_round_trip(chs: Seq<Seq<MidiNoteDesc>>, little: bool)
    requires
        chs.len() == MIDI_CHANNELS,
        forall|c: int| 0 <= c < MIDI_CHANNELS ==> (#[trigger] chs[c]).len() <= usize::MAX,
    ensures
        decode(block_bytes(chs, MIDI_CHANNELS as int, little), little) == Some(chs),
{
    lemma_records_from(chs, 0, little);
    assert(channels_upto(chs, 0) =~= empty_channels());
}

impl MidiBlock {
    /// The payload of the block in this machine's byte order.
    pub fn save(&self) -> (r: Vec<u8>)
        requires
            self.wf(),
        ensures
            r@ == block_bytes(self.view(), MIDI_CHANNELS as int, true) || r@ == block_bytes(
                self.view(),
                MIDI_CHANNELS as int,
                false,
            ),
    {
        self.save_with_order(native_is_little())
    }

    /// Replaces the block with the one a payload in this machine's byte
    /// order describes. A malformed payload leaves the block as it was and
    /// returns false.
    pub fn load(&mut self, data: &[u8]) -> (ok: bool)
        requires
            old(self).wf(),
        ensures
            final(self).wf(),
            ok ==> decode(data@, true) == Some(final(self).view()) || decode(data@, false) == Some(
                final(self).view(),
            ),
            !ok ==> final(self).view() == old(self).view(),
            !ok ==> decode(data@, true).is_none() || decode(data@, false).is_none(),
    {
        match MidiBlock::load_with_order(data, native_is_little()) {
            Some(b) => {
                *self = b;
                true
            },
            None => false,
        }
    }

    /// The block a payload describes, reading integers in the given byte
    /// order; `None` when the payload is malformed.
    pub fn load_with_order(data: &[u8], little: bool) -> (r: Option<MidiBlock>)
        ensures
            match r {
                Some(b) => b.wf() && decode(data@, little) == Some(b.view()),
                None => decode(data@, little).is_none(),
            },
    {
        let mut block = MidiBlock::new();
        proof {
            assert forall|c: int| 0 <= c < MIDI_CHANNELS implies block.view()[c] =~= empty_channels()[c] by {}
            assert(block.view() =~= empty_channels());
        }
        let n = data.len();
        let mut i: usize = 0;
        while i < n
            invariant
                n == data@.len(),
                i <= n,
                block.wf(),
                decode(data@, little) == parse_records(data@, i as int, block.view(), little),
            decreases n - i,
        {
            if n - i < 9 {
                return None;
            }
            let ch = data[i] as usize;
            if ch >= MIDI_CHANNELS {
                return None;
            }
            let count = read_word(data, i + 1, little);
            let ghost acc = block.view();
            let mut notes: Vec<MidiNoteDesc> = Vec::new();
            block.channels.set_and_swap(ch, &mut notes);
            let ghost old_notes = notes@;
            let ghost mut fresh: Seq<MidiNoteDesc> = Seq::empty();
            let mut p: usize = i + 9;
            let mut j: u64 = 0;
            while j < count
                invariant
                    n == data@.len(),
                    i + 9 <= p <= n,
                    j <= count,
                    notes@ == old_notes + fresh,
                    parse_notes(data@, i + 9, j as nat, little) == Some((fresh, p as int)),
                    decode(data@, little) == parse_records(data@, i as int, acc, little),
                    acc.len() == MIDI_CHANNELS,
                    ch < MIDI_CHANNELS,
                    data@[i as int] as int == ch,
                    count == word_at(data@, i + 1, little),
                    i < n,
                decreases count - j,
            {
                if n - p < NOTE_BYTES {
                    proof {
                        lemma_notes_fail(data@, i + 9, (j + 1) as nat, count as nat, little);
                        assert(parse_records(data@, i as int, acc, little).is_none());
                    }
                    return None;
                }
                let pos = read_word(data, p, little);
                let len = read_word(data, p + 8, little);
                if pos > usize::MAX as u64 || len > usize::MAX as u64 {
                    proof {
                        assert(note_at(data@, p as int, little).is_none());
                        lemma_notes_fail(data@, i + 9, (j + 1) as nat, count as nat, little);
                        assert(parse_records(data@, i as int, acc, little).is_none());
                    }
                    return None;
                }
                let note = MidiNoteDesc {
                    pos: TlUnit(pos as usize),
                    len: TlUnit(len as usize),
                    note: data[p + 16],
                    vel: data[p + 17],
                };
                notes.push(note);
                proof {
                    assert(note_at(data@, p as int, little) == Some(note));
                    fresh = fresh.push(note);
                    assert(notes@ =~= old_notes + fresh);
                }
                p = p + NOTE_BYTES;
                j = j + 1;
            }
            block.channels.set_and_swap(ch, &mut notes);
            proof {
                assert(old_notes == acc[ch as int]);
                assert(block.view() =~= acc.update(ch as int, acc[ch as int] + fresh));
            }
            i = p;
        }
        Some(block)
    }

    /// The payload of the block, with integers in the given byte order.
    pub fn save_with_order(&self, little: bool) -> (r: Vec<u8>)
        requires
            self.wf(),
        ensures
            r@ == block_bytes(self.view(), MIDI_CHANNELS as int, little),
    {
        let mut out: Vec<u8> = Vec::new();
        let mut c: usize = 0;
        while c < MIDI_CHANNELS
            invariant
                self.wf(),
                c <= MIDI_CHANNELS,
                out@ == block_bytes(self.view(), c as int, little),
            decreases MIDI_CHANNELS - c,
        {
            let notes = &self.channels[c];
            proof {
                assert(self.view()[c as int] == notes@);
            }
            if notes.len() > 0 {
                let ghost base = out@;
                out.push(c as u8);
                push_word(&mut out, notes.len() as u64, little);
                let mut k: usize = 0;
                while k < notes.len()
                    invariant
                        k <= notes@.len(),
                        out@ == base + seq![c as u8] + word(notes@.len() as u64, little) + notes_bytes(
                            notes@.subrange(0, k as int),
                            little,
                        ),
                    decreases notes@.len() - k,
                {
                    let n = notes[k];
                    proof {
                        assert(notes@.subrange(0, k as int + 1).drop_last() =~= notes@.subrange(0, k as int));
                    }
                    push_word(&mut out, n.pos.0 as u64, little);
                    push_word(&mut out, n.len.0 as u64, little);
                    out.push(n.note);
                    out.push(n.vel);
                    proof {
                        assert(out@ =~= base + seq![c as u8] + word(notes@.len() as u64, little)
                            + notes_bytes(notes@.subrange(0, k as int + 1), little));
                    }
                    k += 1;
                }
                proof {
                    assert(notes@.subrange(0, k as int) =~= notes@);
                    assert(out@ =~= block_bytes(self.view(), c as int + 1, little));
                }
            } else {
                proof {
                    assert(out@ =~= block_bytes(self.view(), c as int + 1, little));
                }
            }
            c += 1;
        }
        out
    }
}

} // verus!
