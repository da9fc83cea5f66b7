use smallvec::SmallVec;
use vstd::prelude::*;

use crate::midi::MidiMessage;

verus! {

/// The ordered messages that arrive within one frame, held in a `SmallVec`
/// so that up to four need no heap allocation. Verus does not accept a
/// declaration of `SmallVec` itself, so the struct is opaque and its contents
/// are named by `chain_items`.
#[verifier::external_body]
pub struct MidiMessageChain {
    inner: SmallVec<[MidiMessage; 4]>,
}

/// The messages a chain holds, in order.
pub uninterp spec fn chain_items(c: MidiMessageChain) -> Seq<MidiMessage>;

impl View for MidiMessageChain {
    type V = Seq<MidiMessage>;

    open spec fn view(&self) -> Seq<MidiMessage> {
        chain_items(*self)
    }
}

/// Relies on `SmallVec::new`: a new vector holds nothing.
#[verifier::external_body]
fn sv_new() -> (r: MidiMessageChain)
    ensures
        chain_items(r).len() == 0,
{
    MidiMessageChain { inner: SmallVec::new() }
}

/// Relies on `SmallVec::push`: the item is appended after the others. It
/// panics only when the length would overflow `usize`.
#[verifier::external_body]
fn sv_push(c: &mut MidiMessageChain, m: MidiMessage)
    requires
        chain_items(*old(c)).len() < usize::MAX,
    ensures
        chain_items(*final(c)) == chain_items(*old(c)).push(m),
{
    c.inner.push(m)
}

/// Relies on `SmallVec::len`: the number of items held.
#[verifier::external_body]
fn sv_len(c: &MidiMessageChain) -> (r: usize)
    ensures
        r == chain_items(*c).len(),
{
    c.inner.len()
}

/// Relies on indexing a `SmallVec` (through its slice): the item at `i`.
#[verifier::external_body]
fn sv_get(c: &MidiMessageChain, i: usize) -> (r: MidiMessage)
    requires
        i < chain_items(*c).len(),
    ensures
        r == chain_items(*c)[i as int],
{
    c.inner[i]
}

/// Relies on `SmallVec::clear`: every item is removed.
#[verifier::external_body]
fn sv_clear(c: &mut MidiMessageChain)
    ensures
        chain_items(*final(c)).len() == 0,
{
    c.inner.clear()
}

impl MidiMessageChain {
    pub fn new() -> (r: MidiMessageChain)
        ensures
            r@.len() == 0,
    {
        sv_new()
    }

    pub fn len(&self) -> (r: usize)
        ensures
            r == self@.len(),
    {
        sv_len(self)
    }

    pub fn is_empty(&self) -> (r: bool)
        ensures
            r == (self@.len() == 0),
    {
        sv_len(self) == 0
    }

    pub fn get(&self, i: usize) -> (r: MidiMessage)
        requires
            i < self@.len(),
        ensures
            r == self@[i as int],
    {
        sv_get(self, i)
    }

    pub fn push(&mut self, m: MidiMessage)
        requires
            old(self)@.len() < usize::MAX,
        ensures
            final(self)@ == old(self)@.push(m),
    {
        sv_push(self, m)
    }

    pub fn clear(&mut self)
        ensures
            final(self)@.len() == 0,
    {
        sv_clear(self)
    }

    /// Appends a copy of every message of `other`, in order.
    pub fn append(&mut self, other: &MidiMessageChain)
        requires
            old(self)@.len() + other@.len() < usize::MAX,
        ensures
            final(self)@ == old(self)@ + other@,
    {
        let n = other.len();
        let mut i: usize = 0;
        while i < n
            invariant
                n == other@.len(),
                i <= n,
                old(self)@.len() + n < usize::MAX,
                self@ == old(self)@ + other@.subrange(0, i as int),
            decreases n - i,
        {
            let m = other.get(i);
            self.push(m);
            proof {
                assert(other@.subrange(0, i as int + 1) =~= other@.subrange(0, i as int).push(m));
            }
            i += 1;
        }
        proof {
            assert(other@.subrange(0, n as int) =~= other@);
        }
    }
}

impl Default for MidiMessageChain {
    fn default() -> (r: MidiMessageChain)
        ensures
            r@.len() == 0,
    {
        MidiMessageChain::new()
    }
}

} // verus!
