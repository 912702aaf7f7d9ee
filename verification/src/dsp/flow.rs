//! When the rows of the waterfalls are sent, and what is in them.
use super::adpcm;
use super::adpcm::{audio_packet, AdpcmState};
use crate::types::{DecodeBuffer, RustStatus, FFT_SIZE, TARGET_BINS};
use crate::wire::push_bytes;
use vstd::prelude::*;

verus! {

/// The count of spectra since the last row of the wide waterfall; a row is
/// sent where it comes back to zero.
pub fn next_wf_counter(counter: u8, speed: u8) -> (r: u8)
    requires
        counter < 255,
    ensures
        r == (counter + 1) % (if speed == 0 {
            1int
        } else {
            speed as int
        }),
        r < 255,
{
    let period: u8 = if speed == 0 {
        1
    } else {
        speed
    };
    (counter + 1) % period
}

/// A row of a waterfall as clients are sent it.
pub fn row_packet(tag: u8, levels: &[u8]) -> (r: Vec<u8>)
    ensures
        r@ == seq![tag] + levels@,
{
    let mut pkt: Vec<u8> = Vec::new();
    pkt.push(tag);
    push_bytes(&mut pkt, levels);
    assert(pkt@ =~= seq![tag] + levels@);
    pkt
}

/// Whether a row of the FT8 waterfall marks the start of a time slot: the
/// first in a second that is a multiple of 15.
pub open spec fn marks_slot(last_marked: u32, second: u32) -> bool {
    second % 15 == 0 && second != last_marked
}

/// A row of the FT8 waterfall as clients are sent it: the levels, or full
/// levels where a time slot starts. `last_marked` is the second of the last
/// row with full levels.
pub fn ft8_row_packet(last_marked: &mut u32, second: u32, levels: &Vec<u8>) -> (r: Vec<u8>)
    ensures
        r@ == if marks_slot(*old(last_marked), second) {
            seq![0x04u8] + Seq::new(TARGET_BINS as nat, |i: int| 255u8)
        } else {
            seq![0x04u8] + levels@
        },
        *final(last_marked) == if marks_slot(*old(last_marked), second) {
            second
        } else {
            *old(last_marked)
        },
{
    if second % 15 == 0 && second != *last_marked {
        *last_marked = second;
        let mut full: Vec<u8> = Vec::new();
        let mut i: usize = 0;
        while i < TARGET_BINS
            invariant
                i <= TARGET_BINS,
                full@ =~= Seq::new(i as nat, |i: int| 255u8),
            decreases TARGET_BINS - i,
        {
            full.push(255);
            i += 1;
        }
        row_packet(0x04, full.as_slice())
    } else {
        row_packet(0x04, levels.as_slice())
    }
}

/// Whether the station is sending in a second of the minute: it has a message
/// to send, the slot is its own, and the slot is not in its last two seconds.
pub open spec fn sending(status: RustStatus, second: int) -> bool {
    &&& status.auto_tx_mode > 0
    &&& status.pending_msg@[0] != 0
    &&& (status.tx_window_even == 1) == (second % 30 < 15)
    &&& second % 15 < 13
}

/// Tells whether the station is sending in a second of the minute.
pub fn is_txing(status: &RustStatus, second: u32) -> (r: bool)
    ensures
        r == sending(*status, second as int),
{
    status.auto_tx_mode > 0 && status.pending_msg[0] != 0 && (status.tx_window_even == 1) == (second
        % 30 < 15) && second % 15 < 13
}

/// What becomes of a sample of a signal whose spectrum is shown.
#[derive(Clone, Copy, Debug, PartialEq, Eq, Structural)]
pub enum Fill {
    /// The spectrum is not shown: the sample and those that wait are dropped.
    Drop,
    /// The sample waits with the others.
    Keep,
    /// The sample is the last of a spectrum, which is shown; then none waits.
    Full,
}

/// Says what becomes of a sample where `len` samples wait for their spectrum.
pub fn next_fill(on: bool, len: usize) -> (r: Fill)
    ensures
        r == if !on {
            Fill::Drop
        } else if len + 1 >= FFT_SIZE {
            Fill::Full
        } else {
            Fill::Keep
        },
{
    if !on {
        Fill::Drop
    } else if len >= FFT_SIZE - 1 {
        Fill::Full
    } else {
        Fill::Keep
    }
}

/// The samples in a packet of audio.
pub const AUDIO_BLOCK: usize = 256;

/// The audio on its way to clients.
pub struct AudioFeed {
    pub state: AdpcmState,
    pub waiting: Vec<i16>,
}

/// What came of a sample of audio.
pub enum AudioStep {
    Nothing,
    /// A packet for clients.
    Packet(Vec<u8>),
    /// A sample of the block is too far from the prediction to be encoded.
    Overflow,
}

impl AudioFeed {
    /// Fewer samples wait than a packet holds.
    pub open spec fn wf(&self) -> bool {
        self.state.wf() && self.waiting@.len() < AUDIO_BLOCK
    }

    /// No audio was sent yet.
    pub fn new() -> (r: AudioFeed)
        ensures
            r.wf(),
            r.state.valprev == 0,
            r.state.index == 0,
            r.waiting@ == Seq::<i16>::empty(),
    {
        AudioFeed { state: AdpcmState::new(), waiting: Vec::new() }
    }

    /// Takes a sample of audio. Where audio is off, it is dropped with those
    /// that wait; a packet holds those that waited and the sample.
    pub fn push(&mut self, on: bool, sample: i16) -> (r: AudioStep)
        requires
            old(self).wf(),
        ensures
            final(self).wf(),
            ({
                let all = old(self).waiting@.push(sample);
                if !on {
                    &&& r is Nothing
                    &&& final(self).state == old(self).state
                    &&& final(self).waiting@ == Seq::<i16>::empty()
                } else if all.len() < AUDIO_BLOCK {
                    &&& r is Nothing
                    &&& final(self).state == old(self).state
                    &&& final(self).waiting@ == all
                } else {
                    &&& final(self).waiting@ == Seq::<i16>::empty()
                    &&& r is Packet <==> adpcm::all_fit(old(self).state, all)
                    &&& r is Overflow <==> !adpcm::all_fit(old(self).state, all)
                    &&& r matches AudioStep::Packet(pkt) ==> {
                        &&& pkt@ == adpcm::audio_bytes(old(self).state, all)
                        &&& final(self).state == adpcm::state_after(old(self).state, all)
                    }
                }
            }),
    {
        if !on {
            self.waiting.clear();
            return AudioStep::Nothing;
        }
        self.waiting.push(sample);
        if self.waiting.len() < AUDIO_BLOCK {
            return AudioStep::Nothing;
        }
        let pkt = audio_packet(&self.waiting, &mut self.state);
        self.waiting.clear();
        match pkt {
            Some(pkt) => AudioStep::Packet(pkt),
            None => AudioStep::Overflow,
        }
    }
}

/// The samples that are handed to the decoder at a time.
pub const SAMPLE_BLOCK: usize = 128;

/// The samples on their way to the decoder.
pub struct SampleFeed {
    pub waiting: Vec<i16>,
}

impl SampleFeed {
    /// Fewer samples wait than are handed on at a time.
    pub open spec fn wf(&self) -> bool {
        self.waiting@.len() < SAMPLE_BLOCK
    }

    /// No sample waits.
    pub fn new() -> (r: SampleFeed)
        ensures
            r.wf(),
            r.waiting@ == Seq::<i16>::empty(),
    {
        SampleFeed { waiting: Vec::new() }
    }

    /// Takes a sample. Where the decoder is off, it is dropped with those that
    /// wait; else it waits until there are enough to be handed on. The result
    /// says whether they were.
    pub fn push(&mut self, on: bool, sample: i16, buffer: &mut DecodeBuffer) -> (r: bool)
        requires
            old(self).wf(),
            old(buffer).wf(),
        ensures
            final(self).wf(),
            final(buffer).wf(),
            r == (on && old(self).waiting@.len() + 1 == SAMPLE_BLOCK),
            (final(buffer).samples(), final(self).waiting@) == if on {
                fed(old(buffer).samples(), old(self).waiting@, seq![sample])
            } else {
                (old(buffer).samples(), Seq::<i16>::empty())
            },
    {
        proof {
            let (held, waiting) = (buffer.samples(), self.waiting@);
            reveal_with_fuel(fed, 2);
            assert(seq![sample].drop_last() =~= Seq::<i16>::empty());
            assert(fed(held, waiting, seq![sample].drop_last()) == (held, waiting));
        }
        if !on {
            self.waiting.clear();
            return false;
        }
        self.waiting.push(sample);
        if self.waiting.len() < SAMPLE_BLOCK {
            return false;
        }
        buffer.push_all(&self.waiting);
        self.waiting.clear();
        true
    }
}

/// What the decoder holds and what waits after samples have come in while the
/// decoder is on.
pub open spec fn fed(held: Seq<i16>, waiting: Seq<i16>, samples: Seq<i16>) -> (Seq<i16>, Seq<i16>)
    decreases samples.len(),
{
    if samples.len() == 0 {
        (held, waiting)
    } else {
        let (h, w) = fed(held, waiting, samples.drop_last());
        let all = w.push(samples.last());
        if all.len() < SAMPLE_BLOCK {
            (h, all)
        } else {
            ((h + all).skip(SAMPLE_BLOCK as int), Seq::empty())
        }
    }
}

/// No sample is lost or overtaken while the decoder is on: what it holds and
/// what waits are the last samples, in the order in which they came.
pub proof fn law_samples_stay_in_order(held: Seq<i16>, waiting: Seq<i16>, samples: Seq<i16>)
    requires
        waiting.len() < SAMPLE_BLOCK <= held.len(),
    ensures
        ({
            let (h, w) = fed(held, waiting, samples);
            let all = held + waiting + samples;
            &&& h.len() == held.len()
            &&& w.len() < SAMPLE_BLOCK
            &&& w.len() <= waiting.len() + samples.len()
            &&& h + w == all.skip(all.len() - h.len() - w.len())
        }),
    decreases samples.len(),
{
    let all = held + waiting + samples;
    let (h, w) = fed(held, waiting, samples);
    if samples.len() == 0 {
        assert(h + w =~= all.skip(0));
    } else {
        let less = samples.drop_last();
        law_samples_stay_in_order(held, waiting, less);
        let (h0, w0) = fed(held, waiting, less);
        let before = held + waiting + less;
        let k = before.len() - h0.len() - w0.len();
        assert(all =~= before.push(samples.last()));
        assert(all.skip(k) =~= before.skip(k).push(samples.last()));
        assert(h0 + w0.push(samples.last()) =~= all.skip(k));
        if w0.len() + 1 < SAMPLE_BLOCK {
            assert(h + w =~= all.skip(k));
        } else {
            assert(h + w =~= all.skip(k).skip(SAMPLE_BLOCK as int));
            assert(all.skip(k).skip(SAMPLE_BLOCK as int) =~= all.skip(k + SAMPLE_BLOCK));
        }
    }
}

/// The station sends in the first thirteen seconds of the slots that were
/// chosen, while it has something to send and sending is on.
pub proof fn law_when_the_station_sends(status: RustStatus, second: int)
    requires
        0 <= second < 60,
    ensures
        status.auto_tx_mode == 0 || status.pending_msg@[0] == 0 ==> !sending(status, second),
        status.auto_tx_mode != 0 && status.pending_msg@[0] != 0 ==> {
            &&& status.tx_window_even == 1 ==> (sending(status, second) <==> second <= 12 || 30
                <= second <= 42)
            &&& status.tx_window_even != 1 ==> (sending(status, second) <==> 15 <= second <= 27 || 45
                <= second <= 57)
        },
{
}

/// A row of full levels marks each start of a slot, once.
pub proof fn law_marks_of_slots(last: u32, second: u32)
    requires
        second < 60,
    ensures
        marks_slot(last, second) ==> second == 0 || second == 15 || second == 30 || second == 45,
        (second == 0 || second == 15 || second == 30 || second == 45) && last != second
            ==> marks_slot(last, second),
        !marks_slot(second, second),
{
}

} // verus!
