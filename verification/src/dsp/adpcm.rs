//! Compression of the audio stream: four bits for each sample.
use crate::wire;
use crate::wire::push_u16_le;
use vstd::prelude::*;

verus! {

/// What the next sample is predicted from.
#[derive(Clone, Copy, Debug, PartialEq, Eq, Structural)]
pub struct AdpcmState {
    pub valprev: i16,
    pub index: i16,
}

/// How the step changes with each code.
pub const INDEX_TABLE: [i16; 16] = [-1, -1, -1, -1, 2, 4, 6, 8, -1, -1, -1, -1, 2, 4, 6, 8];

/// The steps.
pub const STEP_TABLE: [i16; 89] = [
    7, 8, 9, 10, 11, 12, 13, 14, 16, 17, 19, 21, 23, 25, 28, 31, 34, 37, 41, 45, 50, 55, 60, 66, 73,
    80, 88, 97, 107, 118, 130, 143, 157, 173, 190, 209, 230, 253, 279, 307, 337, 371, 408, 449, 494,
    544, 598, 658, 724, 796, 876, 963, 1060, 1166, 1282, 1411, 1552, 1707, 1878, 2066, 2272, 2499,
    2749, 3024, 3327, 3660, 4026, 4428, 4871, 5358, 5894, 6484, 7132, 7845, 8630, 9493, 10442,
    11487, 12635, 13899, 15289, 16818, 18500, 20350, 22385, 24623, 27086, 29794, 32767,
];

/// The size of a number without its sign.
pub open spec fn magnitude(d: int) -> int {
    if d < 0 {
        -d
    } else {
        d
    }
}

/// What is left of a difference after a part of the step was taken off it, if
/// it is not below that part.
pub open spec fn less(d: int, part: int) -> int {
    if d >= part {
        d - part
    } else {
        d
    }
}

/// The code for a difference at a step: its sign and, in units of a quarter
/// of the step, how often the step goes into it.
pub open spec fn code_for(diff: int, step: int) -> int {
    let d = magnitude(diff);
    let d1 = less(d, step);
    let d2 = less(d1, step / 2);
    (if diff < 0 {
        8int
    } else {
        0
    }) + (if d >= step {
        4int
    } else {
        0
    }) + (if d1 >= step / 2 {
        2int
    } else {
        0
    }) + (if d2 >= step / 4 {
        1int
    } else {
        0
    })
}

/// The difference that a code stands for at a step, without its sign.
pub open spec fn quantised(code: int, step: int) -> int {
    step / 8 + (if code % 8 >= 4 {
        step
    } else {
        0
    }) + (if code % 4 >= 2 {
        step / 2
    } else {
        0
    }) + (if code % 2 == 1 {
        step / 4
    } else {
        0
    })
}

/// A number cut to the range of samples.
pub open spec fn cut16(n: int) -> int {
    if n < -32768 {
        -32768
    } else if n > 32767 {
        32767
    } else {
        n
    }
}

/// A number cut to the indices of the steps.
pub open spec fn cut_index(n: int) -> int {
    if n < 0 {
        0
    } else if n > 88 {
        88
    } else {
        n
    }
}

impl AdpcmState {
    /// The index names a step.
    pub open spec fn wf(self) -> bool {
        0 <= self.index <= 88
    }

    /// The step.
    pub open spec fn step(self) -> int {
        STEP_TABLE@[self.index as int] as int
    }

    /// The code of a sample.
    pub open spec fn code(self, sample: i16) -> int {
        code_for(sample - self.valprev, self.step())
    }

    /// Whether the difference to a sample, and what its code stands for, fit
    /// in sixteen bits.
    pub open spec fn fits(self, sample: i16) -> bool {
        &&& -32767 <= sample - self.valprev <= 32767
        &&& quantised(self.code(sample), self.step()) <= 32767
    }

    /// The state after a sample.
    pub open spec fn next(self, sample: i16) -> AdpcmState {
        let code = self.code(sample);
        let q = quantised(code, self.step());
        AdpcmState {
            valprev: cut16(
                if code >= 8 {
                    self.valprev - q
                } else {
                    self.valprev + q
                },
            ) as i16,
            index: cut_index(self.index + INDEX_TABLE@[code]) as i16,
        }
    }

    /// The state at the start of a stream.
    pub fn new() -> (r: AdpcmState)
        ensures
            r.wf(),
            r.valprev == 0,
            r.index == 0,
    {
        AdpcmState { valprev: 0, index: 0 }
    }
}

proof fn lemma_steps(i: int)
    requires
        0 <= i < 89,
    ensures
        7 <= STEP_TABLE@[i] <= 32767,
{
}

fn code_of(diff: i32, step: i32) -> (code: u8)
    requires
        -65535 <= diff <= 65535,
        7 <= step <= 32767,
    ensures
        code == code_for(diff as int, step as int),
        code < 16,
{
    let mut d: i32 = diff;
    let mut code: u8 = 0;
    if d < 0 {
        code = 8;
        d = -d;
    }
    if d >= step {
        code = code + 4;
        d = d - step;
    }
    let half: i32 = step / 2;
    if d >= half {
        code = code + 2;
        d = d - half;
    }
    let quarter: i32 = step / 4;
    if d >= quarter {
        code = code + 1;
    }
    code
}

fn quantised_of(code: u8, step: i32) -> (r: i32)
    requires
        code < 16,
        7 <= step <= 32767,
    ensures
        r == quantised(code as int, step as int),
        0 <= r <= 65535,
{
    let mut q: i32 = step / 8;
    if code % 8 >= 4 {
        q = q + step;
    }
    if code % 4 >= 2 {
        q = q + step / 2;
    }
    if code % 2 == 1 {
        q = q + step / 4;
    }
    q
}

/// Tells whether a sample can be encoded: whether the difference to it, and
/// what its code stands for, fit in sixteen bits.
pub fn adpcm_fits(sample: i16, state: &AdpcmState) -> (r: bool)
    requires
        state.wf(),
    ensures
        r == state.fits(sample),
{
    proof {
        lemma_steps(state.index as int);
    }
    let step: i32 = STEP_TABLE[state.index as usize] as i32;
    let diff: i32 = sample as i32 - state.valprev as i32;
    let code = code_of(diff, step);
    -32767 <= diff && diff <= 32767 && quantised_of(code, step) <= 32767
}

/// Encodes a sample in four bits.
pub fn encode_adpcm(sample: i16, state: &mut AdpcmState) -> (code: u8)
    requires
        old(state).wf(),
        old(state).fits(sample),
    ensures
        code == old(state).code(sample),
        code < 16,
        *final(state) == old(state).next(sample),
        final(state).wf(),
{
    proof {
        lemma_steps(state.index as int);
    }
    let step: i32 = STEP_TABLE[state.index as usize] as i32;
    let diff: i32 = sample as i32 - state.valprev as i32;
    let code = code_of(diff, step);
    let q = quantised_of(code, step);
    let val: i32 = if code >= 8 {
        state.valprev as i32 - q
    } else {
        state.valprev as i32 + q
    };
    state.valprev = if val < -32768 {
        -32768
    } else if val > 32767 {
        32767
    } else {
        val as i16
    };
    let step_change: i16 = INDEX_TABLE[code as usize];
    assert(-1 <= step_change <= 8);
    let index: i16 = state.index + step_change;
    state.index = if index < 0 {
        0
    } else if index > 88 {
        88
    } else {
        index
    };
    code
}

/// The prediction lands within an eighth of a step and two of a sample whose
/// difference is below twice the step.
pub proof fn law_prediction_is_near(state: AdpcmState, sample: i16)
    requires
        state.wf(),
        state.fits(sample),
        magnitude(sample - state.valprev) < 2 * state.step(),
    ensures
        magnitude(sample - state.next(sample).valprev) <= state.step() / 8 + 2,
{
    lemma_steps(state.index as int);
    let step = state.step();
    let diff = sample - state.valprev;
    let d = magnitude(diff);
    let code = code_for(diff, step);
    let q = quantised(code, step);
    let d1 = less(d, step);
    let d2 = less(d1, step / 2);
    let d3 = less(d2, step / 4);
    assert(d - q == d3 - step / 8);
    assert(0 <= d3 <= step / 4 + 1);
    assert(magnitude(d - q) <= step / 8 + 2);
}

/// The codes and states of samples, in turn.
pub open spec fn state_after(state: AdpcmState, samples: Seq<i16>) -> AdpcmState
    decreases samples.len(),
{
    if samples.len() == 0 {
        state
    } else {
        state_after(state, samples.drop_last()).next(samples.last())
    }
}

/// Whether all samples can be encoded in turn.
pub open spec fn all_fit(state: AdpcmState, samples: Seq<i16>) -> bool {
    forall|i: int|
        0 <= i < samples.len() ==> #[trigger] state_after(state, samples.take(i)).fits(samples[i])
}

/// The code of sample `i`, encoded after those before it.
pub open spec fn code_at(state: AdpcmState, samples: Seq<i16>, i: int) -> int {
    state_after(state, samples.take(i)).code(samples[i])
}

/// A packet of audio: the state at its start, then two codes in each byte,
/// the first in the low half.
pub open spec fn audio_bytes(state: AdpcmState, samples: Seq<i16>) -> Seq<u8> {
    seq![0x05u8] + wire::bytes16_le(
        if state.valprev < 0 {
            state.valprev + 0x1_0000
        } else {
            state.valprev as int
        },
    ) + seq![state.index as u8] + Seq::new(
        (samples.len() / 2) as nat,
        |k: int|
            (code_at(state, samples, 2 * k) + 16 * code_at(state, samples, 2 * k + 1)) as u8,
    )
}

/// Encodes samples, two in a byte, into a packet of audio. There is none if
/// some sample cannot be encoded.
pub fn audio_packet(samples: &Vec<i16>, state: &mut AdpcmState) -> (r: Option<Vec<u8>>)
    requires
        old(state).wf(),
        samples@.len() % 2 == 0,
    ensures
        r is Some <==> all_fit(*old(state), samples@),
        r matches Some(pkt) ==> pkt@ == audio_bytes(*old(state), samples@) && *final(state)
            == state_after(*old(state), samples@),
        final(state).wf(),
{
    let ghost start = *state;
    let mut pkt: Vec<u8> = Vec::new();
    pkt.push(0x05);
    let val: u16 = if state.valprev < 0 {
        (state.valprev as i32 + 0x1_0000) as u16
    } else {
        state.valprev as u16
    };
    push_u16_le(&mut pkt, val);
    pkt.push(state.index as u8);
    let ghost head = pkt@;
    let mut i: usize = 0;
    let ghost pair = |k: int|
        (code_at(start, samples@, 2 * k) + 16 * code_at(start, samples@, 2 * k + 1)) as u8;
    assert(samples@.take(0) =~= Seq::<i16>::empty());
    assert(head + Seq::new(0, pair) =~= head);
    while i < samples.len()
        invariant
            start == *old(state),
            start.wf(),
            samples@.len() % 2 == 0,
            i % 2 == 0,
            i <= samples@.len(),
            state.wf(),
            *state == state_after(start, samples@.take(i as int)),
            pair == (|k: int|
                (code_at(start, samples@, 2 * k) + 16 * code_at(start, samples@, 2 * k + 1)) as u8),
            pkt@ == head + Seq::new((i / 2) as nat, pair),
            forall|k: int|
                0 <= k < i ==> #[trigger] state_after(start, samples@.take(k)).fits(samples@[k]),
        decreases samples@.len() - i,
    {
        if !adpcm_fits(samples[i], state) {
            assert(!state_after(start, samples@.take(i as int)).fits(samples@[i as int]));
            return None;
        }
        let c1 = encode_adpcm(samples[i], state);
        assert(samples@.take(i + 1).drop_last() =~= samples@.take(i as int));
        assert(*state == state_after(start, samples@.take(i + 1)));
        if !adpcm_fits(samples[i + 1], state) {
            assert(!state_after(start, samples@.take(i + 1)).fits(samples@[i + 1]));
            return None;
        }
        let c2 = encode_adpcm(samples[i + 1], state);
        assert(samples@.take(i + 2).drop_last() =~= samples@.take(i + 1));
        assert(*state == state_after(start, samples@.take(i + 2)));
        let ghost before = pkt@;
        pkt.push(c1 + 16 * c2);
        proof {
            let k = (i / 2) as int;
            assert(2 * k == i);
            assert(pair(k) == c1 + 16 * c2);
            assert(pkt@ =~= head + Seq::new((k + 1) as nat, pair));
        }
        i += 2;
    }
    assert(samples@.take(i as int) =~= samples@);
    assert(pkt@ =~= audio_bytes(start, samples@));
    Some(pkt)
}

} // verus!
