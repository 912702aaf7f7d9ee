//! When the decoder runs, and what becomes of what it finds.
use crate::ft8_codec::packjt77::HashCache;
use crate::ft8_qso::psk_reporter::PskSpot;
use crate::ft8_qso::qso_auto_hunter;
use crate::ft8_qso::qso_auto_hunter::{
    copy_result, AutoQsoManager, Distance, HistoryEntry, LogContext, QsoRecord,
};
use crate::ft8_qso::qso_auto_once;
use crate::ft8_qso::qso_auto_once::handle_auto_reply_logic;
use crate::outside;
use crate::radio_ctrl::parser::save_words;
use crate::text;
use crate::text::{contains_text, split_words};
use crate::types;
use crate::types::{
    clamp_i16, fixed32, wrap_i8, AppState, Ft8DecodeResult, StationConfig, WSDecodePkt,
};
use crate::wire;
use vstd::prelude::*;
use vstd::string::*;
use vstd::utf8::*;

verus! {

/// A time of day.
#[derive(Clone, Copy, Debug, PartialEq, Eq, Structural)]
pub struct Clock {
    pub hour: u32,
    pub minute: u32,
    pub second: u32,
    pub millis: u32,
}

impl Clock {
    /// The parts of a time of day are in their ranges; a leap second has
    /// more milliseconds.
    pub open spec fn wf(self) -> bool {
        self.hour < 24 && self.minute < 60 && self.second < 60 && self.millis < 2000
    }
}

/// A time slot to be decoded.
#[derive(Clone, Copy, Debug, PartialEq, Eq, Structural)]
pub struct DecodeWindow {
    /// The slot of the minute, from 0 to 3.
    pub index: i32,
    /// The start of the slot as a number of six digits.
    pub timestamp: u32,
    /// Where the first of the samples lies after the start of the slot.
    pub dt_offset_ms: i32,
    /// Whether the slot begins at second 0 or 30.
    pub is_even: bool,
}

/// The second in which a slot begins.
pub open spec fn slot_start(second: int) -> int {
    second / 15 * 15
}

/// Whether the slot of a time is due to be decoded: in the second half of its
/// last second, and once.
pub open spec fn is_due(on: bool, clock: Clock, last_window: int) -> bool {
    on && clock.second % 15 == 14 && clock.millis > 500 && clock.second / 15 != last_window
}

/// The slot that is due to be decoded, if one is. `last_window` is the one
/// that was decoded last, or -1.
pub fn decode_window(on: bool, clock: Clock, last_window: i32) -> (r: Option<DecodeWindow>)
    requires
        clock.wf(),
    ensures
        r is Some <==> is_due(on, clock, last_window as int),
        r matches Some(w) ==> {
            &&& w.index == clock.second / 15
            &&& w.timestamp == clock.hour * 10000 + clock.minute * 100 + slot_start(
                clock.second as int,
            )
            &&& w.dt_offset_ms == 1000 * clock.second + clock.millis - 16000 - 1000 * slot_start(
                clock.second as int,
            )
            &&& w.is_even == (slot_start(clock.second as int) % 30 == 0)
        },
{
    let index: i32 = (clock.second / 15) as i32;
    if on && clock.second % 15 == 14 && clock.millis > 500 && index != last_window {
        let start: u32 = clock.second / 15 * 15;
        let total: i32 = (clock.second * 1000 + clock.millis) as i32;
        Some(
            DecodeWindow {
                index,
                timestamp: clock.hour * 10000 + clock.minute * 100 + start,
                dt_offset_ms: total - 16000 - (start * 1000) as i32,
                is_even: start % 30 == 0,
            },
        )
    } else {
        None
    }
}

/// The samples that are decoded begin between one and one and a half seconds
/// before their slot does, unless a leap second intervenes.
pub proof fn law_samples_cover_the_slot(clock: Clock)
    requires
        clock.wf(),
        clock.millis < 1000,
        is_due(true, clock, -1),
    ensures
        -1500 < 1000 * clock.second + clock.millis - 16000 - 1000 * slot_start(clock.second as int)
            < -1000,
{
}

/// The bytes of a decoded message as clients are sent it. `timestamp` is the
/// start of its slot as a number of six digits.
pub open spec fn decode_bytes(res: Ft8DecodeResult, timestamp: int, dt: i16) -> Seq<u8> {
    seq![
        0x03u8,
        wire::low_byte(timestamp / 10000),
        (timestamp % 10000 / 100) as u8,
        (timestamp % 100) as u8,
        types::bits8(types::wrapped8(res.snr as int)) as u8,
    ] + wire::bytes16_le(types::bits16(dt as int)) + wire::bytes16_le(
        types::bits16(types::clamped_i16(res.freq as int)),
    ) + types::fixed(encode_utf8(res.text@), 32)
}

/// A decoded message as clients are sent it, with its time offset in tenths
/// of a second.
pub fn decode_packet(res: &Ft8DecodeResult, timestamp: u64, dt: i16) -> (r: Vec<u8>)
    ensures
        r@ == decode_bytes(*res, timestamp as int, dt),
{
    let pkt = WSDecodePkt {
        hour: (timestamp / 10000 % 256) as u8,
        minute: (timestamp % 10000 / 100) as u8,
        second: (timestamp % 100) as u8,
        snr: wrap_i8(res.snr),
        dt,
        freq: clamp_i16(res.freq),
        message: fixed32(res.text.as_str().as_bytes()),
    };
    let mut out: Vec<u8> = Vec::new();
    out.push(0x03);
    pkt.push_to(&mut out);
    assert(out@ =~= decode_bytes(*res, timestamp as int, dt));
    out
}

/// A text that there may be; else an empty one.
pub open spec fn text_or_empty(s: Option<String>) -> Seq<char> {
    match s {
        Some(t) => t@,
        None => Seq::empty(),
    }
}

fn copy_or_empty(s: &Option<String>) -> (r: String)
    ensures
        r@ == text_or_empty(*s),
{
    match s {
        Some(t) => String::from_str(t.as_str()),
        None => String::new(),
    }
}

/// Whether a spot is that of a message: there is none if the call sign of its
/// sender is not known.
pub open spec fn spots(
    res: Ft8DecodeResult,
    frequency_hz: u64,
    dt_ms: i16,
    r: Option<PskSpot>,
) -> bool {
    &&& r is Some <==> text_or_empty(res.sender_call).len() > 0 && text_or_empty(res.sender_call)
        != "..."@
    &&& r matches Some(spot) ==> {
        &&& spot.callsign@ == text_or_empty(res.sender_call)
        &&& spot.frequency_hz == frequency_hz
        &&& spot.snr == types::wrapped8(res.snr as int)
        &&& spot.dt_ms == dt_ms
        &&& spot.sender_grid@ == text_or_empty(res.grid)
    }
}

/// The station that a message is from, as it is reported.
pub fn spot_of(res: &Ft8DecodeResult, frequency_hz: u64, dt_ms: i16) -> (r: Option<PskSpot>)
    ensures
        spots(*res, frequency_hz, dt_ms, r),
{
    let callsign = copy_or_empty(&res.sender_call);
    if !crate::ft8_qso::psk_reporter::is_reportable(callsign.as_str()) {
        return None;
    }
    Some(
        PskSpot {
            callsign,
            frequency_hz,
            snr: wrap_i8(res.snr),
            dt_ms,
            sender_grid: copy_or_empty(&res.grid),
        },
    )
}

/// Where and when a message was heard.
pub struct Hearing {
    /// The start of the slot as a number of six digits.
    pub timestamp: u64,
    /// Whether the slot begins at second 0 or 30.
    pub is_even: bool,
    /// The time offset of the message in tenths of a second.
    pub dt_tenths: i16,
    /// The time offset of the message in milliseconds.
    pub dt_ms: i16,
    /// The frequency of the message in the band.
    pub frequency_hz: u64,
    /// How far the grid square in the message is, if that is known.
    pub dist: Option<Distance>,
}

/// What is to be done about a message that was heard.
pub struct Heard {
    /// What clients are sent.
    pub packet: Vec<u8>,
    /// The contact to be logged, if there is one.
    pub record: Option<QsoRecord>,
    /// The spot to be reported, if there is one.
    pub spot: Option<PskSpot>,
}

/// Whether a manager notes a message that was heard, logs the contact that it
/// ends and, if it names the station, takes it for an answer.
pub open spec fn takes_note(
    m0: AutoQsoManager,
    m1: AutoQsoManager,
    res: Ft8DecodeResult,
    at: Hearing,
    config: StationConfig,
    ctx: LogContext,
    record: Option<QsoRecord>,
) -> bool {
    exists|noted: AutoQsoManager, logged: AutoQsoManager|
        {
            &&& #[trigger] qso_auto_hunter::notes(
                m0,
                noted,
                (HistoryEntry { at: ctx.now, res, is_even: at.is_even }),
                at.dist,
                config.my_call@,
            )
            &&& #[trigger] qso_auto_hunter::logs(noted, logged, res, config, ctx, record)
            &&& m1 == if text::contains(res.text@, config.my_call@) {
                (AutoQsoManager { consecutive_failures: 0, ..logged })
            } else {
                logged
            }
        }
}

/// A message that was heard is the last of the history, with the time and the
/// slot in which it was heard. One that names the station ends a row of
/// failures; one that neither names it nor ends a contact of it does not.
pub proof fn law_message_is_taken_note_of(
    m0: AutoQsoManager,
    m1: AutoQsoManager,
    res: Ft8DecodeResult,
    at: Hearing,
    config: StationConfig,
    ctx: LogContext,
    record: Option<QsoRecord>,
)
    requires
        takes_note(m0, m1, res, at, config, ctx, record),
    ensures
        m1.msg_history@.len() > 0,
        m1.msg_history@.last().res == res,
        m1.msg_history@.last().at == ctx.now,
        m1.msg_history@.last().is_even == at.is_even,
        text::contains(res.text@, config.my_call@) ==> m1.consecutive_failures == 0,
        qso_auto_hunter::partner(res, config.my_call@) is None ==> record is None
            && m1.successful_calls == m0.successful_calls,
        qso_auto_hunter::partner(res, config.my_call@) is None && !text::contains(
            res.text@,
            config.my_call@,
        ) ==> m1.consecutive_failures == m0.consecutive_failures,
        record is Some ==> m1.consecutive_failures == 0,
        m1.task_queue == m0.task_queue,
        m1.attempted_recent == m0.attempted_recent,
{
}

/// Takes a message that was heard: its words are saved as call signs, it is
/// answered in the mode of answers, and the manager notes it, logs the contact
/// that it ends, and takes it for an answer if it names the station.
pub fn take_decode(
    cache: &mut HashCache,
    state: &mut AppState,
    mgr: &mut AutoQsoManager,
    res: Ft8DecodeResult,
    at: &Hearing,
    config: &StationConfig,
    ctx: &LogContext,
) -> (r: Heard)
    requires
        old(mgr).wf(),
        0 <= ctx.unix_secs,
        ctx.unix_secs + 28_800 < outside::YEAR_10000,
    ensures
        final(mgr).wf(),
        final(cache)@ == old(cache)@.saved_all(text::words(res.text@)),
        r.packet@ == decode_bytes(res, at.timestamp as int, at.dt_tenths),
        spots(res, at.frequency_hz, at.dt_ms, r.spot),
        qso_auto_once::answers(
            *old(state),
            *final(state),
            res.text@,
            res.snr as int,
            *config,
        ),
        takes_note(*old(mgr), *final(mgr), res, *at, *config, *ctx, r.record),
{
    let words = split_words(res.text.as_str());
    save_words(cache, &words);
    let packet = decode_packet(&res, at.timestamp, at.dt_tenths);
    let spot = spot_of(&res, at.frequency_hz, at.dt_ms);
    handle_auto_reply_logic(state, res.text.as_str(), res.snr, config);
    let mine = contains_text(res.text.as_str(), config.my_call.as_str());
    let copy = copy_result(&res);
    let ghost entry = HistoryEntry { at: ctx.now, res, is_even: at.is_even };
    mgr.push_decode(res, at.is_even, ctx.now, at.dist, config);
    let ghost noted = *mgr;
    assert(qso_auto_hunter::partner(copy, config.my_call@) == qso_auto_hunter::partner(
        res,
        config.my_call@,
    ));
    let record = mgr.check_and_log_qso(&copy, config, ctx);
    let ghost logged = *mgr;
    if mine {
        mgr.report_any_reply();
    }
    assert(qso_auto_hunter::notes(*old(mgr), noted, entry, at.dist, config.my_call@));
    assert(qso_auto_hunter::logs(noted, logged, res, *config, *ctx, record));
    assert(takes_note(*old(mgr), *mgr, res, *at, *config, *ctx, record));
    Heard { packet, record, spot }
}

/// A decoded message as clients are sent it is 41 bytes: its kind, the time of
/// its slot, its strength, its place in time and frequency with their low bytes
/// first, and the first 32 bytes of its text.
pub proof fn law_decoded_message_layout(res: Ft8DecodeResult, h: int, m: int, s: int, dt: i16)
    requires
        0 <= h < 24,
        0 <= m < 60,
        0 <= s < 60,
        -128 <= res.snr <= 127,
        0 <= res.freq <= 32767,
    ensures
        ({
            let b = decode_bytes(res, 10000 * h + 100 * m + s, dt);
            &&& b.len() == 41
            &&& b[0] == 3
            &&& b[1] == h && b[2] == m && b[3] == s
            &&& b[4] == if res.snr < 0 {
                res.snr + 256
            } else {
                res.snr as int
            }
            &&& b[5] + 256 * b[6] == if dt < 0 {
                dt + 65536
            } else {
                dt as int
            }
            &&& b[7] + 256 * b[8] == res.freq
            &&& b.skip(9) == types::fixed(encode_utf8(res.text@), 32)
        }),
{
    let b = decode_bytes(res, 10000 * h + 100 * m + s, dt);
    assert(b.skip(9) =~= types::fixed(encode_utf8(res.text@), 32));
}

/// A slot is decoded in the second half of its last second, once, while
/// decoding is on; all four slots of a minute have their turn.
pub proof fn law_when_a_slot_is_decoded(clock: Clock, last: int)
    requires
        clock.wf(),
    ensures
        !is_due(false, clock, last),
        clock.millis <= 500 ==> !is_due(true, clock, last),
        clock.second != 14 && clock.second != 29 && clock.second != 44 && clock.second != 59
            ==> !is_due(true, clock, last),
        clock.millis > 500 && clock.second == 14 ==> (is_due(true, clock, last) <==> last != 0),
        clock.millis > 500 && clock.second == 29 ==> (is_due(true, clock, last) <==> last != 1),
        clock.millis > 500 && clock.second == 44 ==> (is_due(true, clock, last) <==> last != 2),
        clock.millis > 500 && clock.second == 59 ==> (is_due(true, clock, last) <==> last != 3),
        slot_start(clock.second as int) <= clock.second < slot_start(clock.second as int) + 15,
        slot_start(clock.second as int) % 15 == 0,
{
}

/// A message is reported as a spot under the call sign of its sender, unless
/// that is not known.
pub proof fn law_spot_of_a_message(
    res: Ft8DecodeResult,
    hz: u64,
    dt: i16,
    r: Option<PskSpot>,
    call: Seq<char>,
)
    requires
        spots(res, hz, dt, r),
    ensures
        res.sender_call is None ==> r is None,
        res.sender_call is Some && res.sender_call->0@ == call && crate::ft8_qso::qso_utils::is_call(
            call,
        ) ==> {
            &&& r is Some
            &&& (r->0).callsign@ == call
            &&& (r->0).frequency_hz == hz
            &&& -128 <= res.snr <= 127 ==> (r->0).snr == res.snr
            &&& (r->0).dt_ms == dt
            &&& res.grid is Some ==> (r->0).sender_grid@ == res.grid->0@
            &&& res.grid is None ==> (r->0).sender_grid@.len() == 0
        },
{
    reveal_strlit("...");
    if crate::ft8_qso::qso_utils::is_call(call) {
        crate::ft8_qso::qso_utils::lemma_call(call);
        assert("..."@[0] == '.');
    }
}

} // verus!
