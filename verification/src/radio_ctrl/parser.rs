//! Packets from the radio.
use super::{CMD_LOG, MSG_FT8_ECHO, MSG_RESULT};
use crate::ft8_codec::packjt77;
use crate::ft8_codec::packjt77::{save_hash_call, HashCache};
use crate::outside;
use crate::outside::bytes_text;
use crate::text;
use crate::text::{contains_text, split_words, trimmed, trimmed_both, CharClass};
use crate::types::Ft8DecodeResult;
use crate::wire;
use crate::wire::{read_u16_le, read_u64_le};
use vstd::prelude::*;
use vstd::slice::slice_subrange;
use vstd::string::*;

verus! {

/// What the radio says of itself.
#[derive(Debug, Clone, Copy, PartialEq, Eq, Structural)]
pub struct RadioStatus {
    pub uptime_us: u64,
    pub timestamp_us: u64,
    pub core_temp: u16,
    pub wifi_rssi: i8,
    pub core0_idle: u8,
    pub core1_idle: u8,
    pub ram_usage: u8,
    pub psram_usage: u8,
    /// In hundredths of a hertz.
    pub lo_freq: u64,
    /// In hundredths of a hertz.
    pub tx_base_freq: u64,
    pub tx_offset: u16,
    pub tx_state: u8,
    pub rx_state: u8,
    pub bpf_select: u8,
    pub lpf_select: u8,
    pub pa_current: u16,
    /// In hundredths.
    pub swr: u16,
}

/// A message that the radio has sent.
pub struct Echo {
    pub offset: u16,
    pub text: String,
    /// Whether the message names the station.
    pub mine: bool,
}

/// What a packet from the radio says.
pub enum RadioEvent {
    /// Nothing that is of interest.
    Ignored,
    Status(RadioStatus),
    Log(String),
    CommandResult { command: u8, success: bool, text: String },
    Sent(Echo),
}

/// Whether bytes are a packet from the radio of a type.
pub open spec fn is_packet(data: Seq<u8>, msg_type: u8) -> bool {
    &&& data.len() >= 4
    &&& data[0] == 0xE3
    &&& data[1] == 0x2D
    &&& data[3] == msg_type
}

/// A signed byte.
pub open spec fn signed8(b: u8) -> int {
    if b < 128 {
        b as int
    } else {
        b - 256
    }
}

/// The status in a packet.
pub open spec fn status_of(data: Seq<u8>) -> RadioStatus {
    RadioStatus {
        uptime_us: wire::le64(data, 4) as u64,
        timestamp_us: wire::le64(data, 12) as u64,
        core_temp: wire::le16(data, 22) as u16,
        wifi_rssi: signed8(data[24]) as i8,
        core0_idle: data[29],
        core1_idle: data[30],
        ram_usage: data[31],
        psram_usage: data[32],
        lo_freq: wire::le64(data, 37) as u64,
        tx_base_freq: wire::le64(data, 45) as u64,
        tx_offset: wire::le16(data, 53) as u16,
        tx_state: data[55],
        rx_state: data[56],
        bpf_select: data[57],
        lpf_select: data[58],
        pa_current: wire::le16(data, 65) as u16,
        swr: wire::le16(data, 71) as u16,
    }
}

/// The text in a packet from an index on, without zeros and white space at its ends.
pub open spec fn text_from(data: Seq<u8>, at: int) -> Seq<char> {
    text::trim(text::trim_both(outside::text_of_bytes(data.skip(at)), CharClass::Nul))
}

/// What an event says, of which the texts are taken by what they hold.
pub enum EventText {
    Ignored,
    Status(RadioStatus),
    Log(Seq<char>),
    CommandResult { command: u8, success: bool, text: Seq<char> },
    Sent { offset: u16, text: Seq<char>, mine: bool },
}

impl View for RadioEvent {
    type V = EventText;

    open spec fn view(&self) -> EventText {
        match *self {
            RadioEvent::Ignored => EventText::Ignored,
            RadioEvent::Status(s) => EventText::Status(s),
            RadioEvent::Log(t) => EventText::Log(t@),
            RadioEvent::CommandResult { command, success, text } => EventText::CommandResult {
                command,
                success,
                text: text@,
            },
            RadioEvent::Sent(e) => EventText::Sent { offset: e.offset, text: e.text@, mine: e.mine },
        }
    }
}

/// What a packet says.
pub open spec fn event_of(data: Seq<u8>, my_call: Seq<char>) -> EventText {
    if is_packet(data, 4) && data.len() >= 77 {
        EventText::Status(status_of(data))
    } else if is_packet(data, CMD_LOG) && text_from(data, 4).len() > 0 {
        EventText::Log(text_from(data, 4))
    } else if is_packet(data, MSG_RESULT) && data.len() >= 6 {
        EventText::CommandResult {
            command: data[4],
            success: data[5] == 0,
            text: text_from(data, 6),
        }
    } else if is_packet(data, MSG_FT8_ECHO) && data.len() >= 22 && text_from(data, 22).len() > 0 {
        EventText::Sent {
            offset: wire::le16(data, 20) as u16,
            text: text_from(data, 22),
            mine: text::contains(text_from(data, 22), my_call),
        }
    } else {
        EventText::Ignored
    }
}

fn packet_text(data: &[u8], at: usize) -> (r: String)
    requires
        at <= data@.len(),
    ensures
        r@ == text_from(data@, at as int),
{
    let rest = slice_subrange(data, at, data.len());
    assert(rest@ =~= data@.skip(at as int));
    trimmed(trimmed_both(bytes_text(rest).as_str(), CharClass::Nul).as_str())
}

fn read_status(data: &[u8]) -> (r: RadioStatus)
    requires
        data@.len() >= 77,
    ensures
        r == status_of(data@),
{
    let rssi: u8 = data[24];
    RadioStatus {
        uptime_us: read_u64_le(data, 4),
        timestamp_us: read_u64_le(data, 12),
        core_temp: read_u16_le(data, 22),
        wifi_rssi: if rssi < 128 {
            rssi as i8
        } else {
            (rssi as i32 - 256) as i8
        },
        core0_idle: data[29],
        core1_idle: data[30],
        ram_usage: data[31],
        psram_usage: data[32],
        lo_freq: read_u64_le(data, 37),
        tx_base_freq: read_u64_le(data, 45),
        tx_offset: read_u16_le(data, 53),
        tx_state: data[55],
        rx_state: data[56],
        bpf_select: data[57],
        lpf_select: data[58],
        pa_current: read_u16_le(data, 65),
        swr: read_u16_le(data, 71),
    }
}

/// Reads a packet from the radio. The words of a message that it has sent are
/// saved as call signs.
pub fn parse_radio_packet(cache: &mut HashCache, data: &[u8], my_call: &str) -> (r: RadioEvent)
    ensures
        r@ == event_of(data@, my_call@),
        final(cache)@ == match event_of(data@, my_call@) {
            EventText::Sent { offset: _, text, mine: _ } => old(cache)@.saved_all(
                text::words(text),
            ),
            _ => old(cache)@,
        },
{
    if data.len() < 4 || data[0] != 0xE3 || data[1] != 0x2D {
        return RadioEvent::Ignored;
    }
    let msg_type: u8 = data[3];
    if msg_type == 4 {
        if data.len() < 77 {
            return RadioEvent::Ignored;
        }
        return RadioEvent::Status(read_status(data));
    }
    if msg_type == CMD_LOG {
        let text = packet_text(data, 4);
        if text.as_str().unicode_len() == 0 {
            return RadioEvent::Ignored;
        }
        return RadioEvent::Log(text);
    }
    if msg_type == MSG_RESULT {
        if data.len() < 6 {
            return RadioEvent::Ignored;
        }
        return RadioEvent::CommandResult {
            command: data[4],
            success: data[5] == 0,
            text: packet_text(data, 6),
        };
    }
    if msg_type == MSG_FT8_ECHO && data.len() >= 22 {
        let text = packet_text(data, 22);
        if text.as_str().unicode_len() == 0 {
            return RadioEvent::Ignored;
        }
        let words = split_words(text.as_str());
        save_words(cache, &words);
        let mine = contains_text(text.as_str(), my_call);
        return RadioEvent::Sent(Echo { offset: read_u16_le(data, 20), text, mine });
    }
    RadioEvent::Ignored
}

/// Saves words as call signs, in turn.
pub fn save_words(cache: &mut HashCache, words: &Vec<String>)
    ensures
        final(cache)@ == old(cache)@.saved_all(text::texts(words@)),
{
    let ghost all = text::texts(words@);
    let mut i: usize = 0;
    assert(all.take(0) =~= Seq::<Seq<char>>::empty());
    while i < words.len()
        invariant
            all == text::texts(words@),
            i <= words@.len(),
            cache@ == old(cache)@.saved_all(all.take(i as int)),
        decreases words@.len() - i,
    {
        assert(all.take(i + 1).drop_last() =~= all.take(i as int));
        assert(all.take(i + 1).last() == words@[i as int]@);
        save_hash_call(cache, words[i].as_str());
        i += 1;
    }
    assert(all.take(i as int) =~= all);
}

/// The frequency of the local oscillator in hertz, if the radio gives one.
pub open spec fn oscillator(lo_freq: u64) -> Option<u64> {
    if lo_freq > 0 {
        Some(lo_freq / 100)
    } else {
        None
    }
}

impl RadioStatus {
    /// The frequency of the local oscillator in hertz, if the radio gives one.
    pub fn lo_hz(&self) -> (r: Option<u64>)
        ensures
            r == oscillator(self.lo_freq),
    {
        if self.lo_freq > 0 {
            Some(self.lo_freq / 100)
        } else {
            None
        }
    }

    /// How far the clock of the radio is behind this one, in whole
    /// milliseconds, cut off towards zero. Both times are taken as signed
    /// numbers of 64 bits.
    pub fn clock_drift_ms(&self, now_ms: u64) -> (r: i64)
        requires
            i64::MIN <= 1000 * signed64(now_ms) <= i64::MAX,
            i64::MIN <= 1000 * signed64(now_ms) - signed64(self.timestamp_us) <= i64::MAX,
        ensures
            ({
                let d = 1000 * signed64(now_ms) - signed64(self.timestamp_us);
                r == if d >= 0 {
                    d / 1000
                } else {
                    -((-d) / 1000)
                }
            }),
    {
        let d: i128 = 1000 * as_signed64(now_ms) as i128 - as_signed64(self.timestamp_us) as i128;
        if d >= 0 {
            (d / 1000) as i64
        } else {
            -(((-d) / 1000) as i64)
        }
    }
}

/// A number of 64 bits, taken as a signed one.
pub open spec fn signed64(n: u64) -> int {
    if n <= i64::MAX {
        n as int
    } else {
        n - 0x1_0000_0000_0000_0000
    }
}

fn as_signed64(n: u64) -> (r: i64)
    ensures
        r == signed64(n),
{
    if n <= 0x7fff_ffff_ffff_ffff {
        n as i64
    } else {
        (n as i128 - 0x1_0000_0000_0000_0000) as i64
    }
}

/// Tells whether the status is due to be shown again: four seconds after it
/// was shown last.
pub fn status_due(now_ms: u64, last_ms: u64) -> (r: bool)
    requires
        last_ms <= now_ms,
    ensures
        r == (now_ms - last_ms >= 4000),
{
    now_ms - last_ms >= 4000
}

/// The message that the radio has sent, as an entry of the history: its
/// strength is the mark of the station's own messages.
pub open spec fn is_own_entry(e: Ft8DecodeResult, offset: u16, text: Seq<char>) -> bool {
    let words = text::words(text);
    &&& e.freq == offset
    &&& e.snr == 99
    &&& e.text@ == text
    &&& e.decode_time_ms == 0
    &&& packjt77::text_option(e.receiver_call) == if words.len() >= 2 {
        Some(words[0])
    } else {
        None
    }
    &&& packjt77::text_option(e.sender_call) == if words.len() >= 2 {
        Some(words[1])
    } else {
        None
    }
    &&& e.grid is None
    &&& e.region is None
}

/// The message that the radio has sent, as an entry of the history.
pub fn own_entry(offset: u16, message: &str) -> (r: Ft8DecodeResult)
    ensures
        is_own_entry(r, offset, message@),
{
    let parts = split_words(message);
    let ghost words = text::words(message@);
    let (receiver, sender) = if parts.len() >= 2 {
        assert(words[0] == parts@[0]@ && words[1] == parts@[1]@);
        (
            Some(String::from_str(parts[0].as_str())),
            Some(String::from_str(parts[1].as_str())),
        )
    } else {
        (None, None)
    };
    Ft8DecodeResult {
        freq: offset as i32,
        snr: 99,
        text: String::from_str(message),
        decode_time_ms: 0,
        sender_call: sender,
        receiver_call: receiver,
        grid: None,
        region: None,
    }
}

} // verus!
