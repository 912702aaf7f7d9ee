//! What the radio sends, passed on to clients and read.
use crate::radio_ctrl::parser;
use crate::radio_ctrl::parser::own_entry;
use crate::text;
use crate::text::{contains_text, trimmed, trimmed_both, CharClass};
use crate::outside::bytes_text;
use crate::types::Ft8DecodeResult;
use crate::wire;
use crate::wire::{push_bytes, read_u16_le, read_u64_le};
use vstd::prelude::*;
use vstd::slice::slice_subrange;
use vstd::string::*;

verus! {

/// A packet from the radio as clients are sent it.
pub fn bridge_packet(data: &[u8]) -> (r: Vec<u8>)
    ensures
        r@ == seq![0x01u8] + data@,
{
    let mut p: Vec<u8> = Vec::new();
    p.push(0x01);
    push_bytes(&mut p, data);
    assert(p@ =~= seq![0x01u8] + data@);
    p
}

/// What a packet from the radio says that matters to the station.
pub enum RadioInfo {
    Nothing,
    /// The frequency of the local oscillator in hertz.
    Oscillator(u64),
    /// The radio has sent a message; whether it names the station.
    Sent { entry: Ft8DecodeResult, mine: bool },
}

/// Reads a packet from the radio: the frequency of its oscillator, or the
/// message that it has sent.
pub fn extract_radio_info(data: &[u8], my_call: &str) -> (r: RadioInfo)
    ensures
        ({
            let status = parser::is_packet(data@, 4) && data@.len() >= 45;
            let lo = wire::le64(data@, 37);
            let sent = parser::is_packet(data@, 51) && data@.len() >= 22;
            let message = parser::text_from(data@, 22);
            if status && lo > 0 {
                r == RadioInfo::Oscillator((lo / 100) as u64)
            } else if !status && sent && message.len() > 0 {
                &&& r is Sent
                &&& parser::is_own_entry(r->entry, wire::le16(data@, 20) as u16, message)
                &&& r->mine == text::contains(message, my_call@)
            } else {
                r is Nothing
            }
        }),
{
    if data.len() < 4 || data[0] != 0xE3 || data[1] != 0x2D {
        return RadioInfo::Nothing;
    }
    if data[3] == 4 && data.len() >= 45 {
        let lo = read_u64_le(data, 37);
        if lo > 0 {
            return RadioInfo::Oscillator(lo / 100);
        }
    } else if data[3] == 51 && data.len() >= 22 {
        let rest = slice_subrange(data, 22, data.len());
        assert(rest@ =~= data@.skip(22));
        let message = trimmed(trimmed_both(bytes_text(rest).as_str(), CharClass::Nul).as_str());
        if message.as_str().unicode_len() == 0 {
            return RadioInfo::Nothing;
        }
        let mine = contains_text(message.as_str(), my_call);
        let entry = own_entry(read_u16_le(data, 20), message.as_str());
        return RadioInfo::Sent { entry, mine };
    }
    RadioInfo::Nothing
}

} // verus!
