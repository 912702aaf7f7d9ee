//! Commands to the radio, as datagrams.
pub mod parser;

use crate::text;
use crate::text::{chars_of, split_at_char};
use crate::wire;
use crate::wire::{push_bytes, push_u16_le, push_u32_le, push_u64_le};
use vstd::prelude::*;
use vstd::string::*;
use vstd::utf8::*;

verus! {

/// The port on which the radio takes commands.
pub const RADIO_CTRL_PORT: u16 = 1432;

/// The port on which the radio's packets arrive.
pub const RADIO_RECV_PORT: u16 = 1532;

/// The number that every packet begins with.
pub const MAGIC: u16 = 0x2DE3;

/// The version of the protocol.
pub const VERSION: u8 = 0x01;

pub const CMD_QUERY_STATUS: u8 = 1;

pub const CMD_REBOOT: u8 = 2;

pub const CMD_OTA: u8 = 3;

pub const CMD_LOG: u8 = 5;

pub const CMD_SET_PC_IP: u8 = 6;

pub const CMD_SET_LO_FREQ: u8 = 20;

pub const CMD_SET_BASE_FREQ: u8 = 21;

pub const CMD_SWITCH_BPF: u8 = 22;

pub const CMD_SWITCH_LPF: u8 = 23;

pub const CMD_SWITCH_RX_STBY: u8 = 24;

pub const CMD_SET_POWER: u8 = 25;

pub const CMD_SET_SWR_PROT: u8 = 26;

pub const CMD_SET_CURR_PROT: u8 = 27;

pub const CMD_SEND_FT8: u8 = 28;

pub const CMD_TONE_TEST: u8 = 40;

pub const CMD_SET_STG_FREQ: u8 = 41;

pub const MSG_RESULT: u8 = 50;

pub const MSG_FT8_ECHO: u8 = 51;

/// Bytes for an address with a port.
pub struct Datagram {
    pub target: String,
    pub bytes: Vec<u8>,
}

/// What a datagram is.
#[verifier::ext_equal]
pub struct DatagramText {
    pub target: Seq<char>,
    pub bytes: Seq<u8>,
}

impl View for Datagram {
    type V = DatagramText;

    open spec fn view(&self) -> DatagramText {
        DatagramText { target: self.target@, bytes: self.bytes@ }
    }
}

/// The command of a type with a payload for the radio at an address.
pub open spec fn command(target_ip: Seq<char>, cmd_type: u8, payload: Seq<u8>) -> DatagramText {
    DatagramText {
        target: target_ip + ":1432"@,
        bytes: seq![0xE3u8, 0x2Du8, 0x01u8, cmd_type] + payload,
    }
}

/// The command of a type with a payload for the radio at an address.
pub fn send_command(target_ip: &str, cmd_type: u8, payload: &[u8]) -> (r: Datagram)
    ensures
        r@ == command(target_ip@, cmd_type, payload@),
{
    let mut packet: Vec<u8> = Vec::new();
    push_u16_le(&mut packet, MAGIC);
    packet.push(VERSION);
    packet.push(cmd_type);
    push_bytes(&mut packet, payload);
    assert(packet@ =~= seq![0xE3u8, 0x2Du8, 0x01u8, cmd_type] + payload@);
    let mut target = String::from_str(target_ip);
    target.append(":1432");
    Datagram { target, bytes: packet }
}

/// Asks for the status of the radio.
pub fn query_status(target_ip: &str) -> (r: Datagram)
    ensures
        r@ == command(target_ip@, CMD_QUERY_STATUS, Seq::empty()),
{
    let payload: Vec<u8> = Vec::new();
    send_command(target_ip, CMD_QUERY_STATUS, payload.as_slice())
}

/// A decimal number from 0 to 255 without leading zeros, if a text is one.
pub open spec fn octet(s: Seq<char>) -> Option<u8> {
    if 1 <= s.len() <= 3 && (forall|i: int| 0 <= i < s.len() ==> '0' <= #[trigger] s[i] <= '9') && (
    s.len() > 1 ==> s[0] != '0') && decimal_value(s) <= 255 {
        Some(decimal_value(s) as u8)
    } else {
        None
    }
}

/// The number that decimal digits write.
pub open spec fn decimal_value(s: Seq<char>) -> nat
    decreases s.len(),
{
    if s.len() == 0 {
        0
    } else {
        10 * decimal_value(s.drop_last()) + (s.last() as u32 - 48) as nat
    }
}

/// The four octets of an IPv4 address in dotted decimal notation, if a text is one.
pub open spec fn ipv4(s: Seq<char>) -> Option<Seq<u8>> {
    let p = text::pieces(s, '.');
    if p.len() == 4 && octet(p[0]) is Some && octet(p[1]) is Some && octet(p[2]) is Some && octet(
        p[3],
    ) is Some {
        Some(seq![octet(p[0])->0, octet(p[1])->0, octet(p[2])->0, octet(p[3])->0])
    } else {
        None
    }
}

fn parse_octet(s: &str) -> (r: Option<u8>)
    ensures
        r == octet(s@),
{
    let v = chars_of(s);
    let n: usize = v.len();
    if n < 1 || n > 3 {
        return None;
    }
    let mut val: u32 = 0;
    let mut i: usize = 0;
    assert(v@.take(0) =~= Seq::<char>::empty());
    while i < n
        invariant
            v@ == s@,
            n == v@.len(),
            n <= 3,
            i <= n,
            val == decimal_value(v@.take(i as int)),
            i == 0 ==> val == 0,
            i == 1 ==> val <= 9,
            i == 2 ==> val <= 99,
            i == 3 ==> val <= 999,
            forall|k: int| 0 <= k < i ==> '0' <= #[trigger] v@[k] <= '9',
        decreases n - i,
    {
        let c: char = v[i];
        if c < '0' || c > '9' {
            assert(!('0' <= s@[i as int] <= '9'));
            return None;
        }
        assert(v@.take(i + 1).drop_last() =~= v@.take(i as int));
        val = 10 * val + (c as u32 - 48);
        i += 1;
    }
    assert(v@.take(i as int) =~= v@);
    if n > 1 && v[0] == '0' {
        return None;
    }
    if val > 255 {
        return None;
    }
    Some(val as u8)
}

/// The four octets of an IPv4 address in dotted decimal notation.
pub fn parse_ipv4(s: &str) -> (r: Option<Vec<u8>>)
    ensures
        (match r {
            Some(v) => Some(v@),
            None => None,
        }) == ipv4(s@),
{
    let parts = split_at_char(s, '.');
    let ghost all = text::pieces(s@, '.');
    if parts.len() != 4 {
        return None;
    }
    assert(all[0] == parts@[0]@ && all[1] == parts@[1]@ && all[2] == parts@[2]@ && all[3]
        == parts@[3]@);
    let a = parse_octet(parts[0].as_str());
    let b = parse_octet(parts[1].as_str());
    let c = parse_octet(parts[2].as_str());
    let d = parse_octet(parts[3].as_str());
    match (a, b, c, d) {
        (Some(a), Some(b), Some(c), Some(d)) => {
            let mut out: Vec<u8> = Vec::new();
            out.push(a);
            out.push(b);
            out.push(c);
            out.push(d);
            assert(out@ =~= seq![a, b, c, d]);
            Some(out)
        },
        _ => None,
    }
}

/// Tells the radio the address of this computer; nothing if it is no IPv4 address.
pub fn set_pc_ip(target_ip: &str, pc_ip: &str) -> (r: Option<Datagram>)
    ensures
        (match r {
            Some(d) => Some(d@),
            None => None,
        }) == (match ipv4(pc_ip@) {
            Some(octets) => Some(command(target_ip@, CMD_SET_PC_IP, octets)),
            None => None,
        }),
{
    match parse_ipv4(pc_ip) {
        Some(octets) => Some(send_command(target_ip, CMD_SET_PC_IP, octets.as_slice())),
        None => None,
    }
}

/// A frequency as the radio takes it: hundredths of a hertz.
pub open spec fn centihertz(freq_hz: u64) -> Seq<u8> {
    wire::bytes64_le(100 * freq_hz)
}

fn frequency_command(target_ip: &str, cmd_type: u8, freq_hz: u64) -> (r: Datagram)
    requires
        100 * freq_hz <= u64::MAX,
    ensures
        r@ == command(target_ip@, cmd_type, centihertz(freq_hz)),
{
    let mut payload: Vec<u8> = Vec::new();
    push_u64_le(&mut payload, freq_hz * 100);
    assert(payload@ =~= centihertz(freq_hz));
    send_command(target_ip, cmd_type, payload.as_slice())
}

/// Sends a single tone for a while, to test the transmitter.
pub fn send_tone_test(target_ip: &str, freq_hz: u64, duration_ms: u32) -> (r: Datagram)
    requires
        100 * freq_hz <= u64::MAX,
    ensures
        r@ == command(
            target_ip@,
            CMD_TONE_TEST,
            centihertz(freq_hz) + wire::bytes32_le(duration_ms as int),
        ),
{
    let mut payload: Vec<u8> = Vec::new();
    push_u64_le(&mut payload, freq_hz * 100);
    push_u32_le(&mut payload, duration_ms);
    assert(payload@ =~= centihertz(freq_hz) + wire::bytes32_le(duration_ms as int));
    send_command(target_ip, CMD_TONE_TEST, payload.as_slice())
}

/// Sets the frequency of the signal generator, to test the receiver.
pub fn set_stg_frequency(target_ip: &str, freq_hz: u64) -> (r: Datagram)
    requires
        100 * freq_hz <= u64::MAX,
    ensures
        r@ == command(target_ip@, CMD_SET_STG_FREQ, centihertz(freq_hz)),
{
    frequency_command(target_ip, CMD_SET_STG_FREQ, freq_hz)
}

/// Sets the frequency of the local oscillator.
pub fn set_lo_frequency(target_ip: &str, freq_hz: u64) -> (r: Datagram)
    requires
        100 * freq_hz <= u64::MAX,
    ensures
        r@ == command(target_ip@, CMD_SET_LO_FREQ, centihertz(freq_hz)),
{
    frequency_command(target_ip, CMD_SET_LO_FREQ, freq_hz)
}

/// Sets the base frequency of the transmitter.
pub fn set_base_frequency(target_ip: &str, freq_hz: u64) -> (r: Datagram)
    requires
        100 * freq_hz <= u64::MAX,
    ensures
        r@ == command(target_ip@, CMD_SET_BASE_FREQ, centihertz(freq_hz)),
{
    frequency_command(target_ip, CMD_SET_BASE_FREQ, freq_hz)
}

/// Starts the radio anew.
pub fn reboot(target_ip: &str) -> (r: Datagram)
    ensures
        r@ == command(target_ip@, CMD_REBOOT, Seq::empty()),
{
    let payload: Vec<u8> = Vec::new();
    send_command(target_ip, CMD_REBOOT, payload.as_slice())
}

/// Has the radio update its firmware from an address.
pub fn trigger_ota(target_ip: &str, url: &str) -> (r: Datagram)
    ensures
        r@ == command(target_ip@, CMD_OTA, encode_utf8(url@)),
{
    send_command(target_ip, CMD_OTA, url.as_bytes())
}

fn byte_command(target_ip: &str, cmd_type: u8, b: u8) -> (r: Datagram)
    ensures
        r@ == command(target_ip@, cmd_type, seq![b]),
{
    let mut payload: Vec<u8> = Vec::new();
    payload.push(b);
    assert(payload@ =~= seq![b]);
    send_command(target_ip, cmd_type, payload.as_slice())
}

fn short_command(target_ip: &str, cmd_type: u8, n: u16) -> (r: Datagram)
    ensures
        r@ == command(target_ip@, cmd_type, wire::bytes16_le(n as int)),
{
    let mut payload: Vec<u8> = Vec::new();
    push_u16_le(&mut payload, n);
    assert(payload@ =~= wire::bytes16_le(n as int));
    send_command(target_ip, cmd_type, payload.as_slice())
}

/// Switches the band-pass filter.
pub fn switch_bpf(target_ip: &str, bpf: u8) -> (r: Datagram)
    ensures
        r@ == command(target_ip@, CMD_SWITCH_BPF, seq![bpf]),
{
    byte_command(target_ip, CMD_SWITCH_BPF, bpf)
}

/// Switches the low-pass filter.
pub fn switch_lpf(target_ip: &str, lpf: u8) -> (r: Datagram)
    ensures
        r@ == command(target_ip@, CMD_SWITCH_LPF, seq![lpf]),
{
    byte_command(target_ip, CMD_SWITCH_LPF, lpf)
}

/// Has the radio receive or stand by.
pub fn set_rx_mode(target_ip: &str, active: bool) -> (r: Datagram)
    ensures
        r@ == command(
            target_ip@,
            CMD_SWITCH_RX_STBY,
            seq![
                if active {
                    1u8
                } else {
                    0u8
                },
            ],
        ),
{
    byte_command(
        target_ip,
        CMD_SWITCH_RX_STBY,
        if active {
            1
        } else {
            0
        },
    )
}

/// Sets the power of the transmitter.
pub fn set_tx_power(target_ip: &str, duty: u16) -> (r: Datagram)
    ensures
        r@ == command(target_ip@, CMD_SET_POWER, wire::bytes16_le(duty as int)),
{
    short_command(target_ip, CMD_SET_POWER, duty)
}

/// Sets the standing wave ratio at which the transmitter protects itself, in tenths.
pub fn set_swr_protection(target_ip: &str, threshold: u16) -> (r: Datagram)
    ensures
        r@ == command(target_ip@, CMD_SET_SWR_PROT, wire::bytes16_le(threshold as int)),
{
    short_command(target_ip, CMD_SET_SWR_PROT, threshold)
}

/// Sets the current at which the transmitter protects itself, in milliamperes.
pub fn set_current_protection(target_ip: &str, threshold_ma: u16) -> (r: Datagram)
    ensures
        r@ == command(target_ip@, CMD_SET_CURR_PROT, wire::bytes16_le(threshold_ma as int)),
{
    short_command(target_ip, CMD_SET_CURR_PROT, threshold_ma)
}

/// The payload of a transmission: frequency, tones and the text, cut to 24 bytes.
pub open spec fn transmission(offset: u16, symbols: Seq<i32>, msg: Seq<char>) -> Seq<u8> {
    let b = encode_utf8(msg);
    wire::bytes16_le(offset as int) + symbols.map_values(|s: i32| wire::low_byte(s as int))
        + b.take(
        if b.len() < 24 {
            b.len() as int
        } else {
            24
        },
    )
}

/// Sends a message as its 79 tones, at an audio frequency.
pub fn send_ft8_transmit(target_ip: &str, msg: &str, offset: u16, symbols: &[i32]) -> (r: Datagram)
    requires
        symbols@.len() == 79,
    ensures
        r@ == command(target_ip@, CMD_SEND_FT8, transmission(offset, symbols@, msg@)),
{
    let mut payload: Vec<u8> = Vec::new();
    push_u16_le(&mut payload, offset);
    let ghost head = payload@;
    let ghost tones = symbols@.map_values(|s: i32| wire::low_byte(s as int));
    let mut i: usize = 0;
    assert(head + tones.take(0) =~= head);
    while i < 79
        invariant
            symbols@.len() == 79,
            i <= 79,
            tones == symbols@.map_values(|s: i32| wire::low_byte(s as int)),
            payload@ == head + tones.take(i as int),
        decreases 79 - i,
    {
        let s: i64 = symbols[i] as i64 + 0x1_0000_0000;
        let low: u8 = (s % 256) as u8;
        assert(low == wire::low_byte(symbols@[i as int] as int));
        payload.push(low);
        assert(payload@ =~= head + tones.take(i + 1));
        i += 1;
    }
    assert(tones.take(79) =~= tones);
    let b = msg.as_bytes();
    let ghost before = payload@;
    let mut k: usize = 0;
    assert(before + b@.take(0) =~= before);
    while k < 24 && k < b.len()
        invariant
            k <= 24,
            k <= b@.len(),
            payload@ == before + b@.take(k as int),
        decreases 24 - k,
    {
        payload.push(b[k]);
        assert(payload@ =~= before + b@.take(k + 1));
        k += 1;
    }
    assert(payload@ =~= transmission(offset, symbols@, msg@));
    send_command(target_ip, CMD_SEND_FT8, payload.as_slice())
}

/// Every command begins with the magic number, the version and its type.
pub proof fn law_command_head(target_ip: Seq<char>, cmd_type: u8, payload: Seq<u8>)
    ensures
        wire::le16(command(target_ip, cmd_type, payload).bytes, 0) == MAGIC,
        command(target_ip, cmd_type, payload).bytes[2] == VERSION,
        command(target_ip, cmd_type, payload).bytes[3] == cmd_type,
        command(target_ip, cmd_type, payload).bytes.skip(4) == payload,
{
    assert(command(target_ip, cmd_type, payload).bytes.skip(4) =~= payload);
}

} // verus!
