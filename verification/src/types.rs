//! The state of the station and the records that clients are sent.
use crate::outside;
use crate::outside::bytes_text;
use crate::patterns;
use crate::patterns::{is_accepted, is_found};
use crate::text;
use crate::text::{trimmed_both, CharClass};
use crate::wire;
use crate::wire::{push_bytes, push_u16_le, push_u32_le};
use vstd::prelude::*;
use vstd::string::*;
use vstd::utf8::*;

verus! {

/// The samples that the decoder looks back on: 16 seconds at 12 kHz.
pub const BUFFER_SIZE: usize = 192000;

/// The samples per channel that are kept of each four that are received.
pub const DECIMATION_FACTOR: usize = 4;

/// The length of the spectra.
pub const FFT_SIZE: usize = 4096;

/// The bins of a spectrum at 12 kHz up to 3500 Hz.
pub const TARGET_BINS: usize = 1194;

/// The length of a packet of samples from the radio.
pub const PKT_SIZE_IQ: usize = 1356;

/// Bytes cut or filled up with zeros to a length.
pub open spec fn fixed(b: Seq<u8>, n: nat) -> Seq<u8> {
    Seq::new(n, |i: int| if i < b.len() { b[i] } else { 0u8 })
}

/// Bytes cut or filled up with zeros to 24.
pub fn fixed24(b: &[u8]) -> (r: [u8; 24])
    ensures
        r@ == fixed(b@, 24),
{
    let mut r: [u8; 24] = [0u8; 24];
    let mut i: usize = 0;
    while i < 24 && i < b.len()
        invariant
            i <= 24,
            i <= b@.len(),
            forall|k: int| 0 <= k < i ==> #[trigger] r@[k] == b@[k],
            forall|k: int| i <= k < 24 ==> #[trigger] r@[k] == 0,
        decreases 24 - i,
    {
        r[i] = b[i];
        i += 1;
    }
    assert(r@ =~= fixed(b@, 24));
    r
}

/// Bytes cut or filled up with zeros to 32.
pub fn fixed32(b: &[u8]) -> (r: [u8; 32])
    ensures
        r@ == fixed(b@, 32),
{
    let mut r: [u8; 32] = [0u8; 32];
    let mut i: usize = 0;
    while i < 32 && i < b.len()
        invariant
            i <= 32,
            i <= b@.len(),
            forall|k: int| 0 <= k < i ==> #[trigger] r@[k] == b@[k],
            forall|k: int| i <= k < 32 ==> #[trigger] r@[k] == 0,
        decreases 32 - i,
    {
        r[i] = b[i];
        i += 1;
    }
    assert(r@ =~= fixed(b@, 32));
    r
}

/// Bytes cut or filled up with zeros to 48.
pub fn fixed48(b: &[u8]) -> (r: [u8; 48])
    ensures
        r@ == fixed(b@, 48),
{
    let mut r: [u8; 48] = [0u8; 48];
    let mut i: usize = 0;
    while i < 48 && i < b.len()
        invariant
            i <= 48,
            i <= b@.len(),
            forall|k: int| 0 <= k < i ==> #[trigger] r@[k] == b@[k],
            forall|k: int| i <= k < 48 ==> #[trigger] r@[k] == 0,
        decreases 48 - i,
    {
        r[i] = b[i];
        i += 1;
    }
    assert(r@ =~= fixed(b@, 48));
    r
}

/// The status that clients are sent.
#[derive(Clone, Copy)]
pub struct RustStatus {
    pub tx_count: u32,
    pub decode_count: u32,
    pub uptime_ms: u32,
    pub timestamp_ms: u64,
    /// 0: off, 1: once, 2: answers, 3: contacts without end.
    pub auto_tx_mode: u8,
    /// The message that was sent last.
    pub last_msg: [u8; 24],
    /// The message that is sent next, filled up with zeros.
    pub pending_msg: [u8; 24],
    /// The audio frequency of the next message.
    pub pending_offset: u16,
    /// The start of the pattern of the expected answer.
    pub expect_regex: [u8; 48],
    pub repeat_count: u8,
    pub max_repeats: u8,
    /// 1: the slots at seconds 0 and 30.
    pub tx_window_even: u8,
    /// 0: USB, 1: LSB, 2: AM.
    pub demod_mode: u8,
    pub ft8_decode_on: u8,
    pub audio_on: u8,
    pub usb_bw: u16,
    pub lsb_bw: u16,
    pub am_bw: u16,
}

/// The settings of the waterfall.
#[derive(Clone, Copy, Debug, PartialEq, Eq, Structural)]
pub struct WaterfallSettings {
    pub speed: u8,
    pub min_db: i16,
    pub max_db: i16,
    pub full_on: u8,
    pub zoom_on: u8,
}

/// The state of the station.
pub struct AppState {
    pub status: RustStatus,
    pub waterfall: WaterfallSettings,
    pub current_if_hz: u32,
    /// The pattern of the expected answer, if one is expected and the pattern is accepted.
    pub expect_regex_compiled: Option<String>,
    /// The audio frequency of the station that is called.
    pub target_offset: u16,
    pub radio_ip: Option<String>,
    /// The transmissions since the task was last changed.
    pub qso_total_tx_count: u32,
}

/// Who the station is and where.
pub struct StationConfig {
    pub my_call: String,
    pub my_grid: String,
    pub my_grid_detail: String,
}

/// A decoded message and how it was received.
#[derive(Debug, Clone)]
pub struct Ft8DecodeResult {
    /// The audio frequency in whole Hz.
    pub freq: i32,
    pub snr: i32,
    pub text: String,
    pub decode_time_ms: u32,
    pub sender_call: Option<String>,
    pub receiver_call: Option<String>,
    pub grid: Option<String>,
    pub region: Option<String>,
}

impl RustStatus {
    /// The text of a field that is filled up with zeros.
    pub open spec fn pending_text(self) -> Seq<char> {
        text::trim_both(outside::text_of_bytes(self.pending_msg@), CharClass::Nul)
    }

    /// The message that is sent next, as text.
    pub fn pending_string(&self) -> (r: String)
        ensures
            r@ == self.pending_text(),
    {
        trimmed_both(bytes_text(self.pending_msg.as_slice()).as_str(), CharClass::Nul)
    }

    /// The status as clients are sent it: the fields in turn, numbers low byte first.
    pub open spec fn bytes(self) -> Seq<u8> {
        wire::bytes32_le(self.tx_count as int) + wire::bytes32_le(self.decode_count as int)
            + wire::bytes32_le(self.uptime_ms as int) + wire::bytes32_le(
            self.timestamp_ms as int % 0x1_0000_0000,
        ) + wire::bytes32_le(self.timestamp_ms as int / 0x1_0000_0000) + seq![self.auto_tx_mode]
            + self.last_msg@ + self.pending_msg@ + wire::bytes16_le(self.pending_offset as int)
            + self.expect_regex@ + seq![
            self.repeat_count,
            self.max_repeats,
            self.tx_window_even,
            self.demod_mode,
            self.ft8_decode_on,
            self.audio_on,
        ] + wire::bytes16_le(self.usb_bw as int) + wire::bytes16_le(self.lsb_bw as int)
            + wire::bytes16_le(self.am_bw as int)
    }

    /// Appends the status as clients are sent it.
    pub fn push_to(&self, out: &mut Vec<u8>)
        ensures
            final(out)@ == old(out)@ + self.bytes(),
    {
        let ghost before = out@;
        push_u32_le(out, self.tx_count);
        push_u32_le(out, self.decode_count);
        push_u32_le(out, self.uptime_ms);
        push_u32_le(out, (self.timestamp_ms % 0x1_0000_0000) as u32);
        push_u32_le(out, (self.timestamp_ms / 0x1_0000_0000) as u32);
        out.push(self.auto_tx_mode);
        push_bytes(out, self.last_msg.as_slice());
        push_bytes(out, self.pending_msg.as_slice());
        push_u16_le(out, self.pending_offset);
        push_bytes(out, self.expect_regex.as_slice());
        out.push(self.repeat_count);
        out.push(self.max_repeats);
        out.push(self.tx_window_even);
        out.push(self.demod_mode);
        out.push(self.ft8_decode_on);
        out.push(self.audio_on);
        push_u16_le(out, self.usb_bw);
        push_u16_le(out, self.lsb_bw);
        push_u16_le(out, self.am_bw);
        assert(out@ =~= before + self.bytes());
    }
}

/// A status takes 131 bytes.
pub proof fn law_status_length(s: RustStatus)
    ensures
        s.bytes().len() == 131,
{
}

impl AppState {
    /// The state at the start, with the address of the radio if it is known.
    pub fn new(radio_addr: &str) -> (r: AppState)
        ensures
            r.current_if_hz == 12000,
            r.expect_regex_compiled is None,
            r.target_offset == 1000,
            r.qso_total_tx_count == 0,
            (match r.radio_ip {
                Some(ip) => Some(ip@),
                None => None,
            }) == (if radio_addr@.len() == 0 {
                None
            } else {
                Some(radio_addr@)
            }),
            r.status.tx_count == 0,
            r.status.decode_count == 0,
            r.status.uptime_ms == 0,
            r.status.timestamp_ms == 0,
            r.status.auto_tx_mode == 0,
            r.status.last_msg@ == fixed(Seq::empty(), 24),
            r.status.pending_msg@ == fixed(Seq::empty(), 24),
            r.status.pending_offset == 2950,
            r.status.expect_regex@ == fixed(Seq::empty(), 48),
            r.status.repeat_count == 0,
            r.status.max_repeats == 4,
            r.status.tx_window_even == 1,
            r.status.demod_mode == 0,
            r.status.ft8_decode_on == 1,
            r.status.audio_on == 0,
            r.status.usb_bw == 3000,
            r.status.lsb_bw == 3000,
            r.status.am_bw == 6000,
            r.waterfall.speed == 3,
            r.waterfall.min_db == -120,
            r.waterfall.max_db == 0,
            r.waterfall.full_on == 1,
            r.waterfall.zoom_on == 1,
    {
        let status = RustStatus {
            tx_count: 0,
            decode_count: 0,
            uptime_ms: 0,
            timestamp_ms: 0,
            auto_tx_mode: 0,
            last_msg: [0u8; 24],
            pending_msg: [0u8; 24],
            pending_offset: 2950,
            expect_regex: [0u8; 48],
            repeat_count: 0,
            max_repeats: 4,
            tx_window_even: 1,
            demod_mode: 0,
            ft8_decode_on: 1,
            audio_on: 0,
            usb_bw: 3000,
            lsb_bw: 3000,
            am_bw: 6000,
        };
        assert(status.last_msg@ =~= fixed(Seq::empty(), 24));
        assert(status.expect_regex@ =~= fixed(Seq::empty(), 48));
        AppState {
            status,
            waterfall: WaterfallSettings {
                speed: 3,
                min_db: -120,
                max_db: 0,
                full_on: 1,
                zoom_on: 1,
            },
            current_if_hz: 12000,
            expect_regex_compiled: None,
            target_offset: 1000,
            radio_ip: if radio_addr.unicode_len() == 0 {
                None
            } else {
                Some(String::from_str(radio_addr))
            },
            qso_total_tx_count: 0,
        }
    }
}

/// NUL characters at the end of a text are taken away.
proof fn lemma_trim_nuls(s: Seq<char>, n: nat)
    requires
        s.len() > 0,
        s.last() != '\0',
    ensures
        text::trim_end(s + Seq::new(n, |i: int| '\0'), CharClass::Nul) == s,
    decreases n,
{
    let filled = s + Seq::new(n, |i: int| '\0');
    if n == 0 {
        assert(filled =~= s);
    } else {
        assert(filled.drop_last() =~= s + Seq::new((n - 1) as nat, |i: int| '\0'));
        lemma_trim_nuls(s, (n - 1) as nat);
    }
}

/// The message that is to be sent is the one that was set, if it is ASCII
/// text of at most 24 characters that does not begin or end with NUL.
pub proof fn law_pending_message_is_kept(status: RustStatus, msg: Seq<char>)
    requires
        is_ascii_chars(msg),
        msg.len() <= 24,
        msg.len() > 0 ==> msg[0] != '\0' && msg.last() != '\0',
        status.pending_msg@ == fixed(encode_utf8(msg), 24),
    ensures
        status.pending_text() == msg,
{
    let n = (24 - msg.len()) as nat;
    let nuls = Seq::new(n, |i: int| '\0');
    let filled = msg + nuls;
    assert(is_ascii_chars(filled));
    is_ascii_chars_encode_utf8(msg);
    is_ascii_chars_encode_utf8(filled);
    assert(encode_utf8(filled) =~= status.pending_msg@);
    encode_utf8_valid_utf8(filled);
    encode_utf8_decode_utf8(filled);
    assert(outside::text_of_bytes(status.pending_msg@) == filled);
    if msg.len() > 0 {
        assert(filled[0] == msg[0]);
        assert(text::trim_start(filled, CharClass::Nul) == filled);
        lemma_trim_nuls(msg, n);
    } else {
        lemma_all_nuls(n);
        assert(filled =~= nuls);
        assert(text::trim_end(Seq::<char>::empty(), CharClass::Nul) =~= msg);
    }
}

proof fn lemma_all_nuls(n: nat)
    ensures
        text::trim_start(Seq::new(n, |i: int| '\0'), CharClass::Nul) == Seq::<char>::empty(),
    decreases n,
{
    let s = Seq::new(n, |i: int| '\0');
    if n > 0 {
        assert(s.drop_first() =~= Seq::new((n - 1) as nat, |i: int| '\0'));
        lemma_all_nuls((n - 1) as nat);
    } else {
        assert(s =~= Seq::<char>::empty());
    }
}

impl AppState {
    /// Sets the message that is sent next; it is cut to 24 bytes.
    pub fn set_pending(&mut self, msg: &str)
        ensures
            final(self).status.pending_msg@ == fixed(encode_utf8(msg@), 24),
            *final(self) == (AppState {
                status: RustStatus {
                    pending_msg: final(self).status.pending_msg,
                    ..old(self).status
                },
                ..*old(self)
            }),
    {
        self.status.pending_msg = fixed24(msg.as_bytes());
    }

    /// Leaves nothing to be sent.
    pub fn clear_pending(&mut self)
        ensures
            final(self).status.pending_msg@ == fixed(Seq::empty(), 24),
            *final(self) == (AppState {
                status: RustStatus {
                    pending_msg: final(self).status.pending_msg,
                    ..old(self).status
                },
                ..*old(self)
            }),
    {
        self.status.pending_msg = [0u8; 24];
        assert(self.status.pending_msg@ =~= fixed(Seq::empty(), 24));
    }

    /// Expects no answer.
    pub fn clear_expect(&mut self)
        ensures
            final(self).status.expect_regex@ == fixed(Seq::empty(), 48),
            *final(self) == (AppState {
                status: RustStatus {
                    expect_regex: final(self).status.expect_regex,
                    ..old(self).status
                },
                expect_regex_compiled: None,
                ..*old(self)
            }),
    {
        self.status.expect_regex = [0u8; 48];
        self.expect_regex_compiled = None;
        assert(self.status.expect_regex@ =~= fixed(Seq::empty(), 48));
    }

    /// Expects an answer of a pattern; none if the pattern is empty. A pattern
    /// that is not accepted is shown but not kept.
    pub fn set_expect(&mut self, pattern: &str)
        ensures
            final(self).status.expect_regex@ == fixed(encode_utf8(pattern@), 48),
            (match final(self).expect_regex_compiled {
                Some(p) => Some(p@),
                None => None,
            }) == (if pattern@.len() > 0 && patterns::accepted(pattern@) {
                Some(pattern@)
            } else {
                None
            }),
            *final(self) == (AppState {
                status: RustStatus {
                    expect_regex: final(self).status.expect_regex,
                    ..old(self).status
                },
                expect_regex_compiled: final(self).expect_regex_compiled,
                ..*old(self)
            }),
    {
        if pattern.unicode_len() == 0 {
            self.clear_expect();
            assert(encode_utf8(pattern@) =~= Seq::<u8>::empty());
            return;
        }
        self.status.expect_regex = fixed48(pattern.as_bytes());
        self.expect_regex_compiled = if is_accepted(pattern) {
            Some(String::from_str(pattern))
        } else {
            None
        };
    }

    /// Tells whether a message is the answer that is expected.
    pub fn expects(&self, message: &str) -> (r: bool)
        ensures
            r == match self.expect_regex_compiled {
                Some(p) => patterns::accepted(p@) && patterns::found(p@, message@),
                None => false,
            },
    {
        match &self.expect_regex_compiled {
            Some(pattern) => is_found(pattern.as_str(), message),
            None => false,
        }
    }
}

/// A number in eight bits: what is left of it after whole turns of 256.
pub open spec fn wrapped8(n: int) -> int {
    (n + 128) % 256 - 128
}

/// A number as a signed byte.
pub fn wrap_i8(n: i32) -> (r: i8)
    ensures
        r == wrapped8(n as int),
{
    let m: i64 = (n as i64 + 0x1_0000_0080) % 256;
    (m - 128) as i8
}

/// A signed number in sixteen bits, as an unsigned one.
pub open spec fn bits16(n: int) -> int {
    if n < 0 {
        n + 0x1_0000
    } else {
        n
    }
}

fn unsigned16(n: i16) -> (r: u16)
    ensures
        r == bits16(n as int),
{
    if n < 0 {
        (n as i32 + 0x1_0000) as u16
    } else {
        n as u16
    }
}

/// A signed number in eight bits, as an unsigned one.
pub open spec fn bits8(n: int) -> int {
    if n < 0 {
        n + 256
    } else {
        n
    }
}

/// A number cut to what sixteen bits with a sign hold.
pub open spec fn clamped_i16(n: int) -> int {
    if n < -32768 {
        -32768
    } else if n > 32767 {
        32767
    } else {
        n
    }
}

/// A number cut to what sixteen bits with a sign hold.
pub fn clamp_i16(n: i32) -> (r: i16)
    ensures
        r == clamped_i16(n as int),
{
    if n < -32768 {
        -32768
    } else if n > 32767 {
        32767
    } else {
        n as i16
    }
}

/// A number cut to what sixteen bits hold.
pub open spec fn clamped_u16(n: int) -> int {
    if n < 0 {
        0
    } else if n > 65535 {
        65535
    } else {
        n
    }
}

/// A number cut to what sixteen bits hold.
pub fn clamp_u16(n: i32) -> (r: u16)
    ensures
        r == clamped_u16(n as int),
{
    if n < 0 {
        0
    } else if n > 65535 {
        65535
    } else {
        n as u16
    }
}

/// A decoded message as clients are sent it.
pub struct WSDecodePkt {
    pub hour: u8,
    pub minute: u8,
    pub second: u8,
    pub snr: i8,
    /// The time offset in tenths of a second.
    pub dt: i16,
    pub freq: i16,
    pub message: [u8; 32],
}

impl WSDecodePkt {
    /// The record as clients are sent it: the fields in turn, numbers low byte first.
    pub open spec fn bytes(self) -> Seq<u8> {
        seq![self.hour, self.minute, self.second, bits8(self.snr as int) as u8] + wire::bytes16_le(
            bits16(self.dt as int),
        ) + wire::bytes16_le(bits16(self.freq as int)) + self.message@
    }

    /// Appends the record as clients are sent it.
    pub fn push_to(&self, out: &mut Vec<u8>)
        ensures
            final(out)@ == old(out)@ + self.bytes(),
    {
        let ghost before = out@;
        out.push(self.hour);
        out.push(self.minute);
        out.push(self.second);
        let snr: u8 = if self.snr < 0 {
            (self.snr as i32 + 256) as u8
        } else {
            self.snr as u8
        };
        out.push(snr);
        push_u16_le(out, unsigned16(self.dt));
        push_u16_le(out, unsigned16(self.freq));
        push_bytes(out, self.message.as_slice());
        assert(out@ =~= before + self.bytes());
    }
}

/// The last samples that were received, in a ring.
pub struct DecodeBuffer {
    pub data: Vec<i16>,
    pub write_ptr: usize,
}

impl DecodeBuffer {
    /// The ring has its size, and the next place lies in it.
    pub open spec fn wf(&self) -> bool {
        &&& self.data@.len() == BUFFER_SIZE
        &&& self.write_ptr < BUFFER_SIZE
    }

    /// The samples, the oldest first.
    pub open spec fn samples(&self) -> Seq<i16> {
        Seq::new(
            BUFFER_SIZE as nat,
            |i: int| self.data@[(self.write_ptr + i) % BUFFER_SIZE as int],
        )
    }

    /// A buffer of silence.
    pub fn new() -> (r: DecodeBuffer)
        ensures
            r.wf(),
            r.samples() == Seq::new(BUFFER_SIZE as nat, |i: int| 0i16),
    {
        let mut data: Vec<i16> = Vec::new();
        let mut i: usize = 0;
        while i < BUFFER_SIZE
            invariant
                i <= BUFFER_SIZE,
                data@.len() == i,
                forall|k: int| 0 <= k < i ==> #[trigger] data@[k] == 0,
            decreases BUFFER_SIZE - i,
        {
            data.push(0);
            i += 1;
        }
        let r = DecodeBuffer { data, write_ptr: 0 };
        assert(r.samples() =~= Seq::new(BUFFER_SIZE as nat, |i: int| 0i16));
        r
    }

    /// Takes a sample in the place of the oldest.
    pub fn push(&mut self, sample: i16)
        requires
            old(self).wf(),
        ensures
            final(self).wf(),
            final(self).samples() == old(self).samples().drop_first().push(sample),
    {
        let ghost before = *self;
        self.data.set(self.write_ptr, sample);
        self.write_ptr = (self.write_ptr + 1) % BUFFER_SIZE;
        proof {
            let n = BUFFER_SIZE as int;
            let p = before.write_ptr as int;
            let want = before.samples().drop_first().push(sample);
            assert forall|i: int| 0 <= i < n implies self.samples()[i] == want[i] by {
                if i < n - 1 {
                    assert((self.write_ptr + i) % n == (p + i + 1) % n);
                    assert((p + i + 1) % n != p);
                } else {
                    assert((self.write_ptr + i) % n == p);
                }
            }
            assert(self.samples() =~= want);
        }
    }

    /// Takes samples in the places of the oldest.
    pub fn push_all(&mut self, samples: &Vec<i16>)
        requires
            old(self).wf(),
        ensures
            final(self).wf(),
            final(self).samples() == (old(self).samples() + samples@).skip(
                samples@.len() as int,
            ),
    {
        let ghost before = self.samples();
        let mut i: usize = 0;
        assert((before + samples@.take(0)).skip(0) =~= before);
        while i < samples.len()
            invariant
                self.wf(),
                i <= samples@.len(),
                before.len() == BUFFER_SIZE,
                self.samples() == (before + samples@.take(i as int)).skip(i as int),
            decreases samples@.len() - i,
        {
            let ghost prev = self.samples();
            self.push(samples[i]);
            assert(prev.drop_first().push(samples@[i as int]) =~= (before + samples@.take(
                i + 1,
            )).skip(i + 1));
            i += 1;
        }
        assert(samples@.take(i as int) =~= samples@);
    }

    /// The samples, the oldest first.
    pub fn get_last_16s(&self) -> (r: Vec<i16>)
        requires
            self.wf(),
        ensures
            r@ == self.samples(),
    {
        let mut out: Vec<i16> = Vec::new();
        let mut i: usize = 0;
        while i < BUFFER_SIZE
            invariant
                self.wf(),
                i <= BUFFER_SIZE,
                out@ =~= self.samples().take(i as int),
            decreases BUFFER_SIZE - i,
        {
            out.push(self.data[(self.write_ptr + i) % BUFFER_SIZE]);
            i += 1;
        }
        assert(self.samples().take(i as int) =~= self.samples());
        out
    }
}

/// When a whole buffer of samples has come, the buffer holds exactly these,
/// whatever it held before.
pub proof fn law_buffer_holds_the_last(before: Seq<i16>, samples: Seq<i16>)
    requires
        before.len() == BUFFER_SIZE,
        samples.len() == BUFFER_SIZE,
    ensures
        (before + samples).skip(samples.len() as int) == samples,
{
    assert((before + samples).skip(samples.len() as int) =~= samples);
}

/// Where the fields of a status stand among its bytes; numbers have their low
/// byte first.
#[verifier::rlimit(40)]
pub proof fn law_status_layout(s: RustStatus)
    ensures
        ({
            let b = s.bytes();
            &&& wire::le32(b, 0) == s.tx_count
            &&& wire::le32(b, 4) == s.decode_count
            &&& wire::le32(b, 8) == s.uptime_ms
            &&& wire::le64(b, 12) == s.timestamp_ms
            &&& b[20] == s.auto_tx_mode
            &&& b.subrange(21, 45) == s.last_msg@
            &&& b.subrange(45, 69) == s.pending_msg@
            &&& wire::le16(b, 69) == s.pending_offset
            &&& b.subrange(71, 119) == s.expect_regex@
            &&& b[119] == s.repeat_count
            &&& b[120] == s.max_repeats
            &&& b[121] == s.tx_window_even
            &&& b[122] == s.demod_mode
            &&& b[123] == s.ft8_decode_on
            &&& b[124] == s.audio_on
            &&& wire::le16(b, 125) == s.usb_bw
            &&& wire::le16(b, 127) == s.lsb_bw
            &&& wire::le16(b, 129) == s.am_bw
        }),
{
    let b = s.bytes();
    let low = (s.timestamp_ms as int % 0x1_0000_0000) as u32;
    let high = (s.timestamp_ms as int / 0x1_0000_0000) as u32;
    lemma_first_numbers(s);
    lemma_texts(s);
    lemma_last_numbers(s);
    lemma_part32(b, 0, s.tx_count);
    lemma_part32(b, 4, s.decode_count);
    lemma_part32(b, 8, s.uptime_ms);
    lemma_part32(b, 12, low);
    lemma_part32(b, 16, high);
    lemma_part16(b, 69, s.pending_offset);
    lemma_part16(b, 125, s.usb_bw);
    lemma_part16(b, 127, s.lsb_bw);
    lemma_part16(b, 129, s.am_bw);
}

#[verifier::rlimit(40)]
proof fn lemma_first_numbers(s: RustStatus)
    ensures
        s.bytes().subrange(0, 4) == wire::bytes32_le(s.tx_count as int),
        s.bytes().subrange(4, 8) == wire::bytes32_le(s.decode_count as int),
        s.bytes().subrange(8, 12) == wire::bytes32_le(s.uptime_ms as int),
        s.bytes().subrange(12, 16) == wire::bytes32_le(s.timestamp_ms as int % 0x1_0000_0000),
        s.bytes().subrange(16, 20) == wire::bytes32_le(s.timestamp_ms as int / 0x1_0000_0000),
        s.bytes()[20] == s.auto_tx_mode,
{
    let b = s.bytes();
    assert(b.subrange(0, 4) =~= wire::bytes32_le(s.tx_count as int));
    assert(b.subrange(4, 8) =~= wire::bytes32_le(s.decode_count as int));
    assert(b.subrange(8, 12) =~= wire::bytes32_le(s.uptime_ms as int));
    assert(b.subrange(12, 16) =~= wire::bytes32_le(s.timestamp_ms as int % 0x1_0000_0000));
    assert(b.subrange(16, 20) =~= wire::bytes32_le(s.timestamp_ms as int / 0x1_0000_0000));
}

#[verifier::rlimit(40)]
proof fn lemma_texts(s: RustStatus)
    ensures
        s.bytes().subrange(21, 45) == s.last_msg@,
        s.bytes().subrange(45, 69) == s.pending_msg@,
        s.bytes().subrange(69, 71) == wire::bytes16_le(s.pending_offset as int),
        s.bytes().subrange(71, 119) == s.expect_regex@,
{
    let b = s.bytes();
    assert(b.subrange(21, 45) =~= s.last_msg@);
    assert(b.subrange(45, 69) =~= s.pending_msg@);
    assert(b.subrange(69, 71) =~= wire::bytes16_le(s.pending_offset as int));
    assert(b.subrange(71, 119) =~= s.expect_regex@);
}

#[verifier::rlimit(40)]
proof fn lemma_last_numbers(s: RustStatus)
    ensures
        ({
            let b = s.bytes();
            &&& b[119] == s.repeat_count
            &&& b[120] == s.max_repeats
            &&& b[121] == s.tx_window_even
            &&& b[122] == s.demod_mode
            &&& b[123] == s.ft8_decode_on
            &&& b[124] == s.audio_on
            &&& b.subrange(125, 127) == wire::bytes16_le(s.usb_bw as int)
            &&& b.subrange(127, 129) == wire::bytes16_le(s.lsb_bw as int)
            &&& b.subrange(129, 131) == wire::bytes16_le(s.am_bw as int)
        }),
{
    let b = s.bytes();
    assert(b.subrange(125, 127) =~= wire::bytes16_le(s.usb_bw as int));
    assert(b.subrange(127, 129) =~= wire::bytes16_le(s.lsb_bw as int));
    assert(b.subrange(129, 131) =~= wire::bytes16_le(s.am_bw as int));
}

/// A number among bytes is read where it was written.
pub proof fn lemma_part32(b: Seq<u8>, at: int, n: u32)
    requires
        0 <= at,
        at + 4 <= b.len(),
        b.subrange(at, at + 4) == wire::bytes32_le(n as int),
    ensures
        wire::le32(b, at) == n,
{
    let p = b.subrange(at, at + 4);
    wire::law_u32_round_trip(n);
    assert(p[0] == b[at] && p[1] == b[at + 1] && p[2] == b[at + 2] && p[3] == b[at + 3]);
}

/// A number among bytes is read where it was written.
pub proof fn lemma_part16(b: Seq<u8>, at: int, n: u16)
    requires
        0 <= at,
        at + 2 <= b.len(),
        b.subrange(at, at + 2) == wire::bytes16_le(n as int),
    ensures
        wire::le16(b, at) == n,
{
    let p = b.subrange(at, at + 2);
    wire::law_u16_round_trip(n);
    assert(p[0] == b[at] && p[1] == b[at + 1]);
}

/// Bytes of a fixed length begin with what they were made of, as far as it
/// goes, and end with zeros.
pub proof fn law_fixed_bytes(b: Seq<u8>, n: nat)
    ensures
        fixed(b, n).len() == n,
        b.len() >= n ==> fixed(b, n) == b.take(n as int),
        b.len() < n ==> fixed(b, n).take(b.len() as int) == b && forall|i: int|
            b.len() <= i < n ==> fixed(b, n)[i] == 0,
{
    if b.len() >= n {
        assert(fixed(b, n) =~= b.take(n as int));
    } else {
        assert(fixed(b, n).take(b.len() as int) =~= b);
    }
}

/// Numbers are cut to their range, or taken in fewer bits: what fits stays.
pub proof fn law_numbers_in_fewer_bits(n: int)
    ensures
        -128 <= n <= 127 ==> wrapped8(n) == n,
        wrapped8(n + 256) == wrapped8(n),
        -32768 <= n <= 32767 ==> clamped_i16(n) == n,
        n > 32767 ==> clamped_i16(n) == 32767,
        n < -32768 ==> clamped_i16(n) == -32768,
        0 <= n <= 65535 ==> clamped_u16(n) == n,
        n > 65535 ==> clamped_u16(n) == 65535,
        n < 0 ==> clamped_u16(n) == 0,
        0 <= n <= 32767 ==> bits16(n) == n,
        -32768 <= n < 0 ==> bits16(n) == n + 65536,
{
}

} // verus!
