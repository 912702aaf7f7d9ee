//! Reception reports for the PSK Reporter service.
use crate::text;
use crate::types;
use crate::wire;
use crate::wire::{push_bytes, push_u16_be, push_u32_be};
use vstd::prelude::*;
use vstd::string::*;
use vstd::utf8::*;

verus! {

/// A station that was heard.
#[derive(Debug, Clone)]
pub struct PskSpot {
    pub callsign: String,
    pub frequency_hz: u64,
    pub snr: i8,
    pub dt_ms: i16,
    pub sender_grid: String,
}

/// Tells whether a station with this call sign is reported.
pub fn is_reportable(callsign: &str) -> (r: bool)
    ensures
        r == (callsign@.len() > 0 && callsign@ != "..."@),
{
    callsign.unicode_len() > 0 && !text::same_text(callsign, "...")
}

/// What a report says of the station that makes it.
pub struct ReporterInfo {
    pub call: String,
    pub grid: String,
    pub software: String,
    pub antenna: String,
    pub rig: String,
    pub random_id: u32,
}

/// A text with its length before it, in one byte.
pub open spec fn counted(s: Seq<char>) -> Seq<u8> {
    let b = encode_utf8(s);
    seq![wire::low_byte(b.len() as int)] + b
}

/// Bytes filled up with zeros to a multiple of four.
pub open spec fn padded4(b: Seq<u8>) -> Seq<u8> {
    b + Seq::new(((4 - b.len() % 4) % 4) as nat, |i: int| 0u8)
}

/// The data of the reporting station.
pub open spec fn receiver_data(info: ReporterInfo) -> Seq<u8> {
    counted(info.call@) + counted(info.grid@) + counted(info.software@) + counted(info.antenna@)
        + counted(info.rig@)
}

/// The data of a station that was heard.
pub open spec fn spot_data(spot: PskSpot, now: u32) -> Seq<u8> {
    counted(spot.callsign@) + wire::bytes32_be(spot.frequency_hz as int % 0x1_0000_0000) + seq![
        types::bits8(spot.snr as int) as u8,
        127u8,
    ] + counted("FT8"@) + seq![1u8] + counted(spot.sender_grid@) + wire::bytes32_be(now as int)
}

/// The data of stations that were heard, in turn.
pub open spec fn spots_data(spots: Seq<PskSpot>, now: u32) -> Seq<u8>
    decreases spots.len(),
{
    if spots.len() == 0 {
        Seq::empty()
    } else {
        spots_data(spots.drop_last(), now) + spot_data(spots.last(), now)
    }
}

/// A set of data with its number and length before it.
pub open spec fn data_set(id: int, data: Seq<u8>) -> Seq<u8> {
    wire::bytes16_be(id) + wire::bytes16_be(length16(data.len())) + data
}

/// The format of the data of the reporting station.
pub const RECEIVER_FORMAT: [u8; 52] = [
    0x00, 0x03, 0x00, 0x34, 0x99, 0x92, 0x00, 0x05, 0x00, 0x01, 0x80, 0x02, 0xFF, 0xFF, 0x00, 0x00,
    0x76, 0x8F, 0x80, 0x04, 0xFF, 0xFF, 0x00, 0x00, 0x76, 0x8F, 0x80, 0x08, 0xFF, 0xFF, 0x00, 0x00,
    0x76, 0x8F, 0x80, 0x09, 0xFF, 0xFF, 0x00, 0x00, 0x76, 0x8F, 0x80, 0x0D, 0xFF, 0xFF, 0x00, 0x00,
    0x76, 0x8F, 0x00, 0x00,
];

/// The format of the data of a station that was heard.
pub const SENDER_FORMAT: [u8; 68] = [
    0x00, 0x02, 0x00, 0x44, 0x99, 0x93, 0x00, 0x08, 0x80, 0x01, 0xFF, 0xFF, 0x00, 0x00, 0x76, 0x8F,
    0x80, 0x05, 0x00, 0x04, 0x00, 0x00, 0x76, 0x8F, 0x80, 0x06, 0x00, 0x01, 0x00, 0x00, 0x76, 0x8F,
    0x80, 0x07, 0x00, 0x01, 0x00, 0x00, 0x76, 0x8F, 0x80, 0x0A, 0xFF, 0xFF, 0x00, 0x00, 0x76, 0x8F,
    0x80, 0x0B, 0x00, 0x01, 0x00, 0x00, 0x76, 0x8F, 0x80, 0x03, 0xFF, 0xFF, 0x00, 0x00, 0x76, 0x8F,
    0x00, 0x96, 0x00, 0x04,
];

/// The formats of the data of a report.
#[verifier::opaque]
pub open spec fn formats() -> Seq<u8> {
    RECEIVER_FORMAT@ + SENDER_FORMAT@
}

fn push_formats(out: &mut Vec<u8>)
    ensures
        final(out)@ == old(out)@ + formats(),
{
    let ghost before = out@;
    push_bytes(out, RECEIVER_FORMAT.as_slice());
    push_bytes(out, SENDER_FORMAT.as_slice());
    proof {
        reveal(formats);
        let a = RECEIVER_FORMAT@;
        let b = SENDER_FORMAT@;
        assert(before + a + b =~= before + (a + b));
    }
}

/// What follows the length in a report.
pub open spec fn report_body(
    info: ReporterInfo,
    spots: Seq<PskSpot>,
    sequence: u32,
    now: u32,
) -> Seq<u8> {
    wire::bytes32_be(now as int) + wire::bytes32_be(sequence as int) + wire::bytes32_be(
        info.random_id as int,
    ) + formats() + data_set(0x9992, padded4(receiver_data(info)))
        + data_set(0x9993, padded4(spots_data(spots, now)))
}

/// A report: version, length in bytes and body.
pub open spec fn report_bytes(
    info: ReporterInfo,
    spots: Seq<PskSpot>,
    sequence: u32,
    now: u32,
) -> Seq<u8> {
    let body = report_body(info, spots, sequence, now);
    wire::bytes16_be(10) + wire::bytes16_be(length16(body.len())) + body
}

fn enc_str(buf: &mut Vec<u8>, s: &str)
    ensures
        final(buf)@ == old(buf)@ + counted(s@),
{
    let b = s.as_bytes();
    let n: usize = b.len();
    buf.push((n % 256) as u8);
    push_bytes(buf, b);
    assert(buf@ =~= old(buf)@ + counted(s@));
}

fn pad4(buf: &mut Vec<u8>)
    ensures
        final(buf)@ == padded4(old(buf)@),
{
    let missing: usize = (4 - buf.len() % 4) % 4;
    let ghost before = buf@;
    let mut i: usize = 0;
    assert(before + Seq::new(0, |i: int| 0u8) =~= before);
    while i < missing
        invariant
            i <= missing,
            buf@ == before + Seq::new(i as nat, |i: int| 0u8),
        decreases missing - i,
    {
        buf.push(0);
        i += 1;
        assert(buf@ =~= before + Seq::new(i as nat, |i: int| 0u8));
    }
}

/// A length in bytes with its own four bytes counted, in sixteen bits.
pub open spec fn length16(n: nat) -> int {
    (n + 4) as int % 0x1_0000
}

fn length_with_head(n: usize) -> (r: u16)
    ensures
        r == length16(n as nat),
{
    let len: usize = n % 0x1_0000 + 4;
    (len % 0x1_0000) as u16
}

fn push_set(out: &mut Vec<u8>, id: u16, data: &Vec<u8>)
    ensures
        final(out)@ == old(out)@ + data_set(id as int, data@),
{
    push_u16_be(out, id);
    push_u16_be(out, length_with_head(data.len()));
    push_bytes(out, data.as_slice());
    assert(out@ =~= old(out)@ + data_set(id as int, data@));
}

fn push_spot(out: &mut Vec<u8>, spot: &PskSpot, now: u32)
    ensures
        final(out)@ == old(out)@ + spot_data(*spot, now),
{
    enc_str(out, spot.callsign.as_str());
    push_u32_be(out, (spot.frequency_hz % 0x1_0000_0000) as u32);
    let snr: u8 = if spot.snr < 0 {
        (spot.snr as i32 + 256) as u8
    } else {
        spot.snr as u8
    };
    out.push(snr);
    out.push(127);
    enc_str(out, "FT8");
    out.push(1);
    enc_str(out, spot.sender_grid.as_str());
    push_u32_be(out, now);
    assert(out@ =~= old(out)@ + spot_data(*spot, now));
}

fn receiver_bytes(info: &ReporterInfo) -> (r: Vec<u8>)
    ensures
        r@ == padded4(receiver_data(*info)),
{
    let mut r_data: Vec<u8> = Vec::new();
    enc_str(&mut r_data, info.call.as_str());
    enc_str(&mut r_data, info.grid.as_str());
    enc_str(&mut r_data, info.software.as_str());
    enc_str(&mut r_data, info.antenna.as_str());
    enc_str(&mut r_data, info.rig.as_str());
    assert(r_data@ =~= receiver_data(*info));
    pad4(&mut r_data);
    r_data
}

/// The stations with one more: in the place of what was noted of it before,
/// else at the end.
pub open spec fn with_spot(spots: Seq<PskSpot>, spot: PskSpot) -> Seq<PskSpot>
    decreases spots.len(),
{
    if spots.len() == 0 {
        seq![spot]
    } else if spots[0].callsign@ == spot.callsign@ {
        spots.update(0, spot)
    } else {
        seq![spots[0]] + with_spot(spots.drop_first(), spot)
    }
}

/// The stations that were heard since the last report.
pub struct SpotBuffer {
    pub sequence_number: u32,
    /// The stations, each once.
    pub spots: Vec<PskSpot>,
}

impl SpotBuffer {
    /// No two entries are of the same call sign.
    pub open spec fn wf(&self) -> bool {
        forall|i: int, j: int|
            0 <= i < j < self.spots@.len() ==> (#[trigger] self.spots@[i]).callsign@ != (
            #[trigger] self.spots@[j]).callsign@
    }

    /// No station was heard and no report was made.
    pub fn new() -> (r: SpotBuffer)
        ensures
            r.wf(),
            r.sequence_number == 0,
            r.spots@ == Seq::<PskSpot>::empty(),
    {
        SpotBuffer { sequence_number: 0, spots: Vec::new() }
    }

    /// Notes a station. What was noted of it before is replaced.
    pub fn insert(&mut self, spot: PskSpot)
        requires
            old(self).wf(),
        ensures
            final(self).wf(),
            final(self).sequence_number == old(self).sequence_number,
            final(self).spots@ == with_spot(old(self).spots@, spot),
    {
        let ghost before = self.spots@;
        let mut i: usize = 0;
        assert(before.take(0) + with_spot(before.skip(0), spot) =~= with_spot(before, spot)) by {
            assert(before.skip(0) =~= before);
        }
        while i < self.spots.len()
            invariant
                before == old(self).spots@,
                self.spots@ == before,
                self.sequence_number == old(self).sequence_number,
                self.wf(),
                i <= before.len(),
                with_spot(before, spot) == before.take(i as int) + with_spot(
                    before.skip(i as int),
                    spot,
                ),
                forall|k: int| 0 <= k < i ==> (#[trigger] before[k]).callsign@ != spot.callsign@,
            decreases before.len() - i,
        {
            let ghost rest = before.skip(i as int);
            if text::same_text(self.spots[i].callsign.as_str(), spot.callsign.as_str()) {
                self.spots.set(i, spot);
                proof {
                    assert(self.spots@ =~= before.take(i as int) + rest.update(0, spot));
                    assert forall|a: int, b: int| 0 <= a < b < self.spots@.len() implies (
                    #[trigger] self.spots@[a]).callsign@ != (#[trigger] self.spots@[b]).callsign@ by {
                        assert(before[a].callsign@ != before[b].callsign@);
                    }
                }
                return;
            }
            assert(rest.drop_first() =~= before.skip(i + 1));
            assert(before.take(i as int) + (seq![rest[0]] + with_spot(rest.drop_first(), spot))
                =~= before.take(i + 1) + with_spot(before.skip(i + 1), spot));
            i += 1;
        }
        self.spots.push(spot);
        proof {
            assert(before.skip(i as int) =~= Seq::<PskSpot>::empty());
            assert(self.spots@ =~= before.take(i as int) + seq![spot]);
            assert forall|a: int, b: int| 0 <= a < b < self.spots@.len() implies (
            #[trigger] self.spots@[a]).callsign@ != (#[trigger] self.spots@[b]).callsign@ by {
                assert(self.spots@[a] == before[a]);
            }
        }
    }

    /// Tells how many stations were heard since the last report.
    pub fn count(&self) -> (r: usize)
        ensures
            r == self.spots@.len(),
    {
        self.spots.len()
    }

    /// The report on the stations that were heard.
    pub fn report(&self, info: &ReporterInfo, now: u32) -> (r: Vec<u8>)
        ensures
            r@ == report_bytes(*info, self.spots@, self.sequence_number, now),
    {
        let r_data = receiver_bytes(info);
        let s_data = self.spot_bytes(now);
        let mut body: Vec<u8> = Vec::new();
        push_u32_be(&mut body, now);
        assert(body@ =~= wire::bytes32_be(now as int));
        push_u32_be(&mut body, self.sequence_number);
        push_u32_be(&mut body, info.random_id);
        push_formats(&mut body);
        push_set(&mut body, 0x9992, &r_data);
        push_set(&mut body, 0x9993, &s_data);
        let mut out: Vec<u8> = Vec::new();
        push_u16_be(&mut out, 10);
        assert(out@ =~= wire::bytes16_be(10));
        push_u16_be(&mut out, length_with_head(body.len()));
        push_bytes(&mut out, body.as_slice());
        out
    }

    fn spot_bytes(&self, now: u32) -> (r: Vec<u8>)
        ensures
            r@ == padded4(spots_data(self.spots@, now)),
    {
        let mut s_data: Vec<u8> = Vec::new();
        let mut i: usize = 0;
        assert(self.spots@.take(0) =~= Seq::<PskSpot>::empty());
        while i < self.spots.len()
            invariant
                i <= self.spots@.len(),
                s_data@ == spots_data(self.spots@.take(i as int), now),
            decreases self.spots@.len() - i,
        {
            assert(self.spots@.take(i + 1).drop_last() =~= self.spots@.take(i as int));
            push_spot(&mut s_data, &self.spots[i], now);
            i += 1;
        }
        assert(self.spots@.take(i as int) =~= self.spots@);
        pad4(&mut s_data);
        s_data
    }

    /// Notes that the report was sent: the stations are counted and forgotten.
    pub fn mark_sent(&mut self)
        requires
            old(self).sequence_number + old(self).spots@.len() <= u32::MAX,
        ensures
            final(self).sequence_number == old(self).sequence_number + old(self).spots@.len(),
            final(self).spots@ == Seq::<PskSpot>::empty(),
            final(self).wf(),
    {
        self.sequence_number = self.sequence_number + self.spots.len() as u32;
        self.spots = Vec::new();
    }
}

/// A station that was heard is noted once: in the place of what was noted of it
/// before, else at the end. What was noted of others stays.
pub proof fn law_station_is_noted_once(spots: Seq<PskSpot>, spot: PskSpot)
    ensures
        ({
            let after = with_spot(spots, spot);
            let known = exists|i: int|
                0 <= i < spots.len() && (#[trigger] spots[i]).callsign@ == spot.callsign@;
            &&& exists|i: int| 0 <= i < after.len() && #[trigger] after[i] == spot
            &&& known ==> after.len() == spots.len()
            &&& !known ==> after == spots.push(spot)
            &&& forall|i: int|
                0 <= i < spots.len() && (#[trigger] spots[i]).callsign@ != spot.callsign@
                    ==> after[i] == spots[i]
        }),
    decreases spots.len(),
{
    let after = with_spot(spots, spot);
    if spots.len() == 0 {
        assert(after[0] == spot);
        assert(after =~= spots.push(spot));
    } else if spots[0].callsign@ == spot.callsign@ {
        assert(after[0] == spot);
    } else {
        let rest = spots.drop_first();
        law_station_is_noted_once(rest, spot);
        let inner = with_spot(rest, spot);
        assert(after == seq![spots[0]] + inner);
        let k = choose|k: int| 0 <= k < inner.len() && #[trigger] inner[k] == spot;
        assert(after[k + 1] == spot);
        if exists|i: int| 0 <= i < spots.len() && (#[trigger] spots[i]).callsign@ == spot.callsign@ {
            let i = choose|i: int|
                0 <= i < spots.len() && (#[trigger] spots[i]).callsign@ == spot.callsign@;
            assert(rest[i - 1] == spots[i]);
        } else {
            assert forall|i: int| 0 <= i < rest.len() implies (#[trigger] rest[i]).callsign@
                != spot.callsign@ by {
                assert(rest[i] == spots[i + 1]);
            }
            assert(after =~= spots.push(spot));
        }
        assert forall|i: int|
            0 <= i < spots.len() && (#[trigger] spots[i]).callsign@ != spot.callsign@ implies after[i]
            == spots[i] by {
            if i > 0 {
                assert(rest[i - 1] == spots[i]);
                assert(after[i] == inner[i - 1]);
            }
        }
    }
}

/// What a report says of a station that was heard: its call sign, frequency in
/// hertz, strength, mode, kind, grid square and the time; texts have their
/// length before them, numbers their high byte first.
#[verifier::rlimit(40)]
pub proof fn law_data_of_a_station(spot: PskSpot, now: u32)
    requires
        encode_utf8(spot.callsign@).len() <= 255,
        encode_utf8(spot.sender_grid@).len() <= 255,
        spot.frequency_hz <= u32::MAX,
    ensures
        ({
            let d = spot_data(spot, now);
            let call = encode_utf8(spot.callsign@);
            let grid = encode_utf8(spot.sender_grid@);
            let a = 1 + call.len() as int;
            let b = a + 11;
            let c = b + 1 + grid.len();
            &&& d.len() == c + 4
            &&& d[0] == call.len()
            &&& d.subrange(1, a) == call
            &&& 0x100_0000 * d[a] + 0x1_0000 * d[a + 1] + 0x100 * d[a + 2] + d[a + 3]
                == spot.frequency_hz
            &&& spot.snr >= 0 ==> d[a + 4] == spot.snr
            &&& spot.snr < 0 ==> d[a + 4] == spot.snr + 256
            &&& d.subrange(a + 5, b) == seq![127u8, 3, 70, 84, 56, 1]
            &&& d[b] == grid.len()
            &&& d.subrange(b + 1, c) == grid
            &&& 0x100_0000 * d[c] + 0x1_0000 * d[c + 1] + 0x100 * d[c + 2] + d[c + 3] == now
        }),
{
    reveal_strlit("FT8");
    let d = spot_data(spot, now);
    let call = encode_utf8(spot.callsign@);
    let grid = encode_utf8(spot.sender_grid@);
    let a = 1 + call.len() as int;
    let b = a + 11;
    let c = b + 1 + grid.len();
    let mode = "FT8"@;
    assert(is_ascii_chars(mode));
    is_ascii_chars_encode_utf8(mode);
    let m = encode_utf8(mode);
    assert(mode[0] as u8 == m[0] && mode[1] as u8 == m[1] && mode[2] as u8 == m[2]);
    assert(d.subrange(1, a) =~= call);
    assert(d.subrange(a, a + 4) =~= wire::bytes32_be(spot.frequency_hz as int));
    assert(d[a] == d.subrange(a, a + 4)[0] && d[a + 1] == d.subrange(a, a + 4)[1] && d[a + 2]
        == d.subrange(a, a + 4)[2] && d[a + 3] == d.subrange(a, a + 4)[3]);
    lemma_be32(spot.frequency_hz as int);
    assert(d.subrange(a + 5, b) =~= seq![127u8, 3, 70, 84, 56, 1]);
    assert(d.subrange(b + 1, c) =~= grid);
    assert(d.subrange(c, c + 4) =~= wire::bytes32_be(now as int));
    assert(d[c] == d.subrange(c, c + 4)[0] && d[c + 1] == d.subrange(c, c + 4)[1] && d[c + 2]
        == d.subrange(c, c + 4)[2] && d[c + 3] == d.subrange(c, c + 4)[3]);
    lemma_be32(now as int);
}

proof fn lemma_be32(n: int)
    requires
        0 <= n <= u32::MAX,
    ensures
        ({
            let b = wire::bytes32_be(n);
            0x100_0000 * b[0] + 0x1_0000 * b[1] + 0x100 * b[2] + b[3] == n
        }),
{
}

/// Bytes that are filled up take a multiple of four, and keep what they begin with.
pub proof fn law_data_are_filled_up(b: Seq<u8>)
    ensures
        padded4(b).len() % 4 == 0,
        padded4(b).take(b.len() as int) == b,
        padded4(b).len() < b.len() + 4,
        forall|i: int| b.len() <= i < padded4(b).len() ==> padded4(b)[i] == 0,
{
    assert(padded4(b).take(b.len() as int) =~= b);
}

/// A set of data begins with its number and its length, the four bytes for
/// these counted.
pub proof fn law_head_of_data(id: u16, data: Seq<u8>)
    requires
        data.len() + 4 < 0x1_0000,
    ensures
        ({
            let d = data_set(id as int, data);
            &&& d.len() == data.len() + 4
            &&& 256 * d[0] + d[1] == id
            &&& 256 * d[2] + d[3] == d.len()
            &&& d.skip(4) == data
        }),
{
    let d = data_set(id as int, data);
    assert(d.skip(4) =~= data);
}

/// The data of all stations follow each other, in their order.
pub proof fn law_data_of_all_stations(spots: Seq<PskSpot>, spot: PskSpot, now: u32)
    ensures
        spots_data(spots.push(spot), now) == spots_data(spots, now) + spot_data(spot, now),
        spots_data(Seq::empty(), now).len() == 0,
{
    assert(spots.push(spot).drop_last() =~= spots);
}

} // verus!
