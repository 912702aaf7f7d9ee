//! Small conversions.
use crate::wire::push_bytes;
use vstd::prelude::*;
use vstd::utf8::*;

verus! {

/// Three bytes as a signed number, low byte first.
pub open spec fn signed24(b: Seq<u8>) -> int {
    let u = b[0] + 256 * b[1] + 65536 * b[2];
    if u < 0x80_0000 {
        u
    } else {
        u - 0x100_0000
    }
}

/// Reads three bytes as a signed number, low byte first.
pub fn decode_24le(b: &[u8]) -> (r: i32)
    requires
        b@.len() >= 3,
    ensures
        r == signed24(b@),
{
    let v: i32 = b[0] as i32 + 256 * b[1] as i32 + 65536 * b[2] as i32;
    if v >= 0x80_0000 {
        v - 0x100_0000
    } else {
        v
    }
}

/// A line of the log, as clients are sent it.
pub fn log_packet(msg: &str) -> (r: Vec<u8>)
    ensures
        r@ == seq![0x12u8] + encode_utf8(msg@),
{
    let mut pkt: Vec<u8> = Vec::new();
    pkt.push(0x12);
    push_bytes(&mut pkt, msg.as_bytes());
    assert(pkt@ =~= seq![0x12u8] + encode_utf8(msg@));
    pkt
}

} // verus!
