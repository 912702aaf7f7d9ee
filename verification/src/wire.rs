//! Numbers as bytes.
use vstd::prelude::*;

verus! {

/// Two bytes as a number, low byte first.
pub open spec fn le16(b: Seq<u8>, at: int) -> nat {
    (b[at] + 256 * b[at + 1]) as nat
}

/// Four bytes as a number, low byte first.
pub open spec fn le32(b: Seq<u8>, at: int) -> nat {
    (b[at] + 256 * b[at + 1] + 65536 * b[at + 2] + 16777216 * b[at + 3]) as nat
}

/// Eight bytes as a number, low byte first.
pub open spec fn le64(b: Seq<u8>, at: int) -> nat {
    le32(b, at) + 0x1_0000_0000 * le32(b, at + 4)
}

/// The low byte of a number.
pub open spec fn low_byte(n: int) -> u8 {
    (n % 256) as u8
}

/// A number in two bytes, low byte first.
pub open spec fn bytes16_le(n: int) -> Seq<u8> {
    seq![low_byte(n), low_byte(n / 256)]
}

/// A number in four bytes, low byte first.
pub open spec fn bytes32_le(n: int) -> Seq<u8> {
    seq![low_byte(n), low_byte(n / 256), low_byte(n / 65536), low_byte(n / 16777216)]
}

/// A number in eight bytes, low byte first.
pub open spec fn bytes64_le(n: int) -> Seq<u8> {
    bytes32_le(n % 0x1_0000_0000) + bytes32_le(n / 0x1_0000_0000)
}

/// A number in two bytes, high byte first.
pub open spec fn bytes16_be(n: int) -> Seq<u8> {
    seq![low_byte(n / 256), low_byte(n)]
}

/// A number in four bytes, high byte first.
pub open spec fn bytes32_be(n: int) -> Seq<u8> {
    seq![low_byte(n / 16777216), low_byte(n / 65536), low_byte(n / 256), low_byte(n)]
}

/// Reads two bytes as a number, low byte first.
pub fn read_u16_le(b: &[u8], at: usize) -> (r: u16)
    requires
        at + 2 <= b@.len(),
    ensures
        r == le16(b@, at as int),
{
    b[at] as u16 + 256 * b[at + 1] as u16
}

/// Reads four bytes as a number, low byte first.
pub fn read_u32_le(b: &[u8], at: usize) -> (r: u32)
    requires
        at + 4 <= b@.len(),
    ensures
        r == le32(b@, at as int),
{
    b[at] as u32 + 256 * b[at + 1] as u32 + 65536 * b[at + 2] as u32 + 16777216 * b[at + 3] as u32
}

/// Reads eight bytes as a number, low byte first.
pub fn read_u64_le(b: &[u8], at: usize) -> (r: u64)
    requires
        at + 8 <= b@.len(),
    ensures
        r == le64(b@, at as int),
{
    let low = read_u32_le(b, at);
    assert(at + 4 < b.len());
    let high = read_u32_le(b, at + 4);
    low as u64 + 0x1_0000_0000 * high as u64
}

/// Appends a number in eight bytes, low byte first.
pub fn push_u64_le(out: &mut Vec<u8>, n: u64)
    ensures
        final(out)@ == old(out)@ + bytes64_le(n as int),
{
    let ghost before = out@;
    push_u32_le(out, (n % 0x1_0000_0000) as u32);
    push_u32_le(out, (n / 0x1_0000_0000) as u32);
    assert(out@ =~= before + bytes64_le(n as int));
}

/// Appends a number in two bytes, low byte first.
pub fn push_u16_le(out: &mut Vec<u8>, n: u16)
    ensures
        final(out)@ == old(out)@ + bytes16_le(n as int),
{
    out.push((n % 256) as u8);
    out.push((n / 256) as u8);
    assert(out@ =~= old(out)@ + bytes16_le(n as int));
}

/// Appends a number in four bytes, low byte first.
pub fn push_u32_le(out: &mut Vec<u8>, n: u32)
    ensures
        final(out)@ == old(out)@ + bytes32_le(n as int),
{
    out.push((n % 256) as u8);
    out.push((n / 256 % 256) as u8);
    out.push((n / 65536 % 256) as u8);
    out.push((n / 16777216) as u8);
    assert(out@ =~= old(out)@ + bytes32_le(n as int));
}

/// Appends a number in two bytes, high byte first.
pub fn push_u16_be(out: &mut Vec<u8>, n: u16)
    ensures
        final(out)@ == old(out)@ + bytes16_be(n as int),
{
    out.push((n / 256) as u8);
    out.push((n % 256) as u8);
    assert(out@ =~= old(out)@ + bytes16_be(n as int));
}

/// Appends a number in four bytes, high byte first.
pub fn push_u32_be(out: &mut Vec<u8>, n: u32)
    ensures
        final(out)@ == old(out)@ + bytes32_be(n as int),
{
    out.push((n / 16777216) as u8);
    out.push((n / 65536 % 256) as u8);
    out.push((n / 256 % 256) as u8);
    out.push((n % 256) as u8);
    assert(out@ =~= old(out)@ + bytes32_be(n as int));
}

/// Appends bytes.
pub fn push_bytes(out: &mut Vec<u8>, b: &[u8])
    ensures
        final(out)@ == old(out)@ + b@,
{
    let mut i: usize = 0;
    let ghost before = out@;
    assert(before + b@.take(0) =~= before);
    while i < b.len()
        invariant
            i <= b@.len(),
            out@ == before + b@.take(i as int),
        decreases b@.len() - i,
    {
        out.push(b[i]);
        i += 1;
        assert(before + b@.take(i as int) =~= (before + b@.take(i - 1)).push(b@[i - 1]));
    }
    assert(b@.take(i as int) =~= b@);
}

/// What was written as four bytes is read back.
pub proof fn law_u32_round_trip(n: u32)
    ensures
        le32(bytes32_le(n as int), 0) == n,
{
}

/// What was written as eight bytes is read back.
pub proof fn law_u64_round_trip(n: u64)
    ensures
        le64(bytes64_le(n as int), 0) == n,
{
    let low = bytes32_le(n as int % 0x1_0000_0000);
    let high = bytes32_le(n as int / 0x1_0000_0000);
    let b = bytes64_le(n as int);
    assert(b[4] == high[0] && b[5] == high[1] && b[6] == high[2] && b[7] == high[3]);
    law_u32_round_trip((n % 0x1_0000_0000) as u32);
    law_u32_round_trip((n / 0x1_0000_0000) as u32);
    assert(le32(b, 0) == le32(low, 0));
    assert(le32(b, 4) == le32(high, 0));
}

/// What was written as two bytes is read back.
pub proof fn law_u16_round_trip(n: u16)
    ensures
        le16(bytes16_le(n as int), 0) == n,
{
}

} // verus!
