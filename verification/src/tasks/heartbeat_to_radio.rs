//! The signs of life to the radio and to clients.
use crate::types::{AppState, RustStatus};
use vstd::prelude::*;

verus! {

/// The packet that keeps the radio in touch: a request for its status.
pub fn heartbeat_packet() -> (r: Vec<u8>)
    ensures
        r@ == seq![0xE3u8, 0x2Du8, 0x01u8, 0x01u8],
{
    let mut p: Vec<u8> = Vec::new();
    p.push(0xE3);
    p.push(0x2D);
    p.push(0x01);
    p.push(0x01);
    assert(p@ =~= seq![0xE3u8, 0x2Du8, 0x01u8, 0x01u8]);
    p
}

/// The sign of life is a request for the status.
pub proof fn law_heartbeat_asks_for_status(target_ip: Seq<char>)
    ensures
        crate::radio_ctrl::command(
            target_ip,
            crate::radio_ctrl::CMD_QUERY_STATUS,
            Seq::empty(),
        ).bytes == seq![0xE3u8, 0x2Du8, 0x01u8, 0x01u8],
{
    assert(crate::radio_ctrl::command(
        target_ip,
        crate::radio_ctrl::CMD_QUERY_STATUS,
        Seq::empty(),
    ).bytes =~= seq![0xE3u8, 0x2Du8, 0x01u8, 0x01u8]);
}

/// Notes the times in the status and gives it as clients are sent it.
pub fn status_packet(state: &mut AppState, uptime_ms: u32, timestamp_ms: u64) -> (r: Vec<u8>)
    ensures
        *final(state) == (AppState {
            status: RustStatus { uptime_ms, timestamp_ms, ..old(state).status },
            ..*old(state)
        }),
        r@ == seq![0x11u8] + final(state).status.bytes(),
{
    state.status.uptime_ms = uptime_ms;
    state.status.timestamp_ms = timestamp_ms;
    let mut pkt: Vec<u8> = Vec::new();
    pkt.push(0x11);
    state.status.push_to(&mut pkt);
    assert(pkt@ =~= seq![0x11u8] + state.status.bytes());
    pkt
}

} // verus!
