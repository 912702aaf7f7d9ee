//! Commands from clients.
use crate::ft8_qso::qso_utils;
use crate::ft8_qso::qso_utils::get_next_expect_regex;
use crate::patterns;
use crate::text;
use crate::text::trimmed;
use crate::types;
use crate::types::{fixed24, AppState, RustStatus, StationConfig, WaterfallSettings};
use crate::wire;
use crate::wire::{push_bytes, read_u16_le};
use vstd::prelude::*;
use vstd::slice::slice_subrange;
use vstd::string::*;
use vstd::utf8::*;

verus! {

/// What is to be done for a command.
pub enum WsAction {
    /// Nothing but what was done to the state.
    Nothing,
    /// The bytes are sent to the radio at an address.
    Forward { ip: String, bytes: Vec<u8> },
    /// The radio is not known yet.
    NoRadio,
}

/// Whether a command has the bytes that it needs.
pub open spec fn is_complete(bin: Seq<u8>) -> bool {
    bin.len() > 0 && bin[0] == 0x10 ==> {
        &&& bin.len() >= 2
        &&& bin[1] == 3 ==> bin.len() >= 4
        &&& 4 <= bin[1] <= 7 ==> bin.len() >= 3
    }
}

/// Tells whether a command has the bytes that it needs.
pub fn has_its_bytes(bin: &[u8]) -> (r: bool)
    ensures
        r == is_complete(bin@),
{
    let n: usize = bin.len();
    if n == 0 || bin[0] != 0x10 {
        return true;
    }
    if n < 2 {
        return false;
    }
    let cmd: u8 = bin[1];
    if cmd == 3 {
        n >= 4
    } else if 4 <= cmd && cmd <= 7 {
        n >= 3
    } else {
        true
    }
}

/// Two bytes as a signed number, low byte first.
pub open spec fn signed16(b: Seq<u8>, at: int) -> int {
    let u = wire::le16(b, at);
    if u < 0x8000 {
        u as int
    } else {
        u - 0x1_0000
    }
}

fn read_i16_le(b: &[u8], at: usize) -> (r: i16)
    requires
        at + 2 <= b@.len(),
    ensures
        r == signed16(b@, at as int),
{
    let u = read_u16_le(b, at);
    if u < 0x8000 {
        u as i16
    } else {
        (u as i32 - 0x1_0000) as i16
    }
}

/// Whether a state follows from another by the command that sets what is sent.
pub open spec fn is_task_set(
    before: AppState,
    after: AppState,
    bin: Seq<u8>,
    my_call: Seq<char>,
) -> bool {
    let expect = qso_utils::next_expect(text::trim(after.status.pending_text()), my_call);
    &&& after.status.pending_msg@ == if bin[2] != 3 {
        bin.subrange(6, 30)
    } else {
        types::fixed(Seq::empty(), 24)
    }
    &&& after.status.expect_regex@ == types::fixed(encode_utf8(expect), 48)
    &&& (match after.expect_regex_compiled {
        Some(p) => Some(p@),
        None => None,
    }) == (if expect.len() > 0 && patterns::accepted(expect) {
        Some(expect)
    } else {
        None
    })
    &&& after == AppState {
        status: RustStatus {
            auto_tx_mode: bin[2],
            tx_window_even: bin[3],
            pending_offset: wire::le16(bin, 4) as u16,
            pending_msg: after.status.pending_msg,
            expect_regex: after.status.expect_regex,
            repeat_count: 0,
            ..before.status
        },
        expect_regex_compiled: after.expect_regex_compiled,
        ..before
    }
}

/// Whether a state follows from another by a command to this station.
pub open spec fn is_commanded(
    before: AppState,
    after: AppState,
    bin: Seq<u8>,
    my_call: Seq<char>,
) -> bool {
    let cmd = bin[1];
    if cmd == 1 {
        &&& after.status.expect_regex@ == types::fixed(Seq::empty(), 48)
        &&& after == AppState {
            status: RustStatus {
                auto_tx_mode: 0,
                repeat_count: 0,
                expect_regex: after.status.expect_regex,
                ..before.status
            },
            expect_regex_compiled: None,
            ..before
        }
    } else if cmd == 2 && bin.len() >= 30 {
        is_task_set(before, after, bin, my_call)
    } else if cmd == 3 {
        after == AppState { current_if_hz: wire::le16(bin, 2) as u32, ..before }
    } else if cmd == 4 {
        after == AppState {
            status: RustStatus { max_repeats: bin[2], ..before.status },
            ..before
        }
    } else if cmd == 5 {
        after == AppState { status: RustStatus { demod_mode: bin[2], ..before.status }, ..before }
    } else if cmd == 6 {
        after == AppState {
            status: RustStatus { ft8_decode_on: bin[2], ..before.status },
            ..before
        }
    } else if cmd == 7 {
        after == AppState { status: RustStatus { audio_on: bin[2], ..before.status }, ..before }
    } else if cmd == 8 && bin.len() >= 8 {
        after == AppState {
            status: RustStatus {
                usb_bw: wire::le16(bin, 2) as u16,
                lsb_bw: wire::le16(bin, 4) as u16,
                am_bw: wire::le16(bin, 6) as u16,
                ..before.status
            },
            ..before
        }
    } else if cmd == 9 && bin.len() >= 9 {
        after == AppState {
            waterfall: WaterfallSettings {
                speed: bin[2],
                min_db: signed16(bin, 3) as i16,
                max_db: signed16(bin, 5) as i16,
                full_on: bin[7],
                zoom_on: bin[8],
            },
            ..before
        }
    } else {
        after == before
    }
}

fn set_task(state: &mut AppState, bin: &[u8], config: &StationConfig)
    requires
        bin@.len() >= 30,
    ensures
        is_task_set(*old(state), *final(state), bin@, config.my_call@),
{
    state.status.auto_tx_mode = bin[2];
    state.status.tx_window_even = bin[3];
    state.status.pending_offset = read_u16_le(bin, 4);
    if bin[2] != 3 {
        let msg = slice_subrange(bin, 6, 30);
        state.status.pending_msg = fixed24(msg);
        assert(state.status.pending_msg@ =~= bin@.subrange(6, 30));
    } else {
        state.clear_pending();
    }
    state.status.repeat_count = 0;
    let pending = trimmed(state.status.pending_string().as_str());
    let expect = get_next_expect_regex(pending.as_str(), config.my_call.as_str());
    state.set_expect(expect.as_str());
}

fn set_state(state: &mut AppState, bin: &[u8], config: &StationConfig)
    requires
        bin@.len() > 0,
        bin@[0] == 0x10,
        is_complete(bin@),
    ensures
        is_commanded(*old(state), *final(state), bin@, config.my_call@),
{
    let cmd: u8 = bin[1];
    let n: usize = bin.len();
    if cmd == 1 {
        state.status.auto_tx_mode = 0;
        state.status.repeat_count = 0;
        state.clear_expect();
    } else if cmd == 2 {
        if n >= 30 {
            set_task(state, bin, config);
        }
    } else if cmd == 3 {
        state.current_if_hz = read_u16_le(bin, 2) as u32;
    } else if cmd == 4 {
        state.status.max_repeats = bin[2];
    } else if cmd == 5 {
        state.status.demod_mode = bin[2];
    } else if cmd == 6 {
        state.status.ft8_decode_on = bin[2];
    } else if cmd == 7 {
        state.status.audio_on = bin[2];
    } else if cmd == 8 {
        if n >= 8 {
            state.status.usb_bw = read_u16_le(bin, 2);
            state.status.lsb_bw = read_u16_le(bin, 4);
            state.status.am_bw = read_u16_le(bin, 6);
        }
    } else if cmd == 9 {
        if n >= 9 {
            state.waterfall = WaterfallSettings {
                speed: bin[2],
                min_db: read_i16_le(bin, 3),
                max_db: read_i16_le(bin, 5),
                full_on: bin[7],
                zoom_on: bin[8],
            };
        }
    }
}

/// Carries out a command from a client: one for the radio is passed on, one
/// for this station changes its state, any other does nothing.
pub fn handle_command(state: &mut AppState, bin: &[u8], config: &StationConfig) -> (r: WsAction)
    requires
        is_complete(bin@),
    ensures
        bin@.len() > 0 && bin@[0] == 0x02 ==> *final(state) == *old(state) && (match r {
            WsAction::Forward { ip, bytes } => old(state).radio_ip is Some && ip@
                == (old(state).radio_ip->0)@ && bytes@ == bin@.drop_first(),
            WsAction::NoRadio => old(state).radio_ip is None,
            WsAction::Nothing => false,
        }),
        bin@.len() > 0 && bin@[0] == 0x10 ==> r is Nothing && is_commanded(
            *old(state),
            *final(state),
            bin@,
            config.my_call@,
        ),
        bin@.len() == 0 || (bin@[0] != 0x02 && bin@[0] != 0x10) ==> r is Nothing && *final(state)
            == *old(state),
{
    if bin.len() == 0 {
        return WsAction::Nothing;
    }
    if bin[0] == 0x02 {
        return match &state.radio_ip {
            Some(ip) => {
                let rest = slice_subrange(bin, 1, bin.len());
                let mut bytes: Vec<u8> = Vec::new();
                push_bytes(&mut bytes, rest);
                assert(bytes@ =~= bin@.drop_first());
                WsAction::Forward { ip: String::from_str(ip.as_str()), bytes }
            },
            None => WsAction::NoRadio,
        };
    }
    if bin[0] == 0x10 {
        set_state(state, bin, config);
    }
    WsAction::Nothing
}

/// The name of a way to demodulate.
pub fn demod_name(mode: u8) -> (r: &'static str)
    ensures
        r@ == if mode == 0 {
            "USB"@
        } else if mode == 1 {
            "LSB"@
        } else if mode == 2 {
            "AM"@
        } else {
            "Unknown"@
        },
{
    if mode == 0 {
        "USB"
    } else if mode == 1 {
        "LSB"
    } else if mode == 2 {
        "AM"
    } else {
        "Unknown"
    }
}

/// What the commands of clients do, by their second byte; numbers have their
/// low byte first. All else of the state stays as it was.
pub proof fn law_commands_of_clients(
    before: AppState,
    after: AppState,
    bin: Seq<u8>,
    my_call: Seq<char>,
)
    requires
        bin.len() >= 2,
        bin[0] == 0x10,
        is_commanded(before, after, bin, my_call),
        is_complete(bin),
    ensures
        ({
            let s = before.status;
            let t = after.status;
            let number = |at: int| bin[at] + 256 * bin[at + 1];
            &&& bin[1] == 1 ==> {
                &&& t.auto_tx_mode == 0
                &&& t.repeat_count == 0
                &&& after.expect_regex_compiled is None
                &&& t.expect_regex@ == Seq::new(48, |i: int| 0u8)
                &&& t.pending_msg == s.pending_msg
                &&& t.pending_offset == s.pending_offset
            }
            &&& bin[1] == 2 && bin.len() >= 30 ==> {
                &&& t.auto_tx_mode == bin[2]
                &&& t.tx_window_even == bin[3]
                &&& t.pending_offset == number(4)
                &&& bin[2] != 3 ==> t.pending_msg@ == bin.subrange(6, 30)
                &&& bin[2] == 3 ==> t.pending_msg@ == Seq::new(24, |i: int| 0u8)
                &&& t.repeat_count == 0
                &&& t.max_repeats == s.max_repeats
                &&& after.target_offset == before.target_offset
            }
            &&& bin[1] == 3 ==> after == AppState { current_if_hz: number(2) as u32, ..before }
            &&& bin[1] == 4 ==> after == AppState {
                status: RustStatus { max_repeats: bin[2], ..s },
                ..before
            }
            &&& bin[1] == 5 ==> after == AppState {
                status: RustStatus { demod_mode: bin[2], ..s },
                ..before
            }
            &&& bin[1] == 6 ==> after == AppState {
                status: RustStatus { ft8_decode_on: bin[2], ..s },
                ..before
            }
            &&& bin[1] == 7 ==> after == AppState {
                status: RustStatus { audio_on: bin[2], ..s },
                ..before
            }
            &&& bin[1] == 8 && bin.len() >= 8 ==> {
                &&& t.usb_bw == number(2)
                &&& t.lsb_bw == number(4)
                &&& t.am_bw == number(6)
                &&& t.demod_mode == s.demod_mode
                &&& after.waterfall == before.waterfall
            }
            &&& bin[1] == 9 && bin.len() >= 9 ==> {
                let w = after.waterfall;
                &&& w.speed == bin[2]
                &&& (w.min_db - number(3)) % 65536 == 0
                &&& (w.max_db - number(5)) % 65536 == 0
                &&& w.full_on == bin[7]
                &&& w.zoom_on == bin[8]
                &&& t == s
            }
            &&& bin[1] == 0 || bin[1] > 9 ==> after == before
            &&& (bin[1] == 2 && bin.len() < 30) || (bin[1] == 8 && bin.len() < 8) || (bin[1] == 9
                && bin.len() < 9) ==> after == before
        }),
{
    assert(types::fixed(Seq::empty(), 48) =~= Seq::new(48, |i: int| 0u8));
    assert(types::fixed(Seq::empty(), 24) =~= Seq::new(24, |i: int| 0u8));
}

/// What is expected after a task was set follows from the message to be sent:
/// to a general call a first answer, to anything that has no answer nothing.
pub proof fn law_task_brings_its_expectation(
    before: AppState,
    after: AppState,
    bin: Seq<u8>,
    my_call: Seq<char>,
    p: Seq<char>,
)
    requires
        bin.len() >= 30,
        bin[1] == 2,
        is_commanded(before, after, bin, my_call),
        qso_utils::is_call(my_call),
        my_call.len() <= 32,
        text::is_word(p),
        is_ascii_chars(p),
    ensures
        text::trim(after.status.pending_text()) == "CQ"@ + " "@ + my_call + " "@ + p ==> {
            &&& after.expect_regex_compiled is Some
            &&& after.expect_regex_compiled->0@ == patterns::cq_pattern(my_call)
        },
        text::words(text::trim(after.status.pending_text())).len() < 3
            ==> after.expect_regex_compiled is None,
{
    if text::trim(after.status.pending_text()) == "CQ"@ + " "@ + my_call + " "@ + p {
        qso_utils::law_expectation_by_stage(my_call, my_call, p);
        lemma_cq_start(my_call);
    }
    if text::words(text::trim(after.status.pending_text())).len() < 3 {
        qso_utils::law_short_messages_bring_nothing(
            text::trim(after.status.pending_text()),
            my_call,
            my_call,
            0,
        );
    }
}

proof fn lemma_cq_start(my_call: Seq<char>)
    ensures
        "^<?"@ + my_call + ">?\\s+<?"@
            + "[A-Z0-9/]+>?\\s+([A-Z][0-9A-Z][0-9]{2}|[+-]\\d{1,2})"@ == patterns::cq_pattern(
            my_call,
        ),
{
    reveal_strlit(">?\\s+<?");
    reveal_strlit(">?\\s+<?[A-Z0-9/]+>?\\s+([A-Z][0-9A-Z][0-9]{2}|[+-]\\d{1,2})");
    reveal_strlit("[A-Z0-9/]+>?\\s+([A-Z][0-9A-Z][0-9]{2}|[+-]\\d{1,2})");
    assert("^<?"@ + my_call + ">?\\s+<?"@
        + "[A-Z0-9/]+>?\\s+([A-Z][0-9A-Z][0-9]{2}|[+-]\\d{1,2})"@ =~= patterns::cq_pattern(
        my_call,
    ));
}

} // verus!
