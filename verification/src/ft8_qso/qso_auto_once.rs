//! Answers to a station that the operator has chosen.
use super::qso_utils;
use super::qso_utils::{get_next_expect_regex, get_next_tx_msg};
use crate::patterns;
use crate::types;
use crate::types::{AppState, StationConfig};
use vstd::prelude::*;
use vstd::string::*;
use vstd::utf8::*;

verus! {

/// Whether a state follows from another by a message in the mode of answers:
/// the answer to it, if there is one, is sent next, and what it should bring
/// is expected.
pub open spec fn answers(
    before: AppState,
    after: AppState,
    decoded_msg: Seq<char>,
    snr: int,
    config: StationConfig,
) -> bool {
    let next = qso_utils::next_tx(decoded_msg, config.my_call@, config.my_grid@, snr);
    let expect = qso_utils::next_expect(next, config.my_call@);
    if before.status.auto_tx_mode != 2 || next.len() == 0 {
        after == before
    } else {
        &&& after.status.pending_msg@ == types::fixed(encode_utf8(next), 24)
        &&& after.status.expect_regex@ == types::fixed(encode_utf8(expect), 48)
        &&& (match after.expect_regex_compiled {
            Some(p) => Some(p@),
            None => None,
        }) == (if expect.len() > 0 && patterns::accepted(expect) {
            Some(expect)
        } else {
            None
        })
        &&& after == AppState {
            status: types::RustStatus {
                pending_msg: after.status.pending_msg,
                expect_regex: after.status.expect_regex,
                repeat_count: 0,
                ..before.status
            },
            expect_regex_compiled: after.expect_regex_compiled,
            ..before
        }
    }
}

/// Takes a message in the mode of answers.
pub fn handle_auto_reply_logic(
    state: &mut AppState,
    decoded_msg: &str,
    snr: i32,
    config: &StationConfig,
)
    ensures
        answers(*old(state), *final(state), decoded_msg@, snr as int, *config),
{
    if state.status.auto_tx_mode != 2 {
        return;
    }
    let next = get_next_tx_msg(
        decoded_msg,
        config.my_call.as_str(),
        config.my_grid.as_str(),
        snr,
    );
    if next.as_str().unicode_len() != 0 {
        state.set_pending(next.as_str());
        state.status.repeat_count = 0;
        let expect = get_next_expect_regex(next.as_str(), config.my_call.as_str());
        state.set_expect(expect.as_str());
    }
}

} // verus!
