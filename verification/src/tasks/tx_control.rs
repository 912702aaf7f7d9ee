//! When messages are sent, and when the station turns to another task.
use crate::ft8_qso::qso_auto_hunter::{unsigned_offset, AutoQsoManager, HuntContext, Task};
use crate::text;
use crate::text::{contains_text, has_prefix};
use crate::types;
use crate::types::{AppState, RustStatus, StationConfig};
use vstd::prelude::*;
use vstd::string::*;
use vstd::utf8::*;

verus! {

/// Tells whether a transmission may start: in the first half second of a slot.
pub fn is_tx_start(second: u32, millis: u32) -> (r: bool)
    ensures
        r == ((second == 0 || second == 15 || second == 30 || second == 45) && millis < 500),
{
    (second == 0 || second == 15 || second == 30 || second == 45) && millis < 500
}

/// A transmission that is due.
pub struct TxPlan {
    pub msg: String,
    /// The audio frequency.
    pub freq: u16,
    pub even: bool,
    /// The address of the radio, if it is known.
    pub ip: Option<String>,
}

/// Whether a slot that begins in a second is one of the even ones.
pub open spec fn is_even_slot(second: u32) -> bool {
    second == 0 || second == 30
}

/// Whether a transmission is due in a slot that begins in a second.
pub open spec fn tx_due(s: AppState, second: u32) -> bool {
    &&& s.status.auto_tx_mode > 0
    &&& s.status.pending_text().len() > 0
    &&& (s.status.tx_window_even == 1) == is_even_slot(second)
}

/// The frequency of a transmission: in contacts without end every other one
/// of a message to a station is on that station's frequency.
pub open spec fn tx_freq(s: AppState) -> u16 {
    if s.status.auto_tx_mode == 3 && !text::starts_with(s.status.pending_text(), "CQ "@)
        && s.status.repeat_count % 2 == 1 {
        s.target_offset
    } else {
        s.status.pending_offset
    }
}

/// Whether a plan is what a state has to be sent in a slot that begins in a
/// second.
pub open spec fn plans(s: AppState, second: u32, r: Option<TxPlan>) -> bool {
    &&& r is Some <==> tx_due(s, second)
    &&& r matches Some(p) ==> {
        &&& p.msg@ == s.status.pending_text()
        &&& p.freq == tx_freq(s)
        &&& p.even == is_even_slot(second)
        &&& (match p.ip {
            Some(ip) => Some(ip@),
            None => None,
        }) == (match s.radio_ip {
            Some(ip) => Some(ip@),
            None => None,
        })
    }
}

/// What is to be sent is sent in the slots that were chosen, and in no others,
/// unless sending is off; a first transmission goes out on the frequency that
/// was chosen for it, and in contacts without end each second one to a station
/// on the frequency of that station.
pub proof fn law_what_is_sent_when(s: AppState, second: u32, r: Option<TxPlan>)
    requires
        plans(s, second, r),
        second == 0 || second == 15 || second == 30 || second == 45,
    ensures
        s.status.auto_tx_mode == 0 ==> r is None,
        s.status.pending_text().len() == 0 ==> r is None,
        s.status.auto_tx_mode != 0 && s.status.pending_text().len() > 0 ==> {
            &&& r is Some <==> (if s.status.tx_window_even == 1 {
                second == 0 || second == 30
            } else {
                second == 15 || second == 45
            })
        },
        r matches Some(p) ==> {
            let to_all = text::starts_with(p.msg@, "CQ "@);
            &&& p.msg@ == s.status.pending_text()
            &&& p.even <==> second == 0 || second == 30
            &&& s.status.repeat_count == 0 ==> p.freq == s.status.pending_offset
            &&& s.status.auto_tx_mode != 3 || to_all ==> p.freq == s.status.pending_offset
            &&& s.status.auto_tx_mode == 3 && !to_all ==> {
                &&& s.status.repeat_count % 2 == 0 ==> p.freq == s.status.pending_offset
                &&& s.status.repeat_count % 2 == 1 ==> p.freq == s.target_offset
            }
            &&& p.ip is Some <==> s.radio_ip is Some
            &&& p.ip matches Some(ip) ==> ip@ == s.radio_ip->0@
        },
{
}

/// Says what is to be sent in a slot that begins in a second, if anything is.
pub fn plan_tx(state: &AppState, second: u32) -> (r: Option<TxPlan>)
    ensures
        plans(*state, second, r),
{
    let even = second == 0 || second == 30;
    let msg = state.status.pending_string();
    let mode: u8 = state.status.auto_tx_mode;
    if !(mode > 0 && msg.as_str().unicode_len() > 0 && (state.status.tx_window_even == 1) == even) {
        return None;
    }
    let freq: u16 = if mode == 3 && !has_prefix(msg.as_str(), "CQ ") && state.status.repeat_count % 2
        == 1 {
        state.target_offset
    } else {
        state.status.pending_offset
    };
    let ip = crate::ft8_codec::messages::copy_of(&state.radio_ip);
    Some(TxPlan { msg, freq, even, ip })
}

/// Whether a transmission was the last of its task: of one that is sent once
/// or answers, where it ends the contact or was repeated as often as allowed.
pub open spec fn ends_task(s: AppState) -> bool {
    &&& s.status.auto_tx_mode == 1 || s.status.auto_tx_mode == 2
    &&& text::contains(s.status.pending_text(), " 73"@) || s.status.repeat_count + 1
        >= s.status.max_repeats
}

/// Whether a state follows from another by a transmission that was due; `sent`
/// says whether the radio was told, `r` whether the task is done.
pub open spec fn settles(s0: AppState, s1: AppState, sent: bool, r: bool) -> bool {
    &&& r == ends_task(s0)
    &&& r ==> s1.status.pending_msg@ == types::fixed(Seq::empty(), 24)
    &&& s1 == (AppState {
        status: RustStatus {
            tx_count: (s0.status.tx_count + if sent {
                1int
            } else {
                0int
            }) as u32,
            repeat_count: (s0.status.repeat_count + 1) as u8,
            auto_tx_mode: if r {
                0
            } else {
                s0.status.auto_tx_mode
            },
            pending_msg: if r {
                s1.status.pending_msg
            } else {
                s0.status.pending_msg
            },
            ..s0.status
        },
        qso_total_tx_count: (s0.qso_total_tx_count + 1) as u32,
        ..s0
    })
}

/// A transmission that was due is counted, whether or not the radio could be
/// told; only one that the radio was told of is counted as sent. A task that is
/// done is taken away, and sending is off.
pub proof fn law_transmission_is_counted(s0: AppState, s1: AppState, sent: bool, r: bool)
    requires
        settles(s0, s1, sent, r),
        s0.status.tx_count < u32::MAX,
        s0.status.repeat_count < u8::MAX,
        s0.qso_total_tx_count < u32::MAX,
    ensures
        s1.status.repeat_count == s0.status.repeat_count + 1,
        s1.qso_total_tx_count == s0.qso_total_tx_count + 1,
        sent ==> s1.status.tx_count == s0.status.tx_count + 1,
        !sent ==> s1.status.tx_count == s0.status.tx_count,
        r ==> s1.status.auto_tx_mode == 0 && s1.status.pending_msg@ == Seq::new(24, |i: int| 0u8),
        !r ==> s1.status.auto_tx_mode == s0.status.auto_tx_mode && s1.status.pending_msg
            == s0.status.pending_msg,
        s0.status.auto_tx_mode == 3 ==> !r,
        s0.status.auto_tx_mode == 1 || s0.status.auto_tx_mode == 2 ==> {
            &&& s1.status.repeat_count >= s0.status.max_repeats ==> r
            &&& text::contains(s0.status.pending_text(), " 73"@) ==> r
            &&& s1.status.repeat_count < s0.status.max_repeats && !text::contains(
                s0.status.pending_text(),
                " 73"@,
            ) ==> !r
        },
        s1.status.pending_offset == s0.status.pending_offset,
        s1.status.tx_window_even == s0.status.tx_window_even,
        s1.target_offset == s0.target_offset,
        s1.expect_regex_compiled == s0.expect_regex_compiled,
{
    assert(types::fixed(Seq::empty(), 24) =~= Seq::new(24, |i: int| 0u8));
}

/// Notes a transmission that was due; `sent` says whether the radio was told.
/// The result says whether the task is done.
pub fn settle_tx(state: &mut AppState, sent: bool) -> (r: bool)
    requires
        sent ==> old(state).status.tx_count < u32::MAX,
        old(state).status.repeat_count < u8::MAX,
        old(state).qso_total_tx_count < u32::MAX,
    ensures
        settles(*old(state), *final(state), sent, r),
{
    let msg = state.status.pending_string();
    if sent {
        state.status.tx_count = state.status.tx_count + 1;
    }
    state.status.repeat_count = state.status.repeat_count + 1;
    state.qso_total_tx_count = state.qso_total_tx_count + 1;
    let mode: u8 = state.status.auto_tx_mode;
    if (mode == 1 || mode == 2) && (contains_text(msg.as_str(), " 73") || state.status.repeat_count
        >= state.status.max_repeats) {
        state.status.auto_tx_mode = 0;
        state.clear_pending();
        return true;
    }
    false
}

/// Whether a message is the end of a contact.
pub open spec fn is_final(m: Seq<char>) -> bool {
    text::contains(m, " 73"@) || text::contains(m, " RR73"@)
}

/// Whether a message is a general call.
pub open spec fn is_general(m: Seq<char>) -> bool {
    text::starts_with(m, "CQ "@)
}

/// Whether a message brings a report or an acknowledgement.
pub open spec fn is_reply(m: Seq<char>) -> bool {
    ||| text::contains(m, " R-"@)
    ||| text::contains(m, " R+"@)
    ||| text::contains(m, " -"@)
    ||| text::contains(m, " +"@)
    ||| text::contains(m, " RRR"@)
}

/// Whether a message has been sent as often as it may: ten times in all, or
/// by its kind two to four times in a row, three if others wait.
pub open spec fn limit_reached(m: Seq<char>, repeats: int, total: int, others: bool) -> bool {
    if total >= 10 {
        true
    } else if is_final(m) {
        repeats >= 2
    } else if others && repeats >= 3 {
        true
    } else if !is_general(m) && !is_reply(m) {
        repeats >= 3
    } else {
        repeats >= 4
    }
}

fn has_reached_limit(m: &str, repeats: u8, total: u32, others: bool) -> (r: bool)
    ensures
        r == limit_reached(m@, repeats as int, total as int, others),
{
    if total >= 10 {
        return true;
    }
    if contains_text(m, " 73") || contains_text(m, " RR73") {
        return repeats >= 2;
    }
    if others && repeats >= 3 {
        return true;
    }
    let reply = contains_text(m, " R-") || contains_text(m, " R+") || contains_text(m, " -")
        || contains_text(m, " +") || contains_text(m, " RRR");
    if !has_prefix(m, "CQ ") && !reply {
        repeats >= 3
    } else {
        repeats >= 4
    }
}

/// Whether the station has nothing to send.
pub open spec fn is_idle(s: AppState) -> bool {
    s.status.pending_msg@[0] == 0
}

/// Whether the message to be sent has been sent as often as it may.
pub open spec fn is_spent(m: AutoQsoManager, s: AppState) -> bool {
    !is_idle(s) && limit_reached(
        s.status.pending_text(),
        s.status.repeat_count as int,
        s.qso_total_tx_count as int,
        m.task_queue@.len() > 0,
    )
}

/// Whether the station turns to another task.
pub open spec fn turns(m: AutoQsoManager, s: AppState) -> bool {
    is_spent(m, s) || (is_idle(s) && m.task_queue@.len() > 0)
}

/// Whether a station that was called did not answer.
pub open spec fn gives_up(m: AutoQsoManager, s: AppState) -> bool {
    is_spent(m, s) && !is_final(s.status.pending_text()) && !is_general(s.status.pending_text())
}

/// Whether a state follows from another by turning to a task.
pub open spec fn takes_task(before: AppState, after: AppState, task: Task) -> bool {
    &&& after.status.pending_msg@ == types::fixed(encode_utf8(task.msg@), 24)
    &&& after == AppState {
        status: RustStatus {
            pending_msg: after.status.pending_msg,
            pending_offset: types::bits16(task.freq as int) as u16,
            tx_window_even: if task.even {
                1
            } else {
                0
            },
            repeat_count: 0,
            ..before.status
        },
        target_offset: types::bits16(task.target as int) as u16,
        qso_total_tx_count: 0,
        ..before
    }
}

/// Turns to a task.
pub fn take_task(state: &mut AppState, task: &Task)
    ensures
        takes_task(*old(state), *final(state), *task),
{
    state.set_pending(task.msg.as_str());
    state.status.pending_offset = unsigned_offset(task.freq);
    state.target_offset = unsigned_offset(task.target);
    state.status.tx_window_even = if task.even {
        1
    } else {
        0
    };
    state.status.repeat_count = 0;
    state.qso_total_tx_count = 0;
}

/// Whether manager and state follow from others by turning to the next task
/// of the queue where that is due.
pub open spec fn is_advanced(
    m0: AutoQsoManager,
    s0: AppState,
    m1: AutoQsoManager,
    s1: AppState,
) -> bool {
    if !turns(m0, s0) {
        m1 == m0 && s1 == s0
    } else {
        let failures = if gives_up(m0, s0) {
            (m0.consecutive_failures + 1) as u32
        } else {
            m0.consecutive_failures
        };
        &&& m1 == AutoQsoManager {
            task_queue: m1.task_queue,
            consecutive_failures: failures,
            ..m0
        }
        &&& if m0.task_queue@.len() > 0 {
            &&& m1.task_queue@ == m0.task_queue@.drop_first()
            &&& takes_task(s0, s1, m0.task_queue@[0])
        } else {
            &&& m1.task_queue@ == m0.task_queue@
            &&& s1.status.pending_msg@ == types::fixed(Seq::empty(), 24)
            &&& s1 == AppState {
                status: RustStatus { pending_msg: s1.status.pending_msg, ..s0.status },
                qso_total_tx_count: 0,
                ..s0
            }
        }
    }
}

fn advance(mgr: &mut AutoQsoManager, state: &mut AppState)
    requires
        gives_up(*old(mgr), *old(state)) ==> old(mgr).consecutive_failures < u32::MAX,
    ensures
        is_advanced(*old(mgr), *old(state), *final(mgr), *final(state)),
        old(mgr).wf() ==> final(mgr).wf(),
{
    let idle = state.status.pending_msg[0] == 0;
    let msg = state.status.pending_string();
    let others = mgr.task_queue.len() > 0;
    let spent = !idle && has_reached_limit(
        msg.as_str(),
        state.status.repeat_count,
        state.qso_total_tx_count,
        others,
    );
    if !(spent || (idle && others)) {
        return;
    }
    let last = contains_text(msg.as_str(), " 73") || contains_text(msg.as_str(), " RR73");
    if spent && !last && !has_prefix(msg.as_str(), "CQ ") {
        mgr.report_failure();
    }
    if others {
        let task = mgr.task_queue.remove(0);
        assert(mgr.task_queue@ =~= old(mgr).task_queue@.drop_first());
        take_task(state, &task);
    } else {
        state.clear_pending();
        state.qso_total_tx_count = 0;
    }
}

/// Whether it is time to look for something to do: at the end of a slot.
pub open spec fn is_hunt_time(second: u32, millis: u32) -> bool {
    (second == 14 || second == 29 || second == 44 || second == 59) && millis >= 900
}

/// A moment at which the station decides.
pub struct Moment {
    pub minute: u32,
    pub second: u32,
    pub millis: u32,
}

/// What a hunt goes by in a state: the slots that the station sends in are
/// those of the state.
pub open spec fn context_in(ctx: HuntContext, s: AppState) -> HuntContext {
    HuntContext { tx_even: s.status.tx_window_even == 1, ..ctx }
}

/// Whether manager and state follow from others by looking for something to
/// do: a general call if the queue is empty and one is due, else a station to call.
pub open spec fn is_hunted(
    m0: AutoQsoManager,
    s0: AppState,
    m1: AutoQsoManager,
    s1: AppState,
    idle: bool,
    minute: u32,
    config: StationConfig,
    ctx: HuntContext,
) -> bool {
    if m0.task_queue@.len() == 0 && m0.cq_due(idle, ctx.now, minute) {
        &&& m1 == AutoQsoManager { last_cq_time: ctx.now, consecutive_failures: 0, ..m0 }
        &&& exists|task: Task|
            {
                &&& #[trigger] takes_task(s0, s1, task)
                &&& task.msg@ == crate::ft8_qso::qso_utils::message3(
                    "CQ"@,
                    config.my_call@,
                    config.my_grid@,
                )
                &&& task.freq == ctx.quiet(minute < 30)
                &&& task.target == task.freq
                &&& task.even == (minute < 30)
            }
    } else if !m0.chase_due(idle, config.my_call@, context_in(ctx, s0)) {
        m1 == m0 && s1 == s0
    } else {
        &&& m1 == AutoQsoManager { attempted_recent: m1.attempted_recent, ..m0 }
        &&& exists|task: Task, i: int|
            {
                &&& #[trigger] takes_task(s0, s1, task)
                &&& #[trigger] m0.is_best_prey(i, config.my_call@, context_in(ctx, s0))
                &&& task.msg@ == crate::ft8_qso::qso_utils::message3(
                    m0.msg_history@[i].res.sender_call->0@,
                    config.my_call@,
                    config.my_grid@,
                )
                &&& task.freq == ctx.quiet(!m0.msg_history@[i].is_even)
                &&& task.target == types::clamped_i16(m0.msg_history@[i].res.freq as int)
                &&& task.even == !m0.msg_history@[i].is_even
                &&& m1.attempted_recent@ == m0.attempted_recent@.insert(
                    m0.msg_history@[i].res.sender_call->0@,
                    ctx.now,
                )
            }
    }
}

fn hunt(
    mgr: &mut AutoQsoManager,
    state: &mut AppState,
    idle: bool,
    minute: u32,
    config: &StationConfig,
    ctx: &HuntContext,
)
    requires
        old(mgr).wf(),
    ensures
        final(mgr).wf(),
        is_hunted(
            *old(mgr),
            *old(state),
            *final(mgr),
            *final(state),
            idle,
            minute,
            *config,
            *ctx,
        ),
{
    let ghost m0 = *mgr;
    let ghost s0 = *state;
    if mgr.task_queue.len() == 0 {
        if let Some(task) = mgr.check_auto_cq(idle, minute, config, ctx) {
            take_task(state, &task);
            assert(takes_task(s0, *state, task));
            return;
        }
    }
    assert(*mgr == m0);
    let here = HuntContext {
        now: ctx.now,
        freq_hz: ctx.freq_hz,
        tx_even: state.status.tx_window_even == 1,
        quiet_even: ctx.quiet_even,
        quiet_odd: ctx.quiet_odd,
    };
    assert(here == context_in(*ctx, s0));
    if let Some(task) = mgr.check_auto_chase(idle, config, &here) {
        take_task(state, &task);
        proof {
            assert(takes_task(s0, *state, task));
            let i = choose|i: int|
                m0.is_best_prey(i, config.my_call@, here) && {
                    let e = #[trigger] m0.msg_history@[i];
                    let call = e.res.sender_call->0@;
                    &&& task.msg@ == crate::ft8_qso::qso_utils::message3(
                        call,
                        config.my_call@,
                        config.my_grid@,
                    )
                    &&& task.freq == here.quiet(!e.is_even)
                    &&& task.target == types::clamped_i16(e.res.freq as int)
                    &&& task.even == !e.is_even
                    &&& mgr.attempted_recent@ == m0.attempted_recent@.insert(call, here.now)
                };
            assert(m0.is_best_prey(i, config.my_call@, here));
        }
    }
}

/// Decides anew, ten times a second, while the station makes contacts without
/// end: first whether to turn to the next task, then, at the end of a slot,
/// whether to look for something to do. The result says whether it was the
/// end of a slot.
pub fn auto_qso_tick(
    mgr: &mut AutoQsoManager,
    state: &mut AppState,
    at: &Moment,
    config: &StationConfig,
    ctx: &HuntContext,
) -> (r: bool)
    requires
        old(mgr).wf(),
        old(state).status.auto_tx_mode == 3 && gives_up(*old(mgr), *old(state)) ==> old(
            mgr,
        ).consecutive_failures < u32::MAX,
    ensures
        final(mgr).wf(),
        r == (old(state).status.auto_tx_mode == 3 && is_hunt_time(at.second, at.millis)),
        old(state).status.auto_tx_mode != 3 ==> *final(mgr) == *old(mgr) && *final(state) == *old(
            state,
        ),
        old(state).status.auto_tx_mode == 3 && !r ==> is_advanced(
            *old(mgr),
            *old(state),
            *final(mgr),
            *final(state),
        ),
        r ==> exists|m: AutoQsoManager, s: AppState|
            #[trigger] is_advanced(*old(mgr), *old(state), m, s) && is_hunted(
                m,
                s,
                *final(mgr),
                *final(state),
                is_idle(*old(state)),
                at.minute,
                *config,
                *ctx,
            ),
{
    if state.status.auto_tx_mode != 3 {
        return false;
    }
    let idle = state.status.pending_msg[0] == 0;
    advance(mgr, state);
    let ghost m = *mgr;
    let ghost s = *state;
    assert(is_advanced(*old(mgr), *old(state), m, s));
    let end = (at.second == 14 || at.second == 29 || at.second == 44 || at.second == 59)
        && at.millis >= 900;
    if end {
        hunt(mgr, state, idle, at.minute, config, ctx);
    }
    end
}

/// No task outlives ten transmissions: the station then turns to another or
/// falls silent, however often the count of repeats was set back.
pub proof fn law_ten_transmissions_at_most(m: AutoQsoManager, s: AppState)
    requires
        !is_idle(s),
        s.qso_total_tx_count >= 10,
    ensures
        turns(m, s),
{
}

/// A station that waits in the queue has its turn once the present message
/// has been sent three times, or the station has nothing to send.
pub proof fn law_queue_is_served(m: AutoQsoManager, s: AppState)
    requires
        m.task_queue@.len() > 0,
        s.status.repeat_count >= 3 || is_idle(s),
    ensures
        turns(m, s),
{
}

/// Where a text of a space and more occurs in three words: at one of the spaces.
proof fn lemma_after_space(a: Seq<char>, b: Seq<char>, c: Seq<char>, pat: Seq<char>)
    requires
        text::is_word(a),
        text::is_word(b),
        text::is_word(c),
        pat.len() >= 2,
        pat[0] == ' ',
        forall|i: int| 1 <= i < pat.len() ==> pat[i] != ' ',
        !text::starts_with(b, pat.drop_first()),
        !text::starts_with(c, pat.drop_first()),
    ensures
        !text::contains(a + " "@ + b + " "@ + c, pat),
{
    reveal_strlit(" ");
    let s = a + " "@ + b + " "@ + c;
    if text::contains(s, pat) {
        let i = choose|i: int| #[trigger] text::occurs_at(s, pat, i);
        let t = s.subrange(i, i + pat.len());
        assert(t[0] == ' ');
        assert(s[i] == ' ');
        let k = a.len() + 1 + b.len();
        assert(i == a.len() || i == k) by {
            if i < a.len() {
                assert(s[i] == a[i]);
                assert(!text::white_space(a[i]));
            } else if a.len() < i < k {
                assert(s[i] == b[i - a.len() - 1]);
                assert(!text::white_space(b[i - a.len() - 1]));
            } else if i > k {
                assert(s[i] == c[i - k - 1]);
                assert(!text::white_space(c[i - k - 1]));
            }
        }
        let rest = pat.drop_first();
        if i == a.len() {
            assert(pat.len() - 1 <= b.len()) by {
                if pat.len() - 1 > b.len() {
                    assert(t[b.len() + 1int] == s[k as int]);
                    assert(s[k as int] == ' ');
                    assert(pat[b.len() + 1int] == ' ');
                }
            }
            assert(b.take(rest.len() as int) =~= rest) by {
                assert forall|j: int| 0 <= j < rest.len() implies b[j] == rest[j] by {
                    assert(t[j + 1] == s[i + j + 1]);
                    assert(s[i + j + 1] == b[j]);
                }
            }
        } else {
            assert(c.take(rest.len() as int) =~= rest) by {
                assert forall|j: int| 0 <= j < rest.len() implies c[j] == rest[j] by {
                    assert(t[j + 1] == s[i + j + 1]);
                    assert(s[i + j + 1] == c[j]);
                }
            }
        }
    }
}

/// Whether a call sign is not taken for an acknowledgement where it begins.
pub open spec fn is_clear(c: Seq<char>) -> bool {
    &&& crate::ft8_qso::qso_utils::is_call(c)
    &&& c[0] != 'R'
    &&& c[0] != '7'
}

/// How often a message to a station is sent: a first call three times, a
/// report four times, with `R` and without, an acknowledgement that ends the
/// contact twice; a general call four times. If other stations wait, none is
/// sent more than three times; and no task goes beyond ten transmissions.
pub proof fn law_limits_of_repetition(
    his: Seq<char>,
    me: Seq<char>,
    grid: Seq<char>,
    n: int,
    repeats: int,
    total: int,
    others: bool,
)
    requires
        crate::ft8_qso::qso_utils::is_call(his),
        is_clear(me),
        crate::ft8_qso::qso_utils::grid_shape(grid),
        grid[0] != 'R',
        -99 <= n <= 99,
        total < 10,
    ensures
        ({
            let head = his + " "@ + me + " "@;
            let report = crate::numbers::signed_report(n);
            let waits = if others {
                3int
            } else {
                4
            };
            &&& limit_reached(head + grid, repeats, total, others) <==> repeats >= 3
            &&& limit_reached(head + report, repeats, total, others) <==> repeats >= waits
            &&& limit_reached(head + (seq!['R'] + report), repeats, total, others) <==> repeats
                >= waits
            &&& limit_reached(head + "RRR"@, repeats, total, others) <==> repeats >= waits
            &&& limit_reached(head + "RR73"@, repeats, total, others) <==> repeats >= 2
            &&& limit_reached(head + "73"@, repeats, total, others) <==> repeats >= 2
            &&& limit_reached("CQ"@ + " "@ + me + " "@ + grid, repeats, total, others) <==> repeats
                >= waits
            &&& limit_reached(head + grid, repeats, 10, others)
        }),
{
    let report = crate::numbers::signed_report(n);
    lemma_first_call(his, me, grid);
    lemma_general(me, grid);
    lemma_report_kind(his, me, report, n);
    lemma_r_report_kind(his, me, report, n);
    lemma_final_kind(his, me);
    lemma_rrr_kind(his, me);
}

proof fn lemma_rrr_kind(his: Seq<char>, me: Seq<char>)
    requires
        crate::ft8_qso::qso_utils::is_call(his),
        is_clear(me),
    ensures
        !is_final(his + " "@ + me + " "@ + "RRR"@),
        is_reply(his + " "@ + me + " "@ + "RRR"@),
{
    reveal_strlit(" RRR");
    reveal_strlit("RRR");
    reveal_strlit(" ");
    reveal_strlit(" 73");
    reveal_strlit(" RR73");
    crate::ft8_qso::qso_utils::lemma_call(his);
    crate::ft8_qso::qso_utils::lemma_call(me);
    let c = "RRR"@;
    let s = his + " "@ + me + " "@ + c;
    let end = " 73"@.drop_first();
    let rr73 = " RR73"@.drop_first();
    assert(end[0] == '7' && rr73[0] == 'R' && rr73.len() == 4);
    assert(!text::starts_with(me, end) && !text::starts_with(me, rr73)) by {
        assert(me.take(2)[0] == me[0]);
        if me.len() >= 4 {
            assert(me.take(4)[0] == me[0]);
        }
    }
    assert(!text::starts_with(c, end)) by {
        assert(c.take(2)[0] == 'R');
    }
    lemma_after_space(his, me, c, " 73"@);
    lemma_after_space(his, me, c, " RR73"@);
    let i = his.len() + 1 + me.len() as int;
    assert(s.subrange(i, i + 4) =~= " RRR"@);
    assert(text::occurs_at(s, " RRR"@, i));
}

proof fn lemma_plain_kind(a: Seq<char>, b: Seq<char>, c: Seq<char>)
    requires
        text::is_word(a),
        is_clear(b),
        text::is_word(c),
        c[0] != 'R',
        c[0] != '7',
    ensures
        !is_final(a + " "@ + b + " "@ + c),
        !text::contains(a + " "@ + b + " "@ + c, " R-"@),
        !text::contains(a + " "@ + b + " "@ + c, " R+"@),
        !text::contains(a + " "@ + b + " "@ + c, " RRR"@),
{
    reveal_strlit(" 73");
    reveal_strlit(" RR73");
    reveal_strlit(" R-");
    reveal_strlit(" R+");
    reveal_strlit(" RRR");
    crate::ft8_qso::qso_utils::lemma_call(b);
    assert forall|pat: Seq<char>| pat.len() >= 2 && (pat[1] == 'R' || pat[1] == '7')
        && #[trigger] pat.len() >= 2 implies !text::starts_with(b, pat.drop_first())
        && !text::starts_with(c, pat.drop_first()) by {
        let rest = pat.drop_first();
        if text::starts_with(b, rest) {
            assert(b.take(rest.len() as int)[0] == rest[0]);
        }
        if text::starts_with(c, rest) {
            assert(c.take(rest.len() as int)[0] == rest[0]);
        }
    }
    lemma_after_space(a, b, c, " 73"@);
    lemma_after_space(a, b, c, " RR73"@);
    lemma_after_space(a, b, c, " R-"@);
    lemma_after_space(a, b, c, " R+"@);
    lemma_after_space(a, b, c, " RRR"@);
}

proof fn lemma_signless(a: Seq<char>, b: Seq<char>, c: Seq<char>)
    requires
        text::is_word(a),
        is_clear(b),
        text::is_word(c),
        c[0] != '+',
        c[0] != '-',
    ensures
        !text::contains(a + " "@ + b + " "@ + c, " -"@),
        !text::contains(a + " "@ + b + " "@ + c, " +"@),
{
    reveal_strlit(" -");
    reveal_strlit(" +");
    crate::ft8_qso::qso_utils::lemma_call(b);
    let minus = " -"@.drop_first();
    let plus = " +"@.drop_first();
    assert(minus[0] == '-' && plus[0] == '+');
    assert(!text::starts_with(b, minus) && !text::starts_with(b, plus) && !text::starts_with(
        c,
        minus,
    ) && !text::starts_with(c, plus)) by {
        assert(b.take(1)[0] == b[0] && c.take(1)[0] == c[0]);
        assert(crate::patterns::is_digit(b[0]) || 'A' <= b[0] <= 'Z' || b[0] == '/');
    }
    lemma_after_space(a, b, c, " -"@);
    lemma_after_space(a, b, c, " +"@);
}

proof fn lemma_not_general(a: Seq<char>, b: Seq<char>, c: Seq<char>)
    requires
        crate::ft8_qso::qso_utils::is_call(a),
    ensures
        !is_general(a + " "@ + b + " "@ + c),
{
    reveal_strlit("CQ ");
    let s = a + " "@ + b + " "@ + c;
    if is_general(s) {
        assert(s.take(3)[2] == ' ');
        assert(s[2] == a[2]);
    }
}

proof fn lemma_first_call(his: Seq<char>, me: Seq<char>, grid: Seq<char>)
    requires
        crate::ft8_qso::qso_utils::is_call(his),
        is_clear(me),
        crate::ft8_qso::qso_utils::grid_shape(grid),
        grid[0] != 'R',
    ensures
        !is_final(his + " "@ + me + " "@ + grid),
        !is_general(his + " "@ + me + " "@ + grid),
        !is_reply(his + " "@ + me + " "@ + grid),
{
    crate::ft8_qso::qso_utils::lemma_call(his);
    assert(text::is_word(grid));
    lemma_plain_kind(his, me, grid);
    lemma_signless(his, me, grid);
    lemma_not_general(his, me, grid);
}

proof fn lemma_general(me: Seq<char>, grid: Seq<char>)
    requires
        is_clear(me),
        crate::ft8_qso::qso_utils::grid_shape(grid),
        grid[0] != 'R',
    ensures
        !is_final("CQ"@ + " "@ + me + " "@ + grid),
        is_general("CQ"@ + " "@ + me + " "@ + grid),
{
    reveal_strlit("CQ");
    reveal_strlit("CQ ");
    reveal_strlit(" ");
    assert(text::is_word(grid));
    assert(text::is_word("CQ"@));
    lemma_plain_kind("CQ"@, me, grid);
    let s = "CQ"@ + " "@ + me + " "@ + grid;
    assert(s.take(3) =~= "CQ "@);
}

proof fn lemma_report_kind(his: Seq<char>, me: Seq<char>, report: Seq<char>, n: int)
    requires
        crate::ft8_qso::qso_utils::is_call(his),
        is_clear(me),
        -99 <= n <= 99,
        report == crate::numbers::signed_report(n),
    ensures
        !is_final(his + " "@ + me + " "@ + report),
        is_reply(his + " "@ + me + " "@ + report),
{
    reveal_strlit(" -");
    reveal_strlit(" +");
    reveal_strlit(" ");
    crate::ft8_qso::qso_utils::lemma_call(his);
    crate::numbers::lemma_report_shape(n);
    assert(text::is_word(report));
    lemma_plain_kind(his, me, report);
    let s = his + " "@ + me + " "@ + report;
    let i = his.len() + 1 + me.len() as int;
    if n < 0 {
        assert(s.subrange(i, i + 2) =~= " -"@);
        assert(text::occurs_at(s, " -"@, i));
    } else {
        assert(s.subrange(i, i + 2) =~= " +"@);
        assert(text::occurs_at(s, " +"@, i));
    }
}

proof fn lemma_r_report_kind(his: Seq<char>, me: Seq<char>, report: Seq<char>, n: int)
    requires
        crate::ft8_qso::qso_utils::is_call(his),
        is_clear(me),
        -99 <= n <= 99,
        report == crate::numbers::signed_report(n),
    ensures
        !is_final(his + " "@ + me + " "@ + (seq!['R'] + report)),
        is_reply(his + " "@ + me + " "@ + (seq!['R'] + report)),
{
    reveal_strlit(" R-");
    reveal_strlit(" R+");
    reveal_strlit(" ");
    reveal_strlit(" 73");
    reveal_strlit(" RR73");
    crate::ft8_qso::qso_utils::lemma_call(his);
    crate::ft8_qso::qso_utils::lemma_call(me);
    crate::numbers::lemma_report_shape(n);
    let c = seq!['R'] + report;
    assert(text::is_word(c)) by {
        assert forall|i: int| 0 <= i < c.len() implies !text::white_space(#[trigger] c[i]) by {
            assert(i == 0 || c[i] == report[i - 1]);
        }
    }
    let s = his + " "@ + me + " "@ + c;
    let end = " 73"@.drop_first();
    let rr73 = " RR73"@.drop_first();
    assert(end[0] == '7' && rr73[0] == 'R' && rr73[1] == 'R');
    assert(!text::starts_with(me, end) && !text::starts_with(me, rr73)) by {
        assert(me.take(2)[0] == me[0]);
        if me.len() >= 4 {
            assert(me.take(4)[0] == me[0]);
        }
    }
    assert(!text::starts_with(c, end) && !text::starts_with(c, rr73)) by {
        assert(c.take(2)[0] == 'R');
        assert(c.take(4)[1] == report[0]);
    }
    lemma_after_space(his, me, c, " 73"@);
    lemma_after_space(his, me, c, " RR73"@);
    let i = his.len() + 1 + me.len() as int;
    if n < 0 {
        assert(s.subrange(i, i + 3) =~= " R-"@);
        assert(text::occurs_at(s, " R-"@, i));
    } else {
        assert(s.subrange(i, i + 3) =~= " R+"@);
        assert(text::occurs_at(s, " R+"@, i));
    }
}

proof fn lemma_final_kind(his: Seq<char>, me: Seq<char>)
    ensures
        is_final(his + " "@ + me + " "@ + "RR73"@),
        is_final(his + " "@ + me + " "@ + "73"@),
{
    reveal_strlit("73");
    reveal_strlit("RR73");
    reveal_strlit(" ");
    reveal_strlit(" 73");
    reveal_strlit(" RR73");
    let i = his.len() + 1 + me.len() as int;
    let s = his + " "@ + me + " "@ + "RR73"@;
    assert(s.subrange(i, i + 5) =~= " RR73"@);
    assert(text::occurs_at(s, " RR73"@, i));
    let t = his + " "@ + me + " "@ + "73"@;
    assert(t.subrange(i, i + 3) =~= " 73"@);
    assert(text::occurs_at(t, " 73"@, i));
}

/// When the station turns to another task it takes the first that waits: its
/// message, frequencies and slots, with no transmission counted; and if none
/// waits it has nothing to send. While its message is not spent nothing changes.
pub proof fn law_turning_to_the_next_task(
    m0: AutoQsoManager,
    s0: AppState,
    m1: AutoQsoManager,
    s1: AppState,
)
    requires
        is_advanced(m0, s0, m1, s1),
    ensures
        ({
            let q = m0.task_queue@;
            let idle = s0.status.pending_msg@[0] == 0;
            let spent = !idle && limit_reached(
                s0.status.pending_text(),
                s0.status.repeat_count as int,
                s0.qso_total_tx_count as int,
                q.len() > 0,
            );
            let given_up = spent && !is_final(s0.status.pending_text()) && !is_general(
                s0.status.pending_text(),
            );
            &&& !spent && !(idle && q.len() > 0) ==> m1 == m0 && s1 == s0
            &&& (spent || idle) && q.len() > 0 ==> {
                &&& m1.task_queue@ == q.drop_first()
                &&& s1.status.pending_msg@ == types::fixed(encode_utf8(q[0].msg@), 24)
                &&& q[0].freq >= 0 ==> s1.status.pending_offset == q[0].freq
                &&& q[0].target >= 0 ==> s1.target_offset == q[0].target
                &&& q[0].even ==> s1.status.tx_window_even == 1
                &&& !q[0].even ==> s1.status.tx_window_even == 0
                &&& s1.status.repeat_count == 0
                &&& s1.qso_total_tx_count == 0
                &&& s1.status.auto_tx_mode == s0.status.auto_tx_mode
            }
            &&& spent && q.len() == 0 ==> {
                &&& s1.status.pending_msg@ == Seq::new(24, |i: int| 0u8)
                &&& s1.qso_total_tx_count == 0
                &&& m1.task_queue@ == q
            }
            &&& given_up ==> m1.consecutive_failures == (m0.consecutive_failures + 1) as u32
            &&& !given_up ==> m1.consecutive_failures == m0.consecutive_failures
            &&& m1.msg_history == m0.msg_history
            &&& m1.successful_calls == m0.successful_calls
        }),
{
    assert(types::fixed(Seq::empty(), 24) =~= Seq::new(24, |i: int| 0u8));
}

/// What a hunt does: a general call is made where one is due and none waits,
/// else the best station is called where one is due, else nothing is done. A
/// station that is called is noted with the time.
pub proof fn law_what_a_hunt_does(
    m0: AutoQsoManager,
    s0: AppState,
    m1: AutoQsoManager,
    s1: AppState,
    idle: bool,
    minute: u32,
    config: StationConfig,
    ctx: HuntContext,
)
    requires
        is_hunted(m0, s0, m1, s1, idle, minute, config, ctx),
        ctx.quiet_even >= 0,
        ctx.quiet_odd >= 0,
    ensures
        !idle ==> m1 == m0 && s1 == s0,
        ({
            let general = m0.task_queue@.len() == 0 && m0.cq_due(idle, ctx.now, minute);
            let here = HuntContext { tx_even: s0.status.tx_window_even == 1, ..ctx };
            let due = m0.chase_due(idle, config.my_call@, here);
            &&& general ==> {
                &&& s1.status.pending_msg@ == types::fixed(
                    encode_utf8("CQ"@ + " "@ + config.my_call@ + " "@ + config.my_grid@),
                    24,
                )
                &&& minute < 30 ==> s1.status.tx_window_even == 1 && s1.status.pending_offset
                    == ctx.quiet_even && s1.target_offset == ctx.quiet_even
                &&& minute >= 30 ==> s1.status.tx_window_even == 0 && s1.status.pending_offset
                    == ctx.quiet_odd && s1.target_offset == ctx.quiet_odd
                &&& s1.status.repeat_count == 0 && s1.qso_total_tx_count == 0
                &&& m1.last_cq_time == ctx.now
                &&& m1.consecutive_failures == 0
                &&& m1.attempted_recent == m0.attempted_recent
            }
            &&& !general && !due ==> m1 == m0 && s1 == s0
            &&& !general && due ==> exists|i: int|
                {
                    let e = m0.msg_history@[i];
                    let call = e.res.sender_call->0@;
                    &&& #[trigger] m0.is_best_prey(i, config.my_call@, here)
                    &&& s1.status.pending_msg@ == types::fixed(
                        encode_utf8(call + " "@ + config.my_call@ + " "@ + config.my_grid@),
                        24,
                    )
                    &&& e.is_even ==> s1.status.tx_window_even == 0 && s1.status.pending_offset
                        == ctx.quiet_odd
                    &&& !e.is_even ==> s1.status.tx_window_even == 1 && s1.status.pending_offset
                        == ctx.quiet_even
                    &&& 0 <= e.res.freq <= 32767 ==> s1.target_offset == e.res.freq
                    &&& s1.status.repeat_count == 0 && s1.qso_total_tx_count == 0
                    &&& m1.attempted_recent@ == m0.attempted_recent@.insert(call, ctx.now)
                    &&& m1.last_cq_time == m0.last_cq_time
                }
        }),
{
}

} // verus!
