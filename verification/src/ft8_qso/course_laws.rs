//! What holds of the course of contacts: what becomes of a message to the station.
use super::hunt_laws;
use super::qso_auto_hunter;
use super::qso_auto_hunter::{AutoQsoManager, HuntContext, Reception};
use super::qso_auto_once;
use super::qso_utils;
use crate::numbers;
use crate::patterns;
use crate::text;
use crate::types;
use crate::types::{AppState, StationConfig};
use vstd::prelude::*;
use vstd::utf8::*;

verus! {

/// Whether a text is a word of upper-case letters, digits and signs.
pub open spec fn is_large_word(p: Seq<char>) -> bool {
    &&& text::is_word(p)
    &&& is_ascii_chars(p)
    &&& forall|i: int| 0 <= i < p.len() ==> !('a' <= #[trigger] p[i] <= 'z')
}

/// Whether a station that makes contacts without end hears a message to it
/// from another.
pub open spec fn hears(
    s: AppState,
    heard: Reception,
    config: StationConfig,
    from: Seq<char>,
    p: Seq<char>,
) -> bool {
    &&& s.status.auto_tx_mode == 3
    &&& qso_utils::is_call(config.my_call@)
    &&& qso_utils::is_call(from)
    &&& is_large_word(p)
    &&& heard.message@ == config.my_call@ + " "@ + from + " "@ + p
}

/// The message is taken as it stands, and is from the other station.
proof fn lemma_hears(
    s: AppState,
    heard: Reception,
    config: StationConfig,
    from: Seq<char>,
    p: Seq<char>,
)
    requires
        hears(s, heard, config, from, p),
    ensures
        qso_auto_hunter::tidied(heard.message@) == heard.message@,
        qso_auto_hunter::concerns(s, heard.message@, config.my_call@),
        qso_auto_hunter::answerer(heard.message@) == from,
{
    reveal_strlit(" ");
    reveal_strlit("CQ");
    let me = config.my_call@;
    let m = heard.message@;
    qso_utils::lemma_call(me);
    qso_utils::lemma_call(from);
    hunt_laws::lemma_clean(from);
    assert forall|i: int| 0 <= i < m.len() implies '\0' <= #[trigger] m[i] <= '\u{7f}' && !('a'
        <= m[i] <= 'z') by {
        let k = me.len() + 1 + from.len() + 1int;
        if i < me.len() {
            assert(m[i] == me[i]);
        } else if i == me.len() || i == k - 1 {
        } else if i < k - 1 {
            assert(m[i] == from[i - me.len() - 1]);
        } else {
            assert(m[i] == p[i - k]);
        }
    }
    assert(m[0] == me[0]);
    assert(m.last() == p.last());
    text::lemma_trim_none(m);
    text::lemma_upper_none(m);
    assert(text::contains(m, me)) by {
        assert(m.subrange(0, me.len() as int) =~= me);
        assert(text::occurs_at(m, me, 0));
    }
    text::lemma_three_words(me, from, p);
    text::lemma_ascii_byte_len(from);
}

/// Whether the message to be sent gives way to an answer to a station: there
/// is none, it is a general call, or it names that station.
pub open spec fn is_free_for(s: AppState, from: Seq<char>) -> bool {
    let current = s.status.pending_text();
    ||| current.len() == 0
    ||| text::starts_with(current, "CQ "@)
    ||| text::contains(current, from)
}

/// A message to the station that has an answer is answered at once if nothing
/// else is under way: in the other slots, at the frequency that is quiet in
/// them; the frequency of the other is noted, and the failures before it no
/// longer count.
pub proof fn law_answer_goes_out_at_once(
    m0: AutoQsoManager,
    s0: AppState,
    m1: AutoQsoManager,
    s1: AppState,
    heard: Reception,
    config: StationConfig,
    ctx: HuntContext,
    from: Seq<char>,
    p: Seq<char>,
    answer: Seq<char>,
)
    requires
        qso_auto_hunter::moves_on(m0, s0, m1, s1, heard, config, ctx),
        hears(s0, heard, config, from, p),
        answer == qso_utils::next_tx(
            heard.message@,
            config.my_call@,
            config.my_grid@,
            heard.snr as int,
        ),
        answer.len() > 0,
        is_free_for(s0, from),
        0 <= ctx.quiet_even,
        0 <= ctx.quiet_odd,
        0 <= heard.freq <= 65535,
    ensures
        s1.status.pending_msg@ == types::fixed(encode_utf8(answer), 24),
        heard.wind_sec == 0 || heard.wind_sec == 30 ==> s1.status.tx_window_even == 0
            && s1.status.pending_offset == ctx.quiet_odd,
        heard.wind_sec == 15 || heard.wind_sec == 45 ==> s1.status.tx_window_even == 1
            && s1.status.pending_offset == ctx.quiet_even,
        s1.target_offset == heard.freq,
        s1.expect_regex_compiled is None,
        s1.status.auto_tx_mode == 3,
        s1.qso_total_tx_count == s0.qso_total_tx_count,
        s0.status.pending_text() == answer ==> s1.status.repeat_count == s0.status.repeat_count % 2,
        s0.status.pending_text().len() == 0 ==> s1.status.repeat_count == 0,
        m1.consecutive_failures == 0,
        m1.task_queue == m0.task_queue,
        m1.msg_history == m0.msg_history,
{
    lemma_hears(s0, heard, config, from, p);
}

/// A message to the station that has an answer waits in the queue, as the last,
/// if a message to another station is under way, unless the queue names its
/// sender already.
pub proof fn law_answer_waits_in_the_queue(
    m0: AutoQsoManager,
    s0: AppState,
    m1: AutoQsoManager,
    s1: AppState,
    heard: Reception,
    config: StationConfig,
    ctx: HuntContext,
    from: Seq<char>,
    p: Seq<char>,
    answer: Seq<char>,
)
    requires
        qso_auto_hunter::moves_on(m0, s0, m1, s1, heard, config, ctx),
        hears(s0, heard, config, from, p),
        answer == qso_utils::next_tx(
            heard.message@,
            config.my_call@,
            config.my_grid@,
            heard.snr as int,
        ),
        answer.len() > 0,
        !is_free_for(s0, from),
        !text::ends_with(s0.status.pending_text(), config.my_grid@),
    ensures
        s1 == s0,
        ({
            let q0 = m0.task_queue@;
            let q1 = m1.task_queue@;
            let named = exists|i: int|
                0 <= i < q0.len() && text::contains((#[trigger] q0[i]).msg@, from);
            &&& named ==> m1 == m0
            &&& !named ==> {
                let task = q1.last();
                &&& q1.len() == q0.len() + 1
                &&& forall|i: int| 0 <= i < q0.len() ==> #[trigger] q1[i] == q0[i]
                &&& task.msg@ == answer
                &&& heard.wind_sec == 0 || heard.wind_sec == 30 ==> !task.even && task.freq
                    == ctx.quiet_odd
                &&& heard.wind_sec == 15 || heard.wind_sec == 45 ==> task.even && task.freq
                    == ctx.quiet_even
                &&& -32768 <= heard.freq <= 32767 ==> task.target == heard.freq
                &&& m1.consecutive_failures == m0.consecutive_failures
            }
        }),
{
    lemma_hears(s0, heard, config, from, p);
    let q0 = m0.task_queue@;
    let q1 = m1.task_queue@;
    if !qso_auto_hunter::is_queued(q0, from) {
        assert forall|i: int| 0 <= i < q0.len() implies #[trigger] q1[i] == q0[i] by {
            assert(q1.drop_last()[i] == q1[i]);
        }
    }
}

/// A message to the station that has no answer, such as `73`, ends what is
/// under way; one that does not name the station, or comes while it makes no
/// contacts without end, changes nothing.
pub proof fn law_contact_is_over(
    m0: AutoQsoManager,
    s0: AppState,
    m1: AutoQsoManager,
    s1: AppState,
    heard: Reception,
    config: StationConfig,
    ctx: HuntContext,
    from: Seq<char>,
    p: Seq<char>,
)
    requires
        qso_auto_hunter::moves_on(m0, s0, m1, s1, heard, config, ctx),
    ensures
        s0.status.auto_tx_mode != 3 ==> m1 == m0 && s1 == s0,
        is_ascii_chars(heard.message@) && !text::contains(
            text::ascii_upper(text::trim(heard.message@)),
            config.my_call@,
        ) ==> m1 == m0 && s1 == s0,
        hears(s0, heard, config, from, p) && p == "73"@ ==> {
            &&& m1 == m0
            &&& s1.status.pending_msg@ == Seq::new(24, |i: int| 0u8)
            &&& s1.expect_regex_compiled is None
            &&& s1.status.auto_tx_mode == 3
            &&& s1.status.repeat_count == s0.status.repeat_count
        },
{
    if is_ascii_chars(heard.message@) {
        text::lemma_trim_upper(heard.message@);
    }
    if hears(s0, heard, config, from, p) && p == "73"@ {
        reveal_strlit("73");
        reveal_strlit("RR73");
        reveal_strlit("RRR");
        lemma_hears(s0, heard, config, from, p);
        qso_utils::law_answer_by_stage(
            config.my_call@,
            config.my_grid@,
            from,
            from,
            p,
            heard.snr as int,
        );
        assert(types::fixed(Seq::empty(), 24) =~= Seq::new(24, |i: int| 0u8));
    }
}

/// In the mode of answers a message to the station is answered, and the answer
/// that should follow is expected; what has no answer changes nothing, nor does
/// anything in another mode.
pub proof fn law_mode_of_answers(
    s0: AppState,
    s1: AppState,
    from: Seq<char>,
    p: Seq<char>,
    snr: int,
    config: StationConfig,
)
    requires
        qso_utils::is_call(config.my_call@),
        qso_utils::is_call(from),
        from.len() <= 32,
        config.my_call@.len() <= 32,
        qso_utils::grid_shape(p) || patterns::signed_digits(p),
        -99 <= snr <= 99,
        qso_auto_once::answers(
            s0,
            s1,
            config.my_call@ + " "@ + from + " "@ + p,
            snr,
            config,
        ),
    ensures
        s0.status.auto_tx_mode != 2 ==> s1 == s0,
        s0.status.auto_tx_mode == 2 ==> {
            let me = config.my_call@;
            let report = numbers::signed_report(snr);
            let square = qso_utils::grid_shape(p);
            let sent = from + " "@ + me + " "@ + (if square { report } else { seq!['R'] + report });
            let expected = "^<?"@ + me + ">?\\s+<?"@ + from + (if square {
                ">?\\s+R?[+-]\\d{1,2}"@
            } else {
                ">?\\s+(RR73|RRR|73)"@
            });
            &&& s1.status.pending_msg@ == types::fixed(encode_utf8(sent), 24)
            &&& s1.expect_regex_compiled matches Some(e) && e@ == expected
            &&& s1.status.repeat_count == 0
            &&& s1.status.auto_tx_mode == 2
            &&& s1.status.tx_window_even == s0.status.tx_window_even
            &&& s1.status.pending_offset == s0.status.pending_offset
        },
{
    if s0.status.auto_tx_mode == 2 {
        lemma_mode_of_answers(from, p, snr, config.my_call@, config.my_grid@);
    }
}

proof fn lemma_mode_of_answers(
    from: Seq<char>,
    p: Seq<char>,
    snr: int,
    me: Seq<char>,
    my_grid: Seq<char>,
)
    requires
        qso_utils::is_call(me),
        qso_utils::is_call(from),
        from.len() <= 32,
        me.len() <= 32,
        qso_utils::grid_shape(p) || patterns::signed_digits(p),
        -99 <= snr <= 99,
    ensures
        ({
            let report = numbers::signed_report(snr);
            let square = qso_utils::grid_shape(p);
            let sent = from + " "@ + me + " "@ + (if square { report } else { seq!['R'] + report });
            let expected = "^<?"@ + me + ">?\\s+<?"@ + from + (if square {
                ">?\\s+R?[+-]\\d{1,2}"@
            } else {
                ">?\\s+(RR73|RRR|73)"@
            });
            &&& qso_utils::next_tx(me + " "@ + from + " "@ + p, me, my_grid, snr) == sent
            &&& qso_utils::next_expect(sent, me) == expected
            &&& patterns::accepted(expected)
            &&& expected.len() > 0
            &&& sent.len() > 0
        }),
{
    let report = numbers::signed_report(snr);
    let square = qso_utils::grid_shape(p);
    let tail = if square {
        report
    } else {
        seq!['R'] + report
    };
    numbers::lemma_report_shape(snr);
    lemma_p(p);
    lemma_p(report);
    lemma_tail(snr);
    qso_utils::law_answer_by_stage(me, my_grid, from, from, p, snr);
    qso_utils::law_expectation_by_stage(me, from, tail);
    assert(patterns::signed_digits(report));
    assert((seq!['R'] + report).drop_first() =~= report);
    if square {
        assert(patterns::report_pattern(me, from) == "^<?"@ + me + ">?\\s+<?"@ + from
            + ">?\\s+R?[+-]\\d{1,2}"@);
    } else {
        assert(patterns::ack_pattern(me, from) == "^<?"@ + me + ">?\\s+<?"@ + from
            + ">?\\s+(RR73|RRR|73)"@);
    }
}

proof fn lemma_p(p: Seq<char>)
    requires
        qso_utils::grid_shape(p) || patterns::signed_digits(p),
    ensures
        text::is_word(p),
        is_ascii_chars(p),
{
    assert forall|i: int| 0 <= i < p.len() implies '\0' <= #[trigger] p[i] <= '\u{7f}'
        && !text::white_space(p[i]) by {
        if qso_utils::grid_shape(p) {
            assert(i == 0 || i == 1 || i == 2 || i == 3);
        } else {
            assert(i == 0 || patterns::is_digit(p[i]));
        }
    }
}

proof fn lemma_tail(snr: int)
    requires
        -99 <= snr <= 99,
    ensures
        ({
            let s = numbers::signed_report(snr);
            let t = seq!['R'] + s;
            &&& patterns::signed_digits(s)
            &&& text::is_word(t)
            &&& is_ascii_chars(t)
            &&& t[0] == 'R'
        }),
{
    numbers::lemma_report_shape(snr);
    let s = numbers::signed_report(snr);
    let t = seq!['R'] + s;
    assert forall|i: int| 1 <= i < s.len() implies patterns::is_digit(#[trigger] s[i]) by {
        assert(i == 1 || i == 2);
    }
    assert forall|i: int| 0 <= i < t.len() implies '\0' <= #[trigger] t[i] <= '\u{7f}'
        && !text::white_space(t[i]) by {
        assert(i == 0 || t[i] == s[i - 1]);
    }
}

/// A message that is to be sent gives way to an answer if it is empty, a
/// general call or a first call with the grid square of the station; one with a
/// report or an acknowledgement does not.
pub proof fn law_what_gives_way(a: Seq<char>, me: Seq<char>, grid: Seq<char>, p: Seq<char>)
    requires
        qso_utils::is_call(a),
        text::is_word(me),
        text::is_word(grid),
        text::is_word(p),
    ensures
        qso_auto_hunter::gives_way(Seq::empty(), grid),
        qso_auto_hunter::gives_way("CQ"@ + " "@ + me + " "@ + p, grid),
        qso_auto_hunter::gives_way(a + " "@ + me + " "@ + grid, grid),
        p.last() != grid.last() ==> !qso_auto_hunter::gives_way(a + " "@ + me + " "@ + p, grid),
{
    reveal_strlit("CQ");
    reveal_strlit("CQ ");
    reveal_strlit(" ");
    qso_utils::lemma_call(a);
    let general = "CQ"@ + " "@ + me + " "@ + p;
    assert(general.take(3) =~= "CQ "@);
    let first = a + " "@ + me + " "@ + grid;
    text::lemma_three_words(a, me, grid);
    assert(first.skip(first.len() - grid.len()) =~= grid);
    let other = a + " "@ + me + " "@ + p;
    if text::starts_with(other, "CQ "@) {
        assert(other.take(3)[2] == ' ');
        assert(other[2] == a[2]);
    }
    if text::ends_with(other, grid) {
        assert(other.skip(other.len() - grid.len()).last() == other.last());
        assert(other.last() == p.last());
    }
}

/// Two messages to a station are of one stage if both bring a report without
/// `R`, or both one with `R`; messages of different stages are not.
pub proof fn law_stages_of_a_contact(
    his: Seq<char>,
    me: Seq<char>,
    grid: Seq<char>,
    m: int,
    n: int,
)
    requires
        qso_utils::is_call(his),
        qso_utils::is_call(me),
        qso_utils::grid_shape(grid),
        -99 <= m <= 99,
        -99 <= n <= 99,
    ensures
        ({
            let head = his + " "@ + me + " "@;
            let (a, b) = (numbers::signed_report(m), numbers::signed_report(n));
            let (ra, rb) = (seq!['R'] + a, seq!['R'] + b);
            &&& qso_auto_hunter::same_stage(head + a, head + b, his)
            &&& qso_auto_hunter::same_stage(head + ra, head + rb, his)
            &&& !qso_auto_hunter::same_stage(head + a, head + rb, his)
            &&& !qso_auto_hunter::same_stage(head + ra, head + b, his)
            &&& !qso_auto_hunter::same_stage(head + grid, head + b, his)
            &&& !qso_auto_hunter::same_stage(head + ra, head + "RR73"@, his)
            &&& qso_auto_hunter::same_stage(head + grid, head + grid, his)
            &&& !qso_auto_hunter::same_stage(Seq::empty(), head + b, his)
        }),
{
    reveal_strlit("RR73");
    let (a, b) = (numbers::signed_report(m), numbers::signed_report(n));
    let (ra, rb) = (seq!['R'] + a, seq!['R'] + b);
    qso_utils::lemma_call(his);
    qso_utils::lemma_call(me);
    numbers::lemma_report_shape(m);
    numbers::lemma_report_shape(n);
    lemma_tail(m);
    lemma_tail(n);
    lemma_p(a);
    lemma_p(b);
    lemma_p(grid);
    text::lemma_three_words(his, me, a);
    text::lemma_three_words(his, me, b);
    text::lemma_three_words(his, me, ra);
    text::lemma_three_words(his, me, rb);
    text::lemma_three_words(his, me, grid);
    text::lemma_three_words(his, me, "RR73"@);
    assert(ra[1] == a[0] && rb[1] == b[0]);
    let head = his + " "@ + me + " "@;
    let (wa, wb, wra, wrb) = (
        text::words(head + a),
        text::words(head + b),
        text::words(head + ra),
        text::words(head + rb),
    );
    assert(wa[2] == a && wb[2] == b && wra[2] == ra && wrb[2] == rb);
    assert(text::words(head + grid)[2] == grid);
    assert(text::words(head + "RR73"@)[2] == "RR73"@);
    assert("RR73"@[1] == 'R' && "RR73"@[0] == 'R');
}

} // verus!
