//! What holds of the log: which contacts are logged, and with what.
use super::bands;
use super::hunt_laws;
use super::qso_auto_hunter;
use super::qso_auto_hunter::{
    AutoQsoManager, Distance, HistoryEntry, HuntContext, LogContext, QsoRecord,
};
use super::qso_utils;
use crate::ft8_codec::packjt77;
use crate::numbers;
use crate::outside;
use crate::patterns;
use crate::text;
use crate::types::{Ft8DecodeResult, StationConfig};
use vstd::prelude::*;
use vstd::utf8::*;

verus! {

/// Whether a message was sent by one station to another.
pub open spec fn is_between(res: Ft8DecodeResult, from: Seq<char>, to: Seq<char>) -> bool {
    packjt77::text_option(res.sender_call) == Some(from) && packjt77::text_option(
        res.receiver_call,
    ) == Some(to)
}

/// A report at the end of a message is found, with or without `R` before it.
pub proof fn law_report_at_the_end(a: Seq<char>, b: Seq<char>, n: int)
    requires
        text::is_word(a),
        text::is_word(b),
        -99 <= n <= 99,
    ensures
        qso_auto_hunter::report_in(a + " "@ + b + " "@ + numbers::signed_report(n)) == Some(
            numbers::signed_report(n),
        ),
        qso_auto_hunter::report_in(a + " "@ + b + " R"@ + numbers::signed_report(n)) == Some(
            numbers::signed_report(n),
        ),
{
    reveal_strlit(" ");
    reveal_strlit(" R");
    numbers::lemma_report_shape(n);
    let s = numbers::signed_report(n);
    let t = seq!['R'] + s;
    assert(is_ascii_chars(s));
    assert(is_ascii_chars(t)) by {
        assert forall|i: int| 0 <= i < t.len() implies '\0' <= #[trigger] t[i] <= '\u{7f}' by {
            assert(i == 0 || t[i] == s[i - 1]);
        }
    }
    assert(s.skip(0) =~= s);
    assert(t.skip(1) =~= s);
    assert(t.drop_first() =~= s);
    assert(patterns::signed_digits(s)) by {
        assert forall|i: int| 1 <= i < s.len() implies patterns::is_digit(#[trigger] s[i]) by {
            assert(i == 1 || i == 2);
        }
    }
    assert(patterns::report_at_end(s) && patterns::report_at_end(t));
    assert(text::is_word(s));
    assert(text::is_word(t)) by {
        assert forall|i: int| 0 <= i < t.len() implies !text::white_space(#[trigger] t[i]) by {
            assert(i == 0 || t[i] == s[i - 1]);
        }
    }
    text::lemma_three_words(a, b, s);
    text::lemma_three_words(a, b, t);
    assert(a + " "@ + b + " R"@ + s =~= a + " "@ + b + " "@ + t);
}

/// A grid square and an acknowledgement are no report.
pub proof fn law_no_report_at_the_end(a: Seq<char>, b: Seq<char>, p: Seq<char>)
    requires
        text::is_word(a),
        text::is_word(b),
        p.len() >= 1,
        forall|i: int| 0 <= i < p.len() ==> 'A' <= #[trigger] p[i] <= 'Z' || '0' <= p[i] <= '9',
    ensures
        qso_auto_hunter::report_in(a + " "@ + b + " "@ + p) is None,
{
    text::lemma_three_words(a, b, p);
    if patterns::report_at_end(p) {
        if p.len() >= 2 && patterns::signed_digits(p.skip(p.len() - 2)) {
            assert(p.skip(p.len() - 2)[0] == p[p.len() - 2]);
        } else {
            assert(p.skip(p.len() - 3)[0] == p[p.len() - 3]);
        }
    }
}

proof fn lemma_reported_since(h: Seq<HistoryEntry>, his: Seq<char>, me: Seq<char>, k: int)
    requires
        0 <= k < h.len(),
        qso_auto_hunter::reported_in(h[k], his, me).len() > 0,
        forall|j: int|
            k < j < h.len() ==> qso_auto_hunter::reported_in(#[trigger] h[j], his, me).len() == 0,
    ensures
        qso_auto_hunter::reported(h, his, me) == qso_auto_hunter::reported_in(h[k], his, me),
    decreases h.len(),
{
    if k < h.len() - 1 {
        let t = h.drop_last();
        assert(t[k] == h[k]);
        assert forall|j: int| k < j < t.len() implies qso_auto_hunter::reported_in(
            #[trigger] t[j],
            his,
            me,
        ).len() == 0 by {
            assert(t[j] == h[j]);
        }
        assert(h.last() == h[h.len() - 1]);
        lemma_reported_since(t, his, me, k);
    }
}

proof fn lemma_heard_since(h: Seq<HistoryEntry>, his: Seq<char>, me: Seq<char>, k: int)
    requires
        0 <= k < h.len(),
        qso_auto_hunter::heard_in(h[k], his, me).len() > 0,
        forall|j: int|
            k < j < h.len() ==> qso_auto_hunter::heard_in(#[trigger] h[j], his, me).len() == 0,
    ensures
        qso_auto_hunter::heard(h, his, me) == qso_auto_hunter::heard_in(h[k], his, me),
    decreases h.len(),
{
    if k < h.len() - 1 {
        let t = h.drop_last();
        assert(t[k] == h[k]);
        assert forall|j: int| k < j < t.len() implies qso_auto_hunter::heard_in(
            #[trigger] t[j],
            his,
            me,
        ).len() == 0 by {
            assert(t[j] == h[j]);
        }
        assert(h.last() == h[h.len() - 1]);
        lemma_heard_since(t, his, me, k);
    }
}

/// The report that came last from the other station is the one that is logged
/// as received, with or without `R` before it.
pub proof fn law_received_report_is_logged(
    h: Seq<HistoryEntry>,
    his: Seq<char>,
    me: Seq<char>,
    k: int,
    a: Seq<char>,
    b: Seq<char>,
    n: int,
)
    requires
        0 <= k < h.len(),
        qso_auto_hunter::is_from_to(h[k], his, me),
        text::is_word(a),
        text::is_word(b),
        -99 <= n <= 99,
        h[k].res.text@ == a + " "@ + b + " "@ + numbers::signed_report(n) || h[k].res.text@ == a
            + " "@ + b + " R"@ + numbers::signed_report(n),
        forall|j: int|
            k < j < h.len() ==> !(qso_auto_hunter::is_from_to(#[trigger] h[j], his, me)
                && qso_auto_hunter::report_in(h[j].res.text@) is Some),
    ensures
        qso_auto_hunter::reported(h, his, me) == numbers::signed_report(n),
{
    law_report_at_the_end(a, b, n);
    numbers::lemma_report_shape(n);
    lemma_reported_since(h, his, me, k);
}

/// The strength of the last message of the other station is logged as the
/// report that was sent, unless a report was sent to it since.
pub proof fn law_heard_strength_is_logged(
    h: Seq<HistoryEntry>,
    his: Seq<char>,
    me: Seq<char>,
    k: int,
)
    requires
        0 <= k < h.len(),
        qso_auto_hunter::is_from_to(h[k], his, me),
        h[k].res.snr != 99,
        forall|j: int|
            k < j < h.len() ==> {
                &&& !(qso_auto_hunter::is_from_to(#[trigger] h[j], his, me) && h[j].res.snr != 99)
                &&& !(qso_auto_hunter::is_from_to(h[j], me, his) && qso_auto_hunter::report_in(
                    h[j].res.text@,
                ) is Some)
            },
    ensures
        qso_auto_hunter::heard(h, his, me) == numbers::signed_report(h[k].res.snr as int),
{
    numbers::lemma_report_digits(h[k].res.snr as int);
    lemma_heard_since(h, his, me, k);
}

/// The report that was sent last to the other station is logged as sent,
/// unless a message of it was heard since.
pub proof fn law_sent_report_is_logged(
    h: Seq<HistoryEntry>,
    his: Seq<char>,
    me: Seq<char>,
    k: int,
    a: Seq<char>,
    b: Seq<char>,
    n: int,
)
    requires
        his != me,
        0 <= k < h.len(),
        qso_auto_hunter::is_from_to(h[k], me, his),
        text::is_word(a),
        text::is_word(b),
        -99 <= n <= 99,
        h[k].res.text@ == a + " "@ + b + " "@ + numbers::signed_report(n) || h[k].res.text@ == a
            + " "@ + b + " R"@ + numbers::signed_report(n),
        forall|j: int|
            k < j < h.len() ==> {
                &&& !(qso_auto_hunter::is_from_to(#[trigger] h[j], his, me) && h[j].res.snr != 99)
                &&& !(qso_auto_hunter::is_from_to(h[j], me, his) && qso_auto_hunter::report_in(
                    h[j].res.text@,
                ) is Some)
            },
    ensures
        qso_auto_hunter::heard(h, his, me) == numbers::signed_report(n),
{
    law_report_at_the_end(a, b, n);
    numbers::lemma_report_shape(n);
    lemma_heard_since(h, his, me, k);
}

/// Without any report, and without any message between the two, nothing is logged
/// in the place of a report.
pub proof fn law_no_report_is_made_up(h: Seq<HistoryEntry>, his: Seq<char>, me: Seq<char>)
    requires
        forall|j: int|
            0 <= j < h.len() ==> !qso_auto_hunter::is_from_to(#[trigger] h[j], his, me)
                && !qso_auto_hunter::is_from_to(h[j], me, his),
    ensures
        qso_auto_hunter::reported(h, his, me).len() == 0,
        qso_auto_hunter::heard(h, his, me).len() == 0,
    decreases h.len(),
{
    if h.len() > 0 {
        let t = h.drop_last();
        assert forall|j: int| 0 <= j < t.len() implies !qso_auto_hunter::is_from_to(
            #[trigger] t[j],
            his,
            me,
        ) && !qso_auto_hunter::is_from_to(t[j], me, his) by {
            assert(t[j] == h[j]);
        }
        law_no_report_is_made_up(t, his, me);
        assert(h.last() == h[h.len() - 1]);
    }
}

/// Whether a text ends a contact: `RR73`, `RRR` or `73`.
pub open spec fn is_end(p: Seq<char>) -> bool {
    p == "RR73"@ || p == "RRR"@ || p == "73"@
}

/// A text occurs in a text that holds it.
pub proof fn lemma_contains_middle(a: Seq<char>, f: Seq<char>, b: Seq<char>)
    ensures
        text::contains(a + f + b, f),
{
    let s = a + f + b;
    assert(s.subrange(a.len() as int, a.len() as int + f.len()) =~= f);
    assert(text::occurs_at(s, f, a.len() as int));
}

/// A message with an acknowledgement as its last word ends a contact.
proof fn lemma_end(a: Seq<char>, b: Seq<char>, p: Seq<char>)
    requires
        is_end(p),
    ensures
        qso_auto_hunter::ends_contact(a + " "@ + b + " "@ + p),
{
    let head = a + " "@ + b;
    let tail = " "@ + p;
    let whole = a + " "@ + b + " "@ + p;
    assert(text::contains(whole, tail)) by {
        lemma_contains_middle(head, tail, Seq::empty());
        lemma_regroup(head, " "@, p);
        assert(head + tail + Seq::<char>::empty() =~= head + tail);
    }
    if p == "RR73"@ {
        assert(tail == " RR73"@) by {
            reveal_strlit(" ");
            reveal_strlit("RR73");
            reveal_strlit(" RR73");
            assert(tail =~= " RR73"@);
        }
    } else if p == "RRR"@ {
        assert(tail == " RRR"@) by {
            reveal_strlit(" ");
            reveal_strlit("RRR");
            reveal_strlit(" RRR");
            assert(tail =~= " RRR"@);
        }
    } else {
        assert(tail == " 73"@) by {
            reveal_strlit(" ");
            reveal_strlit("73");
            reveal_strlit(" 73");
            assert(tail =~= " 73"@);
        }
    }
}

/// A message that ends a contact names the other station of it, whichever of
/// the two sent it.
pub proof fn law_partner_of_a_contact(
    res: Ft8DecodeResult,
    his: Seq<char>,
    me: Seq<char>,
    a: Seq<char>,
    b: Seq<char>,
    p: Seq<char>,
)
    requires
        his != me,
        his.len() > 0,
        his != "UNKNOWN"@,
        is_end(p),
        res.text@ == a + " "@ + b + " "@ + p,
        ({
            let from = qso_auto_hunter::cleaned_option(res.sender_call);
            let to = qso_auto_hunter::cleaned_option(res.receiver_call);
            (from == his && to == me) || (from == me && to == his)
        }),
    ensures
        qso_auto_hunter::partner(res, me) == Some(his),
{
    lemma_end(a, b, p);
}

/// A message that ends no contact of this station names no other: one between
/// two others, or one without an acknowledgement.
pub proof fn law_no_partner(res: Ft8DecodeResult, me: Seq<char>)
    ensures
        qso_auto_hunter::cleaned_option(res.sender_call) != me
            && qso_auto_hunter::cleaned_option(res.receiver_call) != me
            ==> qso_auto_hunter::partner(res, me) is None,
        !text::contains(res.text@, " RR73"@) && !text::contains(res.text@, " RRR"@)
            && !text::contains(res.text@, " 73"@) ==> qso_auto_hunter::partner(res, me) is None,
        qso_auto_hunter::partner(res, me) != Some("UNKNOWN"@),
        qso_auto_hunter::partner(res, me) != Some(Seq::<char>::empty()),
{
}

/// A contact that has come to its end is logged, unless it was in the last ten
/// minutes: with the call sign of the other station, the frequency, its grid
/// square, and both reports. The station counts as worked on the band, its grid
/// square as worked, and the failures before it no longer count.
pub proof fn law_finished_contact_is_logged(
    m0: AutoQsoManager,
    m1: AutoQsoManager,
    res: Ft8DecodeResult,
    config: StationConfig,
    ctx: LogContext,
    r: Option<QsoRecord>,
    his: Seq<char>,
)
    requires
        qso_auto_hunter::logs(m0, m1, res, config, ctx, r),
        qso_auto_hunter::partner(res, config.my_call@) == Some(his),
        m0.last_logged_at@.contains_key(his) ==> ctx.now >= m0.last_logged_at@[his] + 600_000,
    ensures
        r is Some,
        ({
            let log = (r->0).log@;
            let h = m0.msg_history@;
            let me = config.my_call@;
            &&& log.call == his
            &&& log.freq == ctx.freq_text@
            &&& log.my_snr == qso_auto_hunter::heard(h, his, me)
            &&& log.his_snr == qso_auto_hunter::reported(h, his, me)
            &&& log.time == outside::time_format(
                (ctx.unix_secs + 8 * 3600) as i64,
                "%Y-%m-%dT%H:%M:%S+08:00"@,
            )
            &&& m0.grids().contains_key(his) ==> {
                let (grid, dist) = m0.grids()[his];
                &&& dist is None ==> log.grid == grid
                &&& dist matches Some(d) ==> log.grid == grid + " ["@ + numbers::decimal(
                    d.km as nat,
                ) + "km]"@
            }
            &&& !m0.grids().contains_key(his) ==> log.grid == "未知"@
        }),
        m1.successful_calls@ == m0.successful_calls@.insert(
            his + ":"@ + bands::band_of(ctx.freq_hz as int),
        ),
        m0.grids().contains_key(his) ==> m1.successful_grids@ == m0.successful_grids@.insert(
            m0.grids()[his].0,
        ),
        !m0.grids().contains_key(his) ==> m1.successful_grids@ == m0.successful_grids@,
        m1.last_logged_at@ == m0.last_logged_at@.insert(his, ctx.now),
        m1.consecutive_failures == 0,
        m1.msg_history == m0.msg_history,
        m1.task_queue == m0.task_queue,
        m1.attempted_recent == m0.attempted_recent,
{
}

/// A contact is logged once: a second message that ends it is not logged within
/// ten minutes, and changes nothing.
pub proof fn law_second_end_is_not_logged(
    m0: AutoQsoManager,
    m1: AutoQsoManager,
    m2: AutoQsoManager,
    res1: Ft8DecodeResult,
    res2: Ft8DecodeResult,
    config: StationConfig,
    ctx1: LogContext,
    ctx2: LogContext,
    r1: Option<QsoRecord>,
    r2: Option<QsoRecord>,
)
    requires
        qso_auto_hunter::logs(m0, m1, res1, config, ctx1, r1),
        qso_auto_hunter::logs(m1, m2, res2, config, ctx2, r2),
        r1 is Some,
        qso_auto_hunter::partner(res1, config.my_call@) == qso_auto_hunter::partner(
            res2,
            config.my_call@,
        ),
        ctx2.now < ctx1.now + 600_000,
    ensures
        r2 is None,
        m2 == m1,
{
}

/// A message that ends no contact is not logged, and changes nothing.
pub proof fn law_other_messages_are_not_logged(
    m0: AutoQsoManager,
    m1: AutoQsoManager,
    res: Ft8DecodeResult,
    config: StationConfig,
    ctx: LogContext,
    r: Option<QsoRecord>,
)
    requires
        qso_auto_hunter::logs(m0, m1, res, config, ctx, r),
        qso_auto_hunter::partner(res, config.my_call@) is None,
    ensures
        r is None,
        m1 == m0,
{
}

/// A station whose contact was logged is not called again on that band.
pub proof fn law_logged_station_is_not_called(
    m0: AutoQsoManager,
    m1: AutoQsoManager,
    res: Ft8DecodeResult,
    config: StationConfig,
    ctx: LogContext,
    r: Option<QsoRecord>,
    his: Seq<char>,
    e: HistoryEntry,
    hunt: HuntContext,
)
    requires
        qso_auto_hunter::logs(m0, m1, res, config, ctx, r),
        r is Some,
        qso_auto_hunter::partner(res, config.my_call@) == Some(his),
        hunt_laws::is_of(e, his),
        hunt.freq_hz == ctx.freq_hz,
    ensures
        !m1.is_prey(e, config.my_call@, hunt),
{
    hunt_laws::law_worked_station_is_left_alone(m1, e, his, config.my_call@, hunt);
}

/// What of a history is kept: the messages from some place on, to the last.
/// The first of them is not older than half an hour, and all before it are.
pub proof fn law_old_messages_are_dropped(h: Seq<HistoryEntry>, now: u64) -> (k: int)
    ensures
        0 <= k <= h.len(),
        qso_auto_hunter::pruned(h, now) == h.skip(k),
        forall|i: int| 0 <= i < k ==> (#[trigger] h[i]).at + 1_800_000 < now,
        k < h.len() ==> now <= h[k].at + 1_800_000,
    decreases h.len(),
{
    if h.len() > 0 && now > h[0].at + 1_800_000 {
        let t = h.drop_first();
        let k = law_old_messages_are_dropped(t, now);
        assert(t.skip(k) =~= h.skip(k + 1));
        assert forall|i: int| 0 <= i < k + 1 implies (#[trigger] h[i]).at + 1_800_000 < now by {
            if i > 0 {
                assert(t[i - 1] == h[i]);
            }
        }
        if k + 1 < h.len() {
            assert(t[k] == h[k + 1]);
        }
        k + 1
    } else {
        assert(h.skip(0) =~= h);
        0
    }
}

/// What is noted of a message: it is the last of the history; its grid square
/// is that of its sender from then on, unless the station sent it itself or the
/// grid square is an acknowledgement; and if it names the station, and is not
/// its own, the station counts as called. Nothing else changes.
pub proof fn law_message_is_noted(
    m0: AutoQsoManager,
    m1: AutoQsoManager,
    e: HistoryEntry,
    dist: Option<Distance>,
    me: Seq<char>,
    call: Seq<char>,
    grid: Seq<char>,
)
    requires
        qso_auto_hunter::notes(m0, m1, e, dist, me),
        qso_utils::is_call(call),
        packjt77::text_option(e.res.sender_call) == Some(call),
    ensures
        ({
            let own = e.res.snr == 99;
            let named = packjt77::text_option(e.res.grid);
            &&& m1.msg_history@.len() > 0 && m1.msg_history@.last() == e
            &&& !own && named == Some(grid) && !is_end(grid) ==> m1.grids() == m0.grids().insert(
                call,
                (grid, dist),
            ) && m1.is_dirty
            &&& own || named is None || is_end(named->0) ==> m1.grids() == m0.grids()
                && m1.is_dirty == m0.is_dirty
            &&& !own && text::contains(e.res.text@, me) ==> m1.last_incoming_for_me == e.at
            &&& own || !text::contains(e.res.text@, me) ==> m1.last_incoming_for_me
                == m0.last_incoming_for_me
            &&& m1.successful_calls == m0.successful_calls
            &&& m1.successful_grids == m0.successful_grids
            &&& m1.attempted_recent == m0.attempted_recent
            &&& m1.task_queue == m0.task_queue
            &&& m1.last_logged_at == m0.last_logged_at
            &&& m1.consecutive_failures == m0.consecutive_failures
        }),
{
    reveal_strlit("Unknown");
    hunt_laws::lemma_clean(call);
    assert(call != "Unknown"@) by {
        assert("Unknown"@[1] == 'n');
        if call == "Unknown"@ {
            assert(patterns::is_digit(call[1]) || 'A' <= call[1] <= 'Z' || call[1] == '/');
        }
    }
}

/// A message that the station sends is noted as its own: from it, to the first
/// word, with the third as its grid square.
pub proof fn law_own_message_is_noted(
    e: Ft8DecodeResult,
    his: Seq<char>,
    me: Seq<char>,
    p: Seq<char>,
    freq: i32,
)
    requires
        qso_utils::is_call(his),
        qso_utils::is_call(me),
        text::is_word(p),
        qso_auto_hunter::is_own_message(e, his + " "@ + me + " "@ + p, freq),
    ensures
        is_between(e, me, his),
        packjt77::text_option(e.grid) == Some(p),
        e.snr == 99,
        e.freq == freq,
        e.text@ == his + " "@ + me + " "@ + p,
{
    qso_utils::lemma_call(his);
    qso_utils::lemma_call(me);
    hunt_laws::lemma_clean(his);
    hunt_laws::lemma_clean(me);
    text::lemma_three_words(his, me, p);
}

/// A value with its length in bytes before it.
pub open spec fn sized(value: Seq<char>) -> Seq<char> {
    numbers::decimal(encode_utf8(value).len()) + ">"@ + value
}

/// The record of a contact holds the fields of a contact in their order, each
/// under its name and with the length of its value in bytes.
pub proof fn law_fields_of_a_record(c: bands::AdifContact)
    ensures
        bands::adif_text(c) == "<CALL:"@ + sized(c.call) + " <GRIDSQUARE:"@ + sized(c.grid)
            + " <MODE:3>FT8 <RST_SENT:"@ + sized(c.rst_sent) + " <RST_RCVD:"@ + sized(c.rst_rcvd)
            + " <QSO_DATE:8>"@ + c.date + " <TIME_ON:6>"@ + c.time + " <BAND:"@ + sized(
            bands::band_of(c.freq_hz as int),
        ) + " <FREQ:"@ + sized(bands::megahertz(c.freq_hz)) + " <STATION_CALLSIGN:"@ + sized(
            c.my_call,
        ) + " <EOR>\n"@,
{
    reveal_strlit("<");
    reveal_strlit(" ");
    reveal_strlit(":");
    reveal_strlit("CALL");
    reveal_strlit("GRIDSQUARE");
    reveal_strlit(" <MODE:3>FT8 ");
    reveal_strlit("RST_SENT");
    reveal_strlit("RST_RCVD");
    reveal_strlit("BAND");
    reveal_strlit("FREQ");
    reveal_strlit("STATION_CALLSIGN");
    reveal_strlit("<CALL:");
    reveal_strlit(" <GRIDSQUARE:");
    reveal_strlit(" <MODE:3>FT8 <RST_SENT:");
    reveal_strlit(" <RST_RCVD:");
    reveal_strlit(" <BAND:");
    reveal_strlit(" <FREQ:");
    reveal_strlit(" <STATION_CALLSIGN:");
    let f1 = bands::adif_field("CALL"@, c.call);
    assert(f1 =~= "<CALL:"@ + sized(c.call));
    let f2 = bands::adif_field("GRIDSQUARE"@, c.grid);
    assert(" "@ + f2 =~= " <GRIDSQUARE:"@ + sized(c.grid));
    let f3 = bands::adif_field("RST_SENT"@, c.rst_sent);
    assert(" <MODE:3>FT8 "@ + f3 =~= " <MODE:3>FT8 <RST_SENT:"@ + sized(c.rst_sent));
    let f4 = bands::adif_field("RST_RCVD"@, c.rst_rcvd);
    assert(" "@ + f4 =~= " <RST_RCVD:"@ + sized(c.rst_rcvd));
    let f5 = bands::adif_field("BAND"@, bands::band_of(c.freq_hz as int));
    assert(" "@ + f5 =~= " <BAND:"@ + sized(bands::band_of(c.freq_hz as int)));
    let f6 = bands::adif_field("FREQ"@, bands::megahertz(c.freq_hz));
    assert(" "@ + f6 =~= " <FREQ:"@ + sized(bands::megahertz(c.freq_hz)));
    let f7 = bands::adif_field("STATION_CALLSIGN"@, c.my_call);
    assert(" "@ + f7 =~= " <STATION_CALLSIGN:"@ + sized(c.my_call));
    lemma_regroup(f1, " "@, f2);
    let a = f1 + (" "@ + f2);
    lemma_regroup(a, " <MODE:3>FT8 "@, f3);
    let a = a + (" <MODE:3>FT8 "@ + f3);
    lemma_regroup(a, " "@, f4);
    let a = a + (" "@ + f4) + " <QSO_DATE:8>"@ + c.date + " <TIME_ON:6>"@ + c.time;
    lemma_regroup(a, " "@, f5);
    let a = a + (" "@ + f5);
    lemma_regroup(a, " "@, f6);
    let a = a + (" "@ + f6);
    lemma_regroup(a, " "@, f7);
    lemma_regroup(f1, " <GRIDSQUARE:"@, sized(c.grid));
    let b = f1 + (" <GRIDSQUARE:"@ + sized(c.grid));
    lemma_regroup(b, " <MODE:3>FT8 <RST_SENT:"@, sized(c.rst_sent));
    let b = b + (" <MODE:3>FT8 <RST_SENT:"@ + sized(c.rst_sent));
    lemma_regroup(b, " <RST_RCVD:"@, sized(c.rst_rcvd));
    let b = b + (" <RST_RCVD:"@ + sized(c.rst_rcvd)) + " <QSO_DATE:8>"@ + c.date + " <TIME_ON:6>"@
        + c.time;
    lemma_regroup(b, " <BAND:"@, sized(bands::band_of(c.freq_hz as int)));
    let b = b + (" <BAND:"@ + sized(bands::band_of(c.freq_hz as int)));
    lemma_regroup(b, " <FREQ:"@, sized(bands::megahertz(c.freq_hz)));
    let b = b + (" <FREQ:"@ + sized(bands::megahertz(c.freq_hz)));
    lemma_regroup(b, " <STATION_CALLSIGN:"@, sized(c.my_call));
}

proof fn lemma_regroup(a: Seq<char>, b: Seq<char>, c: Seq<char>)
    ensures
        a + b + c == a + (b + c),
{
    assert(a + b + c =~= a + (b + c));
}

/// The record that is written of a contact is that of its call sign, grid
/// square, reports, time and frequency.
pub proof fn law_record_is_of_the_contact(
    m0: AutoQsoManager,
    m1: AutoQsoManager,
    res: Ft8DecodeResult,
    config: StationConfig,
    ctx: LogContext,
    r: Option<QsoRecord>,
    c: bands::AdifContact,
)
    requires
        qso_auto_hunter::logs(m0, m1, res, config, ctx, r),
        r is Some,
        c.call == (r->0).log@.call,
        c.rst_sent == (r->0).log@.my_snr,
        c.rst_rcvd == (r->0).log@.his_snr,
        c.grid == if m0.grids().contains_key(c.call) {
            m0.grids()[c.call].0
        } else {
            Seq::empty()
        },
        c.freq_hz == ctx.freq_hz,
        c.my_call == config.my_call@,
        c.date == outside::time_format((ctx.unix_secs + 8 * 3600) as i64, "%Y%m%d"@),
        c.time == outside::time_format((ctx.unix_secs + 8 * 3600) as i64, "%H%M%S"@),
    ensures
        (r->0).adif@ == bands::adif_text(c),
{
}

/// Who sent a message and whom it is for is told by the call signs, with or
/// without brackets.
pub proof fn law_who_sent_a_message(e: HistoryEntry, from: Seq<char>, to: Seq<char>)
    requires
        qso_utils::is_call(from),
        qso_utils::is_call(to),
        ({
            let (a, b) = (
                packjt77::text_option(e.res.sender_call),
                packjt77::text_option(e.res.receiver_call),
            );
            &&& a == Some(from) || a == Some(seq!['<'] + from + seq!['>'])
            &&& b == Some(to) || b == Some(seq!['<'] + to + seq!['>'])
        }),
    ensures
        qso_auto_hunter::is_from_to(e, from, to),
        from != to ==> !qso_auto_hunter::is_from_to(e, to, from),
        qso_auto_hunter::cleaned_option(e.res.sender_call) == from,
        qso_auto_hunter::cleaned_option(e.res.receiver_call) == to,
{
    hunt_laws::law_call_without_brackets(from);
    hunt_laws::law_call_without_brackets(to);
}

/// A frequency in megahertz has a point and six places, and is read back.
pub proof fn law_megahertz_read_back(hz: nat)
    ensures
        ({
            let s = bands::megahertz(hz);
            let n = s.len() - 7;
            &&& n >= 1
            &&& s[n] == '.'
            &&& 1_000_000 * numbers::value_in(s.take(n), 10) + numbers::value_in(s.skip(n + 1), 10)
                == hz
        }),
{
    reveal_strlit(".");
    let whole = numbers::decimal(hz / 1_000_000);
    let part = numbers::decimal(hz % 1_000_000);
    let p = numbers::zero_padded(part, 6);
    numbers::law_number_reads_back(hz / 1_000_000, 10);
    numbers::law_number_reads_back(hz % 1_000_000, 10);
    numbers::law_padding_keeps_the_number(part, 6, 10);
    lemma_six_digits(hz % 1_000_000);
    let s = bands::megahertz(hz);
    assert(p.len() == 6);
    let n = s.len() - 7;
    assert(s.take(n) =~= whole);
    assert(s.skip(n + 1) =~= p);
}

proof fn lemma_six_digits(n: nat)
    requires
        n < 1_000_000,
    ensures
        numbers::decimal(n).len() <= 6,
{
    lemma_fewer_digits(n, 6);
}

proof fn lemma_fewer_digits(n: nat, k: nat)
    requires
        1 <= k <= 6,
        k == 1 ==> n < 10,
        k == 2 ==> n < 100,
        k == 3 ==> n < 1000,
        k == 4 ==> n < 10_000,
        k == 5 ==> n < 100_000,
        k == 6 ==> n < 1_000_000,
    ensures
        numbers::decimal(n).len() <= k,
    decreases k,
{
    if n >= 10 {
        lemma_fewer_digits(n / 10, (k - 1) as nat);
        assert(numbers::decimal(n) == numbers::decimal(n / 10).push(
            numbers::digit((n % 10) as int),
        ));
    } else {
        assert(numbers::decimal(n) =~= seq![numbers::digit(n as int)]);
    }
}

/// The middle of a grid square lies one square further on for each digit and
/// ten for each letter, to the east for the first of each pair and to the north
/// for the second; the square of the letters `JJ` and zeros begins at the
/// equator and the meridian of Greenwich.
pub proof fn law_middle_of_a_square(a: u8, b: u8, c: u8, d: u8)
    requires
        65 <= a <= 82,
        65 <= b <= 82,
        48 <= c <= 57,
        48 <= d <= 57,
    ensures
        ({
            let p = bands::grid_middle(seq![a, b, c, d]);
            let square_east = 10 * (a - 74) + (c - 48);
            let square_north = 10 * (b - 74) + (d - 48);
            &&& p is Some
            &&& (p->0).lon24 == 24 * (2 * square_east + 1)
            &&& 2 * (p->0).lat48 == 48 * (2 * square_north + 1)
            &&& bands::grid_middle(seq![(a + 32) as u8, (b + 32) as u8, c, d]) == p
        }),
{
}

} // verus!
