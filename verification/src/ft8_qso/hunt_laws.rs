//! What holds of the hunt: whom the station calls, and when.
use super::bands;
use super::qso_auto_hunter;
use super::qso_auto_hunter::{AutoQsoManager, HistoryEntry, HuntContext, Task};
use super::qso_utils;
use crate::ft8_codec::packjt77;
use crate::text;
use crate::types::StationConfig;
use vstd::prelude::*;
use vstd::utf8::*;

verus! {

/// A call sign of upper-case letters, digits and slashes is not changed when
/// brackets are taken off it or small letters are made large.
pub proof fn lemma_clean(c: Seq<char>)
    requires
        qso_utils::is_call(c),
    ensures
        qso_auto_hunter::cleaned(c) == c,
        text::uppercase(c) == c,
        !c.contains('<'),
{
    reveal_strlit("...");
    qso_utils::lemma_call(c);
    assert("..."@[0] == '.');
    assert(c != "..."@);
    text::lemma_upper_none(c);
    assert forall|i: int| 0 <= i < c.len() implies c[i] != '<' by {}
}

/// Whether an entry is of a station with a call sign.
pub open spec fn is_of(e: HistoryEntry, call: Seq<char>) -> bool {
    e.res.sender_call is Some && qso_auto_hunter::cleaned(e.res.sender_call->0@) == call
}

/// Whether a grid square is named that no contact was made with.
pub open spec fn is_new_square(m: AutoQsoManager, grid: Option<Seq<char>>) -> bool {
    grid is Some && !m.successful_grids@.contains(grid->0)
}

/// What speaks for a station with a call sign, the most weighty first: that it
/// is special, far, foreign, heard in the slots in which the station does not
/// send, that it calls, and that its grid square is new.
pub open spec fn merits(
    m: AutoQsoManager,
    e: HistoryEntry,
    call: Seq<char>,
    tx_even: bool,
) -> Seq<bool> {
    seq![
        is_special(text::uppercase(call)),
        is_far_away(m, call),
        !is_neighbour(text::uppercase(call)),
        e.is_even != tx_even,
        e.res.text@.len() >= 3 && e.res.text@[0] == 'C' && e.res.text@[1] == 'Q' && e.res.text@[2]
            == ' ',
        is_new_square(m, packjt77::text_option(e.res.grid)),
    ]
}

/// Whether a call sign is one of `B0CRA` to `B9CRA`.
pub open spec fn is_special(c: Seq<char>) -> bool {
    exists|d: char| '0' <= d <= '9' && c == seq!['B', d, 'C', 'R', 'A']
}

/// Whether a station is known to be far.
pub open spec fn is_far_away(m: AutoQsoManager, call: Seq<char>) -> bool {
    m.grids().contains_key(call) && m.grids()[call].1 is Some && (m.grids()[call].1->0).far
}

/// Whether a call sign is of China but not of Taiwan.
pub open spec fn is_chinese(c: Seq<char>) -> bool {
    c[0] == 'B' && c[1] != 'U' && c[1] != 'V' && c[1] != 'W' && c[1] != 'X'
}

/// Whether a call sign is of Japan: `JA` to `JS`, `7J` to `7N`, `8J` to `8N`.
pub open spec fn is_japanese(c: Seq<char>) -> bool {
    ||| c[0] == 'J' && 'A' <= c[1] <= 'S'
    ||| c[0] == '7' && 'J' <= c[1] <= 'N'
    ||| c[0] == '8' && 'J' <= c[1] <= 'N'
}

/// Whether a call sign is of Korea: `HL`, `DS`, `DT`, `D7` to `D9`, `6K` to `6N`.
pub open spec fn is_korean(c: Seq<char>) -> bool {
    ||| c[0] == 'H' && c[1] == 'L'
    ||| c[0] == 'D' && (c[1] == 'S' || c[1] == 'T' || c[1] == '7' || c[1] == '8' || c[1] == '9')
    ||| c[0] == '6' && (c[1] == 'K' || c[1] == 'L' || c[1] == 'M' || c[1] == 'N')
}

/// Whether a call sign is of Indonesia: `YB` to `YH`.
pub open spec fn is_indonesian(c: Seq<char>) -> bool {
    c[0] == 'Y' && 'B' <= c[1] <= 'H'
}

/// Whether a call sign is of a country around.
pub open spec fn is_neighbour(c: Seq<char>) -> bool {
    c.len() >= 2 && (is_chinese(c) || is_japanese(c) || is_korean(c) || is_indonesian(c))
}

/// The region is China, Japan, Korea and Indonesia, by the first two
/// characters of a call sign, in large letters or small.
pub proof fn law_region_by_prefix(c: Seq<char>)
    ensures
        qso_auto_hunter::is_local(c) == is_neighbour(text::uppercase(c)),
        qso_utils::is_call(c) ==> qso_auto_hunter::is_local(c) == is_neighbour(c),
        is_ascii_chars(c) ==> qso_auto_hunter::is_local(c) == is_neighbour(text::ascii_upper(c)),
{
    if qso_utils::is_call(c) {
        lemma_clean(c);
    }
}

/// The special stations are those of one series, in large letters or small.
pub proof fn law_special_stations(c: Seq<char>)
    ensures
        qso_auto_hunter::is_cra(c) == is_special(text::uppercase(c)),
        qso_utils::is_call(c) ==> qso_auto_hunter::is_cra(c) == is_special(c),
        is_ascii_chars(c) ==> qso_auto_hunter::is_cra(c) == is_special(text::ascii_upper(c)),
{
    if qso_utils::is_call(c) {
        lemma_clean(c);
    }
    let u = text::uppercase(c);
    if qso_auto_hunter::is_cra(c) {
        assert(u =~= seq!['B', u[1], 'C', 'R', 'A']);
    }
    if is_special(u) {
        let d = choose|d: char| '0' <= d <= '9' && u == seq!['B', d, 'C', 'R', 'A'];
        assert(u[1] == d);
    }
}

/// How much an entry is worth, by its merits and its strength.
proof fn lemma_worth(m: AutoQsoManager, e: HistoryEntry, call: Seq<char>, ctx: HuntContext)
    requires
        is_of(e, call),
    ensures
        ({
            let v = merits(m, e, call, ctx.tx_even);
            let w = |k: int, n: int| if v[k] { n } else { 0 };
            m.worth(e, ctx) == 0x1_0000_0000 * (w(0, 32) + w(1, 16) + w(2, 8) + w(3, 4) + w(4, 2)
                + w(5, 1)) + e.res.snr
        }),
{
    reveal_strlit("CQ ");
    law_region_by_prefix(call);
    law_special_stations(call);
    let t = e.res.text@;
    let calls = t.len() >= 3 && t[0] == 'C' && t[1] == 'Q' && t[2] == ' ';
    if calls {
        assert(t.take(3) =~= "CQ "@);
    }
    if text::starts_with(t, "CQ "@) {
        assert(t.take(3)[0] == 'C' && t.take(3)[1] == 'Q' && t.take(3)[2] == ' ');
    }
    assert(m.is_far(call) == is_far_away(m, call));
}

/// Of two stations that may be called the one with the weightiest merit that
/// the other lacks is preferred, whatever their strengths; of two with the same
/// merits the stronger; of two that are also equally strong the one that was
/// noted first.
pub proof fn law_order_of_preference(
    m: AutoQsoManager,
    i: int,
    a: Seq<char>,
    j: int,
    b: Seq<char>,
    k: int,
    me: Seq<char>,
    ctx: HuntContext,
)
    requires
        0 <= i < m.msg_history@.len(),
        0 <= j < m.msg_history@.len(),
        i != j,
        is_of(m.msg_history@[i], a),
        is_of(m.msg_history@[j], b),
        m.is_prey(m.msg_history@[i], me, ctx),
        0 <= k <= 6,
        ({
            let x = merits(m, m.msg_history@[i], a, ctx.tx_even);
            let y = merits(m, m.msg_history@[j], b, ctx.tx_even);
            let (p, q) = (m.msg_history@[i].res.snr, m.msg_history@[j].res.snr);
            &&& forall|n: int| 0 <= n < k ==> x[n] == y[n]
            &&& k < 6 ==> x[k] && !y[k]
            &&& k == 6 ==> p > q || (p == q && i < j)
        }),
    ensures
        !m.is_best_prey(j, me, ctx),
{
    let x = merits(m, m.msg_history@[i], a, ctx.tx_even);
    let y = merits(m, m.msg_history@[j], b, ctx.tx_even);
    lemma_worth(m, m.msg_history@[i], a, ctx);
    lemma_worth(m, m.msg_history@[j], b, ctx);
    assert(k > 0 ==> x[0] == y[0]);
    assert(k > 1 ==> x[1] == y[1]);
    assert(k > 2 ==> x[2] == y[2]);
    assert(k > 3 ==> x[3] == y[3]);
    assert(k > 4 ==> x[4] == y[4]);
    assert(k > 5 ==> x[5] == y[5]);
    assert(m.is_prey(m.msg_history@[i], me, ctx));
}

/// A station that was worked on the band, or is worked on every band, is not called.
pub proof fn law_worked_station_is_left_alone(
    m: AutoQsoManager,
    e: HistoryEntry,
    call: Seq<char>,
    me: Seq<char>,
    ctx: HuntContext,
)
    requires
        is_of(e, call),
        m.successful_calls@.contains(call + ":"@ + bands::band_of(ctx.freq_hz as int))
            || m.successful_calls@.contains(call) || call == me,
    ensures
        !m.is_prey(e, me, ctx),
{
}

/// A station that was called is not called again for ten minutes, one of a
/// country around not for twenty.
pub proof fn law_called_station_is_left_alone(
    m: AutoQsoManager,
    e: HistoryEntry,
    call: Seq<char>,
    me: Seq<char>,
    ctx: HuntContext,
)
    requires
        is_of(e, call),
        m.attempted_recent@.contains_key(call),
        ctx.now < m.attempted_recent@[call] + (if is_neighbour(text::uppercase(call)) { 1_200_000int } else {
            600_000
        }),
    ensures
        !m.is_prey(e, me, ctx),
{
    law_region_by_prefix(call);
}

/// A station that was heard twenty seconds ago or before is not called, a far
/// one not after five minutes; nor is one whose call sign is only known by its
/// hash, or not known.
pub proof fn law_silent_station_is_left_alone(
    m: AutoQsoManager,
    e: HistoryEntry,
    call: Seq<char>,
    me: Seq<char>,
    ctx: HuntContext,
)
    ensures
        e.res.sender_call is None ==> !m.is_prey(e, me, ctx),
        e.res.sender_call is Some && e.res.sender_call->0@.contains('<') ==> !m.is_prey(e, me, ctx),
        is_of(e, call) && !is_far_away(m, call) && ctx.now >= e.at
            + 20_000 ==> !m.is_prey(e, me, ctx),
        is_of(e, call) && ctx.now >= e.at + 300_000 ==> !m.is_prey(
            e,
            me,
            ctx,
        ),
{
}

/// Whether a message says that its sender is free: a general call, or the end
/// of a contact.
pub open spec fn says_free(t: Seq<char>) -> bool {
    ||| text::starts_with(t, "CQ "@)
    ||| text::contains(t, " RRR"@)
    ||| text::contains(t, " RR73"@)
    ||| text::ends_with(t, " 73"@)
}

/// A station that is neither worked nor called lately is called if it was just
/// heard to be free; a foreign one whose grid square is known, or a far one,
/// though it is not free; and no other.
pub proof fn law_free_station_is_called(
    m: AutoQsoManager,
    e: HistoryEntry,
    call: Seq<char>,
    me: Seq<char>,
    ctx: HuntContext,
)
    requires
        is_of(e, call),
        !e.res.sender_call->0@.contains('<'),
        call != me,
        !m.successful_calls@.contains(call + ":"@ + bands::band_of(ctx.freq_hz as int)),
        !m.successful_calls@.contains(call),
        m.attempted_recent@.contains_key(call) ==> ctx.now >= m.attempted_recent@[call] + (
        if is_neighbour(text::uppercase(call)) { 1_200_000int } else { 600_000 }),
    ensures
        ({
            let known = m.grids().contains_key(call) && !is_neighbour(
                text::uppercase(call),
            );
            let far = is_far_away(m, call);
            &&& ctx.now < e.at + 20_000 ==> (m.is_prey(e, me, ctx) <==> says_free(e.res.text@)
                || known || far)
            &&& far && ctx.now < e.at + 300_000 ==> m.is_prey(e, me, ctx)
        }),
{
    law_region_by_prefix(call);
    assert(m.is_far(call) == is_far_away(m, call));
}

/// A station is called by its call sign, with the call sign and the grid
/// square of this one, in the slots in which it listens, at the frequency that
/// is quiet in them.
pub proof fn law_first_call(task: Task, e: HistoryEntry, config: StationConfig, ctx: HuntContext)
    requires
        qso_auto_hunter::is_call_to(task, e, config, ctx),
        e.res.sender_call is Some,
        text::is_word(e.res.sender_call->0@),
        text::is_word(config.my_call@),
        text::is_word(config.my_grid@),
    ensures
        text::words(task.msg@) == seq![
            e.res.sender_call->0@,
            config.my_call@,
            config.my_grid@,
        ],
        task.even != e.is_even,
        task.even ==> task.freq == ctx.quiet_even,
        !task.even ==> task.freq == ctx.quiet_odd,
        -32768 <= e.res.freq <= 32767 ==> task.target == e.res.freq,
        e.res.freq > 32767 ==> task.target == 32767,
        e.res.freq < -32768 ==> task.target == -32768,
{
    text::lemma_three_words(e.res.sender_call->0@, config.my_call@, config.my_grid@);
}

/// The station calls in general with its call sign and grid square, in the
/// even slots in the first half of the hour and in the odd ones in the second,
/// at the frequency that is quiet in them.
pub proof fn law_general_call(task: Task, minute: u32, config: StationConfig, ctx: HuntContext)
    requires
        qso_auto_hunter::is_general_call(task, minute, config, ctx),
        text::is_word(config.my_call@),
        text::is_word(config.my_grid@),
    ensures
        text::words(task.msg@) == seq!["CQ"@, config.my_call@, config.my_grid@],
        minute < 30 ==> task.even && task.freq == ctx.quiet_even && task.target == ctx.quiet_even,
        minute >= 30 ==> !task.even && task.freq == ctx.quiet_odd && task.target == ctx.quiet_odd,
{
    reveal_strlit("CQ");
    text::lemma_three_words("CQ"@, config.my_call@, config.my_grid@);
}

/// When the station calls in general: while it is idle and knows the noise of
/// the slots from the last two minutes, after two stations did not answer; else
/// once nobody has called it for 45 seconds and its last general call is three
/// minutes past.
pub proof fn law_when_to_call_in_general(m: AutoQsoManager, idle: bool, now: u64, minute: u32)
    requires
        m.last_incoming_for_me <= now,
        m.last_cq_time <= now,
        m.last_update_even <= now,
        m.last_update_odd <= now,
    ensures
        ({
            let noise = if minute < 30 {
                now - m.last_update_even
            } else {
                now - m.last_update_odd
            };
            let due = m.cq_due(idle, now, minute);
            &&& !idle || noise > 120_000 ==> !due
            &&& idle && noise <= 120_000 && m.consecutive_failures >= 2 ==> due
            &&& m.consecutive_failures < 2 && now - m.last_incoming_for_me < 45_000 ==> !due
            &&& m.consecutive_failures < 2 && now - m.last_cq_time < 180_000 ==> !due
            &&& idle && noise <= 120_000 && now - m.last_incoming_for_me >= 45_000 && now
                - m.last_cq_time >= 180_000 ==> due
        }),
{
}

/// When the station calls another: while it is idle, nobody has called it for
/// half a minute, there is one to be called, and it knows the noise of the slots
/// in which it would call from the last two minutes.
pub proof fn law_when_to_call_a_station(
    m: AutoQsoManager,
    idle: bool,
    i: int,
    me: Seq<char>,
    ctx: HuntContext,
)
    requires
        m.last_incoming_for_me <= ctx.now,
        m.last_update_even <= ctx.now,
        m.last_update_odd <= ctx.now,
        m.is_best_prey(i, me, ctx),
    ensures
        ({
            let noise = if m.msg_history@[i].is_even {
                ctx.now - m.last_update_odd
            } else {
                ctx.now - m.last_update_even
            };
            m.chase_due(idle, me, ctx) <==> idle && ctx.now - m.last_incoming_for_me >= 30_000
                && noise <= 120_000
        }),
{
    assert forall|j: int| m.is_best_prey(j, me, ctx) implies j == i by {
        assert(m.is_prey(m.msg_history@[j], me, ctx));
        assert(m.is_prey(m.msg_history@[i], me, ctx));
    }
    assert(m.msg_history@[i].is_even || !m.msg_history@[i].is_even);
}

/// How the noise of a slot is gathered: it starts anew with the slot; the
/// spectra of the seconds from the second to the eleventh are added up, one of
/// each second, and their mean is known in the twelfth. A slot in which the
/// station sends does not count.
pub proof fn law_noise_of_a_slot(
    g: qso_auto_hunter::NoiseGate,
    sec: u32,
    len: usize,
    sending: bool,
)
    requires
        sec < 60,
        sec != g.last_sec,
        g.count < u32::MAX,
    ensures
        ({
            let step = g.step_of(sec, len, sending);
            let after = g.after(sec, len, sending);
            let quiet = !sending && (!g.dirty || sec % 15 == 0);
            &&& step.reset <==> sec == 0 || sec == 15 || sec == 30 || sec == 45
            &&& step.reset ==> after.count == 0 && after.acc_len == len && !step.accumulate
                && step.publish is None
            &&& step.accumulate <==> 1 <= sec % 15 <= 10 && quiet && g.acc_len == len
            &&& step.accumulate ==> after.count == g.count + 1
            &&& !step.reset && !step.accumulate ==> after.count == g.count
            &&& step.publish is Some <==> sec % 15 == 11 && quiet && g.count > 0
            &&& step.publish matches Some((n, even)) ==> n == g.count && (even <==> sec == 11 || sec
                == 41)
            &&& after.dirty <==> !quiet
            &&& after.last_sec == sec
        }),
{
}

/// A second spectrum of the same second is passed over.
pub proof fn law_one_spectrum_a_second(
    g: qso_auto_hunter::NoiseGate,
    len: usize,
    sending: bool,
)
    ensures
        ({
            let step = g.step_of(g.last_sec, len, sending);
            &&& !step.reset && !step.accumulate && step.publish is None
            &&& g.after(g.last_sec, len, sending) == g
        }),
{
}

/// The places of the search for a quiet frequency lie from 199 Hz to 2926 Hz,
/// some twenty hertz apart.
pub proof fn law_places_of_the_search(k: int)
    requires
        0 <= k < 134,
    ensures
        qso_auto_hunter::bin_hz(qso_auto_hunter::quiet_bin(0)) == 199,
        qso_auto_hunter::bin_hz(qso_auto_hunter::quiet_bin(133)) == 2927,
        20 <= qso_auto_hunter::bin_hz(qso_auto_hunter::quiet_bin(k + 1))
            - qso_auto_hunter::bin_hz(qso_auto_hunter::quiet_bin(k)) <= 21,
        qso_auto_hunter::quiet_count(1194) == 134,
        qso_auto_hunter::quiet_count(84) == 0,
        qso_auto_hunter::quiet_count(85) == 1,
{
}

/// Where there is a station to be called there is a best one, and the best one
/// is a station to be called.
pub proof fn law_someone_is_best(m: AutoQsoManager, k: int, me: Seq<char>, ctx: HuntContext) -> (i:
    int)
    requires
        0 <= k < m.msg_history@.len(),
        m.is_prey(m.msg_history@[k], me, ctx),
    ensures
        m.is_best_prey(i, me, ctx),
        0 <= i < m.msg_history@.len(),
        m.is_prey(m.msg_history@[i], me, ctx),
{
    lemma_best_below(m, k, m.msg_history@.len() as int, me, ctx)
}

proof fn lemma_best_below(
    m: AutoQsoManager,
    k: int,
    n: int,
    me: Seq<char>,
    ctx: HuntContext,
) -> (i: int)
    requires
        0 <= k < n <= m.msg_history@.len(),
        m.is_prey(m.msg_history@[k], me, ctx),
    ensures
        0 <= i < n,
        m.is_prey(m.msg_history@[i], me, ctx),
        forall|j: int|
            0 <= j < n && m.is_prey(#[trigger] m.msg_history@[j], me, ctx) ==> {
                &&& m.worth(m.msg_history@[j], ctx) <= m.worth(m.msg_history@[i], ctx)
                &&& j < i ==> m.worth(m.msg_history@[j], ctx) < m.worth(m.msg_history@[i], ctx)
            },
    decreases n,
{
    let last = n - 1;
    if exists|j: int| 0 <= j < last && m.is_prey(#[trigger] m.msg_history@[j], me, ctx) {
        let j = choose|j: int| 0 <= j < last && m.is_prey(#[trigger] m.msg_history@[j], me, ctx);
        let b = lemma_best_below(m, j, last, me, ctx);
        if m.is_prey(m.msg_history@[last], me, ctx) && m.worth(m.msg_history@[last], ctx) > m.worth(
            m.msg_history@[b],
            ctx,
        ) {
            last
        } else {
            b
        }
    } else {
        k
    }
}

/// A call sign is taken without the brackets around it; one that is not known
/// is taken for `UNKNOWN`.
pub proof fn law_call_without_brackets(c: Seq<char>)
    requires
        qso_utils::is_call(c),
    ensures
        qso_auto_hunter::cleaned(c) == c,
        qso_auto_hunter::cleaned(seq!['<'] + c + seq!['>']) == c,
        qso_auto_hunter::cleaned("<...>"@) == "UNKNOWN"@,
        qso_auto_hunter::cleaned("..."@) == "UNKNOWN"@,
{
    reveal_strlit("...");
    reveal_strlit("<...>");
    lemma_clean(c);
    qso_utils::lemma_bracketed_call(c);
    text::lemma_no_brackets("..."@);
    let s = "<...>"@;
    assert(s.drop_last() =~= seq!['<', '.', '.', '.']);
    let a = seq!['<', '.', '.', '.'];
    assert(a.drop_last() =~= seq!['<', '.', '.']);
    let b = seq!['<', '.', '.'];
    assert(b.drop_last() =~= seq!['<', '.']);
    let d = seq!['<', '.'];
    assert(d.drop_last() =~= seq!['<']);
    let e = seq!['<'];
    assert(e.drop_last() =~= Seq::<char>::empty());
    let none = Seq::<char>::empty();
    assert(text::without_brackets(none) == none);
    assert(e.last() == '<');
    assert(text::without_brackets(e) == text::without_brackets(none));
    assert(text::without_brackets(d) =~= seq!['.']);
    assert(text::without_brackets(b) =~= seq!['.', '.']);
    assert(text::without_brackets(a) =~= seq!['.', '.', '.']);
    assert(text::without_brackets(s) =~= "..."@);
}

} // verus!
