//! The manager of automatic contacts: what was heard, whom to call, what to log.
use super::bands;
use super::bands::{adif_record, get_band_name};
use super::location::LocationEngine;
use super::notion_logger::{QsoLog, QsoText};
use super::qso_utils;
use super::qso_utils::{get_next_tx_msg, get_sender_call};
use crate::collections::{TextMap, TextSet};
use crate::ft8_codec::packjt77;
use crate::numbers;
use crate::numbers::{decimal_text, report_text};
use crate::outside;
use crate::outside::{format_time, parse_pairs, parse_strings, write_pairs, write_strings};
use crate::patterns;
use crate::patterns::{pattern_accepted, pattern_occurs};
use crate::text;
use crate::text::{
    bracketless, chars_of, contains_char, contains_text, has_prefix, has_suffix, same_text,
    split_words, string_of, trimmed,
};
use crate::types;
use crate::types::{clamp_i16, clamp_u16, AppState, Ft8DecodeResult, StationConfig};
use vstd::prelude::*;
use vstd::string::*;
use vstd::utf8::*;

verus! {

/// The strength that marks the station's own messages.
pub const OWN_SNR: i32 = 99;

/// The time from `then` to `now` in milliseconds; nothing if `then` is later.
pub open spec fn since(now: u64, then: u64) -> int {
    if now >= then {
        now - then
    } else {
        0
    }
}

fn elapsed(now: u64, then: u64) -> (r: u64)
    ensures
        r == since(now, then),
{
    if now >= then {
        now - then
    } else {
        0
    }
}

/// A time before `now`; `now` itself where there is no such time.
pub open spec fn before(now: u64, ms: u64) -> u64 {
    if now >= ms {
        (now - ms) as u64
    } else {
        now
    }
}

fn time_before(now: u64, ms: u64) -> (r: u64)
    ensures
        r == before(now, ms),
{
    if now >= ms {
        now - ms
    } else {
        now
    }
}

/// A call sign without brackets; one that is not known is `UNKNOWN`.
pub open spec fn cleaned(call: Seq<char>) -> Seq<char> {
    let s = text::without_brackets(call);
    if s == "..."@ {
        "UNKNOWN"@
    } else {
        s
    }
}

/// A call sign without brackets; one that is not known is `UNKNOWN`.
pub fn clean_call(call: &str) -> (r: String)
    ensures
        r@ == cleaned(call@),
{
    let s = bracketless(call);
    if same_text(s.as_str(), "...") {
        String::from_str("UNKNOWN")
    } else {
        s
    }
}

/// A call sign that there may be, without brackets; else an empty text.
pub open spec fn cleaned_option(call: Option<String>) -> Seq<char> {
    match call {
        Some(c) => cleaned(c@),
        None => Seq::empty(),
    }
}

fn clean_option(call: &Option<String>) -> (r: String)
    ensures
        r@ == cleaned_option(*call),
{
    match call {
        Some(c) => clean_call(c.as_str()),
        None => String::new(),
    }
}

/// How far a grid square is from the station.
#[derive(Clone, Copy, Debug, PartialEq, Eq, Structural)]
pub struct Distance {
    /// The distance, rounded to kilometres.
    pub km: u32,
    /// Whether it is more than 4000 km.
    pub far: bool,
}

/// The grid square of a station, and how far it is if that is known.
pub struct GridEntry {
    pub grid: String,
    pub dist: Option<Distance>,
}

/// A message that was heard or sent, with its time and slot.
pub struct HistoryEntry {
    pub at: u64,
    pub res: Ft8DecodeResult,
    pub is_even: bool,
}

/// A message to be sent: at its own frequency, to a station at another, in
/// even slots or odd ones.
pub struct Task {
    pub msg: String,
    pub freq: i16,
    pub target: i16,
    pub even: bool,
}

/// How noise is gathered over a time slot.
#[derive(Clone, Copy, Debug, PartialEq, Eq, Structural)]
pub struct NoiseGate {
    /// The spectra gathered in this slot.
    pub count: u32,
    /// Whether the station was sending in this slot.
    pub dirty: bool,
    /// The second of the last spectrum.
    pub last_sec: u32,
    /// The length of the sum of spectra.
    pub acc_len: usize,
}

/// What is done with a spectrum.
#[derive(Clone, Copy, Debug, PartialEq, Eq)]
pub struct NoiseStep {
    /// The sum starts anew, with zeros.
    pub reset: bool,
    /// The spectrum is added to the sum.
    pub accumulate: bool,
    /// The sum, divided by this count, is the noise of the slot: of the even
    /// slots if the flag is set.
    pub publish: Option<(u32, bool)>,
}

/// The manager of automatic contacts.
pub struct AutoQsoManager {
    /// The messages of the last 30 minutes.
    pub msg_history: Vec<HistoryEntry>,
    /// The stations that were worked, as `CALL:BAND`, or as `CALL` on any band.
    pub successful_calls: TextSet,
    /// When a station was last called.
    pub attempted_recent: TextMap<u64>,
    pub successful_grids: TextSet,
    pub last_incoming_for_me: u64,
    pub last_cq_time: u64,
    pub task_queue: Vec<Task>,
    /// When a contact was last logged.
    pub last_logged_at: TextMap<u64>,
    pub location_engine: LocationEngine,
    pub call_to_grid: TextMap<GridEntry>,
    pub noise: NoiseGate,
    /// When the noise of the even slots was last known.
    pub last_update_even: u64,
    /// When the noise of the odd slots was last known.
    pub last_update_odd: u64,
    pub consecutive_failures: u32,
    pub last_save_time: u64,
    pub is_dirty: bool,
}

/// A contact as it is to be logged.
pub struct QsoRecord {
    pub log: QsoLog,
    pub adif: String,
}

/// The messages without those at the front that are older than 30 minutes.
pub open spec fn pruned(h: Seq<HistoryEntry>, now: u64) -> Seq<HistoryEntry>
    decreases h.len(),
{
    if h.len() > 0 && since(now, h[0].at) > 1_800_000 {
        pruned(h.drop_first(), now)
    } else {
        h
    }
}

/// Whether a text stands in the place of a grid square but is none.
pub open spec fn is_acknowledgement(s: Seq<char>) -> bool {
    s == "RR73"@ || s == "RRR"@ || s == "73"@
}

/// The grid square that a message brings for its sender, if it does.
pub open spec fn learned_grid(res: Ft8DecodeResult) -> Option<(Seq<char>, Seq<char>)> {
    match (res.sender_call, res.grid) {
        (Some(call), Some(grid)) => if res.snr != OWN_SNR && cleaned(call@) != "Unknown"@
            && !is_acknowledgement(grid@) {
            Some((cleaned(call@), grid@))
        } else {
            None
        },
        _ => None,
    }
}

/// The grid squares of stations, as texts.
pub open spec fn grids_of(m: Map<Seq<char>, GridEntry>) -> Map<Seq<char>, (
    Seq<char>,
    Option<Distance>,
)> {
    m.map_values(|e: GridEntry| (e.grid@, e.dist))
}

/// The signal report at the end of a message, without its `R`.
pub open spec fn report_in(s: Seq<char>) -> Option<Seq<char>> {
    let words = text::words(s);
    if words.len() > 0 && patterns::ends_in_report(words.last()) {
        Some(
            if words.last().len() > 0 && words.last()[0] == 'R' {
                words.last().drop_first()
            } else {
                words.last()
            },
        )
    } else {
        None
    }
}

/// The signal report at the end of a message, without its `R`.
pub fn extract_snr_from_text(message: &str) -> (r: Option<String>)
    ensures
        (match r {
            Some(s) => Some(s@),
            None => None,
        }) == report_in(message@),
{
    let pattern = "R?[+-]\\d{1,2}$";
    if !pattern_accepted(pattern) {
        return None;
    }
    let words = split_words(message);
    let ghost all = text::words(message@);
    if words.len() == 0 {
        return None;
    }
    let last = words[words.len() - 1].as_str();
    assert(all.last() == last@);
    if !pattern_occurs(pattern, last) {
        return None;
    }
    let v = chars_of(last);
    if v.len() > 0 && v[0] == 'R' {
        let rest = string_of(&v, 1, v.len());
        assert(rest@ =~= last@.drop_first());
        Some(rest)
    } else {
        Some(String::from_str(last))
    }
}

/// Whether an entry is a message from one station to another.
pub open spec fn is_from_to(e: HistoryEntry, from: Seq<char>, to: Seq<char>) -> bool {
    cleaned_option(e.res.sender_call) == from && cleaned_option(e.res.receiver_call) == to
}

/// What an entry says of the strength of the other station here: the strength
/// of its message, or the report that it was sent.
pub open spec fn heard_in(e: HistoryEntry, his: Seq<char>, me: Seq<char>) -> Seq<char> {
    if is_from_to(e, his, me) && e.res.snr != OWN_SNR {
        numbers::signed_report(e.res.snr as int)
    } else if is_from_to(e, me, his) && report_in(e.res.text@) is Some {
        report_in(e.res.text@)->0
    } else {
        Seq::empty()
    }
}

/// What an entry says of the strength of this station there: the report that
/// came from it.
pub open spec fn reported_in(e: HistoryEntry, his: Seq<char>, me: Seq<char>) -> Seq<char> {
    if is_from_to(e, his, me) && report_in(e.res.text@) is Some {
        report_in(e.res.text@)->0
    } else {
        Seq::empty()
    }
}

/// What the latest entry that says so says of the strength of the other station here.
pub open spec fn heard(h: Seq<HistoryEntry>, his: Seq<char>, me: Seq<char>) -> Seq<char>
    decreases h.len(),
{
    if h.len() == 0 {
        Seq::empty()
    } else if heard_in(h.last(), his, me).len() > 0 {
        heard_in(h.last(), his, me)
    } else {
        heard(h.drop_last(), his, me)
    }
}

/// What the latest entry that says so says of the strength of this station there.
pub open spec fn reported(h: Seq<HistoryEntry>, his: Seq<char>, me: Seq<char>) -> Seq<char>
    decreases h.len(),
{
    if h.len() == 0 {
        Seq::empty()
    } else if reported_in(h.last(), his, me).len() > 0 {
        reported_in(h.last(), his, me)
    } else {
        reported(h.drop_last(), his, me)
    }
}

fn heard_text(e: &HistoryEntry, his: &str, me: &str) -> (r: String)
    ensures
        r@ == heard_in(*e, his@, me@),
{
    let from = clean_option(&e.res.sender_call);
    let to = clean_option(&e.res.receiver_call);
    if same_text(from.as_str(), his) && same_text(to.as_str(), me) && e.res.snr != OWN_SNR {
        return report_text(e.res.snr);
    }
    if same_text(from.as_str(), me) && same_text(to.as_str(), his) {
        if let Some(s) = extract_snr_from_text(e.res.text.as_str()) {
            return s;
        }
    }
    String::new()
}

fn reported_text(e: &HistoryEntry, his: &str, me: &str) -> (r: String)
    ensures
        r@ == reported_in(*e, his@, me@),
{
    let from = clean_option(&e.res.sender_call);
    let to = clean_option(&e.res.receiver_call);
    if same_text(from.as_str(), his) && same_text(to.as_str(), me) {
        if let Some(s) = extract_snr_from_text(e.res.text.as_str()) {
            return s;
        }
    }
    String::new()
}

/// Whether a message ends a contact.
pub open spec fn ends_contact(s: Seq<char>) -> bool {
    text::contains(s, " RR73"@) || text::contains(s, " RRR"@) || text::contains(s, " 73"@)
}

/// The other station of a contact that a message ends, if it does.
pub open spec fn partner(res: Ft8DecodeResult, me: Seq<char>) -> Option<Seq<char>> {
    let sender = cleaned_option(res.sender_call);
    let receiver = cleaned_option(res.receiver_call);
    let his = if sender == me {
        receiver
    } else {
        sender
    };
    if (sender == me || receiver == me) && ends_contact(res.text@) && his != "UNKNOWN"@ && his.len()
        > 0 {
        Some(his)
    } else {
        None
    }
}

fn contact_partner(res: &Ft8DecodeResult, me: &str) -> (r: Option<String>)
    ensures
        (match r {
            Some(s) => Some(s@),
            None => None,
        }) == partner(*res, me@),
{
    let sender = clean_option(&res.sender_call);
    let receiver = clean_option(&res.receiver_call);
    let from_me = same_text(sender.as_str(), me);
    if !from_me && !same_text(receiver.as_str(), me) {
        return None;
    }
    let message = res.text.as_str();
    if !contains_text(message, " RR73") && !contains_text(message, " RRR") && !contains_text(
        message,
        " 73",
    ) {
        return None;
    }
    let his = if from_me {
        receiver
    } else {
        sender
    };
    if same_text(his.as_str(), "UNKNOWN") || his.as_str().unicode_len() == 0 {
        return None;
    }
    Some(his)
}

/// A station on a band.
pub open spec fn band_key(call: Seq<char>, freq_hz: u64) -> Seq<char> {
    call + ":"@ + bands::band_of(freq_hz as int)
}

fn band_key_text(call: &str, freq_hz: u64) -> (r: String)
    ensures
        r@ == band_key(call@, freq_hz),
{
    let mut out = String::from_str(call);
    out.append(":");
    out.append(get_band_name(freq_hz));
    out
}

/// A grid square with its distance, as it is logged.
pub open spec fn shown_grid(known: Option<(Seq<char>, Option<Distance>)>) -> Seq<char> {
    match known {
        None => "未知"@,
        Some((grid, None)) => grid,
        Some((grid, Some(d))) => grid + " ["@ + numbers::decimal(d.km as nat) + "km]"@,
    }
}

/// When and where a contact is logged.
pub struct LogContext<'a> {
    pub now: u64,
    /// The seconds since 1970.
    pub unix_secs: i64,
    pub freq_hz: u64,
    /// The frequency in megahertz, as it is logged.
    pub freq_text: &'a str,
}

/// Whether a manager takes a message that may end a contact: `r` is the record
/// of the contact, if it is to be logged.
pub open spec fn logs(
    before: AutoQsoManager,
    after: AutoQsoManager,
    res: Ft8DecodeResult,
    config: StationConfig,
    ctx: LogContext,
    r: Option<QsoRecord>,
) -> bool {
    match before.to_log(res, config.my_call@, ctx.now) {
        None => r is None && after == before,
        Some(his) => {
            let local = (ctx.unix_secs + 28_800) as i64;
            let record = r->0;
            &&& r is Some
            &&& before.is_log_of(record.log@, his, config, ctx.freq_text@)
            &&& record.log.time@ == outside::time_format(local, "%Y-%m-%dT%H:%M:%S+08:00"@)
            &&& super::location::finds_region(
                before.location_engine,
                after.location_engine,
                his,
                record.log.region@,
            )
            &&& record.adif@ == bands::adif_text(before.contact(his, config, ctx.freq_hz, local))
            &&& after.last_logged_at@ == before.last_logged_at@.insert(his, ctx.now)
            &&& after.successful_calls@ == before.successful_calls@.insert(
                band_key(his, ctx.freq_hz),
            )
            &&& after.successful_grids@ == match before.grid_entry(his) {
                Some((grid, _)) => before.successful_grids@.insert(grid),
                None => before.successful_grids@,
            }
            &&& after == AutoQsoManager {
                last_logged_at: after.last_logged_at,
                successful_calls: after.successful_calls,
                successful_grids: after.successful_grids,
                location_engine: after.location_engine,
                consecutive_failures: 0,
                is_dirty: false,
                last_save_time: ctx.now,
                ..before
            }
        },
    }
}

/// Whether a manager notes a message that was heard or sent. `dist` is how far
/// the grid square in it is, if that is known.
pub open spec fn notes(
    before: AutoQsoManager,
    after: AutoQsoManager,
    entry: HistoryEntry,
    dist: Option<Distance>,
    me: Seq<char>,
) -> bool {
    let res = entry.res;
    &&& after.msg_history@ == pruned(before.msg_history@, entry.at).push(entry)
    &&& after.last_incoming_for_me == if res.snr != OWN_SNR && text::contains(res.text@, me) {
        entry.at
    } else {
        before.last_incoming_for_me
    }
    &&& after.grids() == match learned_grid(res) {
        Some((call, grid)) => before.grids().insert(call, (grid, dist)),
        None => before.grids(),
    }
    &&& learned_grid(res) is None ==> after.call_to_grid == before.call_to_grid
    &&& after.is_dirty == (before.is_dirty || learned_grid(res) is Some)
    &&& after == AutoQsoManager {
        msg_history: after.msg_history,
        last_incoming_for_me: after.last_incoming_for_me,
        call_to_grid: after.call_to_grid,
        is_dirty: after.is_dirty,
        ..before
    }
}

impl AutoQsoManager {
    /// The grid square of a station and how far it is, if it is known.
    pub open spec fn grid_entry(&self, call: Seq<char>) -> Option<(Seq<char>, Option<Distance>)> {
        if self.grids().contains_key(call) {
            Some(self.grids()[call])
        } else {
            None
        }
    }

    /// Whether a contact with a station was logged less than ten minutes ago.
    pub open spec fn logged_lately(&self, call: Seq<char>, now: u64) -> bool {
        self.last_logged_at@.contains_key(call) && since(now, self.last_logged_at@[call]) < 600_000
    }

    /// The station of the contact that a message brings to be logged, if it does.
    pub open spec fn to_log(&self, res: Ft8DecodeResult, me: Seq<char>, now: u64) -> Option<
        Seq<char>,
    > {
        match partner(res, me) {
            Some(his) => if self.logged_lately(his, now) {
                None
            } else {
                Some(his)
            },
            None => None,
        }
    }

    /// The log entry of a contact, but for the time and the region.
    pub open spec fn is_log_of(
        &self,
        log: QsoText,
        his: Seq<char>,
        config: StationConfig,
        freq_text: Seq<char>,
    ) -> bool {
        &&& log.freq == freq_text
        &&& log.call == his
        &&& log.my_snr == heard(self.msg_history@, his, config.my_call@)
        &&& log.his_snr == reported(self.msg_history@, his, config.my_call@)
        &&& log.grid == shown_grid(self.grid_entry(his))
    }

    /// The log record of a contact.
    pub open spec fn contact(
        &self,
        his: Seq<char>,
        config: StationConfig,
        freq_hz: u64,
        local_secs: i64,
    ) -> bands::AdifContact {
        bands::AdifContact {
            call: his,
            grid: match self.grid_entry(his) {
                Some((grid, _)) => grid,
                None => Seq::empty(),
            },
            rst_sent: heard(self.msg_history@, his, config.my_call@),
            rst_rcvd: reported(self.msg_history@, his, config.my_call@),
            date: outside::time_format(local_secs, "%Y%m%d"@),
            time: outside::time_format(local_secs, "%H%M%S"@),
            freq_hz: freq_hz as nat,
            my_call: config.my_call@,
        }
    }

    fn reports(&self, his: &str, me: &str) -> (r: (String, String))
        ensures
            r.0@ == heard(self.msg_history@, his@, me@),
            r.1@ == reported(self.msg_history@, his@, me@),
    {
        let mut mine = String::new();
        let mut theirs = String::new();
        let mut i: usize = self.msg_history.len();
        let ghost all = self.msg_history@;
        assert(all.take(i as int) =~= all);
        while i > 0
            invariant
                all == self.msg_history@,
                i <= all.len(),
                mine@.len() > 0 ==> mine@ == heard(all, his@, me@),
                mine@.len() == 0 ==> heard(all.take(i as int), his@, me@) == heard(all, his@, me@),
                theirs@.len() > 0 ==> theirs@ == reported(all, his@, me@),
                theirs@.len() == 0 ==> reported(all.take(i as int), his@, me@) == reported(
                    all,
                    his@,
                    me@,
                ),
            decreases i,
        {
            i -= 1;
            assert(all.take(i + 1).drop_last() =~= all.take(i as int));
            assert(all.take(i + 1).last() == all[i as int]);
            if mine.as_str().unicode_len() == 0 {
                mine = heard_text(&self.msg_history[i], his, me);
            }
            if theirs.as_str().unicode_len() == 0 {
                theirs = reported_text(&self.msg_history[i], his, me);
            }
        }
        proof {
            if mine@.len() == 0 {
                assert(mine@ =~= heard(all.take(0), his@, me@));
            }
            if theirs@.len() == 0 {
                assert(theirs@ =~= reported(all.take(0), his@, me@));
            }
        }
        (mine, theirs)
    }

    /// Takes a message that may end a contact. If it does, and the contact
    /// was not logged lately, the result is to be sent to the log database
    /// and written to the log file, and what is stored is to be stored anew.
    pub fn check_and_log_qso(
        &mut self,
        res: &Ft8DecodeResult,
        config: &StationConfig,
        ctx: &LogContext,
    ) -> (r: Option<QsoRecord>)
        requires
            old(self).wf(),
            0 <= ctx.unix_secs,
            ctx.unix_secs + 28_800 < outside::YEAR_10000,
        ensures
            final(self).wf(),
            logs(*old(self), *final(self), *res, *config, *ctx, r),
    {
        let me = config.my_call.as_str();
        let his = match contact_partner(res, me) {
            Some(his) => his,
            None => {
                return None;
            },
        };
        if let Some(last) = self.last_logged_at.get(his.as_str()) {
            if elapsed(ctx.now, *last) < 600_000 {
                return None;
            }
        }
        self.last_logged_at.insert(String::from_str(his.as_str()), ctx.now);
        self.successful_calls.insert(band_key_text(his.as_str(), ctx.freq_hz));
        self.consecutive_failures = 0;
        let (mine, theirs) = self.reports(his.as_str(), me);
        let mut shown = String::from_str("未知");
        let mut grid = String::new();
        if let Some(e) = self.call_to_grid.get(his.as_str()) {
            assert(self.grids().contains_key(his@));
            grid = String::from_str(e.grid.as_str());
            shown = String::from_str(e.grid.as_str());
            if let Some(d) = e.dist {
                shown.append(" [");
                shown.append(decimal_text(d.km as u64).as_str());
                shown.append("km]");
            }
            self.successful_grids.insert(String::from_str(grid.as_str()));
        } else {
            assert(!self.grids().contains_key(his@));
        }
        assert(self.grids() == old(self).grids());
        assert(shown@ == shown_grid(old(self).grid_entry(his@)));
        assert(grid@ =~= old(self).contact(his@, *config, ctx.freq_hz, 0).grid);
        let local: i64 = ctx.unix_secs + 28_800;
        let time = format_time(local, "%Y-%m-%dT%H:%M:%S+08:00");
        let date = format_time(local, "%Y%m%d");
        let clock = format_time(local, "%H%M%S");
        let adif = adif_record(
            his.as_str(),
            grid.as_str(),
            mine.as_str(),
            theirs.as_str(),
            date.as_str(),
            clock.as_str(),
            ctx.freq_hz,
            me,
        );
        let region = self.location_engine.get_region(his.as_str());
        self.is_dirty = false;
        self.last_save_time = ctx.now;
        let log = QsoLog {
            time,
            freq: String::from_str(ctx.freq_text),
            call: his,
            my_snr: mine,
            his_snr: theirs,
            grid: shown,
            region,
        };
        Some(QsoRecord { log, adif })
    }

    /// Decides whether what is stored is to be stored anew: at once if that
    /// is forced, else where something has changed and five minutes have gone
    /// by. It then counts as stored.
    pub fn maybe_save(&mut self, force: bool, now: u64) -> (r: bool)
        ensures
            r == (force || (old(self).is_dirty && since(now, old(self).last_save_time) >= 300_000)),
            *final(self) == (AutoQsoManager {
                last_save_time: if r {
                    now
                } else {
                    old(self).last_save_time
                },
                is_dirty: if r {
                    false
                } else {
                    old(self).is_dirty
                },
                ..*old(self)
            }),
    {
        if !self.is_dirty && !force {
            return false;
        }
        if !force && elapsed(now, self.last_save_time) < 300_000 {
            return false;
        }
        self.last_save_time = now;
        self.is_dirty = false;
        true
    }

    /// Notes that a station did not answer.
    pub fn report_failure(&mut self)
        requires
            old(self).consecutive_failures < u32::MAX,
        ensures
            *final(self) == (AutoQsoManager {
                consecutive_failures: (old(self).consecutive_failures + 1) as u32,
                ..*old(self)
            }),
    {
        self.consecutive_failures = self.consecutive_failures + 1;
    }

    /// Notes that a station answered.
    pub fn report_any_reply(&mut self)
        ensures
            *final(self) == (AutoQsoManager { consecutive_failures: 0, ..*old(self) }),
    {
        self.consecutive_failures = 0;
    }

    /// The sets and maps list what they hold.
    pub open spec fn wf(&self) -> bool {
        &&& self.successful_calls.wf()
        &&& self.attempted_recent.wf()
        &&& self.successful_grids.wf()
        &&& self.last_logged_at.wf()
        &&& self.call_to_grid.wf()
    }

    /// The grid square of each station and how far it is.
    pub open spec fn grids(&self) -> Map<Seq<char>, (Seq<char>, Option<Distance>)> {
        grids_of(self.call_to_grid@)
    }

    /// How far a station is, if that is known.
    pub open spec fn distance(&self, call: Seq<char>) -> Option<Distance> {
        if self.grids().contains_key(call) {
            self.grids()[call].1
        } else {
            None
        }
    }

    /// Whether a station is known to be more than 4000 km away.
    pub open spec fn is_far(&self, call: Seq<char>) -> bool {
        match self.distance(call) {
            Some(d) => d.far,
            None => false,
        }
    }

    /// Says how far a station is, if that is known.
    pub fn get_distance(&self, call: &str) -> (r: Option<Distance>)
        ensures
            r == self.distance(call@),
    {
        match self.call_to_grid.get(call) {
            Some(e) => {
                assert(self.grids().contains_key(call@));
                e.dist
            },
            None => {
                assert(!self.grids().contains_key(call@));
                None
            },
        }
    }

    fn known_far(&self, call: &str) -> (r: bool)
        ensures
            r == self.is_far(call@),
    {
        match self.get_distance(call) {
            Some(d) => d.far,
            None => false,
        }
    }

    /// Notes a message that was heard or sent. `dist` is how far the grid
    /// square in it is, if that is known.
    pub fn push_decode(
        &mut self,
        res: Ft8DecodeResult,
        is_even: bool,
        now: u64,
        dist: Option<Distance>,
        config: &StationConfig,
    )
        requires
            old(self).wf(),
        ensures
            final(self).wf(),
            notes(
                *old(self),
                *final(self),
                (HistoryEntry { at: now, res, is_even }),
                dist,
                config.my_call@,
            ),
    {
        if res.snr != OWN_SNR && contains_text(res.text.as_str(), config.my_call.as_str()) {
            self.last_incoming_for_me = now;
        }
        if let Some(call_raw) = &res.sender_call {
            let call = clean_call(call_raw.as_str());
            if let Some(grid) = &res.grid {
                if res.snr != OWN_SNR && !same_text(call.as_str(), "Unknown") && !same_text(
                    grid.as_str(),
                    "RR73",
                ) && !same_text(grid.as_str(), "RRR") && !same_text(grid.as_str(), "73") {
                    let ghost known = self.grids();
                    let entry = GridEntry { grid: String::from_str(grid.as_str()), dist };
                    self.call_to_grid.insert(call, entry);
                    self.is_dirty = true;
                    assert(self.grids() =~= known.insert(call@, (grid@, dist)));
                }
            }
        }
        self.drop_stale(now);
        self.msg_history.push(HistoryEntry { at: now, res, is_even });
    }

    fn drop_stale(&mut self, now: u64)
        ensures
            final(self).msg_history@ == pruned(old(self).msg_history@, now),
            *final(self) == (AutoQsoManager { msg_history: final(self).msg_history, ..*old(self) }),
    {
        let ghost all = self.msg_history@;
        let mut k: usize = 0;
        assert(all.skip(0) =~= all);
        while k < self.msg_history.len() && elapsed(now, self.msg_history[k].at) > 1_800_000
            invariant
                *self == *old(self),
                all == self.msg_history@,
                k <= all.len(),
                pruned(all.skip(k as int), now) == pruned(all, now),
            decreases all.len() - k,
        {
            assert(all.skip(k as int).drop_first() =~= all.skip(k + 1));
            k += 1;
        }
        if k > 0 {
            let rest = self.msg_history.split_off(k);
            assert(rest@ =~= all.skip(k as int));
            self.msg_history = rest;
        }
    }
}

/// Whether an entry is the station's own message with a text.
pub open spec fn is_own_message(e: Ft8DecodeResult, message: Seq<char>, freq: i32) -> bool {
    let words = text::words(message);
    &&& e.freq == freq
    &&& e.snr == OWN_SNR
    &&& e.text@ == message
    &&& e.decode_time_ms == 0
    &&& packjt77::text_option(e.sender_call) == Some(cleaned(words[1]))
    &&& packjt77::text_option(e.receiver_call) == Some(cleaned(words[0]))
    &&& packjt77::text_option(e.grid) == if words.len() > 2 {
        Some(words[2])
    } else {
        None
    }
    &&& e.region is None
}

fn own_message(message: &str, freq: i32) -> (r: Option<Ft8DecodeResult>)
    ensures
        r is None <==> text::words(message@).len() < 2,
        r matches Some(e) ==> is_own_message(e, message@, freq),
{
    let parts = split_words(message);
    let ghost words = text::words(message@);
    if parts.len() < 2 {
        return None;
    }
    assert(words[0] == parts@[0]@ && words[1] == parts@[1]@);
    let grid = if parts.len() > 2 {
        assert(words[2] == parts@[2]@);
        Some(String::from_str(parts[2].as_str()))
    } else {
        None
    };
    Some(
        Ft8DecodeResult {
            freq,
            snr: OWN_SNR,
            text: String::from_str(message),
            decode_time_ms: 0,
            sender_call: Some(clean_call(parts[1].as_str())),
            receiver_call: Some(clean_call(parts[0].as_str())),
            grid,
            region: None,
        },
    )
}

/// A copy of an entry.
pub fn copy_result(e: &Ft8DecodeResult) -> (r: Ft8DecodeResult)
    ensures
        same_result(r, *e),
{
    Ft8DecodeResult {
        freq: e.freq,
        snr: e.snr,
        text: String::from_str(e.text.as_str()),
        decode_time_ms: e.decode_time_ms,
        sender_call: crate::ft8_codec::messages::copy_of(&e.sender_call),
        receiver_call: crate::ft8_codec::messages::copy_of(&e.receiver_call),
        grid: crate::ft8_codec::messages::copy_of(&e.grid),
        region: crate::ft8_codec::messages::copy_of(&e.region),
    }
}

/// Whether two entries say the same.
pub open spec fn same_result(a: Ft8DecodeResult, b: Ft8DecodeResult) -> bool {
    &&& a.freq == b.freq
    &&& a.snr == b.snr
    &&& a.text@ == b.text@
    &&& a.decode_time_ms == b.decode_time_ms
    &&& packjt77::text_option(a.sender_call) == packjt77::text_option(b.sender_call)
    &&& packjt77::text_option(a.receiver_call) == packjt77::text_option(b.receiver_call)
    &&& packjt77::text_option(a.grid) == packjt77::text_option(b.grid)
    &&& packjt77::text_option(a.region) == packjt77::text_option(b.region)
}

impl AutoQsoManager {
    /// Notes a message that the station has sent, and logs the contact that
    /// it ends, if it ends one.
    pub fn push_tx_decode(
        &mut self,
        message: &str,
        freq: i32,
        is_even: bool,
        config: &StationConfig,
        ctx: &LogContext,
    ) -> (r: Option<QsoRecord>)
        requires
            old(self).wf(),
            0 <= ctx.unix_secs,
            ctx.unix_secs + 28_800 < outside::YEAR_10000,
        ensures
            final(self).wf(),
            text::words(message@).len() < 2 ==> r is None && *final(self) == *old(self),
            text::words(message@).len() >= 2 ==> exists|mid: AutoQsoManager, e: HistoryEntry|
                {
                    &&& is_own_message(e.res, message@, freq)
                    &&& e.at == ctx.now
                    &&& e.is_even == is_even
                    &&& #[trigger] notes(*old(self), mid, e, None, config.my_call@)
                    &&& logs(mid, *final(self), e.res, *config, *ctx, r)
                },
    {
        let res = match own_message(message, freq) {
            Some(res) => res,
            None => {
                return None;
            },
        };
        let copy = copy_result(&res);
        let ghost entry = HistoryEntry { at: ctx.now, res, is_even };
        self.push_decode(res, is_even, ctx.now, None, config);
        let ghost mid = *self;
        assert(partner(copy, config.my_call@) == partner(res, config.my_call@));
        let r = self.check_and_log_qso(&copy, config, ctx);
        assert(notes(*old(self), mid, entry, None, config.my_call@));
        r
    }
}

/// A contact that was logged is not logged again for ten minutes, whatever
/// is heard.
pub proof fn law_contact_is_logged_once(
    m: AutoQsoManager,
    his: Seq<char>,
    logged: u64,
    res: Ft8DecodeResult,
    me: Seq<char>,
    now: u64,
)
    requires
        m.last_logged_at@.contains_key(his),
        m.last_logged_at@[his] == logged,
        since(now, logged) < 600_000,
        partner(res, me) == Some(his),
    ensures
        m.to_log(res, me, now) is None,
{
}

/// Whether a station is a special one of the series `B0CRA` to `B9CRA`.
pub open spec fn is_cra(call: Seq<char>) -> bool {
    let c = text::uppercase(call);
    &&& c.len() == 5
    &&& c[0] == 'B'
    &&& patterns::is_digit(c[1])
    &&& c[2] == 'C'
    &&& c[3] == 'R'
    &&& c[4] == 'A'
}

/// Tells whether a station is a special one of the series `B0CRA` to `B9CRA`.
pub fn is_cra_special(call: &str) -> (r: bool)
    ensures
        r == is_cra(call@),
{
    let v = chars_of(call.to_uppercase().as_str());
    v.len() == 5 && v[0] == 'B' && '0' <= v[1] && v[1] <= '9' && v[2] == 'C' && v[3] == 'R' && v[4]
        == 'A'
}

/// Whether a call sign is of the region: the mainland of China, Japan, Korea
/// or Indonesia.
pub open spec fn is_local(call: Seq<char>) -> bool {
    let c = text::uppercase(call);
    let (a, b) = (c[0], c[1]);
    if c.len() < 2 {
        false
    } else if a == 'B' {
        !(b == 'V' || b == 'U' || b == 'W' || b == 'X')
    } else {
        ||| a == 'J' && 'A' <= b <= 'S'
        ||| (a == '7' || a == '8') && 'J' <= b <= 'N'
        ||| a == 'H' && b == 'L'
        ||| a == 'D' && (b == 'S' || b == 'T' || '7' <= b <= '9')
        ||| a == '6' && 'K' <= b <= 'N'
        ||| a == 'Y' && 'B' <= b <= 'H'
    }
}

/// Tells whether a call sign is of the region.
pub fn is_local_area(call: &str) -> (r: bool)
    ensures
        r == is_local(call@),
{
    let v = chars_of(call.to_uppercase().as_str());
    if v.len() < 2 {
        return false;
    }
    let (a, b) = (v[0], v[1]);
    if a == 'B' {
        return !(b == 'V' || b == 'U' || b == 'W' || b == 'X');
    }
    (a == 'J' && 'A' <= b && b <= 'S') || ((a == '7' || a == '8') && 'J' <= b && b <= 'N') || (a
        == 'H' && b == 'L') || (a == 'D' && (b == 'S' || b == 'T' || ('7' <= b && b <= '9'))) || (a
        == '6' && 'K' <= b && b <= 'N') || (a == 'Y' && 'B' <= b && b <= 'H')
}

/// What a hunt for stations goes by.
pub struct HuntContext {
    pub now: u64,
    pub freq_hz: u64,
    /// Whether the station sends in even slots at present.
    pub tx_even: bool,
    /// A quiet frequency in the even slots.
    pub quiet_even: i16,
    /// A quiet frequency in the odd slots.
    pub quiet_odd: i16,
}

impl HuntContext {
    /// A quiet frequency in the even slots or the odd ones.
    pub open spec fn quiet(self, even: bool) -> i16 {
        if even {
            self.quiet_even
        } else {
            self.quiet_odd
        }
    }
}

/// Whether a task is a first call to the station of an entry: in the other
/// slots than those it was heard in, at a quiet frequency of them.
pub open spec fn is_call_to(
    task: Task,
    e: HistoryEntry,
    config: StationConfig,
    ctx: HuntContext,
) -> bool {
    &&& task.msg@ == qso_utils::message3(e.res.sender_call->0@, config.my_call@, config.my_grid@)
    &&& task.freq == ctx.quiet(!e.is_even)
    &&& task.target == types::clamped_i16(e.res.freq as int)
    &&& task.even == !e.is_even
}

/// Whether a task is a general call in a minute of the hour.
pub open spec fn is_general_call(
    task: Task,
    minute: u32,
    config: StationConfig,
    ctx: HuntContext,
) -> bool {
    &&& task.msg@ == qso_utils::message3("CQ"@, config.my_call@, config.my_grid@)
    &&& task.freq == ctx.quiet(minute < 30)
    &&& task.target == task.freq
    &&& task.even == (minute < 30)
}

impl AutoQsoManager {
    /// How long a station is left alone after it was called, in milliseconds.
    pub open spec fn patience(call: Seq<char>) -> int {
        if is_local(call) {
            1_200_000
        } else {
            600_000
        }
    }

    /// Whether an entry is of a station to be called: one that was just heard
    /// and is free, or of interest in itself, and that was neither worked on
    /// this band nor called lately.
    pub open spec fn is_prey(&self, e: HistoryEntry, me: Seq<char>, ctx: HuntContext) -> bool {
        match e.res.sender_call {
            None => false,
            Some(raw) => {
                let call = cleaned(raw@);
                let t = e.res.text@;
                &&& since(ctx.now, e.at) < 20_000 || (self.is_far(call) && since(ctx.now, e.at)
                    < 300_000)
                &&& !raw@.contains('<')
                &&& text::starts_with(t, "CQ "@) || text::contains(t, " RRR"@) || text::contains(
                    t,
                    " RR73"@,
                ) || text::ends_with(t, " 73"@) || (!is_local(call) && self.grids().contains_key(
                    call,
                )) || self.is_far(call)
                &&& call != me
                &&& !self.successful_calls@.contains(band_key(call, ctx.freq_hz))
                &&& !self.successful_calls@.contains(call)
                &&& self.attempted_recent@.contains_key(call) ==> since(
                    ctx.now,
                    self.attempted_recent@[call],
                ) >= AutoQsoManager::patience(call)
            },
        }
    }

    /// How much a station is preferred: special stations, then far ones, then
    /// foreign ones, then those that need no change of slots, then those that
    /// call, then new grid squares, then strong ones.
    pub open spec fn worth(&self, e: HistoryEntry, ctx: HuntContext) -> int {
        let call = cleaned_option(e.res.sender_call);
        let new_grid = match e.res.grid {
            Some(g) => !self.successful_grids@.contains(g@),
            None => false,
        };
        let flags = (if is_cra(call) {
            32int
        } else {
            0
        }) + (if self.is_far(call) {
            16int
        } else {
            0
        }) + (if !is_local(call) {
            8int
        } else {
            0
        }) + (if !e.is_even == ctx.tx_even {
            4int
        } else {
            0
        }) + (if text::starts_with(e.res.text@, "CQ "@) {
            2int
        } else {
            0
        }) + (if new_grid {
            1int
        } else {
            0
        });
        0x1_0000_0000 * flags + e.res.snr
    }

    /// Whether entry `i` is the first of those to be called that is preferred most.
    pub open spec fn is_best_prey(&self, i: int, me: Seq<char>, ctx: HuntContext) -> bool {
        &&& 0 <= i < self.msg_history@.len()
        &&& self.is_prey(self.msg_history@[i], me, ctx)
        &&& forall|j: int|
            0 <= j < self.msg_history@.len() && self.is_prey(
                #[trigger] self.msg_history@[j],
                me,
                ctx,
            ) ==> {
                &&& self.worth(self.msg_history@[j], ctx) <= self.worth(self.msg_history@[i], ctx)
                &&& j < i ==> self.worth(self.msg_history@[j], ctx) < self.worth(
                    self.msg_history@[i],
                    ctx,
                )
            }
    }

    /// When the noise of the even slots or the odd ones was last known.
    pub open spec fn noise_time(&self, even: bool) -> u64 {
        if even {
            self.last_update_even
        } else {
            self.last_update_odd
        }
    }

    /// Whether a station is to be called: while the station is idle and was
    /// not called in the last half minute, there is one, and the noise of the
    /// slots that it would be called in is not older than two minutes.
    pub open spec fn chase_due(&self, is_idle: bool, me: Seq<char>, ctx: HuntContext) -> bool {
        &&& is_idle
        &&& since(ctx.now, self.last_incoming_for_me) >= 30_000
        &&& exists|i: int|
            self.is_best_prey(i, me, ctx) && since(
                ctx.now,
                self.noise_time(!(#[trigger] self.msg_history@[i]).is_even),
            ) <= 120_000
    }

    fn prey(&self, e: &HistoryEntry, me: &str, ctx: &HuntContext) -> (r: bool)
        ensures
            r == self.is_prey(*e, me@, *ctx),
    {
        let raw = match &e.res.sender_call {
            Some(raw) => raw.as_str(),
            None => {
                return false;
            },
        };
        let call = clean_call(raw);
        let far = self.known_far(call.as_str());
        let age = elapsed(ctx.now, e.at);
        if !(age < 20_000 || (far && age < 300_000)) {
            return false;
        }
        if contains_char(raw, '<') {
            return false;
        }
        let t = e.res.text.as_str();
        let local = is_local_area(call.as_str());
        let known = self.call_to_grid.contains_key(call.as_str());
        assert(known == self.grids().contains_key(call@));
        if !(has_prefix(t, "CQ ") || contains_text(t, " RRR") || contains_text(t, " RR73")
            || has_suffix(t, " 73") || (!local && known) || far) {
            return false;
        }
        if same_text(call.as_str(), me) {
            return false;
        }
        let key = band_key_text(call.as_str(), ctx.freq_hz);
        if self.successful_calls.contains(key.as_str()) || self.successful_calls.contains(
            call.as_str(),
        ) {
            return false;
        }
        let patience: u64 = if local {
            1_200_000
        } else {
            600_000
        };
        if let Some(t) = self.attempted_recent.get(call.as_str()) {
            if elapsed(ctx.now, *t) < patience {
                return false;
            }
        }
        true
    }

    fn worth_of(&self, e: &HistoryEntry, ctx: &HuntContext) -> (r: i64)
        ensures
            r == self.worth(*e, *ctx),
    {
        let call = clean_option(&e.res.sender_call);
        let mut flags: i64 = 0;
        if is_cra_special(call.as_str()) {
            flags = flags + 32;
        }
        if self.known_far(call.as_str()) {
            flags = flags + 16;
        }
        if !is_local_area(call.as_str()) {
            flags = flags + 8;
        }
        if !e.is_even == ctx.tx_even {
            flags = flags + 4;
        }
        if has_prefix(e.res.text.as_str(), "CQ ") {
            flags = flags + 2;
        }
        if let Some(g) = &e.res.grid {
            if !self.successful_grids.contains(g.as_str()) {
                flags = flags + 1;
            }
        }
        0x1_0000_0000 * flags + e.res.snr as i64
    }

    fn best_prey(&self, me: &str, ctx: &HuntContext) -> (r: Option<usize>)
        ensures
            match r {
                Some(i) => self.is_best_prey(i as int, me@, *ctx),
                None => forall|j: int|
                    0 <= j < self.msg_history@.len() ==> !self.is_prey(
                        #[trigger] self.msg_history@[j],
                        me@,
                        *ctx,
                    ),
            },
    {
        let mut best: Option<usize> = None;
        let mut best_worth: i64 = 0;
        let mut i: usize = 0;
        while i < self.msg_history.len()
            invariant
                i <= self.msg_history@.len(),
                match best {
                    Some(b) => {
                        &&& b < i
                        &&& self.is_prey(self.msg_history@[b as int], me@, *ctx)
                        &&& best_worth == self.worth(self.msg_history@[b as int], *ctx)
                        &&& forall|j: int|
                            0 <= j < i && self.is_prey(
                                #[trigger] self.msg_history@[j],
                                me@,
                                *ctx,
                            ) ==> {
                                &&& self.worth(self.msg_history@[j], *ctx) <= best_worth
                                &&& j < b ==> self.worth(self.msg_history@[j], *ctx) < best_worth
                            }
                    },
                    None => forall|j: int|
                        0 <= j < i ==> !self.is_prey(
                            #[trigger] self.msg_history@[j],
                            me@,
                            *ctx,
                        ),
                },
            decreases self.msg_history@.len() - i,
        {
            if self.prey(&self.msg_history[i], me, ctx) {
                let w = self.worth_of(&self.msg_history[i], ctx);
                match best {
                    Some(_) => {
                        if w > best_worth {
                            best = Some(i);
                            best_worth = w;
                        }
                    },
                    None => {
                        best = Some(i);
                        best_worth = w;
                    },
                }
            }
            i += 1;
        }
        best
    }

    /// Looks for a station to call: while the station is idle and was not
    /// called in the last half minute. There is none if the noise of the
    /// slots that it would be called in is older than two minutes.
    pub fn check_auto_chase(&mut self, is_idle: bool, config: &StationConfig, ctx: &HuntContext) -> (r:
        Option<Task>)
        requires
            old(self).wf(),
        ensures
            final(self).wf(),
            r is Some <==> old(self).chase_due(is_idle, config.my_call@, *ctx),
            r is None ==> *final(self) == *old(self),
            r matches Some(task) ==> exists|i: int|
                old(self).is_best_prey(i, config.my_call@, *ctx) && {
                    let e = #[trigger] old(self).msg_history@[i];
                    let call = e.res.sender_call->0@;
                    &&& is_call_to(task, e, *config, *ctx)
                    &&& final(self).attempted_recent@ == old(self).attempted_recent@.insert(
                        call,
                        ctx.now,
                    )
                },
            *final(self) == (AutoQsoManager {
                attempted_recent: final(self).attempted_recent,
                ..*old(self)
            }),
    {
        if !is_idle || elapsed(ctx.now, self.last_incoming_for_me) < 30_000 {
            return None;
        }
        let i = match self.best_prey(config.my_call.as_str(), ctx) {
            Some(i) => i,
            None => {
                return None;
            },
        };
        proof {
            assert forall|j: int| self.is_best_prey(j, config.my_call@, *ctx) implies j == i by {
                assert(self.is_prey(self.msg_history@[j], config.my_call@, *ctx));
                assert(self.is_prey(self.msg_history@[i as int], config.my_call@, *ctx));
            }
        }
        let tx_even = !self.msg_history[i].is_even;
        let updated: u64 = if tx_even {
            self.last_update_even
        } else {
            self.last_update_odd
        };
        if elapsed(ctx.now, updated) > 120_000 {
            return None;
        }
        let target = clamp_i16(self.msg_history[i].res.freq);
        let call = match &self.msg_history[i].res.sender_call {
            Some(c) => String::from_str(c.as_str()),
            None => String::new(),
        };
        let msg = qso_utils::join3(
            call.as_str(),
            config.my_call.as_str(),
            config.my_grid.as_str(),
        );
        let ghost e = self.msg_history@[i as int];
        self.attempted_recent.insert(call, ctx.now);
        Some(
            Task {
                msg,
                freq: if tx_even {
                    ctx.quiet_even
                } else {
                    ctx.quiet_odd
                },
                target,
                even: tx_even,
            },
        )
    }
}

/// The first bin of the search for a quiet frequency.
pub const QUIET_FIRST: usize = 68;

/// The bin before which the search for a quiet frequency ends.
pub const QUIET_END: usize = 1006;

/// The bins from one place of the search to the next.
pub const QUIET_STEP: usize = 7;

/// The bins that are looked at in each place.
pub const QUIET_WIDTH: usize = 17;

/// The places of the search in a spectrum of a length.
pub open spec fn quiet_count(len: int) -> int {
    if len < QUIET_FIRST + QUIET_WIDTH {
        0
    } else if len >= 999 + QUIET_WIDTH {
        134
    } else {
        (len - QUIET_WIDTH - QUIET_FIRST) / QUIET_STEP as int + 1
    }
}

/// The bin of place `k`.
pub open spec fn quiet_bin(k: int) -> int {
    QUIET_FIRST + QUIET_STEP * k
}

/// The frequency of a bin in whole hertz.
pub open spec fn bin_hz(b: int) -> int {
    293 * b / 100
}

/// The bins at which the search looks in a spectrum of a length.
pub fn quiet_bins(len: usize) -> (r: Vec<usize>)
    ensures
        r@.len() == quiet_count(len as int),
        forall|k: int| 0 <= k < r@.len() ==> #[trigger] r@[k] == quiet_bin(k),
        forall|k: int| 0 <= k < r@.len() ==> #[trigger] r@[k] + QUIET_WIDTH <= len,
{
    let mut out: Vec<usize> = Vec::new();
    let mut b: usize = QUIET_FIRST;
    while b < QUIET_END && b + QUIET_WIDTH <= len
        invariant
            b == quiet_bin(out@.len() as int),
            b <= 1006,
            out@.len() <= quiet_count(len as int),
            forall|k: int| 0 <= k < out@.len() ==> #[trigger] out@[k] == quiet_bin(k),
            forall|k: int| 0 <= k < out@.len() ==> #[trigger] out@[k] + QUIET_WIDTH <= len,
        decreases 1006 - b,
    {
        out.push(b);
        b += QUIET_STEP;
    }
    out
}

/// The frequency of a bin in whole hertz.
pub fn bin_freq(b: usize) -> (r: i16)
    requires
        b <= QUIET_END,
    ensures
        r == bin_hz(b as int),
{
    (293 * b / 100) as i16
}

/// Tells whether a frequency is one that radios pass well; outside of these
/// the noise counts 1.6 times.
pub fn is_preferred(freq: i16) -> (r: bool)
    ensures
        r == (500 <= freq <= 2700),
{
    freq >= 500 && freq <= 2700
}

/// Picks a quiet frequency: of the places of the search the first with the
/// least noise. `keys` are in the order of the noise in each place; a place
/// without one is not picked.
pub fn find_quiet_freq(keys: &Vec<Option<u32>>) -> (r: i16)
    requires
        keys@.len() <= 134,
    ensures
        (forall|i: int| 0 <= i < keys@.len() ==> #[trigger] keys@[i] is None) ==> r == 1000,
        forall|i: int|
            #![trigger keys@[i]]
            crate::ft8_codec::osd::is_first_least(keys@, i) ==> r == bin_hz(quiet_bin(i)),
{
    match crate::ft8_codec::osd::pick_nearest(keys) {
        Some(i) => {
            proof {
                assert forall|j: int|
                    crate::ft8_codec::osd::is_first_least(keys@, j) implies j == i by {
                    assert(keys@[j] is Some && keys@[i as int] is Some);
                }
            }
            assert(keys@[i as int] is Some);
            bin_freq(QUIET_FIRST + QUIET_STEP * i)
        },
        None => 1000,
    }
}

impl NoiseGate {
    /// Whether a spectrum is the first of its second.
    pub open spec fn is_new(self, sec: u32) -> bool {
        sec != self.last_sec
    }

    /// Whether the slot counts as one in which the station was sending.
    pub open spec fn dirty_at(self, sec: u32, is_txing: bool) -> bool {
        is_txing || (self.dirty && sec % 15 != 0)
    }

    /// What is done with a spectrum of a length.
    pub open spec fn step_of(self, sec: u32, len: usize, is_txing: bool) -> NoiseStep {
        let sw = sec % 15;
        let clean = self.is_new(sec) && !self.dirty_at(sec, is_txing);
        NoiseStep {
            reset: self.is_new(sec) && sw == 0,
            accumulate: clean && 1 <= sw <= 10 && self.acc_len == len,
            publish: if clean && sw == 11 && self.count > 0 {
                Some((self.count, sec % 30 < 15))
            } else {
                None
            },
        }
    }

    /// What is kept once a spectrum has come in.
    pub open spec fn after(self, sec: u32, len: usize, is_txing: bool) -> NoiseGate {
        if !self.is_new(sec) {
            self
        } else {
            NoiseGate {
                count: if sec % 15 == 0 {
                    0
                } else if self.step_of(sec, len, is_txing).accumulate {
                    (self.count + 1) as u32
                } else {
                    self.count
                },
                dirty: self.dirty_at(sec, is_txing),
                last_sec: sec,
                acc_len: if sec % 15 == 0 {
                    len
                } else {
                    self.acc_len
                },
            }
        }
    }
}

impl AutoQsoManager {
    /// Takes note of a spectrum of a length in a second of the minute, and
    /// says what is done with it. Of each slot the spectra of ten seconds are
    /// added up, unless the station is sending in it.
    pub fn push_fft_noise(&mut self, sec: u32, len: usize, is_txing: bool, now: u64) -> (r: NoiseStep)
        requires
            old(self).noise.count < u32::MAX,
        ensures
            r == old(self).noise.step_of(sec, len, is_txing),
            *final(self) == (AutoQsoManager {
                noise: old(self).noise.after(sec, len, is_txing),
                last_update_even: if r.publish is Some && (r.publish->0).1 {
                    now
                } else {
                    old(self).last_update_even
                },
                last_update_odd: if r.publish is Some && !(r.publish->0).1 {
                    now
                } else {
                    old(self).last_update_odd
                },
                ..*old(self)
            }),
    {
        let mut step = NoiseStep { reset: false, accumulate: false, publish: None };
        if sec == self.noise.last_sec {
            return step;
        }
        let sw: u32 = sec % 15;
        let even = sec % 30 < 15;
        let mut gate = self.noise;
        if sw == 0 {
            step.reset = true;
            gate.acc_len = len;
            gate.count = 0;
            gate.dirty = false;
        }
        if is_txing {
            gate.dirty = true;
        }
        if sw >= 1 && sw <= 10 && !gate.dirty && gate.acc_len == len {
            step.accumulate = true;
            gate.count = gate.count + 1;
        }
        if sw == 11 && gate.count > 0 && !gate.dirty {
            step.publish = Some((gate.count, even));
            if even {
                self.last_update_even = now;
            } else {
                self.last_update_odd = now;
            }
        }
        gate.last_sec = sec;
        self.noise = gate;
        step
    }

    /// Whether a general call is due in a minute of the hour: while the
    /// station is idle, and either two stations in a row did not answer or
    /// nobody called it for 45 seconds and its last general call is three
    /// minutes past; and the noise of the slots is not older than two minutes.
    pub open spec fn cq_due(&self, is_idle: bool, now: u64, minute: u32) -> bool {
        &&& is_idle
        &&& self.consecutive_failures >= 2 || (since(now, self.last_incoming_for_me) >= 45_000
            && since(now, self.last_cq_time) >= 180_000)
        &&& since(now, self.noise_time(minute < 30)) <= 120_000
    }

    /// Decides whether to call in general: in even slots in the first half of
    /// the hour, in odd slots in the second.
    pub fn check_auto_cq(
        &mut self,
        is_idle: bool,
        minute: u32,
        config: &StationConfig,
        ctx: &HuntContext,
    ) -> (r: Option<Task>)
        ensures
            r is Some <==> old(self).cq_due(is_idle, ctx.now, minute),
            r is None ==> *final(self) == *old(self),
            r matches Some(task) ==> {
                &&& is_general_call(task, minute, *config, *ctx)
                &&& *final(self) == (AutoQsoManager {
                    last_cq_time: ctx.now,
                    consecutive_failures: 0,
                    ..*old(self)
                })
            },
    {
        if !is_idle {
            return None;
        }
        let driven = self.consecutive_failures >= 2;
        if !driven && elapsed(ctx.now, self.last_incoming_for_me) < 45_000 {
            return None;
        }
        if !driven && elapsed(ctx.now, self.last_cq_time) < 180_000 {
            return None;
        }
        let even = minute < 30;
        let updated: u64 = if even {
            self.last_update_even
        } else {
            self.last_update_odd
        };
        if elapsed(ctx.now, updated) > 120_000 {
            return None;
        }
        self.last_cq_time = ctx.now;
        self.consecutive_failures = 0;
        let freq: i16 = if even {
            ctx.quiet_even
        } else {
            ctx.quiet_odd
        };
        Some(
            Task {
                msg: qso_utils::join3("CQ", config.my_call.as_str(), config.my_grid.as_str()),
                freq,
                target: freq,
                even,
            },
        )
    }

    /// A manager that has heard nothing yet.
    pub fn new(location_engine: LocationEngine, now: u64) -> (r: AutoQsoManager)
        ensures
            r.wf(),
            r.msg_history@.len() == 0,
            r.successful_calls@ == Set::<Seq<char>>::empty(),
            r.attempted_recent@ == Map::<Seq<char>, u64>::empty(),
            r.successful_grids@ == Set::<Seq<char>>::empty(),
            r.last_logged_at@ == Map::<Seq<char>, u64>::empty(),
            r.grids() == Map::<Seq<char>, (Seq<char>, Option<Distance>)>::empty(),
            r.location_engine == location_engine,
            r.task_queue@.len() == 0,
            r.last_incoming_for_me == before(now, 600_000),
            r.last_cq_time == before(now, 3_600_000),
            r.noise == (NoiseGate { count: 0, dirty: false, last_sec: 99, acc_len: 0 }),
            r.last_update_even == before(now, 9_999_000),
            r.last_update_odd == before(now, 9_999_000),
            r.consecutive_failures == 0,
            r.last_save_time == now,
            !r.is_dirty,
    {
        let r = AutoQsoManager {
            msg_history: Vec::new(),
            successful_calls: TextSet::new(),
            attempted_recent: TextMap::new(),
            successful_grids: TextSet::new(),
            last_incoming_for_me: time_before(now, 600_000),
            last_cq_time: time_before(now, 3_600_000),
            task_queue: Vec::new(),
            last_logged_at: TextMap::new(),
            location_engine,
            call_to_grid: TextMap::new(),
            noise: NoiseGate { count: 0, dirty: false, last_sec: 99, acc_len: 0 },
            last_update_even: time_before(now, 9_999_000),
            last_update_odd: time_before(now, 9_999_000),
            consecutive_failures: 0,
            last_save_time: now,
            is_dirty: false,
        };
        assert(r.grids() =~= Map::<Seq<char>, (Seq<char>, Option<Distance>)>::empty());
        r
    }
}

/// Reads stored texts as a set.
pub fn restore_set(json: &str) -> (r: TextSet)
    ensures
        r.wf(),
        r@ == outside::stored_set(json@),
{
    let mut set = TextSet::new();
    if let Some(list) = parse_strings(json) {
        let ghost all = text::texts(list@);
        let mut i: usize = 0;
        assert(all.take(0).to_set() =~= Set::<Seq<char>>::empty());
        while i < list.len()
            invariant
                all == text::texts(list@),
                i <= list@.len(),
                set.wf(),
                set@ == all.take(i as int).to_set(),
            decreases list@.len() - i,
        {
            let ghost known = set@;
            set.insert(String::from_str(list[i].as_str()));
            proof {
                let next = all.take(i + 1);
                assert forall|t: Seq<char>| #[trigger]
                    next.to_set().contains(t) <==> set@.contains(t) by {
                    if next.contains(t) {
                        let k = choose|k: int| 0 <= k < next.len() && next[k] == t;
                        if k < i {
                            assert(all.take(i as int)[k] == t);
                        }
                    }
                    if all.take(i as int).contains(t) {
                        let k = choose|k: int|
                            0 <= k < all.take(i as int).len() && all.take(i as int)[k] == t;
                        assert(next[k] == t);
                    }
                    if t == all[i as int] {
                        assert(next[i as int] == t);
                    }
                }
                assert(set@ =~= next.to_set());
            }
            i += 1;
        }
        assert(all.take(i as int) =~= all);
    }
    set
}

/// A set as it is stored: reading it gives the set back.
pub fn store_set(set: &TextSet) -> (r: String)
    requires
        set.wf(),
    ensures
        outside::stored_set(r@) == set@,
        exists|v: Seq<Seq<char>>|
            v.to_set() == set@ && r@ == #[trigger] outside::strings_json(v),
{
    write_strings(set.items())
}

/// Reads stored grid squares of stations: none where they cannot be read.
pub fn stored_grids(json: &str) -> (r: Vec<(String, String)>)
    ensures
        outside::pair_texts(r@) == match outside::json_pairs(json@) {
            Some(v) => v,
            None => Seq::empty(),
        },
        outside::map_of(outside::pair_texts(r@)) == outside::stored_map(json@),
{
    match parse_pairs(json) {
        Some(v) => v,
        None => {
            let v: Vec<(String, String)> = Vec::new();
            assert(outside::pair_texts(v@) =~= Seq::empty());
            v
        },
    }
}

impl AutoQsoManager {
    /// Notes the grid square of a station as one that is stored.
    pub fn learn_grid(&mut self, call: String, grid: String, dist: Option<Distance>)
        requires
            old(self).wf(),
        ensures
            final(self).wf(),
            final(self).grids() == old(self).grids().insert(call@, (grid@, dist)),
            *final(self) == (AutoQsoManager {
                call_to_grid: final(self).call_to_grid,
                ..*old(self)
            }),
    {
        let ghost known = self.grids();
        self.call_to_grid.insert(call, GridEntry { grid, dist });
        assert(self.grids() =~= known.insert(call@, (grid@, dist)));
    }

    /// The grid squares of stations, as they are stored: reading them gives
    /// them back.
    pub fn grids_to_store(&self) -> (r: String)
        requires
            self.wf(),
        ensures
            r@ == outside::pairs_json(
                self.grids().map_values(|p: (Seq<char>, Option<Distance>)| p.0),
            ),
            outside::stored_map(r@) == self.grids().map_values(
                |p: (Seq<char>, Option<Distance>)| p.0,
            ),
    {
        let keys = self.call_to_grid.keys();
        let ghost all = text::texts(keys@);
        let ghost want = self.grids().map_values(|p: (Seq<char>, Option<Distance>)| p.0);
        let mut pairs: Vec<(String, String)> = Vec::new();
        let mut i: usize = 0;
        assert(outside::pair_texts(pairs@) =~= Seq::<(Seq<char>, Seq<char>)>::empty());
        while i < keys.len()
            invariant
                self.wf(),
                all == text::texts(keys@),
                all.to_set() == self.call_to_grid@.dom(),
                all.no_duplicates(),
                want == self.grids().map_values(|p: (Seq<char>, Option<Distance>)| p.0),
                i <= keys@.len(),
                ({
                    let m = outside::map_of(outside::pair_texts(pairs@));
                    &&& m.dom() == all.take(i as int).to_set()
                    &&& forall|k: Seq<char>| #[trigger] m.contains_key(k) ==> m[k] == want[k]
                }),
                pairs@.len() == i,
                forall|k: int|
                    0 <= k < i ==> (#[trigger] outside::pair_texts(pairs@)[k]).0 == all[k],
            decreases keys@.len() - i,
        {
            let key = keys[i].as_str();
            assert(all[i as int] == key@);
            assert(all.to_set().contains(key@)) by {
                assert(all.contains(key@));
            }
            if let Some(e) = self.call_to_grid.get(key) {
                let ghost done = outside::pair_texts(pairs@);
                pairs.push((String::from_str(key), String::from_str(e.grid.as_str())));
                proof {
                    let now = outside::pair_texts(pairs@);
                    assert(now =~= done.push((key@, e.grid@)));
                    assert(now.drop_last() =~= done);
                    let m = outside::map_of(now);
                    assert(m == outside::map_of(done).insert(key@, e.grid@));
                    assert(self.grids().contains_key(key@));
                    assert(want[key@] == e.grid@);
                    let next = all.take(i + 1);
                    assert forall|t: Seq<char>| #[trigger]
                        next.to_set().contains(t) <==> m.dom().contains(t) by {
                        let prev = all.take(i as int);
                        if next.contains(t) {
                            let k = choose|k: int| 0 <= k < next.len() && next[k] == t;
                            if k < i {
                                assert(prev[k] == t);
                                assert(prev.to_set().contains(t));
                            }
                        }
                        if prev.to_set().contains(t) {
                            let k = choose|k: int| 0 <= k < prev.len() && prev[k] == t;
                            assert(next[k] == t);
                        }
                        if t == key@ {
                            assert(next[i as int] == t);
                        }
                    }
                    assert(m.dom() =~= next.to_set());
                }
            } else {
                assert(false);
            }
            i += 1;
        }
        proof {
            assert(all.take(i as int) =~= all);
            let m = outside::map_of(outside::pair_texts(pairs@));
            assert(m.dom() =~= want.dom());
            assert forall|k: Seq<char>| #[trigger] m.contains_key(k) implies m[k] == want[k] by {}
            assert(m =~= want);
            let v = outside::pair_texts(pairs@);
            assert forall|a: int, b: int| 0 <= a < b < v.len() implies (#[trigger] v[a]).0 != (
            #[trigger] v[b]).0 by {
                assert(v[a].0 == all[a] && v[b].0 == all[b]);
            }
        }
        write_pairs(pairs)
    }
}

/// Whether a message that is to be sent gives way to an answer: there is
/// none, it is a general call, or it is a first call to some station.
pub open spec fn gives_way(current: Seq<char>, my_grid: Seq<char>) -> bool {
    ||| current.len() == 0
    ||| text::starts_with(current, "CQ "@)
    ||| text::words(current).len() == 3 && text::ends_with(current, my_grid)
}

fn is_replaceable(current: &str, my_grid: &str) -> (r: bool)
    ensures
        r == gives_way(current@, my_grid@),
{
    current.unicode_len() == 0 || has_prefix(current, "CQ ") || (split_words(current).len() == 3
        && has_suffix(current, my_grid))
}

/// Whether a text begins with a sign.
pub open spec fn is_signed(s: Seq<char>) -> bool {
    s.len() > 0 && (s[0] == '-' || s[0] == '+')
}

/// Whether a text begins with `R` and a sign.
pub open spec fn is_r_signed(s: Seq<char>) -> bool {
    s.len() > 1 && s[0] == 'R' && (s[1] == '-' || s[1] == '+')
}

/// Whether a message is of the same stage of a contact with a station as the
/// one before it: the same message, or both with a report of the same kind.
pub open spec fn same_stage(current: Seq<char>, next: Seq<char>, sender: Seq<char>) -> bool {
    let p = text::words(current);
    let n = text::words(next);
    next == current || (current.len() > 0 && p.len() == 3 && n.len() == 3 && p[0] == sender && n[0]
        == sender && ((is_signed(p[2]) && is_signed(n[2])) || (is_r_signed(p[2]) && is_r_signed(
        n[2],
    ))))
}

fn has_sign(s: &str) -> (r: bool)
    ensures
        r == is_signed(s@),
{
    let v = chars_of(s);
    v.len() > 0 && (v[0] == '-' || v[0] == '+')
}

fn has_r_sign(s: &str) -> (r: bool)
    ensures
        r == is_r_signed(s@),
{
    let v = chars_of(s);
    v.len() > 1 && v[0] == 'R' && (v[1] == '-' || v[1] == '+')
}

fn is_same_stage(current: &str, next: &str, sender: &str) -> (r: bool)
    ensures
        r == same_stage(current@, next@, sender@),
{
    if same_text(next, current) {
        return true;
    }
    if current.unicode_len() == 0 {
        return false;
    }
    let p = split_words(current);
    let n = split_words(next);
    if p.len() != 3 || n.len() != 3 {
        return false;
    }
    let ghost ps = text::words(current@);
    let ghost ns = text::words(next@);
    assert(ps[0] == p@[0]@ && ps[2] == p@[2]@ && ns[0] == n@[0]@ && ns[2] == n@[2]@);
    if !same_text(p[0].as_str(), sender) || !same_text(n[0].as_str(), sender) {
        return false;
    }
    (has_sign(p[2].as_str()) && has_sign(n[2].as_str())) || (has_r_sign(p[2].as_str())
        && has_r_sign(n[2].as_str()))
}

/// The station that a message is from, as the manager takes it.
pub open spec fn answerer(message: Seq<char>) -> Seq<char> {
    match qso_utils::sender_call(message) {
        Some(c) => cleaned(c),
        None => cleaned("UNKNOWN"@),
    }
}

/// Whether a task of a queue names a station.
pub open spec fn is_queued(queue: Seq<Task>, sender: Seq<char>) -> bool {
    exists|i: int| 0 <= i < queue.len() && text::contains((#[trigger] queue[i]).msg@, sender)
}

/// A signed number in sixteen bits as an unsigned one.
pub fn unsigned_offset(f: i16) -> (r: u16)
    ensures
        r == types::bits16(f as int),
{
    if f < 0 {
        (f as i32 + 0x1_0000) as u16
    } else {
        f as u16
    }
}

/// A message that was heard and how.
pub struct Reception<'a> {
    pub message: &'a str,
    pub snr: i32,
    /// The audio frequency in whole hertz.
    pub freq: i32,
    /// The second of the minute in which the slot began.
    pub wind_sec: u8,
}

/// A message as the manager takes it: in upper case and without white space
/// at its ends.
pub open spec fn tidied(message: Seq<char>) -> Seq<char> {
    text::uppercase(text::trim(message))
}

/// Whether a message concerns a station that makes contacts without end.
pub open spec fn concerns(state: AppState, message: Seq<char>, me: Seq<char>) -> bool {
    state.status.auto_tx_mode == 3 && tidied(message).len() > 0 && text::contains(
        tidied(message),
        me,
    )
}

/// Whether manager and state follow from others when a message is taken while
/// the station makes contacts without end: the contact moves on to the answer
/// at once where the message to be sent gives way or is for the same station,
/// else by a place in the queue.
pub open spec fn moves_on(
    m0: AutoQsoManager,
    s0: AppState,
    m1: AutoQsoManager,
    s1: AppState,
    heard: Reception,
    config: StationConfig,
    ctx: HuntContext,
) -> bool {
    let msg = tidied(heard.message@);
    let next = qso_utils::next_tx(
        msg,
        config.my_call@,
        config.my_grid@,
        heard.snr as int,
    );
    let sender = answerer(msg);
    let current = s0.status.pending_text();
    let even = heard.wind_sec % 30 != 0;
    if !concerns(s0, heard.message@, config.my_call@) {
        m1 == m0 && s1 == s0
    } else if next.len() == 0 {
        &&& m1 == m0
        &&& s1.status.pending_msg@ == types::fixed(Seq::empty(), 24)
        &&& s1.status.expect_regex@ == types::fixed(Seq::empty(), 48)
        &&& s1 == (AppState {
            status: types::RustStatus {
                pending_msg: s1.status.pending_msg,
                expect_regex: s1.status.expect_regex,
                ..s0.status
            },
            expect_regex_compiled: None,
            ..s0
        })
    } else if gives_way(current, config.my_grid@) || text::contains(current, sender) {
        &&& m1 == (AutoQsoManager { consecutive_failures: 0, ..m0 })
        &&& s1.status.pending_msg@ == types::fixed(encode_utf8(next), 24)
        &&& s1.status.expect_regex@ == types::fixed(Seq::empty(), 48)
        &&& s1 == (AppState {
            status: types::RustStatus {
                pending_msg: s1.status.pending_msg,
                expect_regex: s1.status.expect_regex,
                repeat_count: if same_stage(current, next, sender) {
                    s0.status.repeat_count % 2
                } else {
                    0
                },
                pending_offset: types::bits16(ctx.quiet(even) as int) as u16,
                tx_window_even: if even {
                    1
                } else {
                    0
                },
                ..s0.status
            },
            expect_regex_compiled: None,
            target_offset: types::clamped_u16(heard.freq as int) as u16,
            ..s0
        })
    } else if is_queued(m0.task_queue@, sender) {
        m1 == m0 && s1 == s0
    } else {
        &&& s1 == s0
        &&& m1 == (AutoQsoManager {
            task_queue: m1.task_queue,
            ..m0
        })
        &&& m1.task_queue@.len() == m0.task_queue@.len() + 1
        &&& m1.task_queue@.drop_last() == m0.task_queue@
        &&& m1.task_queue@.last().msg@ == next
        &&& m1.task_queue@.last().freq == ctx.quiet(even)
        &&& m1.task_queue@.last().target == types::clamped_i16(
            heard.freq as int,
        )
        &&& m1.task_queue@.last().even == even
    }
}

impl AutoQsoManager {
    fn task_names(&self, sender: &str) -> (r: bool)
        ensures
            r == is_queued(self.task_queue@, sender@),
    {
        let mut i: usize = 0;
        while i < self.task_queue.len()
            invariant
                i <= self.task_queue@.len(),
                forall|k: int|
                    0 <= k < i ==> !text::contains(
                        (#[trigger] self.task_queue@[k]).msg@,
                        sender@,
                    ),
            decreases self.task_queue@.len() - i,
        {
            if contains_text(self.task_queue[i].msg.as_str(), sender) {
                assert(text::contains(self.task_queue@[i as int].msg@, sender@));
                return true;
            }
            i += 1;
        }
        false
    }

    /// Takes a message while the station makes contacts without end, and
    /// moves the contact on: to the answer at once where the message to be
    /// sent gives way or is for the same station, else by a place in the queue.
    pub fn handle_auto_qso_logic(
        &mut self,
        state: &mut AppState,
        heard: &Reception,
        config: &StationConfig,
        ctx: &HuntContext,
    )
        ensures
            moves_on(*old(self), *old(state), *final(self), *final(state), *heard, *config, *ctx),
    {
        if state.status.auto_tx_mode != 3 {
            return;
        }
        let msg = trimmed(heard.message).as_str().to_uppercase();
        if msg.as_str().unicode_len() == 0 {
            return;
        }
        if !contains_text(msg.as_str(), config.my_call.as_str()) {
            return;
        }
        let sender = match get_sender_call(msg.as_str()) {
            Some(c) => clean_call(c.as_str()),
            None => clean_call("UNKNOWN"),
        };
        let even = heard.wind_sec % 30 != 0;
        let quiet: i16 = if even {
            ctx.quiet_even
        } else {
            ctx.quiet_odd
        };
        let next = get_next_tx_msg(
            msg.as_str(),
            config.my_call.as_str(),
            config.my_grid.as_str(),
            heard.snr,
        );
        if next.as_str().unicode_len() == 0 {
            state.clear_pending();
            state.clear_expect();
            return;
        }
        let current = state.status.pending_string();
        if is_replaceable(current.as_str(), config.my_grid.as_str()) || contains_text(
            current.as_str(),
            sender.as_str(),
        ) {
            if is_same_stage(current.as_str(), next.as_str(), sender.as_str()) {
                state.status.repeat_count = state.status.repeat_count % 2;
            } else {
                state.status.repeat_count = 0;
            }
            state.set_pending(next.as_str());
            self.report_any_reply();
            state.status.pending_offset = unsigned_offset(quiet);
            state.target_offset = clamp_u16(heard.freq);
            state.status.tx_window_even = if even {
                1
            } else {
                0
            };
            state.clear_expect();
        } else if !self.task_names(sender.as_str()) {
            self.task_queue.push(
                Task { msg: next, freq: quiet, target: clamp_i16(heard.freq), even },
            );
            assert(self.task_queue@.drop_last() =~= old(self).task_queue@);
        }
    }
}

} // verus!
