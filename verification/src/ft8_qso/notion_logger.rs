//! The queue of contacts that are yet to be reported to the log database.
use crate::numbers;
use crate::numbers::decimal_text;
use crate::text;
use crate::text::has_prefix;
use vstd::prelude::*;
use vstd::string::*;

verus! {

/// A contact, as it is logged.
#[derive(Debug, Clone, PartialEq, Eq)]
pub struct QsoLog {
    pub time: String,
    pub freq: String,
    pub call: String,
    pub my_snr: String,
    pub his_snr: String,
    pub grid: String,
    pub region: String,
}

/// What a log entry says.
#[verifier::ext_equal]
pub struct QsoText {
    pub time: Seq<char>,
    pub freq: Seq<char>,
    pub call: Seq<char>,
    pub my_snr: Seq<char>,
    pub his_snr: Seq<char>,
    pub grid: Seq<char>,
    pub region: Seq<char>,
}

impl View for QsoLog {
    type V = QsoText;

    open spec fn view(&self) -> QsoText {
        QsoText {
            time: self.time@,
            freq: self.freq@,
            call: self.call@,
            my_snr: self.my_snr@,
            his_snr: self.his_snr@,
            grid: self.grid@,
            region: self.region@,
        }
    }
}

/// A text, or another where it is empty.
pub open spec fn or_else(s: Seq<char>, other: Seq<char>) -> Seq<char> {
    if s.len() == 0 {
        other
    } else {
        s
    }
}

impl QsoLog {
    /// The frequency as the database shows it: `-` where it is not known.
    pub fn shown_freq(&self) -> (r: String)
        ensures
            r@ == or_else(self.freq@, "-"@),
    {
        if self.freq.as_str().unicode_len() == 0 {
            String::from_str("-")
        } else {
            String::from_str(self.freq.as_str())
        }
    }

    /// The region as the database shows it: `Unknown` where it is not known.
    pub fn shown_region(&self) -> (r: String)
        ensures
            r@ == or_else(self.region@, "Unknown"@),
    {
        if self.region.as_str().unicode_len() == 0 {
            String::from_str("Unknown")
        } else {
            String::from_str(self.region.as_str())
        }
    }
}

/// The way over which a report is sent.
#[derive(Debug, Clone, Copy, PartialEq, Eq, Structural)]
pub enum Route {
    Proxy,
    Direct,
}

/// What follows from the outcome of sending a report.
#[derive(Debug, Clone, Copy, PartialEq, Eq, Structural)]
pub enum SendAction {
    /// The report has arrived; the next one follows.
    Done,
    /// The network failed; the report is sent over the direct route.
    TryDirect,
    /// The database refused the report for good; the next one follows.
    Discard,
    /// The report is sent again after a while.
    RetryLater,
}

/// What follows from an error that sending brought.
pub open spec fn action_on(route: Route, error: Option<Seq<char>>) -> SendAction {
    match error {
        None => SendAction::Done,
        Some(e) => if route == Route::Proxy && !text::starts_with(e, "Notion "@) {
            SendAction::TryDirect
        } else if text::starts_with(e, "Notion 4"@) || text::starts_with(e, "Notion 5"@) {
            SendAction::Discard
        } else {
            SendAction::RetryLater
        },
    }
}

/// The error of a request that the database answered with a status other than success.
pub open spec fn refusal(status: int, detail: Seq<char>, request: Seq<char>) -> Seq<char> {
    "Notion "@ + numbers::decimal(status as nat) + " 错误详情: "@ + detail + " | 请求内容: "@ + request
}

/// The error of a request that the database answered with a status other than success.
pub fn api_error(status: u16, detail: &str, request: &str) -> (r: String)
    ensures
        r@ == refusal(status as int, detail@, request@),
{
    let mut out = String::from_str("Notion ");
    out.append(decimal_text(status as u64).as_str());
    out.append(" 错误详情: ");
    out.append(detail);
    out.append(" | 请求内容: ");
    out.append(request);
    assert(out@ =~= refusal(status as int, detail@, request@));
    out
}

/// The error of a request that did not get through.
pub fn network_error(detail: &str) -> (r: String)
    ensures
        r@ == "网络传输失败: "@ + detail@,
{
    let mut out = String::from_str("网络传输失败: ");
    out.append(detail);
    out
}

/// The queue of reports.
pub struct NotionLogger {
    pub queue: Vec<QsoLog>,
}

impl NotionLogger {
    /// A queue with the reports that were left over.
    pub fn new(pending: Vec<QsoLog>) -> (r: NotionLogger)
        ensures
            r.queue@ == pending@,
    {
        NotionLogger { queue: pending }
    }

    /// Puts a report at the end of the queue.
    pub fn enqueue(&mut self, log: QsoLog)
        ensures
            final(self).queue@ == old(self).queue@.push(log),
    {
        self.queue.push(log);
    }

    /// Decides what follows from the outcome of sending the first report, and
    /// takes it off the queue if it is settled. The queue has then to be stored.
    pub fn settle(&mut self, route: Route, error: &Option<String>) -> (r: SendAction)
        requires
            old(self).queue@.len() > 0,
        ensures
            r == action_on(
                route,
                match *error {
                    Some(e) => Some(e@),
                    None => None,
                },
            ),
            final(self).queue@ == if r == SendAction::Done || r == SendAction::Discard {
                old(self).queue@.drop_first()
            } else {
                old(self).queue@
            },
    {
        let action = match error {
            None => SendAction::Done,
            Some(e) => {
                if matches!(route, Route::Proxy) && !has_prefix(e.as_str(), "Notion ") {
                    SendAction::TryDirect
                } else if has_prefix(e.as_str(), "Notion 4") || has_prefix(e.as_str(), "Notion 5") {
                    SendAction::Discard
                } else {
                    SendAction::RetryLater
                }
            },
        };
        if matches!(action, SendAction::Done) || matches!(action, SendAction::Discard) {
            self.queue.remove(0);
            assert(self.queue@ =~= old(self).queue@.drop_first());
        }
        action
    }
}

/// A report that the database refuses with a status from 400 to 599 is not
/// sent again, over whichever route it was refused.
pub proof fn law_refused_report_is_discarded(
    route: Route,
    status: int,
    detail: Seq<char>,
    request: Seq<char>,
)
    requires
        400 <= status < 600,
    ensures
        action_on(route, Some(refusal(status, detail, request))) == SendAction::Discard,
{
    reveal_strlit("Notion ");
    reveal_strlit("Notion 4");
    reveal_strlit("Notion 5");
    reveal_with_fuel(numbers::in_base, 3);
    let e = refusal(status, detail, request);
    let d = numbers::decimal(status as nat);
    assert(numbers::in_base((status / 100) as nat, 10) =~= seq![numbers::digit(status / 100)]);
    assert(status / 10 / 10 == status / 100);
    assert(d.len() == 3 && d[0] == numbers::digit(status / 100));
    assert(e.take(7) =~= "Notion "@);
    assert(e[7] == d[0]);
    if status < 500 {
        assert(e.take(8) =~= "Notion 4"@);
    } else {
        assert(e.take(8) =~= "Notion 5"@);
    }
}

/// A report that does not get through the proxy is sent over the direct
/// route, and one that does not get through either is sent again later.
pub proof fn law_network_failure_is_retried(detail: Seq<char>)
    ensures
        action_on(Route::Proxy, Some("网络传输失败: "@ + detail)) == SendAction::TryDirect,
        action_on(Route::Direct, Some("网络传输失败: "@ + detail)) == SendAction::RetryLater,
{
    reveal_strlit("网络传输失败: ");
    reveal_strlit("Notion ");
    reveal_strlit("Notion 4");
    reveal_strlit("Notion 5");
    let e = "网络传输失败: "@ + detail;
    assert(e[0] == '网');
    assert("Notion "@[0] == 'N' && "Notion 4"@[0] == 'N' && "Notion 5"@[0] == 'N');
    if text::starts_with(e, "Notion "@) {
        assert(e.take(7)[0] == 'N');
    }
    if text::starts_with(e, "Notion 4"@) {
        assert(e.take(8)[0] == 'N');
    }
    if text::starts_with(e, "Notion 5"@) {
        assert(e.take(8)[0] == 'N');
    }
}

/// A report that has arrived is done with; one that the database answers with a
/// status below 400 other than success is sent again later.
pub proof fn law_other_outcomes(route: Route, status: int, detail: Seq<char>, request: Seq<char>)
    requires
        100 <= status < 400,
    ensures
        action_on(route, None) == SendAction::Done,
        action_on(route, Some(refusal(status, detail, request))) == SendAction::RetryLater,
{
    reveal_strlit("Notion ");
    reveal_strlit("Notion 4");
    reveal_strlit("Notion 5");
    reveal_with_fuel(numbers::in_base, 3);
    let e = refusal(status, detail, request);
    let d = numbers::decimal(status as nat);
    assert(numbers::in_base((status / 100) as nat, 10) =~= seq![numbers::digit(status / 100)]);
    assert(status / 10 / 10 == status / 100);
    assert(d.len() == 3 && d[0] == numbers::digit(status / 100));
    assert(e.take(7) =~= "Notion "@);
    assert(e[7] == d[0]);
    assert(e.take(8)[7] == e[7]);
}

/// What the database is shown: the frequency and the region, or a mark where
/// they are not known.
pub proof fn law_shown_fields(s: Seq<char>, mark: Seq<char>)
    ensures
        s.len() > 0 ==> or_else(s, mark) == s,
        s.len() == 0 ==> or_else(s, mark) == mark,
{
}

} // verus!
