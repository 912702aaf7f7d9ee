//! The messages of a contact: what is sent next, and what answer is expected.
use crate::numbers;
use crate::numbers::report_text;
use crate::patterns;
use crate::patterns::{pattern_accepted, pattern_occurs};
use crate::text;
use crate::text::{bracketless, byte_length, chars_of, same_text, split_words};
use vstd::prelude::*;
use vstd::string::*;
use vstd::utf8::*;

verus! {

/// Whether a character is an ASCII letter.
pub open spec fn is_letter(c: char) -> bool {
    'A' <= c <= 'Z' || 'a' <= c <= 'z'
}

/// Whether a text is a grid square: two letters and two digits, and not the
/// acknowledgement that looks like one.
pub open spec fn grid_shape(s: Seq<char>) -> bool {
    &&& s.len() == 4
    &&& is_letter(s[0])
    &&& is_letter(s[1])
    &&& patterns::is_digit(s[2])
    &&& patterns::is_digit(s[3])
    &&& s != "RR73"@
}

/// Tells whether a text is a signal report, such as `+02`, `-15` and `R-05`.
pub fn is_snr(s: &str) -> (r: bool)
    ensures
        r == patterns::is_report(s@),
{
    let pattern = "^R?[+-]\\d{1,2}$";
    pattern_accepted(pattern) && pattern_occurs(pattern, s)
}

/// Tells whether a text is a grid square, such as `OL96` and `PM95`.
pub fn is_grid(s: &str) -> (r: bool)
    ensures
        r == grid_shape(s@),
{
    if same_text(s, "RR73") {
        return false;
    }
    let v = chars_of(s);
    if v.len() != 4 {
        return false;
    }
    let (a, b, c, d) = (v[0], v[1], v[2], v[3]);
    let letters = (('A' <= a && a <= 'Z') || ('a' <= a && a <= 'z')) && (('A' <= b && b <= 'Z') || (
    'a' <= b && b <= 'z'));
    letters && '0' <= c && c <= '9' && '0' <= d && d <= '9'
}

/// The one who sent a message of some words, and what the message says: the
/// third and fourth words of a general call to some, else the second and third.
pub open spec fn caller_of(parts: Seq<Seq<char>>) -> (Seq<char>, Seq<char>) {
    if text::without_brackets(parts[0]) == "CQ"@ && parts.len() >= 4 {
        (text::without_brackets(parts[2]), parts[3])
    } else {
        (text::without_brackets(parts[1]), parts[2])
    }
}

/// Whether a text can be a call sign.
pub open spec fn can_be_call(s: Seq<char>) -> bool {
    text::byte_len(s) >= 3 && s != "..."@
}

/// The words of a message, with spaces between them.
pub open spec fn message3(a: Seq<char>, b: Seq<char>, c: Seq<char>) -> Seq<char> {
    a + " "@ + b + " "@ + c
}

/// The message that answers a message; empty if none does.
///
/// A contact goes from grid square to report, to report with `R`, to `RR73`
/// and to `73`.
pub open spec fn next_tx(
    incoming: Seq<char>,
    my_call: Seq<char>,
    my_grid: Seq<char>,
    snr: int,
) -> Seq<char> {
    let parts = text::words(incoming);
    let to = text::without_brackets(parts[0]);
    let (caller, p) = caller_of(parts);
    let report = numbers::signed_report(snr);
    if parts.len() < 3 || !(can_be_call(to) || to == "CQ"@) || !can_be_call(caller) {
        Seq::empty()
    } else if to == my_call {
        if grid_shape(p) {
            message3(caller, my_call, report)
        } else if p.len() > 0 && p[0] == 'R' && patterns::is_report(p) {
            message3(caller, my_call, "RR73"@)
        } else if patterns::is_report(p) {
            message3(caller, my_call, seq!['R'] + report)
        } else if p == "RR73"@ || p == "RRR"@ {
            message3(caller, my_call, "73"@)
        } else {
            Seq::empty()
        }
    } else if to == "CQ"@ {
        message3(caller, my_call, my_grid)
    } else {
        Seq::empty()
    }
}

/// The words of a message, with spaces between them.
pub fn join3(a: &str, b: &str, c: &str) -> (r: String)
    ensures
        r@ == message3(a@, b@, c@),
{
    let mut out = String::new();
    out.append(a);
    out.append(" ");
    out.append(b);
    out.append(" ");
    out.append(c);
    assert(out@ =~= message3(a@, b@, c@));
    out
}

fn starts_with_r(s: &str) -> (r: bool)
    ensures
        r == (s@.len() > 0 && s@[0] == 'R'),
{
    let v = chars_of(s);
    v.len() > 0 && v[0] == 'R'
}

/// Says what is sent in answer to a message; nothing if the text is empty.
pub fn get_next_tx_msg(incoming: &str, my_call: &str, my_grid: &str, snr: i32) -> (r: String)
    ensures
        r@ == next_tx(incoming@, my_call@, my_grid@, snr as int),
{
    let parts = split_words(incoming);
    let ghost all = text::words(incoming@);
    if parts.len() < 3 {
        return String::new();
    }
    assert(all[0] == parts@[0]@ && all[1] == parts@[1]@ && all[2] == parts@[2]@);
    let to = bracketless(parts[0].as_str());
    let cq = same_text(to.as_str(), "CQ");
    let four = cq && parts.len() >= 4;
    assert(four ==> all[3] == parts@[3]@);
    let caller = if four {
        bracketless(parts[2].as_str())
    } else {
        bracketless(parts[1].as_str())
    };
    let p = if four {
        parts[3].as_str()
    } else {
        parts[2].as_str()
    };
    assert((caller@, p@) == caller_of(all));
    if (byte_length(to.as_str()) < 3 && !cq) || byte_length(caller.as_str()) < 3 || same_text(
        caller.as_str(),
        "...",
    ) || same_text(to.as_str(), "...") {
        proof {
            reveal_strlit("CQ");
            reveal_strlit("...");
        }
        return String::new();
    }
    let report = report_text(snr);
    if same_text(to.as_str(), my_call) {
        if is_grid(p) {
            return join3(caller.as_str(), my_call, report.as_str());
        }
        if starts_with_r(p) && is_snr(p) {
            return join3(caller.as_str(), my_call, "RR73");
        }
        if is_snr(p) {
            let mut r_report = String::new();
            r_report.push('R');
            r_report.append(report.as_str());
            assert(r_report@ =~= seq!['R'] + report@);
            return join3(caller.as_str(), my_call, r_report.as_str());
        }
        if same_text(p, "RR73") || same_text(p, "RRR") {
            return join3(caller.as_str(), my_call, "73");
        }
        return String::new();
    }
    if cq {
        return join3(caller.as_str(), my_call, my_grid);
    }
    String::new()
}

/// The pattern of the answer that a message should bring; empty if none is expected.
pub open spec fn next_expect(pending: Seq<char>, my_call: Seq<char>) -> Seq<char> {
    let parts = text::words(pending);
    let target = text::without_brackets(parts[0]);
    let p = parts[2];
    if parts.len() < 3 || (text::byte_len(target) < 3 && target != "CQ"@) {
        Seq::empty()
    } else if target == "CQ"@ {
        patterns::cq_pattern(my_call)
    } else if p == "RR73"@ || p == "RRR"@ {
        patterns::ack_pattern(my_call, target)
    } else if grid_shape(p) {
        patterns::report_pattern(my_call, target)
    } else if patterns::is_report(p) {
        if p.len() > 0 && p[0] == 'R' {
            patterns::ack_pattern(my_call, target)
        } else {
            patterns::report_pattern(my_call, target)
        }
    } else {
        Seq::empty()
    }
}

fn answer_pattern(my_call: &str, target: &str, tail: &str) -> (r: String)
    ensures
        r@ == "^<?"@ + my_call@ + ">?\\s+<?"@ + target@ + tail@,
{
    let mut out = String::new();
    out.append("^<?");
    out.append(my_call);
    out.append(">?\\s+<?");
    out.append(target);
    out.append(tail);
    assert(out@ =~= "^<?"@ + my_call@ + ">?\\s+<?"@ + target@ + tail@);
    out
}

/// Says what answer a message should bring, as a pattern; none if the text is empty.
pub fn get_next_expect_regex(pending: &str, my_call: &str) -> (r: String)
    ensures
        r@ == next_expect(pending@, my_call@),
{
    let parts = split_words(pending);
    let ghost all = text::words(pending@);
    if parts.len() < 3 {
        return String::new();
    }
    assert(all[0] == parts@[0]@ && all[2] == parts@[2]@);
    let target = bracketless(parts[0].as_str());
    let cq = same_text(target.as_str(), "CQ");
    if byte_length(target.as_str()) < 3 && !cq {
        return String::new();
    }
    let p = parts[2].as_str();
    let report_tail = ">?\\s+R?[+-]\\d{1,2}";
    let ack_tail = ">?\\s+(RR73|RRR|73)";
    if cq {
        let mut out = String::new();
        out.append("^<?");
        out.append(my_call);
        out.append(">?\\s+<?[A-Z0-9/]+>?\\s+([A-Z][0-9A-Z][0-9]{2}|[+-]\\d{1,2})");
        assert(out@ =~= patterns::cq_pattern(my_call@));
        return out;
    }
    if same_text(p, "RR73") || same_text(p, "RRR") {
        answer_pattern(my_call, target.as_str(), ack_tail)
    } else if is_grid(p) {
        answer_pattern(my_call, target.as_str(), report_tail)
    } else if is_snr(p) {
        if starts_with_r(p) {
            answer_pattern(my_call, target.as_str(), ack_tail)
        } else {
            answer_pattern(my_call, target.as_str(), report_tail)
        }
    } else {
        String::new()
    }
}

/// Whether a text is as long as a call sign.
pub open spec fn is_long(s: Seq<char>) -> bool {
    text::byte_len(s) >= 3
}

/// The call sign of the one who sent a message: the second word or, of a
/// general call to some, the third. The third of three words that is a grid
/// square is not whom the call comes from; a word that is too short never is.
pub open spec fn sender_call(s: Seq<char>) -> Option<Seq<char>> {
    let parts = text::words(s);
    let general = text::without_brackets(parts[0]) == "CQ"@;
    let second = text::without_brackets(parts[1]);
    let third = text::without_brackets(parts[2]);
    if parts.len() < 2 || (general && parts.len() == 2) {
        None
    } else if general && is_long(third) && (parts.len() >= 4 || !grid_shape(third)) {
        Some(third)
    } else if is_long(second) {
        Some(second)
    } else {
        None
    }
}

/// Says who sent a message.
pub fn get_sender_call(text: &str) -> (r: Option<String>)
    ensures
        (match r {
            Some(c) => Some(c@),
            None => None,
        }) == sender_call(text@),
{
    let parts = split_words(text);
    let ghost all = text::words(text@);
    if parts.len() < 2 {
        return None;
    }
    assert(all[0] == parts@[0]@ && all[1] == parts@[1]@);
    let to = bracketless(parts[0].as_str());
    let second = bracketless(parts[1].as_str());
    let general = same_text(to.as_str(), "CQ");
    if !general {
        if byte_length(second.as_str()) >= 3 {
            return Some(second);
        }
        return None;
    }
    if parts.len() == 2 {
        return None;
    }
    assert(all[2] == parts@[2]@);
    let third = bracketless(parts[2].as_str());
    if byte_length(third.as_str()) >= 3 && (parts.len() >= 4 || !is_grid(third.as_str())) {
        return Some(third);
    }
    if byte_length(second.as_str()) >= 3 {
        return Some(second);
    }
    None
}

/// Whether a text is a call sign of three or more digits, upper-case letters
/// and slashes.
pub open spec fn is_call(c: Seq<char>) -> bool {
    &&& c.len() >= 3
    &&& forall|i: int|
        0 <= i < c.len() ==> patterns::is_digit(#[trigger] c[i]) || 'A' <= c[i] <= 'Z' || c[i]
            == '/'
}

pub proof fn lemma_call(c: Seq<char>)
    requires
        is_call(c),
    ensures
        text::is_word(c),
        text::without_brackets(c) == c,
        can_be_call(c),
        c != "CQ"@,
{
    reveal_strlit("CQ");
    reveal_strlit("...");
    text::lemma_no_brackets(c);
    text::lemma_ascii_byte_len(c);
    assert("..."@[0] == '.');
}

/// The words of a message to a call sign, as the receiver takes them.
proof fn lemma_message(to: Seq<char>, from: Seq<char>, p: Seq<char>)
    requires
        is_call(to) || to == "CQ"@,
        is_call(from),
        text::is_word(p),
    ensures
        text::words(message3(to, from, p)) == seq![to, from, p],
        text::without_brackets(to) == to,
        caller_of(seq![to, from, p]) == (from, p),
        can_be_call(from),
        can_be_call(to) || to == "CQ"@,
{
    reveal_strlit("CQ");
    lemma_call(from);
    if is_call(to) {
        lemma_call(to);
    } else {
        text::lemma_no_brackets(to);
    }
    text::lemma_three_words(to, from, p);
}

/// A signal report, with or without `R`, is a word, and not a grid square.
proof fn lemma_report(n: int)
    requires
        -99 <= n <= 99,
    ensures
        ({
            let s = numbers::signed_report(n);
            let t = seq!['R'] + s;
            &&& text::is_word(s)
            &&& !grid_shape(s)
            &&& s[0] != 'R'
            &&& patterns::is_report(s)
            &&& text::is_word(t)
            &&& !grid_shape(t)
            &&& patterns::is_report(t)
        }),
{
    numbers::lemma_report_shape(n);
    let s = numbers::signed_report(n);
    let t = seq!['R'] + s;
    assert(t.drop_first() =~= s);
    assert(t[1] == s[0]);
}

/// A contact comes to its end. When one station calls and the other answers,
/// and each sends what follows from what it heard, they exchange grid square,
/// report, report with `R`, `RR73` and `73`, and then neither has anything to send.
pub proof fn law_contact_completes(
    a: Seq<char>,
    grid_a: Seq<char>,
    b: Seq<char>,
    grid_b: Seq<char>,
    snr_a: int,
    snr_b: int,
)
    requires
        is_call(a),
        is_call(b),
        a != b,
        grid_shape(grid_a),
        grid_shape(grid_b),
        -99 <= snr_a <= 99,
        -99 <= snr_b <= 99,
    ensures
        ({
            let report_a = numbers::signed_report(snr_a);
            let report_b = numbers::signed_report(snr_b);
            let m0 = message3("CQ"@, a, grid_a);
            let m1 = next_tx(m0, b, grid_b, snr_b);
            let m2 = next_tx(m1, a, grid_a, snr_a);
            let m3 = next_tx(m2, b, grid_b, snr_b);
            let m4 = next_tx(m3, a, grid_a, snr_a);
            let m5 = next_tx(m4, b, grid_b, snr_b);
            let m6 = next_tx(m5, a, grid_a, snr_a);
            &&& m1 == message3(a, b, grid_b)
            &&& m2 == message3(b, a, report_a)
            &&& m3 == message3(a, b, seq!['R'] + report_b)
            &&& m4 == message3(b, a, "RR73"@)
            &&& m5 == message3(a, b, "73"@)
            &&& m6 == Seq::<char>::empty()
        }),
{
    reveal_strlit("CQ");
    reveal_strlit("RR73");
    reveal_strlit("RRR");
    reveal_strlit("73");
    lemma_call(a);
    lemma_call(b);
    lemma_message("CQ"@, a, grid_a);
    lemma_message(a, b, grid_b);
    lemma_report(snr_a);
    lemma_report(snr_b);
    lemma_message(b, a, numbers::signed_report(snr_a));
    let r_report = seq!['R'] + numbers::signed_report(snr_b);
    assert(r_report[0] == 'R');
    lemma_message(a, b, r_report);
    let rr73 = "RR73"@;
    assert(rr73[0] == 'R' && rr73[1] == 'R' && rr73[2] == '7' && rr73[3] == '3');
    assert(rr73.drop_first()[0] == 'R');
    lemma_message(b, a, rr73);
    let end = "73"@;
    assert(end[0] == '7' && end[1] == '3');
    lemma_message(a, b, end);
    assert("RRR"@.len() == 3);
}

/// A message of plain words: where its call signs stand, and what follows them.
proof fn lemma_addressed(me: Seq<char>, from: Seq<char>, p: Seq<char>)
    requires
        patterns::is_plain(me),
        patterns::is_plain(from),
        is_ascii_chars(p),
    ensures
        ({
            let s = message3(me, from, p);
            let i = me.len() as int;
            let k = i + 1 + from.len();
            &&& patterns::addressed(s, me, from, i, i + 1, k, k + 1)
            &&& s.skip(k + 1) == p
            &&& s.len() == k + 1 + p.len()
            &&& forall|j: int| 0 <= j < p.len() ==> s[k + 1 + j] == #[trigger] p[j]
            &&& is_ascii_chars(s)
        }),
{
    reveal_strlit(" ");
    let s = message3(me, from, p);
    let i = me.len() as int;
    let k = i + 1 + from.len();
    assert(s.subrange(0, i) =~= me);
    assert(s.subrange(i, i + 1) =~= seq![' ']);
    assert(s.subrange(i + 1, k) =~= from);
    assert(s.subrange(k, k + 1) =~= seq![' ']);
    assert(s.skip(k + 1) =~= p);
    assert forall|j: int| 0 <= j < s.len() implies (#[trigger] s[j]) as u32 <= 127 by {
        if j < i {
            assert(s[j] == me[j]);
        } else if i < j < k {
            assert(s[j] == from[j - i - 1]);
        } else if j > k {
            assert(s[j] == p[j - k - 1]);
        }
    }
}

/// The answer to what the station sends is the one that it expects. When it
/// sends grid square, report or acknowledgement to another, and that station
/// sends what follows from it, the pattern of the expected answer occurs in
/// what comes back; it is accepted where the call signs are short.
pub proof fn law_answer_is_expected(
    me: Seq<char>,
    peer: Seq<char>,
    peer_grid: Seq<char>,
    p: Seq<char>,
    snr: int,
)
    requires
        is_call(me),
        is_call(peer),
        grid_shape(p) || patterns::report_shape(p) || p == "RR73"@ || p == "RRR"@,
    ensures
        ({
            let sent = message3(peer, me, p);
            let answer = next_tx(sent, peer, peer_grid, snr);
            let expected = next_expect(sent, me);
            &&& answer.len() > 0
            &&& patterns::found(expected, answer)
            &&& me.len() <= 32 && peer.len() <= 32 ==> patterns::accepted(expected)
        }),
{
    reveal_strlit("CQ");
    reveal_strlit("RR73");
    reveal_strlit("RRR");
    reveal_strlit("73");
    let sent = message3(peer, me, p);
    let answer = next_tx(sent, peer, peer_grid, snr);
    let expected = next_expect(sent, me);
    lemma_call(me);
    lemma_call(peer);
    assert forall|i: int| 0 <= i < p.len() implies '\0' <= #[trigger] p[i] <= '\u{7f}'
        && !text::white_space(p[i]) by {
        if p == "RR73"@ || p == "RRR"@ || grid_shape(p) {
            assert(i == 0 || i == 1 || i == 2 || i == 3);
        } else if patterns::signed_digits(p) {
            assert(i == 0 || patterns::is_digit(p[i]));
        } else {
            let d = p.drop_first();
            assert(i == 0 || p[i] == d[i - 1]);
            assert(i <= 1 || patterns::is_digit(d[i - 1]));
        }
    }
    lemma_message(peer, me, p);
    let report = numbers::signed_report(snr);
    numbers::lemma_report_digits(snr);
    let k = me.len() + peer.len() + 2int;
    let acked = p == "RR73"@ || p == "RRR"@;
    if acked {
        assert(!grid_shape("RRR"@));
        assert("RRR"@.drop_first()[0] == 'R' && "RR73"@.drop_first()[0] == 'R');
        assert(!patterns::report_shape(p));
        assert(answer == message3(me, peer, "73"@));
        assert(expected == patterns::ack_pattern(me, peer));
        lemma_addressed(me, peer, "73"@);
        assert("73"@.take(2) =~= "73"@);
        assert(text::starts_with(answer.skip(k), "73"@));
        assert(patterns::acknowledges(answer, me, peer));
    } else if grid_shape(p) {
        assert(answer == message3(me, peer, report));
        assert(expected == patterns::report_pattern(me, peer));
        lemma_addressed(me, peer, report);
        assert(answer[k] == report[0] && answer[k + 1] == report[1]);
        assert(patterns::reports_to(answer, me, peer));
    } else if p[0] == 'R' {
        assert(answer == message3(me, peer, "RR73"@));
        assert(expected == patterns::ack_pattern(me, peer));
        lemma_addressed(me, peer, "RR73"@);
        assert("RR73"@.take(4) =~= "RR73"@);
        assert(text::starts_with(answer.skip(k), "RR73"@));
        assert(patterns::acknowledges(answer, me, peer));
    } else {
        let r_report = seq!['R'] + report;
        assert(answer == message3(me, peer, r_report));
        assert(expected == patterns::report_pattern(me, peer));
        assert forall|i: int| 0 <= i < r_report.len() implies (#[trigger] r_report[i]) as u32
            <= 127 by {
            if i >= 1 {
                assert(r_report[i] == report[i - 1]);
            }
        }
        lemma_addressed(me, peer, r_report);
        assert(answer[k] == r_report[0] && answer[k + 1] == r_report[1] && answer[k + 2]
            == r_report[2]);
        assert(r_report[1] == report[0] && r_report[2] == report[1]);
        assert(patterns::reports_to(answer, me, peer));
    }
}

/// The first answer to a general call of the station is the one that it
/// expects, from whichever station that sends a grid square in upper case.
pub proof fn law_call_back_is_expected(
    me: Seq<char>,
    grid: Seq<char>,
    peer: Seq<char>,
    peer_grid: Seq<char>,
    snr: int,
)
    requires
        is_call(me),
        is_call(peer),
        text::is_word(grid),
        grid_shape(peer_grid),
        'A' <= peer_grid[0] <= 'Z',
        'A' <= peer_grid[1] <= 'Z',
    ensures
        ({
            let sent = message3("CQ"@, me, grid);
            let answer = next_tx(sent, peer, peer_grid, snr);
            let expected = next_expect(sent, me);
            &&& answer.len() > 0
            &&& patterns::found(expected, answer)
            &&& me.len() <= 32 ==> patterns::accepted(expected)
        }),
{
    reveal_strlit("CQ");
    let sent = message3("CQ"@, me, grid);
    let answer = next_tx(sent, peer, peer_grid, snr);
    let expected = next_expect(sent, me);
    lemma_call(me);
    lemma_call(peer);
    lemma_message("CQ"@, me, grid);
    assert(answer == message3(me, peer, peer_grid));
    assert(expected == patterns::cq_pattern(me));
    lemma_addressed(me, peer, peer_grid);
    let k = me.len() + peer.len() + 2int;
    assert(answer[k] == peer_grid[0] && answer[k + 1] == peer_grid[1] && answer[k + 2]
        == peer_grid[2] && answer[k + 3] == peer_grid[3]);
    assert(patterns::grid_ahead(answer, k));
    assert(patterns::calls_back(answer, me));
}

/// A call sign in brackets is taken for the call sign.
pub proof fn lemma_bracketed_call(c: Seq<char>)
    requires
        is_call(c),
    ensures
        text::is_word(seq!['<'] + c + seq!['>']),
        text::without_brackets(seq!['<'] + c + seq!['>']) == c,
{
    let b = seq!['<'] + c + seq!['>'];
    assert(b.last() == '>' && b.drop_last() =~= seq!['<'] + c);
    lemma_opening(c);
    assert forall|i: int| 0 <= i < b.len() implies !text::white_space(#[trigger] b[i]) by {
        if 0 < i < b.len() - 1 {
            assert(b[i] == c[i - 1]);
        }
    }
}

proof fn lemma_opening(c: Seq<char>)
    requires
        forall|i: int|
            0 <= i < c.len() ==> patterns::is_digit(#[trigger] c[i]) || 'A' <= c[i] <= 'Z' || c[i]
                == '/',
    ensures
        text::without_brackets(seq!['<'] + c) == c,
    decreases c.len(),
{
    let b = seq!['<'] + c;
    if c.len() == 0 {
        assert(b.drop_last() =~= c);
        assert(b.last() == '<');
        assert(text::without_brackets(b) == text::without_brackets(c));
    } else {
        assert(b.drop_last() =~= seq!['<'] + c.drop_last());
        assert(b.last() == c.last());
        lemma_opening(c.drop_last());
        assert(c.drop_last().push(c.last()) =~= c);
    }
}

/// The words of four words with spaces between them.
proof fn lemma_four_words(a: Seq<char>, b: Seq<char>, c: Seq<char>, d: Seq<char>)
    requires
        text::is_word(a),
        text::is_word(b),
        text::is_word(c),
        text::is_word(d),
    ensures
        text::words(a + " "@ + b + " "@ + c + " "@ + d) == seq![a, b, c, d],
{
    reveal_strlit(" ");
    let rest = b + " "@ + c + " "@ + d;
    text::lemma_three_words(b, c, d);
    text::lemma_words_of_word(a, rest);
    assert(a + " "@ + b + " "@ + c + " "@ + d =~= a + seq![' '] + rest);
    assert(seq![a] + seq![b, c, d] =~= seq![a, b, c, d]);
}

/// A general call to some is answered to its caller, whatever word says whom
/// it is meant for, and whatever follows the caller; and it is from the caller.
/// So it is when the call sign stands in brackets.
pub proof fn law_directed_call_is_answered(
    d: Seq<char>,
    c: Seq<char>,
    p: Seq<char>,
    me: Seq<char>,
    my_grid: Seq<char>,
    snr: int,
)
    requires
        text::is_word(d),
        is_call(c),
        text::is_word(p),
        me != "CQ"@,
    ensures
        ({
            let plain = "CQ"@ + " "@ + d + " "@ + c + " "@ + p;
            let hashed = "CQ"@ + " "@ + d + " "@ + (seq!['<'] + c + seq!['>']) + " "@ + p;
            &&& next_tx(plain, me, my_grid, snr) == c + " "@ + me + " "@ + my_grid
            &&& next_tx(hashed, me, my_grid, snr) == c + " "@ + me + " "@ + my_grid
            &&& sender_call(plain) == Some(c)
            &&& sender_call(hashed) == Some(c)
        }),
{
    reveal_strlit("CQ");
    lemma_call(c);
    lemma_bracketed_call(c);
    text::lemma_no_brackets("CQ"@);
    text::lemma_ascii_byte_len(c);
    let b = seq!['<'] + c + seq!['>'];
    lemma_four_words("CQ"@, d, c, p);
    lemma_four_words("CQ"@, d, b, p);
    assert(caller_of(seq!["CQ"@, d, c, p]) == (c, p));
    assert(caller_of(seq!["CQ"@, d, b, p]) == (c, p));
}

/// A general call of three words is answered to its second word; it is from
/// the second if the third is a grid square, else from the third.
pub proof fn law_general_call_is_answered(
    c: Seq<char>,
    p: Seq<char>,
    me: Seq<char>,
    my_grid: Seq<char>,
    snr: int,
)
    requires
        is_call(c),
        text::is_word(p),
        me != "CQ"@,
    ensures
        ({
            let plain = "CQ"@ + " "@ + c + " "@ + p;
            let hashed = "CQ"@ + " "@ + (seq!['<'] + c + seq!['>']) + " "@ + p;
            &&& next_tx(plain, me, my_grid, snr) == c + " "@ + me + " "@ + my_grid
            &&& next_tx(hashed, me, my_grid, snr) == c + " "@ + me + " "@ + my_grid
            &&& grid_shape(p) ==> sender_call(plain) == Some(c) && sender_call(hashed) == Some(c)
            &&& p.len() < 3 && is_ascii_chars(p) ==> sender_call(plain) == Some(c)
            &&& is_call(p) && !grid_shape(p) ==> sender_call(plain) == Some(p)
        }),
{
    reveal_strlit("CQ");
    lemma_call(c);
    lemma_bracketed_call(c);
    text::lemma_no_brackets("CQ"@);
    text::lemma_ascii_byte_len(c);
    let b = seq!['<'] + c + seq!['>'];
    text::lemma_three_words("CQ"@, c, p);
    text::lemma_three_words("CQ"@, b, p);
    if grid_shape(p) {
        text::lemma_no_brackets(p);
    }
    if p.len() < 3 && is_ascii_chars(p) {
        lemma_shorter(p);
        text::lemma_ascii_byte_len(text::without_brackets(p));
    }
    if is_call(p) {
        lemma_call(p);
        text::lemma_ascii_byte_len(p);
    }
}

proof fn lemma_shorter(p: Seq<char>)
    requires
        is_ascii_chars(p),
    ensures
        text::without_brackets(p).len() <= p.len(),
        is_ascii_chars(text::without_brackets(p)),
    decreases p.len(),
{
    if p.len() > 0 {
        let t = p.drop_last();
        assert forall|i: int| 0 <= i < t.len() implies '\0' <= #[trigger] t[i] <= '\u{7f}' by {
            assert(t[i] == p[i]);
        }
        lemma_shorter(t);
    }
}

/// What a message to the station brings as an answer, by its last word: to a
/// grid square a report, to a report one with `R`, to that `RR73`, to `RR73`
/// and `RRR` `73`, and nothing else to anything else. The call sign of the
/// other may stand in brackets; a message to another brings no answer.
pub proof fn law_answer_by_stage(
    me: Seq<char>,
    my_grid: Seq<char>,
    from: Seq<char>,
    to: Seq<char>,
    p: Seq<char>,
    snr: int,
)
    requires
        is_call(me),
        is_call(from),
        is_call(to),
        text::is_word(p),
        is_ascii_chars(p),
    ensures
        ({
            let in_brackets = seq!['<'] + from + seq!['>'];
            let r = next_tx(me + " "@ + from + " "@ + p, me, my_grid, snr);
            let report = numbers::signed_report(snr);
            let is_square = p.len() == 4 && is_letter(p[0]) && is_letter(p[1]) && '0' <= p[2] <= '9'
                && '0' <= p[3] <= '9' && p != "RR73"@;
            let number = if p.len() > 0 && p[0] == 'R' {
                p.drop_first()
            } else {
                p
            };
            let is_number = 2 <= number.len() <= 3 && (number[0] == '+' || number[0] == '-') && '0'
                <= number[1] <= '9' && (number.len() == 3 ==> '0' <= number[2] <= '9');
            let head = from + " "@ + me + " "@;
            &&& is_square ==> r == head + report
            &&& is_number && p[0] != 'R' ==> r == head + (seq!['R'] + report)
            &&& is_number && p[0] == 'R' ==> r == head + "RR73"@
            &&& p == "RR73"@ || p == "RRR"@ ==> r == head + "73"@
            &&& !is_square && !is_number && p != "RR73"@ && p != "RRR"@ ==> r.len() == 0
            &&& next_tx(me + " "@ + in_brackets + " "@ + p, me, my_grid, snr) == r
            &&& to != me ==> next_tx(to + " "@ + from + " "@ + p, me, my_grid, snr).len() == 0
        }),
{
    reveal_strlit("CQ");
    reveal_strlit("RR73");
    reveal_strlit("RRR");
    lemma_call(me);
    lemma_call(from);
    lemma_call(to);
    lemma_bracketed_call(from);
    let in_brackets = seq!['<'] + from + seq!['>'];
    lemma_message(me, from, p);
    lemma_message(to, from, p);
    text::lemma_three_words(me, in_brackets, p);
    let number = if p[0] == 'R' {
        p.drop_first()
    } else {
        p
    };
    let is_number = 2 <= number.len() <= 3 && (number[0] == '+' || number[0] == '-') && '0'
        <= number[1] <= '9' && (number.len() == 3 ==> '0' <= number[2] <= '9');
    assert(is_number <==> patterns::signed_digits(number)) by {
        if is_number {
            assert forall|i: int| 1 <= i < number.len() implies patterns::is_digit(
                #[trigger] number[i],
            ) by {}
        }
        if patterns::signed_digits(number) {
            assert(patterns::is_digit(number[1]));
            if number.len() == 3 {
                assert(patterns::is_digit(number[2]));
            }
        }
    }
    assert(patterns::report_shape(p) <==> is_number);
    assert("RR73"@.drop_first()[0] == 'R');
    assert("RRR"@.drop_first()[0] == 'R');
}

/// A message of fewer than three words brings neither an answer nor the
/// expectation of one.
pub proof fn law_short_messages_bring_nothing(s: Seq<char>, me: Seq<char>, grid: Seq<char>, snr: int)
    requires
        text::words(s).len() < 3,
    ensures
        next_tx(s, me, grid, snr).len() == 0,
        next_expect(s, me).len() == 0,
{
}

/// What the station expects by what it sent: after a general call a grid
/// square or report from anyone, after a grid square or report a report of the
/// other, after a report with `R` or an acknowledgement an acknowledgement of
/// the other, and after `73` nothing.
pub proof fn law_expectation_by_stage(me: Seq<char>, peer: Seq<char>, p: Seq<char>)
    requires
        is_call(peer),
        is_call(me),
        text::is_word(p),
        is_ascii_chars(p),
    ensures
        ({
            let e = next_expect(peer + " "@ + me + " "@ + p, me);
            let start = "^<?"@ + me + ">?\\s+<?"@;
            &&& next_expect("CQ"@ + " "@ + me + " "@ + p, me) == start
                + "[A-Z0-9/]+>?\\s+([A-Z][0-9A-Z][0-9]{2}|[+-]\\d{1,2})"@
            &&& p != "RR73"@ && grid_shape(p) ==> e == start + peer + ">?\\s+R?[+-]\\d{1,2}"@
            &&& patterns::signed_digits(p) ==> e == start + peer + ">?\\s+R?[+-]\\d{1,2}"@
            &&& p[0] == 'R' && patterns::signed_digits(p.drop_first()) ==> e == start + peer
                + ">?\\s+(RR73|RRR|73)"@
            &&& p == "RR73"@ || p == "RRR"@ ==> e == start + peer + ">?\\s+(RR73|RRR|73)"@
            &&& p == "73"@ ==> e.len() == 0
        }),
{
    reveal_strlit("CQ");
    reveal_strlit("RR73");
    reveal_strlit("RRR");
    reveal_strlit("73");
    reveal_strlit(">?\\s+<?");
    reveal_strlit(">?\\s+<?[A-Z0-9/]+>?\\s+([A-Z][0-9A-Z][0-9]{2}|[+-]\\d{1,2})");
    reveal_strlit("[A-Z0-9/]+>?\\s+([A-Z][0-9A-Z][0-9]{2}|[+-]\\d{1,2})");
    lemma_call(me);
    lemma_call(peer);
    text::lemma_no_brackets("CQ"@);
    lemma_message(peer, me, p);
    lemma_message("CQ"@, me, p);
    let start = "^<?"@ + me + ">?\\s+<?"@;
    assert(start + "[A-Z0-9/]+>?\\s+([A-Z][0-9A-Z][0-9]{2}|[+-]\\d{1,2})"@
        =~= patterns::cq_pattern(me));
    if patterns::signed_digits(p) {
        assert(p[0] == '+' || p[0] == '-');
    }
    if p[0] == 'R' && patterns::signed_digits(p.drop_first()) {
        assert(p[1] == p.drop_first()[0]);
    }
}

/// The station is addressed with or without brackets around its call sign; what
/// follows the third word does not matter; and a sender that is not known, or
/// whose call sign is too short, is not answered.
pub proof fn law_how_the_station_is_addressed(
    me: Seq<char>,
    my_grid: Seq<char>,
    from: Seq<char>,
    p: Seq<char>,
    q: Seq<char>,
    snr: int,
)
    requires
        is_call(me),
        is_call(from),
        text::is_word(p),
        text::is_word(q),
    ensures
        ({
            let plain = next_tx(me + " "@ + from + " "@ + p, me, my_grid, snr);
            let hashed = seq!['<'] + me + seq!['>'];
            &&& next_tx(hashed + " "@ + from + " "@ + p, me, my_grid, snr) == plain
            &&& next_tx(me + " "@ + from + " "@ + p + " "@ + q, me, my_grid, snr) == plain
            &&& next_tx(me + " "@ + "..."@ + " "@ + p, me, my_grid, snr).len() == 0
            &&& next_tx("CQ"@ + " "@ + "..."@ + " "@ + p, me, my_grid, snr).len() == 0
            &&& next_tx(me + " "@ + from.take(2) + " "@ + p, me, my_grid, snr).len() == 0
        }),
{
    reveal_strlit("CQ");
    reveal_strlit("...");
    lemma_call(me);
    lemma_call(from);
    lemma_bracketed_call(me);
    text::lemma_no_brackets("..."@);
    text::lemma_no_brackets("CQ"@);
    let short = from.take(2);
    assert forall|i: int| 0 <= i < short.len() implies !text::white_space(#[trigger] short[i])
        && !text::CharClass::Angle.has(short[i]) && '\0' <= short[i] <= '\u{7f}' by {
        assert(short[i] == from[i]);
    }
    text::lemma_no_brackets(short);
    text::lemma_ascii_byte_len(short);
    lemma_message(me, from, p);
    text::lemma_three_words(seq!['<'] + me + seq!['>'], from, p);
    lemma_four_words(me, from, p, q);
    text::lemma_three_words(me, "..."@, p);
    text::lemma_three_words("CQ"@, "..."@, p);
    text::lemma_three_words(me, short, p);
}

} // verus!
