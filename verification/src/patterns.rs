//! Patterns on message texts.
use crate::text;
use vstd::prelude::*;
use vstd::utf8::*;

verus! {

/// Whether the regex crate accepts a pattern.
pub uninterp spec fn regex_accepts(pattern: Seq<char>) -> bool;

/// Whether the regex crate finds a pattern that it accepts in a text.
pub uninterp spec fn regex_finds(pattern: Seq<char>, text: Seq<char>) -> bool;

/// Whether a character is a decimal digit.
pub open spec fn is_digit(c: char) -> bool {
    '0' <= c <= '9'
}

/// Whether a text is a sign and one or two digits.
pub open spec fn signed_digits(s: Seq<char>) -> bool {
    &&& 2 <= s.len() <= 3
    &&& s[0] == '+' || s[0] == '-'
    &&& forall|i: int| 1 <= i < s.len() ==> is_digit(#[trigger] s[i])
}

/// Whether a text is a signal report: `R` or nothing, a sign and one or two digits.
pub open spec fn report_shape(s: Seq<char>) -> bool {
    signed_digits(s) || (s.len() > 0 && s[0] == 'R' && signed_digits(s.drop_first()))
}

/// Whether a text is made of digits, upper-case letters and slashes:
/// characters that stand for themselves in a pattern.
pub open spec fn is_plain(s: Seq<char>) -> bool {
    &&& s.len() >= 1
    &&& forall|i: int|
        0 <= i < s.len() ==> is_digit(#[trigger] s[i]) || 'A' <= s[i] <= 'Z' || s[i] == '/'
}

/// Whether a text is made of at most 32 such characters.
pub open spec fn is_short(s: Seq<char>) -> bool {
    is_plain(s) && s.len() <= 32
}

/// Whether a text is a call sign, with or without a bracket on each side.
pub open spec fn bracketed(s: Seq<char>, call: Seq<char>) -> bool {
    ||| s == call
    ||| s == seq!['<'] + call
    ||| s == call + seq!['>']
    ||| s == seq!['<'] + call + seq!['>']
}

/// Whether a text is white space, and not empty.
pub open spec fn is_gap(s: Seq<char>) -> bool {
    s.len() > 0 && forall|i: int| 0 <= i < s.len() ==> text::white_space(#[trigger] s[i])
}

/// Whether a text begins with two call signs, which end at `i` and `k`, and
/// gaps, which end at `j` and `at`.
pub open spec fn addressed(
    s: Seq<char>,
    me: Seq<char>,
    from: Seq<char>,
    i: int,
    j: int,
    k: int,
    at: int,
) -> bool {
    &&& 0 <= i <= j <= k <= at <= s.len()
    &&& bracketed(s.subrange(0, i), me)
    &&& is_gap(s.subrange(i, j))
    &&& bracketed(s.subrange(j, k), from)
    &&& is_gap(s.subrange(k, at))
}

/// Whether a sign and a digit follow at an index.
pub open spec fn sign_ahead(s: Seq<char>, at: int) -> bool {
    at + 2 <= s.len() && (s[at] == '+' || s[at] == '-') && is_digit(s[at + 1])
}

/// Whether a text begins with a report from a station.
pub open spec fn reports_to(s: Seq<char>, me: Seq<char>, from: Seq<char>) -> bool {
    exists|i: int, j: int, k: int, at: int| #[trigger]
        addressed(s, me, from, i, j, k, at) && (sign_ahead(s, at) || (at < s.len() && s[at] == 'R'
            && sign_ahead(s, at + 1)))
}

/// Whether a text begins with an acknowledgement from a station.
pub open spec fn acknowledges(s: Seq<char>, me: Seq<char>, from: Seq<char>) -> bool {
    exists|i: int, j: int, k: int, at: int| #[trigger]
        addressed(s, me, from, i, j, k, at) && (text::starts_with(s.skip(at), "RR73"@)
            || text::starts_with(s.skip(at), "RRR"@) || text::starts_with(s.skip(at), "73"@))
}

/// Whether a grid square, in upper case and maybe with a digit for its second
/// letter, follows at an index.
pub open spec fn grid_ahead(s: Seq<char>, at: int) -> bool {
    &&& at + 4 <= s.len()
    &&& 'A' <= s[at] <= 'Z'
    &&& is_digit(s[at + 1]) || 'A' <= s[at + 1] <= 'Z'
    &&& is_digit(s[at + 2])
    &&& is_digit(s[at + 3])
}

/// Whether a text begins with a first answer to a general call.
pub open spec fn calls_back(s: Seq<char>, me: Seq<char>) -> bool {
    exists|from: Seq<char>, i: int, j: int, k: int, at: int|
        is_plain(from) && #[trigger] addressed(s, me, from, i, j, k, at) && (grid_ahead(s, at)
            || sign_ahead(s, at))
}

/// Whether a text ends with a sign and one or two digits.
pub open spec fn report_at_end(s: Seq<char>) -> bool {
    let n = s.len() as int;
    ||| n >= 2 && signed_digits(s.skip(n - 2))
    ||| n >= 3 && signed_digits(s.skip(n - 3))
}

/// The pattern of a signal report.
pub open spec fn snr_pattern() -> Seq<char> {
    "^R?[+-]\\d{1,2}$"@
}

/// The pattern of a text that ends with a signal report.
pub open spec fn report_end_pattern() -> Seq<char> {
    "R?[+-]\\d{1,2}$"@
}

/// The pattern of a first answer to a general call.
pub open spec fn cq_pattern(me: Seq<char>) -> Seq<char> {
    "^<?"@ + me + ">?\\s+<?[A-Z0-9/]+>?\\s+([A-Z][0-9A-Z][0-9]{2}|[+-]\\d{1,2})"@
}

/// The pattern of a report from a station.
pub open spec fn report_pattern(me: Seq<char>, target: Seq<char>) -> Seq<char> {
    "^<?"@ + me + ">?\\s+<?"@ + target + ">?\\s+R?[+-]\\d{1,2}"@
}

/// The pattern of an acknowledgement from a station.
pub open spec fn ack_pattern(me: Seq<char>, target: Seq<char>) -> Seq<char> {
    "^<?"@ + me + ">?\\s+<?"@ + target + ">?\\s+(RR73|RRR|73)"@
}

/// `Regex::new` of the regex crate: whether it accepts a pattern.
///
/// The syntax of patterns is named and not written out. Claimed is that the
/// two patterns of reports are accepted, and the patterns of answers where
/// the call signs in them are short.
#[verifier::external_body]
pub(crate) fn pattern_accepted(pattern: &str) -> (r: bool)
    ensures
        r == regex_accepts(pattern@),
        pattern@ == snr_pattern() || pattern@ == report_end_pattern() ==> r,
        forall|me: Seq<char>| pattern@ == #[trigger] cq_pattern(me) && is_short(me) ==> r,
        forall|me: Seq<char>, from: Seq<char>|
            pattern@ == #[trigger] report_pattern(me, from) && is_short(me) && is_short(from) ==> r,
        forall|me: Seq<char>, from: Seq<char>|
            pattern@ == #[trigger] ack_pattern(me, from) && is_short(me) && is_short(from) ==> r,
{
    regex::Regex::new(pattern).is_ok()
}

/// `Regex::is_match` of the regex crate: whether a pattern that is accepted
/// occurs in a text.
///
/// What patterns mean is named and not written out. Claimed is, for ASCII
/// text, what the two patterns of reports find, and what the patterns of
/// answers find where the call signs in them are plain. On other text these
/// patterns also take the digits and the white space of other scripts, which
/// is left open.
#[verifier::external_body]
pub(crate) fn pattern_occurs(pattern: &str, text: &str) -> (r: bool)
    requires
        regex_accepts(pattern@),
    ensures
        r == regex_finds(pattern@, text@),
        pattern@ == snr_pattern() && is_ascii_chars(text@) ==> r == report_shape(text@),
        pattern@ == report_end_pattern() && is_ascii_chars(text@) ==> r == report_at_end(text@),
        forall|me: Seq<char>|
            pattern@ == #[trigger] cq_pattern(me) && is_plain(me) && is_ascii_chars(text@) ==> r
                == calls_back(text@, me),
        forall|me: Seq<char>, from: Seq<char>|
            pattern@ == #[trigger] report_pattern(me, from) && is_plain(me) && is_plain(from)
                && is_ascii_chars(text@) ==> r == reports_to(text@, me, from),
        forall|me: Seq<char>, from: Seq<char>|
            pattern@ == #[trigger] ack_pattern(me, from) && is_plain(me) && is_plain(from)
                && is_ascii_chars(text@) ==> r == acknowledges(text@, me, from),
{
    regex::Regex::new(pattern).unwrap().is_match(text)
}

/// Whether a pattern is that of an answer, with short call signs.
pub open spec fn is_short_answer(pattern: Seq<char>) -> bool {
    ||| exists|me: Seq<char>| pattern == #[trigger] cq_pattern(me) && is_short(me)
    ||| exists|me: Seq<char>, from: Seq<char>|
        pattern == #[trigger] report_pattern(me, from) && is_short(me) && is_short(from)
    ||| exists|me: Seq<char>, from: Seq<char>|
        pattern == #[trigger] ack_pattern(me, from) && is_short(me) && is_short(from)
}

/// Whether a pattern is accepted. Those of answers with short call signs are.
pub open spec fn accepted(pattern: Seq<char>) -> bool {
    is_short_answer(pattern) || regex_accepts(pattern)
}

/// Tells whether a pattern is accepted.
pub(crate) fn is_accepted(pattern: &str) -> (r: bool)
    ensures
        r == accepted(pattern@),
        r == regex_accepts(pattern@),
{
    pattern_accepted(pattern)
}

/// Whether a pattern is that of an answer, with plain call signs.
pub open spec fn is_answer(pattern: Seq<char>) -> bool {
    ||| exists|me: Seq<char>| pattern == #[trigger] cq_pattern(me) && is_plain(me)
    ||| exists|me: Seq<char>, from: Seq<char>|
        pattern == #[trigger] report_pattern(me, from) && is_plain(me) && is_plain(from)
    ||| exists|me: Seq<char>, from: Seq<char>|
        pattern == #[trigger] ack_pattern(me, from) && is_plain(me) && is_plain(from)
}

/// Whether a text is an answer of a pattern.
pub open spec fn is_answered(pattern: Seq<char>, s: Seq<char>) -> bool {
    ||| exists|me: Seq<char>|
        pattern == #[trigger] cq_pattern(me) && is_plain(me) && calls_back(s, me)
    ||| exists|me: Seq<char>, from: Seq<char>|
        pattern == #[trigger] report_pattern(me, from) && is_plain(me) && is_plain(from)
            && reports_to(s, me, from)
    ||| exists|me: Seq<char>, from: Seq<char>|
        pattern == #[trigger] ack_pattern(me, from) && is_plain(me) && is_plain(from)
            && acknowledges(s, me, from)
}

/// Whether a pattern occurs in a text. Of the patterns of answers and ASCII
/// texts the words decide.
pub open spec fn found(pattern: Seq<char>, s: Seq<char>) -> bool {
    if is_ascii_chars(s) && is_answer(pattern) {
        is_answered(pattern, s)
    } else {
        regex_finds(pattern, s)
    }
}

/// Tells whether a pattern is accepted and occurs in a text.
pub(crate) fn is_found(pattern: &str, s: &str) -> (r: bool)
    ensures
        r == (accepted(pattern@) && found(pattern@, s@)),
{
    is_accepted(pattern) && pattern_occurs(pattern, s)
}

/// Whether a text is a signal report. Of ASCII texts the shape decides.
pub open spec fn is_report(s: Seq<char>) -> bool {
    if is_ascii_chars(s) {
        report_shape(s)
    } else {
        regex_finds(snr_pattern(), s)
    }
}

/// Whether a text ends with a signal report. Of ASCII texts the shape decides.
pub open spec fn ends_in_report(s: Seq<char>) -> bool {
    if is_ascii_chars(s) {
        report_at_end(s)
    } else {
        regex_finds(report_end_pattern(), s)
    }
}

} // verus!
