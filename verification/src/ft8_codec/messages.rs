//! Which decoded texts are taken for messages, and whose they are.
use super::ldpc_decoder;
use super::ldpc_decoder::{DecodeResult, CODE_BITS, MESSAGE_BITS};
use super::packjt77;
use super::packjt77::{unpack77, Ft8Message, HashCache};
use super::symbols;
use super::symbols::{get_tones_from_result, NN};
use crate::numbers;
use crate::text;
use crate::text::{byte_length, chars_of, contains_text, same_text, split_at_char, split_words, trimmed};
use vstd::hash_set::StringHashSet;
use vstd::prelude::*;
use vstd::slice::slice_subrange;
use vstd::utf8::*;

verus! {

/// Reads the message in the first 77 of some bits.
pub fn parse_ft8_message(cache: &mut HashCache, bits: &[u8]) -> (r: Option<Ft8Message>)
    requires
        bits@.len() >= 77 ==> !packjt77::is_wide_telemetry(bits@.take(77)),
    ensures
        (match r {
            Some(m) => Some(m@),
            None => None,
        }) == (if bits@.len() < 77 {
            None
        } else {
            packjt77::unpacked(old(cache)@, bits@.take(77))
        }),
        final(cache)@ == if bits@.len() < 77 {
            old(cache)@
        } else {
            packjt77::tables_after(old(cache)@, bits@.take(77))
        },
{
    if bits.len() < 77 {
        return None;
    }
    let first = slice_subrange(bits, 0, 77);
    assert(first@ =~= bits@.take(77));
    unpack77(cache, first, false)
}

/// Whether a character may occur in a message.
pub open spec fn message_char(c: char) -> bool {
    text::alphanumeric(c) || " /+-;[]<>:."@.contains(c)
}

/// Whether a word of a message has its slashes in sensible places and is not
/// too long.
pub open spec fn good_part(s: Seq<char>) -> bool {
    &&& s.contains('/') ==> {
        &&& s[0] != '/'
        &&& s.last() != '/'
        &&& !text::contains(s, "//"@)
        &&& text::pieces(s, '/').len() <= 3
    }
    &&& text::byte_len(s) <= 13
}

/// Whether a text looks like a message and not like noise.
pub open spec fn likely_valid(msg: Seq<char>) -> bool {
    let up = text::uppercase(text::trim(msg));
    let parts = text::words(up);
    &&& text::byte_len(up) >= 3
    &&& !text::contains(up, "??"@)
    &&& forall|i: int| 0 <= i < up.len() ==> message_char(#[trigger] up[i])
    &&& 2 <= parts.len() <= 4
    &&& parts.len() == 4 ==> parts[0] == "CQ"@
    &&& forall|i: int| 0 <= i < parts.len() ==> good_part(#[trigger] parts[i])
}

fn is_message_char(c: char) -> (r: bool)
    ensures
        r == message_char(c),
{
    proof {
        reveal_strlit(" /+-;[]<>:.");
    }
    let ghost signs = " /+-;[]<>:."@;
    assert(signs.len() == 11);
    assert(signs[0] == ' ' && signs[1] == '/' && signs[2] == '+' && signs[3] == '-' && signs[4]
        == ';' && signs[5] == '[' && signs[6] == ']' && signs[7] == '<' && signs[8] == '>'
        && signs[9] == ':' && signs[10] == '.');
    c.is_alphanumeric() || c == ' ' || c == '/' || c == '+' || c == '-' || c == ';' || c == '['
        || c == ']' || c == '<' || c == '>' || c == ':' || c == '.'
}

fn is_good_part(s: &str) -> (r: bool)
    requires
        s@.len() > 0,
    ensures
        r == good_part(s@),
{
    let v = chars_of(s);
    let n = v.len();
    if text::contains_char(s, '/') {
        if v[0] == '/' || v[n - 1] == '/' || contains_text(s, "//") {
            return false;
        }
        if split_at_char(s, '/').len() > 3 {
            return false;
        }
    }
    byte_length(s) <= 13
}

/// Tells whether a text looks like a message and not like noise.
pub fn is_likely_valid_msg(msg: &str) -> (r: bool)
    ensures
        r == likely_valid(msg@),
{
    let up = trimmed(msg).as_str().to_uppercase();
    if contains_text(up.as_str(), "??") || byte_length(up.as_str()) < 3 {
        return false;
    }
    let v = chars_of(up.as_str());
    let mut i: usize = 0;
    while i < v.len()
        invariant
            v@ == up@,
            up@ == text::uppercase(text::trim(msg@)),
            i <= v@.len(),
            forall|k: int| 0 <= k < i ==> message_char(#[trigger] up@[k]),
        decreases v@.len() - i,
    {
        if !is_message_char(v[i]) {
            assert(!message_char(up@[i as int]));
            return false;
        }
        i += 1;
    }
    let parts = split_words(up.as_str());
    let ghost all = text::words(up@);
    if parts.len() < 2 || parts.len() > 4 {
        return false;
    }
    if parts.len() == 4 && !same_text(parts[0].as_str(), "CQ") {
        assert(all[0] == parts@[0]@);
        return false;
    }
    assert(all[0] == parts@[0]@);
    let mut k: usize = 0;
    while k < parts.len()
        invariant
            up@ == text::uppercase(text::trim(msg@)),
            all == text::words(up@),
            all == text::texts(parts@),
            k <= parts@.len(),
            forall|j: int| 0 <= j < k ==> good_part(#[trigger] all[j]),
        decreases parts@.len() - k,
    {
        proof {
            text::lemma_words_not_empty(up@, k as int);
        }
        assert(all[k as int] == parts@[k as int]@);
        if !is_good_part(parts[k].as_str()) {
            return false;
        }
        k += 1;
    }
    true
}

/// Whether a word can stand in a message: at most thirteen letters, digits
/// and signs, with at most two slashes, each between other characters.
pub open spec fn is_message_word(w: Seq<char>) -> bool {
    &&& 1 <= w.len() <= 13
    &&& forall|i: int|
        0 <= i < w.len() ==> {
            ||| 'A' <= #[trigger] w[i] <= 'Z'
            ||| 'a' <= w[i] <= 'z'
            ||| '0' <= w[i] <= '9'
            ||| w[i] == '/' || w[i] == '+' || w[i] == '-' || w[i] == '.'
            ||| w[i] == '<' || w[i] == '>' || w[i] == '[' || w[i] == ']'
            ||| w[i] == ':' || w[i] == ';'
        }
    &&& w[0] != '/'
    &&& w.last() != '/'
    &&& forall|i: int| 0 < i < w.len() && #[trigger] w[i] == '/' ==> w[i - 1] != '/'
    &&& text::count_of(w, '/') <= 2
}

proof fn lemma_message_char(c: char)
    requires
        c as u32 <= 127,
    ensures
        message_char(c) <==> c == ' ' || {
            ||| 'A' <= c <= 'Z'
            ||| 'a' <= c <= 'z'
            ||| '0' <= c <= '9'
            ||| c == '/' || c == '+' || c == '-' || c == '.'
            ||| c == '<' || c == '>' || c == '[' || c == ']'
            ||| c == ':' || c == ';'
        },
{
    reveal_strlit(" /+-;[]<>:.");
    let signs = " /+-;[]<>:."@;
    assert(signs.len() == 11);
    assert(signs[0] == ' ' && signs[1] == '/' && signs[2] == '+' && signs[3] == '-' && signs[4]
        == ';' && signs[5] == '[' && signs[6] == ']' && signs[7] == '<' && signs[8] == '>'
        && signs[9] == ':' && signs[10] == '.');
}

/// A word of ASCII is good and made of the characters of messages if and only
/// if it can stand in one.
proof fn lemma_message_word(w: Seq<char>)
    requires
        text::is_word(w),
        is_ascii_chars(w),
    ensures
        is_message_word(w) <==> good_part(w) && forall|i: int|
            0 <= i < w.len() ==> message_char(#[trigger] w[i]),
{
    text::lemma_ascii_byte_len(w);
    text::law_pieces_between_separators(w, '/');
    reveal_strlit("//");
    assert forall|i: int| 0 <= i < w.len() implies w[i] != ' ' && (#[trigger] w[i]) as u32
        <= 127 by {
        assert(!text::white_space(w[i]));
    }
    if is_message_word(w) {
        if text::contains(w, "//"@) {
            let i = choose|i: int| #[trigger] text::occurs_at(w, "//"@, i);
            assert(w.subrange(i, i + 2)[0] == '/' && w.subrange(i, i + 2)[1] == '/');
            assert(w[i + 1] == '/' && w[i] == '/');
        }
        assert forall|i: int| 0 <= i < w.len() implies message_char(#[trigger] w[i]) by {
            lemma_message_char(w[i]);
        }
    }
    if good_part(w) && forall|i: int| 0 <= i < w.len() ==> message_char(#[trigger] w[i]) {
        assert forall|i: int| 0 < i < w.len() && #[trigger] w[i] == '/' implies w[i - 1]
            != '/' by {
            if w[i - 1] == '/' {
                assert(w.subrange(i - 1, i + 1) =~= "//"@);
                assert(text::occurs_at(w, "//"@, i - 1));
            }
        }
        if !w.contains('/') {
            lemma_no_slash(w);
        }
        assert(w[0] != '/' && w.last() != '/') by {
            if w[0] == '/' || w.last() == '/' {
                assert(w.contains('/'));
            }
        }
        assert forall|i: int| 0 <= i < w.len() implies {
            ||| 'A' <= #[trigger] w[i] <= 'Z'
            ||| 'a' <= w[i] <= 'z'
            ||| '0' <= w[i] <= '9'
            ||| w[i] == '/' || w[i] == '+' || w[i] == '-' || w[i] == '.'
            ||| w[i] == '<' || w[i] == '>' || w[i] == '[' || w[i] == ']'
            ||| w[i] == ':' || w[i] == ';'
        } by {
            assert(message_char(w[i]));
            lemma_message_char(w[i]);
        }
    }
}

proof fn lemma_no_slash(w: Seq<char>)
    requires
        forall|i: int| 0 <= i < w.len() ==> w[i] != '/',
    ensures
        text::count_of(w, '/') == 0,
    decreases w.len(),
{
    if w.len() > 0 {
        let t = w.drop_first();
        assert forall|i: int| 0 <= i < t.len() implies t[i] != '/' by {
            assert(t[i] == w[i + 1]);
        }
        lemma_no_slash(t);
    }
}

/// Words of ASCII are taken for a message if and only if there are two or
/// three of them, or four after `CQ`, and each can stand in a message.
pub proof fn law_words_of_a_message(v: Seq<Seq<char>>)
    requires
        v.len() > 0,
        forall|i: int|
            0 <= i < v.len() ==> text::is_word(#[trigger] v[i]) && is_ascii_chars(v[i]),
        forall|i: int, k: int|
            0 <= i < v.len() && 0 <= k < v[i].len() ==> !('a' <= #[trigger] v[i][k] <= 'z'),
    ensures
        likely_valid(text::joined(v, ' ')) <==> {
            &&& v.len() == 2 || v.len() == 3 || (v.len() == 4 && v[0] == seq!['C', 'Q'])
            &&& forall|i: int| 0 <= i < v.len() ==> is_message_word(#[trigger] v[i])
        },
{
    reveal_strlit("CQ");
    reveal_strlit("??");
    let s = text::joined(v, ' ');
    assert("CQ"@ =~= seq!['C', 'Q']);
    let ascii = |c: char| '\0' <= c <= '\u{7f}';
    let not_small = |c: char| !('a' <= c <= 'z');
    let sign = |c: char| message_char(c);
    lemma_message_char(' ');
    text::lemma_joined_chars(v, ascii);
    text::lemma_joined_chars(v, not_small);
    text::lemma_joined_chars(v, sign);
    text::law_words_put_together(v);
    assert forall|i: int, k: int| 0 <= i < v.len() && 0 <= k < v[i].len() implies ascii(
        #[trigger] v[i][k],
    ) && not_small(v[i][k]) by {
        assert(is_ascii_chars(v[i]));
    }
    assert forall|i: int| 0 <= i < s.len() implies '\0' <= #[trigger] s[i] <= '\u{7f}' && !('a'
        <= s[i] <= 'z') by {
        assert(ascii(s[i]) && not_small(s[i]));
    }
    assert(text::is_word(v[0]) && text::is_word(v.last()));
    text::lemma_trim_none(s);
    text::lemma_upper_none(s);
    text::lemma_ascii_byte_len(s);
    assert forall|i: int| 0 <= i < v.len() implies (is_message_word(#[trigger] v[i]) <==> good_part(
        v[i],
    ) && forall|k: int| 0 <= k < v[i].len() ==> message_char(#[trigger] v[i][k])) by {
        lemma_message_word(v[i]);
    }
    if forall|i: int| 0 <= i < s.len() ==> message_char(#[trigger] s[i]) {
        assert forall|i: int| 0 <= i < s.len() implies sign(#[trigger] s[i]) by {}
        assert forall|i: int, k: int| 0 <= i < v.len() && 0 <= k < v[i].len() implies message_char(
            #[trigger] v[i][k],
        ) by {
            assert(sign(v[i][k]));
        }
        if text::contains(s, "??"@) {
            let i = choose|i: int| #[trigger] text::occurs_at(s, "??"@, i);
            assert(s.subrange(i, i + 2)[0] == '?');
            assert(s[i] == '?');
            lemma_message_char(s[i]);
        }
    }
    if forall|i: int| 0 <= i < v.len() ==> is_message_word(#[trigger] v[i]) {
        assert forall|i: int, k: int| 0 <= i < v.len() && 0 <= k < v[i].len() implies sign(
            #[trigger] v[i][k],
        ) by {
            assert(is_message_word(v[i]));
        }
        assert forall|i: int| 0 <= i < s.len() implies message_char(#[trigger] s[i]) by {
            assert(sign(s[i]));
        }
    }
}

/// Whether a text is taken for a message does not depend on the case of its
/// letters, nor on white space at its ends.
pub proof fn law_case_and_ends_do_not_matter(s: Seq<char>, c: char)
    requires
        is_ascii_chars(s),
        text::white_space(c),
        c as u32 <= 127,
    ensures
        likely_valid(text::ascii_upper(s)) == likely_valid(s),
        likely_valid(seq![c] + s) == likely_valid(s),
        likely_valid(s.push(c)) == likely_valid(s),
{
    text::lemma_trim_upper(s);
    text::lemma_trim_upper(text::trim(s));
    text::law_trim_forgets_white_space(s, c);
}

/// Whether a text is a call sign of letters and digits, as standard messages
/// name them.
pub open spec fn is_plain_call(c: Seq<char>) -> bool {
    &&& 3 <= c.len() <= 11
    &&& forall|i: int| 0 <= i < c.len() ==> '0' <= #[trigger] c[i] <= '9' || 'A' <= c[i] <= 'Z'
}

/// A word of letters, digits and signs other than slashes can stand in a message.
proof fn lemma_plain_word(w: Seq<char>)
    requires
        1 <= w.len() <= 13,
        forall|i: int|
            0 <= i < w.len() ==> 'A' <= #[trigger] w[i] <= 'Z' || '0' <= w[i] <= '9' || w[i] == '+'
                || w[i] == '-',
    ensures
        is_large_word(w),
{
    lemma_no_slash(w);
}

/// Whether a text is a word that can stand in a message, without small letters.
spec fn is_large_word(w: Seq<char>) -> bool {
    &&& is_message_word(w)
    &&& text::is_word(w)
    &&& is_ascii_chars(w)
    &&& forall|i: int| 0 <= i < w.len() ==> !('a' <= #[trigger] w[i] <= 'z')
}

proof fn lemma_large_words(v: Seq<Seq<char>>)
    requires
        v.len() == 2 || v.len() == 3 || (v.len() == 4 && v[0] == seq!['C', 'Q']),
        forall|i: int| 0 <= i < v.len() ==> is_large_word(#[trigger] v[i]),
    ensures
        likely_valid(text::joined(v, ' ')),
{
    assert forall|i: int| 0 <= i < v.len() implies text::is_word(#[trigger] v[i])
        && is_ascii_chars(v[i]) && is_message_word(v[i]) by {
        assert(is_large_word(v[i]));
    }
    assert forall|i: int, k: int| 0 <= i < v.len() && 0 <= k < v[i].len() implies !('a'
        <= #[trigger] v[i][k] <= 'z') by {
        assert(is_large_word(v[i]));
    }
    law_words_of_a_message(v);
}

proof fn lemma_two_words(a: Seq<char>, b: Seq<char>)
    requires
        is_large_word(a),
        is_large_word(b),
    ensures
        likely_valid(a + " "@ + b),
{
    reveal_strlit(" ");
    let v = seq![a, b];
    lemma_large_words(v);
    assert(v.drop_first() =~= seq![b]);
    assert(text::joined(v.drop_first(), ' ') == b);
    assert(text::joined(v, ' ') =~= a + " "@ + b);
}

proof fn lemma_three_words(a: Seq<char>, b: Seq<char>, c: Seq<char>)
    requires
        is_large_word(a),
        is_large_word(b),
        is_large_word(c),
    ensures
        likely_valid(a + " "@ + b + " "@ + c),
{
    reveal_strlit(" ");
    let v = seq![a, b, c];
    lemma_large_words(v);
    let t = v.drop_first();
    assert(t =~= seq![b, c]);
    assert(t.drop_first() =~= seq![c]);
    assert(text::joined(t.drop_first(), ' ') == c);
    assert(text::joined(t, ' ') =~= b + " "@ + c);
    assert(text::joined(v, ' ') =~= a + " "@ + b + " "@ + c);
}

/// Every message of a contact is taken for one: between two call signs, with
/// a report from -99 to +99 with or without `R`, or with a grid square or an
/// acknowledgement; and a general call, to all or to some.
pub proof fn law_contact_messages_are_likely(a: Seq<char>, b: Seq<char>, n: int, p: Seq<char>)
    requires
        is_plain_call(a),
        is_plain_call(b),
        -99 <= n <= 99,
        1 <= p.len() <= 13,
        forall|i: int| 0 <= i < p.len() ==> 'A' <= #[trigger] p[i] <= 'Z' || '0' <= p[i] <= '9',
    ensures
        likely_valid(a + " "@ + b + " "@ + numbers::signed_report(n)),
        likely_valid(a + " "@ + b + " R"@ + numbers::signed_report(n)),
        likely_valid(a + " "@ + b + " "@ + p),
        likely_valid(a + " "@ + b),
        likely_valid("CQ "@ + b + " "@ + p),
        likely_valid("CQ "@ + a + " "@ + b + " "@ + p),
{
    lemma_report_words(n);
    let r = numbers::signed_report(n);
    let rr = seq!['R'] + r;
    let cq = seq!['C', 'Q'];
    lemma_plain_word(a);
    lemma_plain_word(b);
    lemma_plain_word(p);
    lemma_plain_word(cq);
    lemma_three_words(a, b, r);
    lemma_three_words(a, b, rr);
    lemma_three_words(a, b, p);
    lemma_two_words(a, b);
    lemma_three_words(cq, b, p);
    lemma_four_words(a, b, p);
    assert(a + " "@ + b + " R"@ + r == a + " "@ + b + " "@ + rr) by {
        lemma_r(a + " "@ + b, r);
    }
    assert("CQ "@ + b == cq + " "@ + b) by {
        reveal_strlit("CQ ");
        reveal_strlit(" ");
        assert("CQ "@ + b =~= cq + " "@ + b);
    }
}

proof fn lemma_r(head: Seq<char>, r: Seq<char>)
    ensures
        head + " R"@ + r == head + " "@ + (seq!['R'] + r),
{
    reveal_strlit(" R");
    reveal_strlit(" ");
    assert(head + " R"@ + r =~= head + " "@ + (seq!['R'] + r));
}

proof fn lemma_report_words(n: int)
    requires
        -99 <= n <= 99,
    ensures
        is_large_word(numbers::signed_report(n)),
        is_large_word(seq!['R'] + numbers::signed_report(n)),
{
    numbers::lemma_report_shape(n);
    let r = numbers::signed_report(n);
    let rr = seq!['R'] + r;
    lemma_plain_word(r);
    lemma_plain_word(rr);
}

proof fn lemma_four_words(a: Seq<char>, b: Seq<char>, c: Seq<char>)
    requires
        is_large_word(a),
        is_large_word(b),
        is_large_word(c),
    ensures
        likely_valid("CQ "@ + a + " "@ + b + " "@ + c),
{
    let cq = seq!['C', 'Q'];
    lemma_plain_word(cq);
    let v = seq![cq, a, b, c];
    lemma_large_words(v);
    let t = v.drop_first();
    assert(t =~= seq![a, b, c]);
    assert(t.drop_first() =~= seq![b, c]);
    assert(t.drop_first().drop_first() =~= seq![c]);
    assert(text::joined(seq![c], ' ') == c);
    assert(text::joined(seq![b, c], ' ') == b + seq![' '] + c);
    assert(text::joined(t, ' ') == a + seq![' '] + (b + seq![' '] + c));
    assert(text::joined(v, ' ') == cq + seq![' '] + (a + seq![' '] + (b + seq![' '] + c)));
    assert("CQ "@ + a + " "@ + b + " "@ + c == cq + seq![' '] + (a + seq![' '] + (b + seq![' ']
        + c))) by {
        reveal_strlit(" ");
        reveal_strlit("CQ ");
        assert("CQ "@ + a + " "@ + b + " "@ + c =~= cq + seq![' '] + (a + seq![' '] + (b
            + seq![' '] + c)));
    }
}

/// A standard message that is read with two call signs of letters and digits
/// is taken for a message, whatever else it brings: a report, a grid square
/// without `R` before it, an acknowledgement or nothing.
pub proof fn law_standard_messages_are_taken(
    t: packjt77::CallTables,
    bits: Seq<u8>,
    m: packjt77::MessageText,
)
    requires
        bits.len() >= 77,
        packjt77::bits_value(bits, 74, 3) == 1 || packjt77::bits_value(bits, 74, 3) == 2,
        packjt77::unpacked(t, bits) == Some(m),
        is_plain_call(m.call_1->0),
        is_plain_call(m.call_2->0),
        packjt77::bits_value(bits, 59, 15) < 32400 ==> !packjt77::bit_at(bits, 58),
        packjt77::bits_value(bits, 59, 15) <= 32635,
    ensures
        likely_valid(m.text),
{
    packjt77::law_standard_message_by_its_bits(t, bits);
    let n = packjt77::bits_value(bits, 59, 15) as int;
    let acknowledged = packjt77::bit_at(bits, 58);
    lemma_taken(m, n, acknowledged);
}

#[verifier::rlimit(40)]
proof fn lemma_taken(m: packjt77::MessageText, n: int, acknowledged: bool)
    requires
        0 <= n <= 32635,
        n < 32400 ==> !acknowledged,
        is_plain_call(m.call_1->0),
        is_plain_call(m.call_2->0),
        ({
            let head = m.call_1->0 + " "@ + m.call_2->0;
            let square = m.text.skip(m.text.len() - 4);
            &&& n < 32400 ==> {
                &&& m.text == head + " "@ + square
                &&& 'A' <= square[0] <= 'R' && 'A' <= square[1] <= 'R'
                &&& '0' <= square[2] <= '9' && '0' <= square[3] <= '9'
            }
            &&& m.snr is Some <==> n == 32400 || n >= 32405
            &&& m.snr matches Some(r) ==> {
                &&& -99 <= r <= 99
                &&& m.text == head + (if acknowledged { " R"@ } else { " "@ })
                    + numbers::signed_report(r as int)
            }
            &&& n == 32401 ==> m.text == text::trim(head)
            &&& n == 32402 ==> m.text == head + " RRR"@
            &&& n == 32403 ==> m.text == head + " RR73"@
            &&& n == 32404 ==> m.text == head + " 73"@
        }),
    ensures
        likely_valid(m.text),
{
    let (a, b) = (m.call_1->0, m.call_2->0);
    let head = a + " "@ + b;
    if n < 32400 {
        let square = m.text.skip(m.text.len() - 4);
        assert(m.text.len() >= 4);
        law_contact_messages_are_likely(a, b, 0, square);
    } else if n == 32400 || n >= 32405 {
        law_contact_messages_are_likely(a, b, m.snr->0 as int, seq!['A']);
    } else if n == 32401 {
        law_contact_messages_are_likely(a, b, 0, seq!['A']);
        text::lemma_trim_none(head);
    } else {
        reveal_strlit(" RRR");
        reveal_strlit(" RR73");
        reveal_strlit(" 73");
        reveal_strlit(" ");
        let p = if n == 32402 {
            seq!['R', 'R', 'R']
        } else if n == 32403 {
            seq!['R', 'R', '7', '3']
        } else {
            seq!['7', '3']
        };
        law_contact_messages_are_likely(a, b, 0, p);
        assert(m.text =~= a + " "@ + b + " "@ + p);
    }
}

/// A message with the tones of its transmission.
pub struct Reading {
    pub message: Ft8Message,
    pub tones: Vec<u8>,
}

/// Whether a codeword that was found, if one was, is read: with the tables of
/// call signs before and after.
pub open spec fn reads_codeword(
    before: packjt77::CallTables,
    after: packjt77::CallTables,
    res: DecodeResult,
    r: Option<Reading>,
) -> bool {
    let found = packjt77::unpacked(before, res.codeword@.take(77));
    &&& r is Some <==> res.success && found is Some && likely_valid((found->0).text)
    &&& r matches Some(x) ==> {
        &&& x.message@ == found->0
        &&& x.tones@ == Seq::new(NN as nat, |k: int| symbols::tone_of(res.codeword@, k))
    }
    &&& after == if res.success {
        packjt77::tables_after(before, res.codeword@.take(77))
    } else {
        before
    }
}

/// A codeword that holds a message is read as that message, of whichever type
/// it is, with the tones by which it was sent; one that holds none, or noise, is
/// not, nor is a word that was not decoded. The call signs in it are remembered.
pub proof fn law_codeword_is_read(
    before: packjt77::CallTables,
    after: packjt77::CallTables,
    res: DecodeResult,
    r: Option<Reading>,
    m: packjt77::MessageText,
)
    requires
        reads_codeword(before, after, res, r),
    ensures
        !res.success ==> r is None && after == before,
        res.success ==> after == packjt77::tables_after(before, res.codeword@.take(77)),
        res.success && packjt77::unpacked(before, res.codeword@.take(77)) == Some(m)
            && likely_valid(m.text) ==> {
            &&& r is Some
            &&& (r->0).message@ == m
            &&& (r->0).tones@.len() == 79
            &&& forall|k: int|
                0 <= k < 79 ==> #[trigger] (r->0).tones@[k] == symbols::tone_of(res.codeword@, k)
        },
        packjt77::unpacked(before, res.codeword@.take(77)) is None ==> r is None,
        packjt77::unpacked(before, res.codeword@.take(77)) == Some(m) && !likely_valid(m.text)
            ==> r is None,
{
}

/// Reads the codeword that was found, if one was and it holds what looks like
/// a message.
pub fn read_codeword(cache: &mut HashCache, res: &DecodeResult) -> (r: Option<Reading>)
    requires
        res.success ==> {
            &&& res.codeword@.len() == CODE_BITS
            &&& ldpc_decoder::are_bits(res.codeword@)
            &&& res.message_bits@ == res.codeword@.take(MESSAGE_BITS as int)
            &&& !packjt77::is_wide_telemetry(res.codeword@.take(77))
        },
    ensures
        reads_codeword(old(cache)@, final(cache)@, *res, r),
{
    if !res.success {
        return None;
    }
    assert(res.message_bits@.take(77) =~= res.codeword@.take(77));
    match parse_ft8_message(cache, res.message_bits.as_slice()) {
        Some(message) => {
            if is_likely_valid_msg(message.text.as_str()) {
                let tones = get_tones_from_result(res.codeword.as_slice());
                Some(Reading { message, tones })
            } else {
                None
            }
        },
        None => None,
    }
}

/// The one who sent a message and the one it is for.
pub struct Parties {
    pub sender: Option<String>,
    pub receiver: Option<String>,
}

/// The sender is the second call sign, or the only one; the receiver is the
/// first of two.
pub open spec fn sender_of(m: packjt77::MessageText) -> Option<Seq<char>> {
    match m.call_2 {
        Some(c2) => Some(c2),
        None => m.call_1,
    }
}

/// The receiver is the first of two call signs.
pub open spec fn receiver_of(m: packjt77::MessageText) -> Option<Seq<char>> {
    match m.call_2 {
        Some(_) => m.call_1,
        None => None,
    }
}

/// A copy of a text that there may be.
pub fn copy_of(s: &Option<String>) -> (r: Option<String>)
    ensures
        packjt77::text_option(r) == packjt77::text_option(*s),
{
    match s {
        Some(t) => Some(String::from_str(t.as_str())),
        None => None,
    }
}

/// Says who sent a message and who it is for.
pub fn parties(msg: &Ft8Message) -> (r: Parties)
    ensures
        packjt77::text_option(r.sender) == sender_of(msg@),
        packjt77::text_option(r.receiver) == receiver_of(msg@),
{
    match &msg.call_2 {
        Some(c2) => Parties {
            sender: Some(String::from_str(c2.as_str())),
            receiver: copy_of(&msg.call_1),
        },
        None => Parties { sender: copy_of(&msg.call_1), receiver: None },
    }
}

/// The texts of one time slot that were reported already.
pub struct SeenMessages {
    texts: StringHashSet,
}

impl View for SeenMessages {
    type V = Set<Seq<char>>;

    closed spec fn view(&self) -> Set<Seq<char>> {
        self.texts@
    }
}

/// Whether a decoded message is taken, and what is remembered of it: `r` says
/// whose it is if it looks like one and its text is new.
pub open spec fn takes_message(
    before: Set<Seq<char>>,
    after: Set<Seq<char>>,
    m: packjt77::MessageText,
    r: Option<Parties>,
) -> bool {
    &&& r is Some <==> likely_valid(m.text) && !before.contains(m.text)
    &&& r matches Some(p) ==> packjt77::text_option(p.sender) == sender_of(m)
        && packjt77::text_option(p.receiver) == receiver_of(m)
    &&& after == if likely_valid(m.text) {
        before.insert(m.text)
    } else {
        before
    }
}

/// A message is reported once: of two with one text the second is not, and
/// whether a message with another text is reported does not depend on it.
pub proof fn law_message_is_reported_once(
    s0: Set<Seq<char>>,
    s1: Set<Seq<char>>,
    s2: Set<Seq<char>>,
    m1: packjt77::MessageText,
    m2: packjt77::MessageText,
    r1: Option<Parties>,
    r2: Option<Parties>,
)
    requires
        takes_message(s0, s1, m1, r1),
        takes_message(s1, s2, m2, r2),
    ensures
        m1.text == m2.text ==> r2 is None && s2 == s1,
        m1.text != m2.text ==> (r2 is Some <==> likely_valid(m2.text) && !s0.contains(m2.text)),
        likely_valid(m1.text) && !s0.contains(m1.text) ==> r1 is Some,
        !likely_valid(m1.text) ==> r1 is None && s1 == s0,
        s0.subset_of(s1),
{
    if m1.text == m2.text {
        assert(s2 =~= s1);
    }
}

/// A message is from the second of its call signs, to the first; from its
/// only one, if it names no other.
pub proof fn law_parties_of_a_message(m: packjt77::MessageText, a: Seq<char>, b: Seq<char>)
    ensures
        m.call_1 == Some(a) && m.call_2 == Some(b) ==> sender_of(m) == Some(b) && receiver_of(m)
            == Some(a),
        m.call_1 == Some(a) && m.call_2 is None ==> sender_of(m) == Some(a) && receiver_of(m)
            is None,
        m.call_1 is None && m.call_2 is None ==> sender_of(m) is None && receiver_of(m) is None,
{
}

impl SeenMessages {
    /// No text was reported yet.
    pub fn new() -> (r: SeenMessages)
        ensures
            r@ == Set::<Seq<char>>::empty(),
    {
        SeenMessages { texts: StringHashSet::new() }
    }

    /// Takes a decoded message, if it looks like one and its text is new: the
    /// result says whose it is.
    pub fn accept(&mut self, msg: &Ft8Message) -> (r: Option<Parties>)
        ensures
            takes_message(old(self)@, final(self)@, msg@, r),
    {
        if !is_likely_valid_msg(msg.text.as_str()) {
            return None;
        }
        if self.texts.insert(String::from_str(msg.text.as_str())) {
            Some(parties(msg))
        } else {
            None
        }
    }
}

} // verus!
