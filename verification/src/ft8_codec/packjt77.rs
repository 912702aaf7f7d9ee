//! Messages of 77 bits as text, with the cache of call signs by hash.
use crate::numbers;
use crate::numbers::{decimal_text, padded_text, report_text};
use crate::text;
use crate::text::{
    byte_length, contains_char, has_prefix, same_text, split_at_char, split_words, trimmed,
    trimmed_both, CharClass,
};
use std::collections::HashMap;
use vstd::arithmetic::power2::*;
use vstd::bits::*;
use vstd::prelude::*;
use vstd::string::*;
use vstd::utf8::*;

verus! {

/// The factor of the call sign hash.
pub const HASH_FACTOR: u64 = 8523930129890207281;

/// The most call signs that the cache takes.
pub const CACHE_LIMIT: usize = 50000;

/// The number of a byte among space, digits, upper-case letters and slash;
/// any other byte counts as a space.
pub open spec fn number38(b: u8) -> int {
    if 48 <= b <= 57 {
        b - 47
    } else if 65 <= b <= 90 {
        b - 54
    } else if b == 47 {
        37
    } else {
        0
    }
}

/// Bytes read as a number to the base 38.
pub open spec fn value38(s: Seq<u8>) -> int
    decreases s.len(),
{
    if s.len() == 0 {
        0
    } else {
        38 * value38(s.drop_last()) + number38(s.last())
    }
}

/// A text with spaces at its end up to eleven characters.
pub open spec fn filled11(s: Seq<char>) -> Seq<char> {
    if s.len() < 11 {
        s + Seq::new((11 - s.len()) as nat, |i: int| ' ')
    } else {
        s
    }
}

/// The hash of a call sign in a number of bits.
pub open spec fn call_hash(call: Seq<char>, bits: int) -> u32 {
    let n8 = value38(encode_utf8(filled11(text::uppercase(call))).take(11));
    let product = (n8 * HASH_FACTOR) % 0x1_0000_0000_0000_0000;
    ((product / pow2((64 - bits) as nat) as int) % 0x1_0000_0000) as u32
}

fn byte_number38(b: u8) -> (r: u64)
    ensures
        r == number38(b),
        r < 38,
{
    if 48 <= b && b <= 57 {
        (b - 47) as u64
    } else if 65 <= b && b <= 90 {
        (b - 54) as u64
    } else if b == 47 {
        37
    } else {
        0
    }
}

/// Computes the hash of a call sign in a number of bits.
pub fn ihashcall(call: &str, bits: u32) -> (r: u32)
    requires
        1 <= bits <= 64,
    ensures
        r == call_hash(call@, bits as int),
{
    let mut fixed = call.to_uppercase();
    let ghost upper = fixed@;
    let mut count: usize = fixed.as_str().unicode_len();
    assert(fixed@ =~= upper + Seq::new(0, |i: int| ' '));
    while count < 11
        invariant
            count >= upper.len(),
            upper.len() < 11 ==> count <= 11,
            upper.len() >= 11 ==> count == upper.len(),
            fixed@ == upper + Seq::new((count - upper.len()) as nat, |i: int| ' '),
        decreases 11 - count,
    {
        let ghost before = fixed@;
        fixed.push(' ');
        count += 1;
        assert(fixed@ =~= upper + Seq::new((count - upper.len()) as nat, |i: int| ' '));
    }
    assert(fixed@ =~= filled11(upper));
    let bytes = fixed.as_str().as_bytes();
    proof {
        text::lemma_byte_len_bound(fixed@);
    }
    let mut n8: u64 = 0;
    let mut i: usize = 0;
    let ghost mut bound: int = 1;
    assert(bytes@.take(0) =~= Seq::<u8>::empty());
    while i < 11
        invariant
            bytes@.len() >= 11,
            i <= 11,
            n8 == value38(bytes@.take(i as int)),
            n8 < bound,
            i == 0 ==> bound == 1,
            i == 1 ==> bound == 38,
            i == 2 ==> bound == 1444,
            i == 3 ==> bound == 54872,
            i == 4 ==> bound == 2085136,
            i == 5 ==> bound == 79235168,
            i == 6 ==> bound == 3010936384,
            i == 7 ==> bound == 114415582592,
            i == 8 ==> bound == 4347792138496,
            i == 9 ==> bound == 165216101262848,
            i == 10 ==> bound == 6278211847988224,
            i == 11 ==> bound == 238572050223552512,
        decreases 11 - i,
    {
        let ghost next = bytes@.take(i + 1);
        assert(next.drop_last() =~= bytes@.take(i as int));
        n8 = 38 * n8 + byte_number38(bytes[i]);
        proof {
            bound = 38 * bound;
        }
        i += 1;
    }
    let product = n8.wrapping_mul(HASH_FACTOR);
    let shift: u32 = 64 - bits;
    proof {
        let shift64 = shift as u64;
        lemma_u64_shr_is_div(product, shift64);
        assert(product >> shift == product >> shift64);
    }
    let shifted: u64 = product >> shift;
    assert(shifted as u32 == shifted % 0x1_0000_0000) by (bit_vector);
    shifted as u32
}

/// Call signs by their hashes in 10, 12 and 22 bits.
#[verifier::ext_equal]
pub struct CallTables {
    pub calls10: Map<u32, Seq<char>>,
    pub calls12: Map<u32, Seq<char>>,
    pub calls22: Map<u32, Seq<char>>,
}

/// The texts of the call signs of a table.
pub open spec fn call_texts(m: Map<u32, String>) -> Map<u32, Seq<char>> {
    m.map_values(|s: String| s@)
}

impl CallTables {
    /// The tables after a call sign was entered, if there is room.
    pub open spec fn entered(self, call: Seq<char>) -> CallTables {
        if self.calls22.len() < CACHE_LIMIT {
            CallTables {
                calls10: self.calls10.insert(call_hash(call, 10), call),
                calls12: self.calls12.insert(call_hash(call, 12), call),
                calls22: self.calls22.insert(call_hash(call, 22), call),
            }
        } else {
            self
        }
    }

    /// The tables after a call sign was saved: without its brackets, if it
    /// has three bytes or more, and with its longest part between slashes.
    pub open spec fn saved(self, word: Seq<char>) -> CallTables {
        let call = text::trim(text::trim_both(word, CharClass::Angle));
        if word.len() == 0 || word == "<...>"@ || text::byte_len(call) < 3 {
            self
        } else if !call.contains('/') {
            self.entered(call)
        } else {
            let parts = text::pieces(call, '/');
            let base = first_longest(parts);
            if text::byte_len(base) >= 3 && base != call {
                self.entered(call).entered(base)
            } else {
                self.entered(call)
            }
        }
    }

    /// The tables after several words were saved in turn.
    pub open spec fn saved_all(self, words: Seq<Seq<char>>) -> CallTables
        decreases words.len(),
    {
        if words.len() == 0 {
            self
        } else {
            self.saved_all(words.drop_last()).saved(words.last())
        }
    }

    /// The call sign for a hash in ten bits, in brackets.
    pub open spec fn text10(self, h: u32) -> Seq<char> {
        if self.calls10.contains_key(h) {
            seq!['<'] + self.calls10[h] + seq!['>']
        } else {
            "<...>"@
        }
    }

    /// The call sign for a hash in twelve bits, in brackets.
    pub open spec fn text12(self, h: u32) -> Seq<char> {
        if self.calls12.contains_key(h) {
            seq!['<'] + self.calls12[h] + seq!['>']
        } else {
            "<..."@ + numbers::decimal(h as nat) + seq!['>']
        }
    }

    /// The call sign for a hash in 22 bits, in brackets.
    pub open spec fn text22(self, h: u32) -> Seq<char> {
        if self.calls22.contains_key(h) {
            seq!['<'] + self.calls22[h] + seq!['>']
        } else {
            "<..."@ + numbers::decimal(h as nat) + seq!['>']
        }
    }
}

/// The first of the texts that are longest in bytes.
pub open spec fn first_longest(v: Seq<Seq<char>>) -> Seq<char>
    decreases v.len(),
{
    if v.len() <= 1 {
        v[0]
    } else {
        let best = first_longest(v.drop_last());
        if text::byte_len(v.last()) > text::byte_len(best) {
            v.last()
        } else {
            best
        }
    }
}

/// The cache of call signs by hash.
pub struct HashCache {
    pub calls10: HashMap<u32, String>,
    pub calls12: HashMap<u32, String>,
    pub calls22: HashMap<u32, String>,
}

impl View for HashCache {
    type V = CallTables;

    open spec fn view(&self) -> CallTables {
        CallTables {
            calls10: call_texts(self.calls10@),
            calls12: call_texts(self.calls12@),
            calls22: call_texts(self.calls22@),
        }
    }
}

fn in_brackets(s: &str) -> (r: String)
    ensures
        r@ == seq!['<'] + s@ + seq!['>'],
{
    let mut out = String::new();
    out.push('<');
    out.append(s);
    out.push('>');
    assert(out@ =~= seq!['<'] + s@ + seq!['>']);
    out
}

fn unknown_hash(h: u32) -> (r: String)
    ensures
        r@ == "<..."@ + numbers::decimal(h as nat) + seq!['>'],
{
    let mut out = String::from_str("<...");
    out.append(decimal_text(h as u64).as_str());
    out.push('>');
    assert(out@ =~= "<..."@ + numbers::decimal(h as nat) + seq!['>']);
    out
}

impl HashCache {
    /// A cache without call signs.
    pub fn new() -> (r: HashCache)
        ensures
            r@.calls10 == Map::<u32, Seq<char>>::empty(),
            r@.calls12 == Map::<u32, Seq<char>>::empty(),
            r@.calls22 == Map::<u32, Seq<char>>::empty(),
    {
        let r = HashCache {
            calls10: HashMap::new(),
            calls12: HashMap::new(),
            calls22: HashMap::new(),
        };
        assert(call_texts(Map::<u32, String>::empty()) =~= Map::<u32, Seq<char>>::empty());
        r
    }

    fn save_single_call(&mut self, call: &str)
        ensures
            final(self)@ == old(self)@.entered(call@),
    {
        let h10 = ihashcall(call, 10);
        let h12 = ihashcall(call, 12);
        let h22 = ihashcall(call, 22);
        let ghost before = *self;
        assert(before@.calls22.dom() =~= before.calls22@.dom());
        if self.calls22.len() < CACHE_LIMIT {
            let a = String::from_str(call);
            let b = String::from_str(call);
            let c = String::from_str(call);
            self.calls10.insert(h10, a);
            self.calls12.insert(h12, b);
            self.calls22.insert(h22, c);
            assert(self@.calls10 =~= before@.calls10.insert(h10, call@));
            assert(self@.calls12 =~= before@.calls12.insert(h12, call@));
            assert(self@.calls22 =~= before@.calls22.insert(h22, call@));
        }
    }

    /// The call sign for a hash in ten bits, in brackets.
    pub fn lookup_hash10(&self, h10: u32) -> (r: String)
        ensures
            r@ == self@.text10(h10),
    {
        match self.calls10.get(&h10) {
            Some(c) => in_brackets(c.as_str()),
            None => String::from_str("<...>"),
        }
    }

    /// The call sign for a hash in twelve bits, in brackets.
    pub fn lookup_hash12(&self, h12: u32) -> (r: String)
        ensures
            r@ == self@.text12(h12),
    {
        match self.calls12.get(&h12) {
            Some(c) => in_brackets(c.as_str()),
            None => unknown_hash(h12),
        }
    }

    /// The call sign for a hash in 22 bits, in brackets.
    pub fn lookup_hash22(&self, h22: u32) -> (r: String)
        ensures
            r@ == self@.text22(h22),
    {
        match self.calls22.get(&h22) {
            Some(c) => in_brackets(c.as_str()),
            None => unknown_hash(h22),
        }
    }
}

/// A call sign that was saved is found again by each of its hashes: where
/// there is room for it, and it stands without brackets and slashes.
pub proof fn law_saved_call_is_found(t: CallTables, call: Seq<char>)
    requires
        t.calls22.len() < CACHE_LIMIT,
        text::byte_len(call) >= 3,
        call != "<...>"@,
        text::trim(text::trim_both(call, CharClass::Angle)) == call,
        !call.contains('/'),
    ensures
        t.saved(call).text10(call_hash(call, 10)) == seq!['<'] + call + seq!['>'],
        t.saved(call).text12(call_hash(call, 12)) == seq!['<'] + call + seq!['>'],
        t.saved(call).text22(call_hash(call, 22)) == seq!['<'] + call + seq!['>'],
{
    assert(call.len() > 0) by {
        if call.len() == 0 {
            assert(text::byte_len(call) == 0);
        }
    }
}

/// The longest part of a call sign with slashes is found again by each of its
/// hashes, as a message that names it without its suffix needs.
pub proof fn law_saved_base_is_found(t: CallTables, call: Seq<char>)
    requires
        t.calls22.dom().finite(),
        t.calls22.len() + 1 < CACHE_LIMIT,
        text::byte_len(call) >= 3,
        call != "<...>"@,
        text::trim(text::trim_both(call, CharClass::Angle)) == call,
        call.contains('/'),
        text::byte_len(first_longest(text::pieces(call, '/'))) >= 3,
        first_longest(text::pieces(call, '/')) != call,
    ensures
        ({
            let base = first_longest(text::pieces(call, '/'));
            &&& t.saved(call).text10(call_hash(base, 10)) == seq!['<'] + base + seq!['>']
            &&& t.saved(call).text12(call_hash(base, 12)) == seq!['<'] + base + seq!['>']
            &&& t.saved(call).text22(call_hash(base, 22)) == seq!['<'] + base + seq!['>']
        }),
{
    assert(call.len() > 0);
    let once = t.entered(call);
    assert(once.calls22.len() <= t.calls22.len() + 1) by {
        assert(once.calls22.dom() =~= t.calls22.dom().insert(call_hash(call, 22)));
    }
}

/// A call sign with slashes is found again by each of its hashes that is not
/// also that of its longest part.
pub proof fn law_saved_compound_is_found(t: CallTables, call: Seq<char>)
    requires
        t.calls22.len() < CACHE_LIMIT,
        text::byte_len(call) >= 3,
        call != "<...>"@,
        text::trim(text::trim_both(call, CharClass::Angle)) == call,
        call.contains('/'),
    ensures
        ({
            let base = first_longest(text::pieces(call, '/'));
            let found = seq!['<'] + call + seq!['>'];
            &&& call_hash(call, 10) != call_hash(base, 10) ==> t.saved(call).text10(
                call_hash(call, 10),
            ) == found
            &&& call_hash(call, 12) != call_hash(base, 12) ==> t.saved(call).text12(
                call_hash(call, 12),
            ) == found
            &&& call_hash(call, 22) != call_hash(base, 22) ==> t.saved(call).text22(
                call_hash(call, 22),
            ) == found
        }),
{
    assert(call.len() > 0);
}

/// Saving never takes a call sign out of a full cache, nor puts one in.
pub proof fn law_full_cache_stays(t: CallTables, word: Seq<char>)
    requires
        t.calls22.len() >= CACHE_LIMIT,
    ensures
        t.saved(word) == t,
{
}

/// Saves a call sign in the cache.
pub fn save_hash_call(cache: &mut HashCache, call: &str)
    ensures
        final(cache)@ == old(cache)@.saved(call@),
{
    if byte_length(call) == 0 {
        proof {
            text::lemma_byte_len_bound(call@);
        }
        return;
    }
    assert(call@.len() > 0) by {
        if call@.len() == 0 {
            assert(text::byte_len(call@) == 0);
        }
    }
    if same_text(call, "<...>") {
        return;
    }
    let bare = trimmed_both(call, CharClass::Angle);
    let name = trimmed(bare.as_str());
    if byte_length(name.as_str()) < 3 {
        return;
    }
    cache.save_single_call(name.as_str());
    if contains_char(name.as_str(), '/') {
        let parts = split_at_char(name.as_str(), '/');
        let mut best: usize = 0;
        let mut i: usize = 1;
        let ghost all = text::texts(parts@);
        assert(first_longest(all.take(1)) == all[0]);
        while i < parts.len()
            invariant
                all == text::texts(parts@),
                1 <= i <= parts@.len(),
                best < i,
                all[best as int] == first_longest(all.take(i as int)),
            decreases parts@.len() - i,
        {
            let ghost next = all.take(i + 1);
            assert(next.drop_last() =~= all.take(i as int));
            if byte_length(parts[i].as_str()) > byte_length(parts[best].as_str()) {
                best = i;
            }
            i += 1;
        }
        assert(all.take(parts@.len() as int) =~= all);
        let base = parts[best].as_str();
        if byte_length(base) >= 3 && !same_text(base, name.as_str()) {
            cache.save_single_call(base);
        }
    }
}

/// What kind of message the bits hold.
#[derive(Debug, Clone, Copy, Hash, PartialEq, Eq, Structural)]
pub enum Ft8MessageType {
    FreeText,
    Standard,
    Dxpedition,
    Contest,
    Telemetry,
    Unknown,
}

/// A message as text, with the parts that it names.
#[derive(Debug, Clone, Hash, PartialEq, Eq)]
pub struct Ft8Message {
    pub msg_type: Ft8MessageType,
    pub text: String,
    pub call_1: Option<String>,
    pub call_2: Option<String>,
    pub grid: Option<String>,
    pub snr: Option<i32>,
}

/// What a message says.
#[verifier::ext_equal]
pub struct MessageText {
    pub msg_type: Ft8MessageType,
    pub text: Seq<char>,
    pub call_1: Option<Seq<char>>,
    pub call_2: Option<Seq<char>>,
    pub grid: Option<Seq<char>>,
    pub snr: Option<i32>,
}

/// The text that there may be.
pub open spec fn text_option(s: Option<String>) -> Option<Seq<char>> {
    match s {
        Some(t) => Some(t@),
        None => None,
    }
}

impl View for Ft8Message {
    type V = MessageText;

    open spec fn view(&self) -> MessageText {
        MessageText {
            msg_type: self.msg_type,
            text: self.text@,
            call_1: text_option(self.call_1),
            call_2: text_option(self.call_2),
            grid: text_option(self.grid),
            snr: self.snr,
        }
    }
}

/// Whether bit `i` is there and set.
pub open spec fn bit_at(bits: Seq<u8>, i: int) -> bool {
    0 <= i < bits.len() && bits[i] != 0
}

/// The number that `len` bits from `start` on write, highest first.
pub open spec fn bits_value(bits: Seq<u8>, start: int, len: nat) -> nat
    decreases len,
{
    if len == 0 {
        0
    } else {
        2 * bits_value(bits, start, (len - 1) as nat) + if bit_at(bits, start + len - 1) {
            1nat
        } else {
            0nat
        }
    }
}

proof fn lemma_bits_value_bound(bits: Seq<u8>, start: int, len: nat)
    ensures
        bits_value(bits, start, len) < pow2(len),
    decreases len,
{
    if len == 0 {
        lemma2_to64();
    } else {
        lemma_bits_value_bound(bits, start, (len - 1) as nat);
        lemma_pow2_unfold(len);
    }
}

/// Reads `len` bits from `start` on, highest first.
pub fn read_bits_u64(bits: &[u8], start: usize, len: usize) -> (r: u64)
    requires
        len <= 64,
        start + len <= usize::MAX,
    ensures
        r == bits_value(bits@, start as int, len as nat),
{
    let mut val: u64 = 0;
    let mut i: usize = 0;
    while i < len
        invariant
            len <= 64,
            start + len <= usize::MAX,
            i <= len,
            val == bits_value(bits@, start as int, i as nat),
        decreases len - i,
    {
        proof {
            lemma_bits_value_bound(bits@, start as int, (i + 1) as nat);
            lemma_pow2_strictly_increases_or_same((i + 1) as nat);
            lemma2_to64();
        }
        let bit: u64 = if start + i < bits.len() && bits[start + i] != 0 {
            1
        } else {
            0
        };
        val = 2 * val + bit;
        i += 1;
    }
    val
}

proof fn lemma_pow2_strictly_increases_or_same(n: nat)
    requires
        n <= 64,
    ensures
        pow2(n) <= pow2(64),
{
    if n < 64 {
        lemma_pow2_strictly_increases(n, 64);
    }
}

/// Reads `len` bits from `start` on, highest first.
pub fn read_bits(bits: &[u8], start: usize, len: usize) -> (r: u32)
    requires
        len <= 32,
        start + len <= usize::MAX,
    ensures
        r == bits_value(bits@, start as int, len as nat),
        r < pow2(len as nat),
{
    let r = read_bits_u64(bits, start, len);
    proof {
        lemma_bits_value_bound(bits@, start as int, len as nat);
        if len < 32 {
            lemma_pow2_strictly_increases(len as nat, 32);
        }
        lemma2_to64();
    }
    r as u32
}

/// Character `i` of space and upper-case letters.
pub open spec fn letter27(i: int) -> char {
    if i == 0 {
        ' '
    } else {
        (64 + i) as char
    }
}

/// Character `i` of digits and upper-case letters.
pub open spec fn letter36(i: int) -> char {
    numbers::digit(i)
}

/// Character `i` of space, digits and upper-case letters.
pub open spec fn letter37(i: int) -> char {
    if i == 0 {
        ' '
    } else {
        numbers::digit(i - 1)
    }
}

/// Character `i` of space, digits, upper-case letters and slash.
pub open spec fn letter38(i: int) -> char {
    if i == 37 {
        '/'
    } else {
        letter37(i)
    }
}

/// Character `i` of space, digits, upper-case letters and five signs.
pub open spec fn letter42(i: int) -> char {
    if i == 37 {
        '+'
    } else if i == 38 {
        '-'
    } else if i == 39 {
        '.'
    } else if i == 40 {
        '/'
    } else if i == 41 {
        '?'
    } else {
        letter37(i)
    }
}

fn char27(i: u32) -> (r: char)
    requires
        i < 27,
    ensures
        r == letter27(i as int),
{
    if i == 0 {
        ' '
    } else {
        (64u8 + i as u8) as char
    }
}

fn char36(i: u32) -> (r: char)
    requires
        i < 36,
    ensures
        r == letter36(i as int),
{
    if i < 10 {
        (48u8 + i as u8) as char
    } else {
        (55u8 + i as u8) as char
    }
}

fn char42(i: u32) -> (r: char)
    requires
        i < 42,
    ensures
        r == letter42(i as int),
        i < 37 ==> r == letter37(i as int),
{
    if i == 0 {
        ' '
    } else if i < 37 {
        char36(i - 1)
    } else if i == 37 {
        '+'
    } else if i == 38 {
        '-'
    } else if i == 39 {
        '.'
    } else if i == 40 {
        '/'
    } else {
        '?'
    }
}

/// The four letters after `CQ` for a number.
pub open spec fn letters4(n: int) -> Seq<char> {
    seq![letter27(n / 19683), letter27(n / 729 % 27), letter27(n / 27 % 27), letter27(n % 27)]
}

/// The six characters of a standard call sign for a number.
pub open spec fn letters6(n: int) -> Seq<char> {
    seq![
        letter37(n / 7085880),
        letter36(n / 196830 % 36),
        numbers::digit(n / 19683 % 10),
        letter27(n / 729 % 27),
        letter27(n / 27 % 27),
        letter27(n % 27),
    ]
}

/// The first number of 28 bits that stands for a hash in 22 bits.
pub const NTOKENS: u32 = 2063592;

/// The number of hashes in 22 bits.
pub const MAX22: u32 = 4194304;

/// Whether the number of 28 bits stands for a standard call sign.
pub open spec fn is_standard28(n28: int) -> bool {
    n28 >= NTOKENS + MAX22
}

/// The standard call sign that a number of 28 bits stands for.
pub open spec fn standard28(n28: int) -> Seq<char> {
    text::trim(letters6(n28 - NTOKENS - MAX22))
}

/// The suffix of a call sign in the numbers of 28 bits.
pub open spec fn suffix28(i: int) -> Seq<char> {
    if i == 0 {
        "/R"@
    } else if i == 1 {
        "/P"@
    } else if i == 12 {
        "/QRP"@
    } else {
        seq!['/', numbers::digit(i - 2)]
    }
}

/// What a number of 28 bits stands for.
pub open spec fn text28(t: CallTables, n28: int) -> Seq<char> {
    if n28 == 0 {
        "DE"@
    } else if n28 == 1 {
        "QRZ"@
    } else if n28 == 2 {
        "CQ"@
    } else if n28 <= 1002 {
        "CQ "@ + numbers::zero_padded(numbers::decimal((n28 - 3) as nat), 3)
    } else if n28 <= 532443 {
        "CQ "@ + text::trim(letters4(n28 - 1003))
    } else if n28 < NTOKENS {
        t.text12(((n28 - 532444) / 13) as u32) + suffix28((n28 - 532444) % 13)
    } else if n28 < NTOKENS + MAX22 {
        t.text22((n28 - NTOKENS) as u32)
    } else {
        standard28(n28)
    }
}

/// Whether a text has an ASCII letter and an ASCII digit and three bytes or more.
pub open spec fn is_base_call(s: Seq<char>) -> bool {
    let bc = text::trim(s);
    &&& text::byte_len(bc) >= 3
    &&& bc == "<...>"@ || ((exists|i: int| 0 <= i < bc.len() && is_letter(#[trigger] bc[i])) && (
    exists|i: int| 0 <= i < bc.len() && '0' <= #[trigger] bc[i] <= '9'))
}

/// Whether a character is an ASCII letter.
pub open spec fn is_letter(c: char) -> bool {
    'A' <= c <= 'Z' || 'a' <= c <= 'z'
}

/// Whether a number of 28 bits stands for something valid.
pub open spec fn valid28(n28: int) -> bool {
    is_standard28(n28) ==> is_base_call(standard28(n28))
}

/// The tables after a number of 28 bits was read: a standard call sign is saved.
pub open spec fn saved28(t: CallTables, n28: int) -> CallTables {
    if is_standard28(n28) {
        t.saved(standard28(n28))
    } else {
        t
    }
}

/// Tells whether a text looks like a call sign.
pub fn is_valid_base_call(bc: &str) -> (r: bool)
    ensures
        r == is_base_call(bc@),
{
    let bare = trimmed(bc);
    if byte_length(bare.as_str()) < 3 {
        return false;
    }
    if same_text(bare.as_str(), "<...>") {
        return true;
    }
    let v = text::chars_of(bare.as_str());
    let mut has_alpha = false;
    let mut has_digit = false;
    let mut i: usize = 0;
    while i < v.len()
        invariant
            v@ == bare@,
            i <= v@.len(),
            has_alpha == exists|k: int| 0 <= k < i && is_letter(#[trigger] v@[k]),
            has_digit == exists|k: int| 0 <= k < i && '0' <= #[trigger] v@[k] <= '9',
        decreases v@.len() - i,
    {
        let c: char = v[i];
        if ('A' <= c && c <= 'Z') || ('a' <= c && c <= 'z') {
            assert(is_letter(v@[i as int]));
            has_alpha = true;
        }
        if '0' <= c && c <= '9' {
            assert('0' <= v@[i as int] <= '9');
            has_digit = true;
        }
        i += 1;
    }
    has_alpha && has_digit
}

/// Reads a number of 28 bits: what it stands for, and whether that is valid.
pub fn unpack28(cache: &mut HashCache, n28: u32) -> (r: (String, bool))
    requires
        n28 < 0x1000_0000,
    ensures
        r.0@ == text28(old(cache)@, n28 as int),
        r.1 == valid28(n28 as int),
        final(cache)@ == saved28(old(cache)@, n28 as int),
{
    if n28 == 0 {
        return (String::from_str("DE"), true);
    }
    if n28 == 1 {
        return (String::from_str("QRZ"), true);
    }
    if n28 == 2 {
        return (String::from_str("CQ"), true);
    }
    if n28 <= 1002 {
        let mut out = String::from_str("CQ ");
        out.append(padded_text((n28 - 3) as u64, 10, 3).as_str());
        return (out, true);
    }
    if n28 <= 532443 {
        let n: u32 = n28 - 1003;
        let mut s = String::new();
        s.push(char27(n / 19683));
        s.push(char27(n / 729 % 27));
        s.push(char27(n / 27 % 27));
        s.push(char27(n % 27));
        assert(s@ =~= letters4(n as int));
        let mut out = String::from_str("CQ ");
        out.append(trimmed(s.as_str()).as_str());
        return (out, true);
    }
    if n28 < NTOKENS {
        let n: u32 = n28 - 532444;
        let isuffix: u32 = n % 13;
        let mut out = cache.lookup_hash12(n / 13);
        let ghost base = out@;
        if isuffix == 0 {
            out.append("/R");
        } else if isuffix == 1 {
            out.append("/P");
        } else if isuffix == 12 {
            out.append("/QRP");
        } else {
            out.push('/');
            out.push(char36(isuffix - 2));
            assert(out@ =~= base + suffix28(isuffix as int));
        }
        return (out, true);
    }
    let n28_rel: u32 = n28 - NTOKENS;
    if n28_rel < MAX22 {
        return (cache.lookup_hash22(n28_rel), true);
    }
    let n: u32 = n28_rel - MAX22;
    let mut call = String::new();
    call.push(char42(n / 7085880));
    call.push(char36(n / 196830 % 36));
    call.push(char36(n / 19683 % 10));
    call.push(char27(n / 729 % 27));
    call.push(char27(n / 27 % 27));
    call.push(char27(n % 27));
    assert(call@ =~= letters6(n as int));
    let final_call = trimmed(call.as_str());
    let ok = is_valid_base_call(final_call.as_str());
    save_hash_call(cache, final_call.as_str());
    (final_call, ok)
}

/// The last `count` digits of a number to the base 42, as characters.
pub open spec fn text42(n: nat, count: nat) -> Seq<char>
    decreases count,
{
    if count == 0 {
        Seq::empty()
    } else {
        text42(n / 42, (count - 1) as nat).push(letter42((n % 42) as int))
    }
}

/// The last `count` digits of a number to the base 38, as characters.
pub open spec fn text38(n: nat, count: nat) -> Seq<char>
    decreases count,
{
    if count == 0 {
        Seq::empty()
    } else {
        text38(n / 38, (count - 1) as nat).push(letter38((n % 38) as int))
    }
}

/// The free text that the first 71 bits hold.
pub open spec fn free_text(bits: Seq<u8>) -> Seq<char> {
    text::trim(text42(bits_value(bits, 0, 71), 13))
}

proof fn lemma_pow2_71()
    ensures
        pow2(71) == 2361183241434822606848,
{
    lemma_pow2_adds(64, 7);
    lemma2_to64();
}

fn last_chars42(n: u128, count: usize) -> (r: String)
    ensures
        r@ == text42(n as nat, count as nat),
    decreases count,
{
    if count == 0 {
        String::new()
    } else {
        let mut out = last_chars42(n / 42, count - 1);
        out.push(char42((n % 42) as u32));
        out
    }
}

fn last_chars38(n: u64, count: usize) -> (r: String)
    ensures
        r@ == text38(n as nat, count as nat),
    decreases count,
{
    if count == 0 {
        String::new()
    } else {
        let mut out = last_chars38(n / 38, count - 1);
        let d: u32 = (n % 38) as u32;
        if d == 37 {
            out.push('/');
        } else {
            out.push(char42(d));
        }
        out
    }
}

/// Reads the free text that the first 71 bits hold.
pub fn unpack_text77(bits: &[u8]) -> (r: String)
    requires
        bits@.len() >= 71,
    ensures
        r@ == free_text(bits@),
{
    let mut val: u128 = 0;
    let mut i: usize = 0;
    while i < 71
        invariant
            bits@.len() >= 71,
            i <= 71,
            val == bits_value(bits@, 0, i as nat),
        decreases 71 - i,
    {
        proof {
            lemma_bits_value_bound(bits@, 0, (i + 1) as nat);
            if i < 70 {
                lemma_pow2_strictly_increases((i + 1) as nat, 71);
            }
            lemma_pow2_71();
        }
        let bit: u128 = if bits[i] != 0 {
            1
        } else {
            0
        };
        val = 2 * val + bit;
        i += 1;
    }
    trimmed(last_chars42(val, 13).as_str())
}

/// The grid square for a number below 32400.
pub open spec fn grid4(n: int) -> Seq<char> {
    seq![
        (65 + n / 1800) as char,
        (65 + n / 100 % 18) as char,
        (48 + n / 10 % 10) as char,
        (48 + n % 10) as char,
    ]
}

fn grid_text(n: u32) -> (r: String)
    requires
        n < 32400,
    ensures
        r@ == grid4(n as int),
{
    let mut out = String::new();
    out.push((65u8 + (n / 1800) as u8) as char);
    out.push((65u8 + (n / 100 % 18) as u8) as char);
    out.push((48u8 + (n / 10 % 10) as u8) as char);
    out.push((48u8 + (n % 10) as u8) as char);
    assert(out@ =~= grid4(n as int));
    out
}

/// A call sign with the suffix of its message type, if it has one.
pub open spec fn suffixed(call: Seq<char>, has: bool, i3: int) -> Seq<char> {
    if has {
        call + (if i3 == 1 {
            "/R"@
        } else {
            "/P"@
        })
    } else {
        call
    }
}

/// The report that stands in the place of a grid square.
pub open spec fn report15(irpt: int) -> int {
    if irpt - 35 > 50 {
        irpt - 136
    } else {
        irpt - 35
    }
}

/// The end of a standard message: grid square, report or acknowledgement.
pub open spec fn standard_tail(igrid4: int, ir: bool) -> Seq<char> {
    let irpt = igrid4 - 32400;
    if irpt < 0 {
        (if ir {
            " R "@
        } else {
            " "@
        }) + grid4(igrid4)
    } else if irpt == 1 {
        Seq::empty()
    } else if irpt == 2 {
        " RRR"@
    } else if irpt == 3 {
        " RR73"@
    } else if irpt == 4 {
        " 73"@
    } else {
        (if ir {
            " R"@
        } else {
            " "@
        }) + numbers::signed_report(report15(irpt))
    }
}

/// A standard message.
pub open spec fn standard_message(t: CallTables, bits: Seq<u8>, i3: int) -> Option<MessageText> {
    let n28a = bits_value(bits, 0, 28) as int;
    let n28b = bits_value(bits, 29, 28) as int;
    let ir = bit_at(bits, 58);
    let igrid4 = bits_value(bits, 59, 15) as int;
    let irpt = igrid4 - 32400;
    let first = text28(t, n28a);
    let call1 = suffixed(first, bit_at(bits, 28), i3);
    let call2 = suffixed(text28(saved28(t, n28a), n28b), bit_at(bits, 57), i3);
    if !valid28(n28a) || !valid28(n28b) || (text::starts_with(first, "CQ"@) && ir) || (
    text::starts_with(call1, "CQ"@) && irpt >= 2) {
        None
    } else {
        Some(
            MessageText {
                msg_type: Ft8MessageType::Standard,
                text: text::trim(call1 + " "@ + call2 + standard_tail(igrid4, ir)),
                call_1: Some(call1),
                call_2: Some(call2),
                grid: if irpt < 0 && grid4(igrid4) != "RR73"@ {
                    Some(grid4(igrid4))
                } else {
                    None
                },
                snr: if irpt == 0 || irpt >= 5 {
                    Some(report15(irpt) as i32)
                } else {
                    None
                },
            },
        )
    }
}

/// A message that closes one contact and opens another.
pub open spec fn dxpedition_message(t: CallTables, bits: Seq<u8>) -> Option<MessageText> {
    let n28a = bits_value(bits, 0, 28) as int;
    let n28b = bits_value(bits, 28, 28) as int;
    let n10 = bits_value(bits, 56, 10) as u32;
    let rpt = 2 * bits_value(bits, 66, 5) - 30;
    let call1 = text28(t, n28a);
    let t1 = saved28(t, n28a);
    let call2 = text28(t1, n28b);
    let t2 = saved28(t1, n28b);
    if !valid28(n28a) || !valid28(n28b) || n28a <= 2 || n28b <= 2 {
        None
    } else {
        Some(
            MessageText {
                msg_type: Ft8MessageType::Dxpedition,
                text: call1 + " RR73; "@ + call2 + " "@ + t2.text10(n10) + " "@
                    + numbers::signed_report(rpt),
                call_1: Some(call1),
                call_2: Some(call2),
                grid: None,
                snr: Some(rpt as i32),
            },
        )
    }
}

/// The call sign of eleven characters in a message with a nonstandard call.
pub open spec fn call11(bits: Seq<u8>) -> Seq<char> {
    text::trim(text38(bits_value(bits, 12, 58), 11))
}

/// A message with a nonstandard call sign.
pub open spec fn nonstandard_message(t: CallTables, bits: Seq<u8>) -> Option<MessageText> {
    let c11 = call11(bits);
    let hashed = t.saved(c11).text12(bits_value(bits, 0, 12) as u32);
    let nrpt = bits_value(bits, 71, 2);
    let c1 = if bit_at(bits, 70) {
        c11
    } else {
        hashed
    };
    let c2 = if bit_at(bits, 70) {
        hashed
    } else {
        c11
    };
    let tail = if nrpt == 1 {
        " RRR"@
    } else if nrpt == 2 {
        " RR73"@
    } else if nrpt == 3 {
        " 73"@
    } else {
        Seq::empty()
    };
    if c11.len() == 0 {
        None
    } else {
        Some(
            MessageText {
                msg_type: Ft8MessageType::Standard,
                text: if bit_at(bits, 73) {
                    "CQ "@ + c2
                } else {
                    c1 + " "@ + c2 + tail
                },
                call_1: Some(c1),
                call_2: Some(c2),
                grid: None,
                snr: None,
            },
        )
    }
}

/// A contest message with a serial number.
pub open spec fn contest_message(t: CallTables, bits: Seq<u8>) -> MessageText {
    let call1 = t.text12(bits_value(bits, 0, 12) as u32);
    let call2 = t.text22(bits_value(bits, 12, 22) as u32);
    let number = 5200 + bits_value(bits, 35, 3) * 1000 + bits_value(bits, 38, 11);
    MessageText {
        msg_type: Ft8MessageType::Contest,
        text: call1 + " "@ + call2 + " "@ + (if bit_at(bits, 34) {
            "R "@
        } else {
            Seq::empty()
        }) + numbers::zero_padded(numbers::decimal(number as nat), 4) + " [GRID6]"@,
        call_1: Some(call1),
        call_2: Some(call2),
        grid: None,
        snr: None,
    }
}

/// A message that is only text.
pub open spec fn plain_message(msg_type: Ft8MessageType, text: Seq<char>) -> MessageText {
    MessageText { msg_type, text, call_1: None, call_2: None, grid: None, snr: None }
}

/// The message that the bits hold, if any.
pub open spec fn unpacked(t: CallTables, bits: Seq<u8>) -> Option<MessageText> {
    let n3 = bits_value(bits, 71, 3);
    let i3 = bits_value(bits, 74, 3);
    if bits.len() < 77 {
        None
    } else if i3 == 0 && n3 == 0 {
        if free_text(bits).len() == 0 {
            None
        } else {
            Some(plain_message(Ft8MessageType::FreeText, free_text(bits)))
        }
    } else if i3 == 0 && n3 == 1 {
        dxpedition_message(t, bits)
    } else if i3 == 0 && n3 == 5 {
        Some(
            plain_message(
                Ft8MessageType::Telemetry,
                "TELEMETRY: "@ + numbers::zero_padded(
                    numbers::in_base(bits_value(bits, 0, 71), 16),
                    18,
                ),
            ),
        )
    } else if i3 == 1 || i3 == 2 {
        standard_message(t, bits, i3 as int)
    } else if i3 == 4 {
        nonstandard_message(t, bits)
    } else if i3 == 5 {
        Some(contest_message(t, bits))
    } else {
        None
    }
}

/// Only 77 bits or more hold a message, and only of the types that are read:
/// free text, expeditions and telemetry, standard messages, messages with
/// other call signs, and contests. The last six bits tell which it is.
pub proof fn law_types_that_are_read(t: CallTables, bits: Seq<u8>)
    ensures
        bits.len() < 77 ==> unpacked(t, bits) is None && !is_wide_telemetry(bits),
        unpacked(t, bits) is Some ==> {
            let n3 = bits_value(bits, 71, 3);
            let i3 = bits_value(bits, 74, 3);
            &&& bits.len() >= 77
            &&& (i3 == 0 && (n3 == 0 || n3 == 1 || n3 == 5)) || i3 == 1 || i3 == 2 || i3 == 4 || i3
                == 5
        },
{
}

/// The type of a message follows from the last six bits.
pub proof fn law_type_of_a_message(t: CallTables, bits: Seq<u8>)
    requires
        unpacked(t, bits) is Some,
    ensures
        ({
            let n3 = bits_value(bits, 71, 3);
            let i3 = bits_value(bits, 74, 3);
            let m = unpacked(t, bits)->0;
            &&& i3 == 0 && n3 == 0 ==> m.msg_type == Ft8MessageType::FreeText
            &&& i3 == 0 && n3 == 1 ==> m.msg_type == Ft8MessageType::Dxpedition
            &&& i3 == 0 && n3 == 5 ==> m.msg_type == Ft8MessageType::Telemetry
            &&& i3 == 1 || i3 == 2 || i3 == 4 ==> m.msg_type == Ft8MessageType::Standard
            &&& i3 == 5 ==> m.msg_type == Ft8MessageType::Contest
            &&& i3 == 0 && (n3 == 0 || n3 == 5) ==> m.call_1 is None && m.call_2 is None
            &&& i3 != 0 || n3 == 1 ==> m.call_1 is Some && m.call_2 is Some
            &&& m.grid is Some ==> i3 == 1 || i3 == 2
            &&& m.snr is Some ==> i3 == 1 || i3 == 2 || (i3 == 0 && n3 == 1)
        }),
{
}

/// What a number of 28 bits stands for does not begin with white space.
proof fn lemma_text28_start(t: CallTables, n28: int)
    requires
        0 <= n28,
        valid28(n28),
    ensures
        text28(t, n28).len() >= 2,
        !text::white_space(text28(t, n28)[0]),
{
    reveal_strlit("DE");
    reveal_strlit("QRZ");
    reveal_strlit("CQ");
    reveal_strlit("CQ ");
    reveal_strlit("<...");
    if is_standard28(n28) {
        let s = letters6(n28 - NTOKENS - MAX22);
        let (from, to) = text::law_trim_takes_the_ends(s, CharClass::White);
        let c = standard28(n28);
        text::lemma_trim_none_of_trimmed(s);
        lemma_two_characters(c);
    }
}

/// A text that looks like a call sign has two characters or more.
proof fn lemma_two_characters(c: Seq<char>)
    requires
        is_base_call(c),
    ensures
        c.len() >= 2,
{
    let bc = text::trim(c);
    let (from, to) = text::law_trim_takes_the_ends(c, CharClass::White);
    reveal_strlit("<...>");
    if bc != "<...>"@ {
        let i = choose|i: int| 0 <= i < bc.len() && is_letter(#[trigger] bc[i]);
        let j = choose|j: int| 0 <= j < bc.len() && '0' <= #[trigger] bc[j] <= '9';
        assert(i != j);
    }
}

/// The characters of the grid square of a number.
pub proof fn lemma_square(n: int)
    requires
        0 <= n < 32400,
    ensures
        grid4(n).len() == 4,
        square_number(grid4(n)) == n,
        'A' <= grid4(n)[0] <= 'R',
        'A' <= grid4(n)[1] <= 'R',
        '0' <= grid4(n)[2] <= '9',
        '0' <= grid4(n)[3] <= '9',
        grid4(n) == "RR73"@ <==> n == 32373,
{
    reveal_strlit("RR73");
    let g = grid4(n);
    let a = n / 1800;
    let b = n / 100 % 18;
    let c = n / 10 % 10;
    let d = n % 10;
    assert(0 <= a < 18);
    assert(n == 1800 * a + 100 * b + 10 * c + d) by {
        assert(n / 100 == 10 * (n / 1000) + n / 100 % 10);
        assert(n / 1800 == n / 100 / 18);
    }
    assert(g[0] as u32 == 65 + a && g[1] as u32 == 65 + b && g[2] as u32 == 48 + c && g[3] as u32
        == 48 + d);
    if n == 32373 {
        assert(g =~= "RR73"@);
    }
    if g == "RR73"@ {
        assert(g[0] == 'R' && g[1] == 'R' && g[2] == '7' && g[3] == '3');
    }
}

/// The end of a standard message is not trimmed.
proof fn lemma_tail(head: Seq<char>, n: int, acknowledged: bool)
    requires
        0 <= n,
        n != 32401,
        head.len() > 0,
        !text::white_space(head[0]),
    ensures
        text::trim(head + standard_tail(n, acknowledged)) == head + standard_tail(n, acknowledged),
{
    reveal_strlit(" RRR");
    reveal_strlit(" RR73");
    reveal_strlit(" 73");
    let tail = standard_tail(n, acknowledged);
    let whole = head + tail;
    if n < 32400 {
        lemma_square(n);
        assert(tail.last() == grid4(n)[3]);
    } else if n == 32400 || n >= 32405 {
        let report = numbers::signed_report(report15(n - 32400));
        numbers::lemma_report_digits(report15(n - 32400));
        assert(tail.last() == report[report.len() - 1]);
    }
    assert(whole.last() == tail.last());
    assert(whole[0] == head[0]);
    text::lemma_trim_none(whole);
}

/// What a standard message brings besides its call signs follows from fifteen
/// bits and the bit before them, whatever the call signs are: a grid square of
/// its number, unless that reads `RR73`; a report; an acknowledgement; or
/// nothing. It stands at the end of the text, after the call signs.
#[verifier::rlimit(40)]
pub proof fn law_standard_message_by_its_bits(t: CallTables, bits: Seq<u8>)
    requires
        bits.len() >= 77,
        bits_value(bits, 74, 3) == 1 || bits_value(bits, 74, 3) == 2,
        unpacked(t, bits) is Some,
    ensures
        ({
            let m = unpacked(t, bits)->0;
            let n = bits_value(bits, 59, 15) as int;
            let head = m.call_1->0 + " "@ + m.call_2->0;
            let acknowledged = bit_at(bits, 58);
            let square = m.text.skip(m.text.len() - 4);
            &&& m.grid is Some <==> n < 32400 && n != 32373
            &&& m.grid matches Some(g) ==> g == square
            &&& n < 32400 ==> {
                &&& square_number(square) == n
                &&& 'A' <= square[0] <= 'R' && 'A' <= square[1] <= 'R'
                &&& '0' <= square[2] <= '9' && '0' <= square[3] <= '9'
                &&& m.text == head + (if acknowledged { " R "@ } else { " "@ }) + square
            }
            &&& m.snr is Some <==> n == 32400 || n >= 32405
            &&& m.snr matches Some(r) ==> {
                &&& n <= 32485 ==> r == n - 32435
                &&& n > 32485 ==> r == n - 32536
                &&& m.text == head + (if acknowledged { " R"@ } else { " "@ })
                    + numbers::signed_report(r as int)
            }
            &&& n == 32401 ==> m.text == text::trim(head)
            &&& n == 32402 ==> m.text == head + " RRR"@
            &&& n == 32403 ==> m.text == head + " RR73"@
            &&& n == 32404 ==> m.text == head + " 73"@
        }),
{
    let i3 = bits_value(bits, 74, 3) as int;
    let m = standard_message(t, bits, i3)->0;
    assert(unpacked(t, bits) == standard_message(t, bits, i3));
    let n28a = bits_value(bits, 0, 28) as int;
    let n = bits_value(bits, 59, 15) as int;
    lemma_bits_value_bound(bits, 59, 15);
    lemma2_to64();
    let acknowledged = bit_at(bits, 58);
    lemma_text28_start(t, n28a);
    let call1 = m.call_1->0;
    assert(call1[0] == text28(t, n28a)[0]);
    let head = m.call_1->0 + " "@ + m.call_2->0;
    let tail = standard_tail(n, acknowledged);
    assert(head[0] == call1[0]);
    assert(m.text == text::trim(head + tail));
    if n == 32401 {
        assert(head + tail =~= head);
    } else {
        lemma_tail(head, n, acknowledged);
        if n < 32400 {
            lemma_square(n);
            let g = grid4(n);
            assert(m.text.skip(m.text.len() - 4) =~= g);
            assert(m.text =~= head + (if acknowledged { " R "@ } else { " "@ }) + g);
        } else if n == 32400 || n >= 32405 {
            let report = numbers::signed_report(report15(n - 32400));
            assert(m.text =~= head + (if acknowledged { " R"@ } else { " "@ }) + report);
        }
    }
}

/// The number of a grid square: fields of 18 by 18 squares of 10 by 10.
pub open spec fn square_number(g: Seq<char>) -> int {
    1800 * (g[0] as u32 - 'A' as u32) + 100 * (g[1] as u32 - 'A' as u32) + 10 * (g[2] as u32
        - '0' as u32) + (g[3] as u32 - '0' as u32)
}

/// A standard message is refused only if a call sign in it is none, or if it
/// is a general call with an acknowledgement or a report.
pub proof fn law_standard_messages_are_read(t: CallTables, bits: Seq<u8>)
    requires
        bits.len() >= 77,
        bits_value(bits, 74, 3) == 1 || bits_value(bits, 74, 3) == 2,
        valid28(bits_value(bits, 0, 28) as int),
        valid28(bits_value(bits, 29, 28) as int),
    ensures
        ({
            let n28a = bits_value(bits, 0, 28) as int;
            let general = text::starts_with(text28(t, n28a), "CQ"@);
            let n = bits_value(bits, 59, 15);
            &&& unpacked(t, bits) is None <==> general && (bit_at(bits, 58) || n >= 32402)
            &&& unpacked(t, bits) matches Some(m) ==> {
                let first = text28(t, n28a);
                let second = text28(saved28(t, n28a), bits_value(bits, 29, 28) as int);
                let suffix = if bits_value(bits, 74, 3) == 1 {
                    "/R"@
                } else {
                    "/P"@
                };
                &&& m.call_1 == Some(if bit_at(bits, 28) { first + suffix } else { first })
                &&& m.call_2 == Some(if bit_at(bits, 57) { second + suffix } else { second })
            }
        }),
{
    reveal_strlit("CQ");
    let n28a = bits_value(bits, 0, 28) as int;
    lemma_text28_start(t, n28a);
    let first = text28(t, n28a);
    let i3 = bits_value(bits, 74, 3) as int;
    let call1 = suffixed(first, bit_at(bits, 28), i3);
    assert(call1.take(2) =~= first.take(2));
}

/// Numbers of 28 bits that stand for no call sign, and for hashes.
pub proof fn law_tokens_of_28_bits(t: CallTables, n: int, h: u32, k: int)
    requires
        0 <= n < 1000,
        h < 4194304,
        0 <= k < 13,
    ensures
        text28(t, 0) == "DE"@,
        text28(t, 1) == "QRZ"@,
        text28(t, 2) == "CQ"@,
        text28(t, 3 + n).len() == 6,
        text28(t, 3 + n).take(3) == "CQ "@,
        numbers::value_in(text28(t, 3 + n).skip(3), 10) == n,
        text28(t, 2063592 + h) == t.text22(h),
        valid28(3 + n) && valid28(2063592 + h),
        13 * h + k < 1531148 ==> ({
            let s = text28(t, 532444 + 13 * h + k);
            let base = t.text12(h);
            &&& k == 0 ==> s == base + "/R"@
            &&& k == 1 ==> s == base + "/P"@
            &&& k == 12 ==> s == base + "/QRP"@
            &&& 2 <= k <= 11 ==> s.len() == base.len() + 2 && s.take(base.len() as int) == base
                && s[base.len() as int] == '/' && s.last() as u32 == '0' as u32 + k - 2
        }),
{
    reveal_strlit("CQ ");
    numbers::law_number_reads_back(n as nat, 10);
    numbers::law_padding_keeps_the_number(numbers::decimal(n as nat), 3, 10);
    lemma_three_digits(n as nat);
    let s = text28(t, 3 + n);
    let d = numbers::zero_padded(numbers::decimal(n as nat), 3);
    assert(s == "CQ "@ + d);
    assert(s.skip(3) =~= d);
    assert(s.take(3) =~= "CQ "@);
    if 13 * h + k < 1531148 {
        let m = 13 * h + k;
        assert(m / 13 == h && m % 13 == k);
        let base = t.text12(h);
        let s = text28(t, 532444 + m);
        assert(s == base + suffix28(k));
        assert(2 <= k <= 11 ==> s.take(base.len() as int) =~= base);
    }
}

proof fn lemma_three_digits(n: nat)
    requires
        n < 1000,
    ensures
        numbers::decimal(n).len() <= 3,
{
    reveal_with_fuel(numbers::in_base, 4);
    assert(n / 10 < 100 && n / 10 / 10 < 10);
}

/// The number of a letter, counted from one; of a space, zero.
pub open spec fn letter_number(c: char) -> int {
    if c == ' ' {
        0
    } else {
        c as u32 - 'A' as u32 + 1
    }
}

/// Whether a character is a space or an upper-case letter.
pub open spec fn is_letter_or_space(c: char) -> bool {
    c == ' ' || 'A' <= c <= 'Z'
}

/// Whether a character is a digit or an upper-case letter.
pub open spec fn is_digit_or_letter(c: char) -> bool {
    '0' <= c <= '9' || 'A' <= c <= 'Z'
}

/// The number of 28 bits that is sent for a call sign of six characters,
/// filled up with spaces so that its digit is the third.
pub open spec fn packed28(c: Seq<char>) -> int {
    let first = if c[0] == ' ' {
        0
    } else {
        numbers::digit_value(c[0]) + 1
    };
    let head = (first * 36 + numbers::digit_value(c[1])) * 10 + numbers::digit_value(c[2]);
    6257896 + ((head * 27 + letter_number(c[3])) * 27 + letter_number(c[4])) * 27 + letter_number(
        c[5],
    )
}

proof fn lemma_six_places(a: int, b: int, d: int, x: int, y: int, z: int)
    requires
        0 <= a < 37,
        0 <= b < 36,
        0 <= d < 10,
        0 <= x < 27,
        0 <= y < 27,
        0 <= z < 27,
    ensures
        ({
            let n = 7085880 * a + 196830 * b + 19683 * d + 729 * x + 27 * y + z;
            &&& n / 7085880 == a
            &&& n / 196830 % 36 == b
            &&& n / 19683 % 10 == d
            &&& n / 729 % 27 == x
            &&& n / 27 % 27 == y
            &&& n % 27 == z
            &&& 0 <= n < 262177560
        }),
{
    let n = 7085880 * a + 196830 * b + 19683 * d + 729 * x + 27 * y + z;
    let n1 = 262440 * a + 7290 * b + 729 * d + 27 * x + y;
    let n2 = 9720 * a + 270 * b + 27 * d + x;
    let n3 = 360 * a + 10 * b + d;
    let n4 = 36 * a + b;
    assert(n == 27 * n1 + z);
    assert(n1 == 27 * n2 + y);
    assert(n2 == 27 * n3 + x);
    assert(n3 == 10 * n4 + d);
    assert(n / 27 == n1 && n % 27 == z);
    assert(n1 % 27 == y);
    assert(n == 729 * n2 + (27 * y + z) && 0 <= 27 * y + z < 729);
    assert(n / 729 == n2);
    assert(n2 % 27 == x);
    let low3 = 729 * x + 27 * y + z;
    assert(n == 19683 * n3 + low3 && 0 <= low3 < 19683);
    assert(n / 19683 == n3);
    assert(n3 % 10 == d);
    let low4 = 19683 * d + low3;
    assert(n == 196830 * n4 + low4 && 0 <= low4 < 196830);
    assert(n / 196830 == n4);
    assert(n4 % 36 == b);
    let low5 = 196830 * b + low4;
    assert(n == 7085880 * a + low5 && 0 <= low5 < 7085880);
    assert(n / 7085880 == a);
}

/// A call sign that was sent in 28 bits is read back.
pub proof fn law_call_reads_back(t: CallTables, c: Seq<char>)
    requires
        c.len() == 6,
        c[0] == ' ' || is_digit_or_letter(c[0]),
        is_digit_or_letter(c[1]),
        '0' <= c[2] <= '9',
        is_letter_or_space(c[3]),
        is_letter_or_space(c[4]),
        is_letter_or_space(c[5]),
    ensures
        text28(t, packed28(c)) == text::trim(c),
        6257896 <= packed28(c) < 0x1000_0000,
{
    let a = if c[0] == ' ' {
        0
    } else {
        numbers::digit_value(c[0]) + 1
    };
    let b = numbers::digit_value(c[1]);
    let d = numbers::digit_value(c[2]);
    let x = letter_number(c[3]);
    let y = letter_number(c[4]);
    let z = letter_number(c[5]);
    let n = packed28(c) - 6257896;
    assert(n == 7085880 * a + 196830 * b + 19683 * d + 729 * x + 27 * y + z);
    lemma_six_places(a, b, d, x, y, z);
    assert(letters6(n) =~= c);
}

/// The letters after `CQ` that were sent in 28 bits are read back.
pub proof fn law_direction_reads_back(t: CallTables, c: Seq<char>)
    requires
        c.len() == 4,
        forall|i: int| 0 <= i < 4 ==> is_letter_or_space(#[trigger] c[i]),
    ensures
        ({
            let n = ((letter_number(c[0]) * 27 + letter_number(c[1])) * 27 + letter_number(c[2]))
                * 27 + letter_number(c[3]);
            text28(t, 1003 + n) == "CQ "@ + text::trim(c)
        }),
{
    let a = letter_number(c[0]);
    let x = letter_number(c[1]);
    let y = letter_number(c[2]);
    let z = letter_number(c[3]);
    let n = ((a * 27 + x) * 27 + y) * 27 + z;
    assert(is_letter_or_space(c[0]) && is_letter_or_space(c[1]) && is_letter_or_space(c[2])
        && is_letter_or_space(c[3]));
    assert(n == 19683 * a + 729 * x + 27 * y + z);
    assert(n / 19683 == a && n / 729 % 27 == x && n / 27 % 27 == y && n % 27 == z);
    assert(letters4(n) =~= c);
}

/// The number of a character of free text.
pub open spec fn free_number(c: char) -> int {
    if c == ' ' {
        0
    } else if '0' <= c <= '9' {
        c as u32 - '0' as u32 + 1
    } else if 'A' <= c <= 'Z' {
        c as u32 - 'A' as u32 + 11
    } else if c == '+' {
        37
    } else if c == '-' {
        38
    } else if c == '.' {
        39
    } else if c == '/' {
        40
    } else {
        41
    }
}

/// Whether a character can be sent in free text.
pub open spec fn is_free_char(c: char) -> bool {
    ||| c == ' '
    ||| is_digit_or_letter(c)
    ||| c == '+' || c == '-' || c == '.' || c == '/' || c == '?'
}

/// The number that is sent for free text.
pub open spec fn packed_text(s: Seq<char>) -> nat
    decreases s.len(),
{
    if s.len() == 0 {
        0
    } else {
        (42 * packed_text(s.drop_last()) + free_number(s.last())) as nat
    }
}

proof fn lemma_text_reads_back(s: Seq<char>)
    requires
        forall|i: int| 0 <= i < s.len() ==> is_free_char(#[trigger] s[i]),
    ensures
        text42(packed_text(s), s.len()) == s,
    decreases s.len(),
{
    if s.len() > 0 {
        let c = s.last();
        let rest = s.drop_last();
        assert(is_free_char(c));
        assert forall|i: int| 0 <= i < rest.len() implies is_free_char(#[trigger] rest[i]) by {
            assert(rest[i] == s[i]);
        }
        lemma_text_reads_back(rest);
        let n = packed_text(s);
        assert(n == 42 * packed_text(rest) + free_number(c));
        assert(n / 42 == packed_text(rest) && n % 42 == free_number(c));
        assert(letter42(free_number(c)) == c);
        assert(rest.push(c) =~= s);
    }
}

/// Free text that was sent in 71 bits is read back, but for spaces at its ends.
pub proof fn law_free_text_reads_back(t: CallTables, bits: Seq<u8>, s: Seq<char>)
    requires
        bits.len() >= 77,
        bits_value(bits, 74, 3) == 0,
        bits_value(bits, 71, 3) == 0,
        s.len() == 13,
        forall|i: int| 0 <= i < s.len() ==> is_free_char(#[trigger] s[i]),
        bits_value(bits, 0, 71) == packed_text(s),
    ensures
        text::trim(s).len() > 0 ==> unpacked(t, bits) is Some && (unpacked(t, bits)->0).text
            == text::trim(s),
        text::trim(s).len() == 0 ==> unpacked(t, bits) is None,
{
    lemma_text_reads_back(s);
}

/// The number of a character of a call sign of eleven characters.
pub open spec fn call_number(c: char) -> int {
    if c == '/' {
        37
    } else {
        free_number(c)
    }
}

/// The number that is sent for a call sign of eleven characters.
pub open spec fn packed_call11(s: Seq<char>) -> nat
    decreases s.len(),
{
    if s.len() == 0 {
        0
    } else {
        (38 * packed_call11(s.drop_last()) + call_number(s.last())) as nat
    }
}

proof fn lemma_call11_reads_back(s: Seq<char>)
    requires
        forall|i: int|
            0 <= i < s.len() ==> #[trigger] s[i] == ' ' || s[i] == '/' || is_digit_or_letter(s[i]),
    ensures
        text38(packed_call11(s), s.len()) == s,
    decreases s.len(),
{
    if s.len() > 0 {
        let c = s.last();
        let rest = s.drop_last();
        assert(c == ' ' || c == '/' || is_digit_or_letter(c));
        assert forall|i: int| 0 <= i < rest.len() implies #[trigger] rest[i] == ' ' || rest[i] == '/'
            || is_digit_or_letter(rest[i]) by {
            assert(rest[i] == s[i]);
        }
        lemma_call11_reads_back(rest);
        let n = packed_call11(s);
        assert(n == 38 * packed_call11(rest) + call_number(c));
        assert(n / 38 == packed_call11(rest) && n % 38 == call_number(c));
        assert(letter38(call_number(c)) == c);
        assert(rest.push(c) =~= s);
    }
}

/// A call sign of eleven characters that was sent in 58 bits is read back, as
/// the sender of the message or, if the bit after it is set, as the one it is
/// for. The other is known by its hash. The text is a general call of the
/// sender, or it names both and ends as two bits say.
pub proof fn law_nonstandard_call_reads_back(t: CallTables, bits: Seq<u8>, s: Seq<char>)
    requires
        bits.len() >= 77,
        bits_value(bits, 74, 3) == 4,
        s.len() == 11,
        forall|i: int|
            0 <= i < s.len() ==> #[trigger] s[i] == ' ' || s[i] == '/' || is_digit_or_letter(s[i]),
        bits_value(bits, 12, 58) == packed_call11(s),
    ensures
        ({
            let call = text::trim(s);
            let other = t.saved(call).text12(bits_value(bits, 0, 12) as u32);
            let (to, from) = if bit_at(bits, 70) {
                (call, other)
            } else {
                (other, call)
            };
            let end = bits_value(bits, 71, 2);
            &&& call.len() == 0 ==> unpacked(t, bits) is None
            &&& call.len() > 0 ==> unpacked(t, bits) is Some && {
                let m = unpacked(t, bits)->0;
                &&& m.call_1 == Some(to)
                &&& m.call_2 == Some(from)
                &&& bit_at(bits, 73) ==> m.text == "CQ "@ + from
                &&& !bit_at(bits, 73) ==> {
                    &&& end == 0 ==> m.text == to + " "@ + from
                    &&& end == 1 ==> m.text == to + " "@ + from + " RRR"@
                    &&& end == 2 ==> m.text == to + " "@ + from + " RR73"@
                    &&& end == 3 ==> m.text == to + " "@ + from + " 73"@
                }
            }
        }),
{
    lemma_call11_reads_back(s);
    let n = bits_value(bits, 12, 58);
    assert(call11(bits) == text::trim(s));
    if bits_value(bits, 71, 2) == 0 {
        let to = if bit_at(bits, 70) {
            call11(bits)
        } else {
            t.saved(call11(bits)).text12(bits_value(bits, 0, 12) as u32)
        };
        let from = if bit_at(bits, 70) {
            t.saved(call11(bits)).text12(bits_value(bits, 0, 12) as u32)
        } else {
            call11(bits)
        };
        assert(to + " "@ + from + Seq::<char>::empty() =~= to + " "@ + from);
    }
}

/// A message of an expedition closes the contact with its first call sign,
/// and sends a report, an even number of decibels from -30 on, to its second.
pub proof fn law_expedition_message_by_its_bits(t: CallTables, bits: Seq<u8>)
    requires
        bits.len() >= 77,
        bits_value(bits, 74, 3) == 0,
        bits_value(bits, 71, 3) == 1,
    ensures
        ({
            let n28a = bits_value(bits, 0, 28) as int;
            let n28b = bits_value(bits, 28, 28) as int;
            let after = saved28(saved28(t, n28a), n28b);
            &&& unpacked(t, bits) is Some <==> n28a > 2 && n28b > 2 && valid28(n28a) && valid28(
                n28b,
            )
            &&& unpacked(t, bits) matches Some(m) ==> {
                &&& m.call_1 == Some(text28(t, n28a))
                &&& m.call_2 == Some(text28(saved28(t, n28a), n28b))
                &&& m.snr is Some
                &&& (m.snr->0 + 30) == 2 * bits_value(bits, 66, 5)
                &&& m.text == m.call_1->0 + " RR73; "@ + m.call_2->0 + " "@ + after.text10(
                    bits_value(bits, 56, 10) as u32,
                ) + " "@ + numbers::signed_report(m.snr->0 as int)
            }
        }),
{
    lemma_bits_value_bound(bits, 66, 5);
    lemma2_to64();
}

/// Telemetry is the number of its 71 bits in eighteen digits to the base 16.
pub proof fn law_telemetry_reads_back(t: CallTables, bits: Seq<u8>)
    requires
        bits.len() >= 77,
        bits_value(bits, 74, 3) == 0,
        bits_value(bits, 71, 3) == 5,
    ensures
        ({
            let text = (unpacked(t, bits)->0).text;
            &&& unpacked(t, bits) is Some
            &&& text.len() >= 29
            &&& text.take(11) == "TELEMETRY: "@
            &&& numbers::value_in(text.skip(11), 16) == bits_value(bits, 0, 71)
        }),
{
    reveal_strlit("TELEMETRY: ");
    let n = bits_value(bits, 0, 71);
    numbers::law_number_reads_back(n, 16);
    numbers::law_padding_keeps_the_number(numbers::in_base(n, 16), 18, 16);
    let text = (unpacked(t, bits)->0).text;
    let d = numbers::zero_padded(numbers::in_base(n, 16), 18);
    assert(text.take(11) =~= "TELEMETRY: "@);
    assert(text.skip(11) =~= d);
}

/// A contest message names both stations by their hashes, the first in twelve
/// bits and the second in 22, and a serial number of four digits.
pub proof fn law_contest_message_by_its_bits(t: CallTables, bits: Seq<u8>)
    requires
        bits.len() >= 77,
        bits_value(bits, 74, 3) == 5,
    ensures
        ({
            let m = unpacked(t, bits)->0;
            let head = m.call_1->0 + " "@ + m.call_2->0 + " "@ + (if bit_at(bits, 34) {
                "R "@
            } else {
                ""@
            });
            let rest = m.text.skip(head.len() as int);
            &&& unpacked(t, bits) is Some
            &&& m.call_1 == Some(t.text12(bits_value(bits, 0, 12) as u32))
            &&& m.call_2 == Some(t.text22(bits_value(bits, 12, 22) as u32))
            &&& m.text.take(head.len() as int) == head
            &&& rest.len() >= 12
            &&& rest.skip(rest.len() - 8) == " [GRID6]"@
            &&& numbers::value_in(rest.take(rest.len() - 8), 10) == 5200 + 1000 * bits_value(
                bits,
                35,
                3,
            ) + bits_value(bits, 38, 11)
        }),
{
    reveal_strlit("");
    reveal_strlit(" [GRID6]");
    let m = contest_message(t, bits);
    let number = (5200 + bits_value(bits, 35, 3) * 1000 + bits_value(bits, 38, 11)) as nat;
    numbers::law_number_reads_back(number, 10);
    numbers::law_padding_keeps_the_number(numbers::decimal(number), 4, 10);
    let d = numbers::zero_padded(numbers::decimal(number), 4);
    let r = if bit_at(bits, 34) {
        "R "@
    } else {
        ""@
    };
    assert(""@ =~= Seq::<char>::empty());
    let head = m.call_1->0 + " "@ + m.call_2->0 + " "@ + r;
    assert(m.text =~= head + d + " [GRID6]"@);
    let rest = m.text.skip(head.len() as int);
    assert(m.text.take(head.len() as int) =~= head);
    assert(rest =~= d + " [GRID6]"@);
    assert(rest.skip(rest.len() - 8) =~= " [GRID6]"@);
    assert(rest.take(rest.len() - 8) =~= d);
}

/// Bits are read highest first; those past the end count as not set.
pub proof fn law_bits_are_read_highest_first(bits: Seq<u8>, start: int, a: nat, b: nat)
    ensures
        bits_value(bits, start, a + b) == bits_value(bits, start, a) * pow2(b) + bits_value(
            bits,
            start + a,
            b,
        ),
        bits_value(bits, start, 1) == if 0 <= start < bits.len() && bits[start] != 0 {
            1nat
        } else {
            0nat
        },
        bits_value(bits, start, a) < pow2(a),
    decreases b,
{
    reveal_with_fuel(bits_value, 2);
    lemma_bits_value_bound(bits, start, a);
    lemma2_to64();
    if b > 0 {
        law_bits_are_read_highest_first(bits, start, a, (b - 1) as nat);
        lemma_pow2_unfold(b);
        let x = bits_value(bits, start, a);
        let y = pow2((b - 1) as nat);
        assert(2 * (x * y) == x * (2 * y)) by (nonlinear_arith);
        assert(start + (a + b) - 1 == start + a + b - 1);
    }
}

/// The tables after the bits were read.
pub open spec fn tables_after(t: CallTables, bits: Seq<u8>) -> CallTables {
    let n3 = bits_value(bits, 71, 3);
    let i3 = bits_value(bits, 74, 3);
    if bits.len() < 77 {
        t
    } else if i3 == 0 && n3 == 0 {
        t.saved_all(text::words(free_text(bits)))
    } else if i3 == 0 && n3 == 1 {
        saved28(
            saved28(t, bits_value(bits, 0, 28) as int),
            bits_value(bits, 28, 28) as int,
        )
    } else if i3 == 1 || i3 == 2 {
        saved28(
            saved28(t, bits_value(bits, 0, 28) as int),
            bits_value(bits, 29, 28) as int,
        )
    } else if i3 == 4 {
        t.saved(call11(bits))
    } else {
        t
    }
}

proof fn lemma_value38(b: Seq<u8>, s: Seq<char>)
    requires
        b.len() == s.len(),
        forall|i: int| 0 <= i < s.len() ==> #[trigger] b[i] as u32 == s[i] as u32,
        forall|i: int|
            0 <= i < s.len() ==> #[trigger] s[i] == ' ' || s[i] == '/' || is_digit_or_letter(s[i]),
    ensures
        value38(b) == packed_call11(s),
    decreases s.len(),
{
    if s.len() > 0 {
        let (b1, s1) = (b.drop_last(), s.drop_last());
        assert forall|i: int| 0 <= i < s1.len() implies #[trigger] s1[i] == ' ' || s1[i] == '/'
            || is_digit_or_letter(s1[i]) by {
            assert(s1[i] == s[i]);
        }
        assert forall|i: int| 0 <= i < s1.len() implies #[trigger] b1[i] as u32 == s1[i] as u32 by {
            assert(b1[i] == b[i] && s1[i] == s[i]);
        }
        lemma_value38(b1, s1);
        let c = s.last();
        assert(c == ' ' || c == '/' || is_digit_or_letter(c));
        assert(b.last() as u32 == c as u32);
        assert(number38(b.last()) == call_number(c));
    }
}

/// The hash of a call sign is taken of the number that is sent for it: its
/// product with a factor, the highest bits of 64. Small letters count as large.
pub proof fn law_hash_of_a_call(c: Seq<char>, bits: int)
    requires
        c.len() <= 11,
        forall|i: int| 0 <= i < c.len() ==> #[trigger] c[i] == '/' || is_digit_or_letter(c[i]),
        1 <= bits <= 32,
    ensures
        ({
            let filled = c + Seq::new((11 - c.len()) as nat, |i: int| ' ');
            let product = (packed_call11(filled) * 8523930129890207281int) % 0x1_0000_0000_0000_0000;
            call_hash(c, bits) == product / pow2((64 - bits) as nat) as int
        }),
{
    let filled = c + Seq::new((11 - c.len()) as nat, |i: int| ' ');
    text::lemma_upper_none(c);
    assert(filled11(c) =~= filled);
    assert(is_ascii_chars(filled));
    is_ascii_chars_encode_utf8(filled);
    let b = encode_utf8(filled);
    assert(b.take(11) =~= b);
    assert forall|i: int| 0 <= i < filled.len() implies #[trigger] b[i] as u32 == filled[i] as u32 by {
        assert(filled[i] as u8 == b[i]);
        assert(filled[i] as u32 <= 127);
    }
    lemma_value38(b, filled);
    let product = (packed_call11(filled) * 8523930129890207281int) % 0x1_0000_0000_0000_0000;
    let d = pow2((64 - bits) as nat) as int;
    lemma_pow2_adds((64 - bits) as nat, bits as nat);
    lemma2_to64();
    lemma_pow2_pos((64 - bits) as nat);
    if bits < 32 {
        lemma_pow2_strictly_increases(bits as nat, 32);
    }
    assert(product / d < pow2(bits as nat)) by (nonlinear_arith)
        requires
            0 <= product < d * pow2(bits as nat),
            d > 0,
    ;
    assert(0 <= product / d) by (nonlinear_arith)
        requires
            0 <= product,
            d > 0,
    ;
}

/// The characters of a standard call sign are letters, digits and spaces.
proof fn lemma_letters6(n: int)
    requires
        0 <= n < 262177560,
    ensures
        letters6(n).len() == 6,
        forall|i: int|
            0 <= i < 6 ==> #[trigger] letters6(n)[i] == ' ' || is_digit_or_letter(letters6(n)[i]),
{
    let s = letters6(n);
    lemma_place(n / 7085880, 37);
    lemma_place(n / 196830 % 36, 36);
    lemma_place(n / 19683 % 10, 10);
    lemma_place(n / 729 % 27, 27);
    lemma_place(n / 27 % 27, 27);
    lemma_place(n % 27, 27);
    assert forall|i: int| 0 <= i < 6 implies #[trigger] s[i] == ' ' || is_digit_or_letter(s[i]) by {
        assert(i == 0 || i == 1 || i == 2 || i == 3 || i == 4 || i == 5);
    }
}

proof fn lemma_place(d: int, base: int)
    requires
        0 <= d < base <= 37,
    ensures
        letter37(d) == ' ' || is_digit_or_letter(letter37(d)),
        base <= 36 ==> is_digit_or_letter(letter36(d)),
        base <= 10 ==> is_digit_or_letter(numbers::digit(d)),
        base <= 27 ==> letter27(d) == ' ' || is_digit_or_letter(letter27(d)),
{
}

/// A standard call sign stands without brackets and slashes.
proof fn lemma_standard_call(n28: int)
    requires
        is_standard28(n28),
        n28 < 0x1000_0000,
        valid28(n28),
    ensures
        ({
            let c = standard28(n28);
            &&& text::byte_len(c) >= 3
            &&& c != "<...>"@
            &&& text::trim(text::trim_both(c, CharClass::Angle)) == c
            &&& !c.contains('/')
        }),
{
    reveal_strlit("<...>");
    let s = letters6(n28 - NTOKENS - MAX22);
    let c = standard28(n28);
    text::lemma_trim_none_of_trimmed(s);
    let (from, to) = text::law_trim_takes_the_ends(s, CharClass::White);
    lemma_letters6(n28 - NTOKENS - MAX22);
    assert forall|i: int| 0 <= i < c.len() implies #[trigger] c[i] == ' ' || is_digit_or_letter(
        c[i],
    ) by {
        assert(c[i] == s[from + i]);
    }
    assert(c.len() > 0) by {
        lemma_two_characters(c);
    }
    assert("<...>"@[0] == '<');
    assert(!CharClass::Angle.has(c[0]) && !CharClass::Angle.has(c.last())) by {
        assert(c.last() == c[c.len() - 1]);
    }
    assert(text::trim_both(c, CharClass::Angle) == c);
}

/// Saving a call sign takes at most two places.
proof fn lemma_saved_room(t: CallTables, word: Seq<char>)
    requires
        t.calls22.dom().finite(),
        !text::trim(text::trim_both(word, CharClass::Angle)).contains('/'),
    ensures
        t.saved(word).calls22.dom().finite(),
        t.saved(word).calls22.len() <= t.calls22.len() + 1,
{
    let call = text::trim(text::trim_both(word, CharClass::Angle));
    let once = t.entered(call);
    if t.calls22.len() < CACHE_LIMIT {
        assert(once.calls22.dom() =~= t.calls22.dom().insert(call_hash(call, 22)));
    }
}

/// Whether a call sign is found by each of its hashes.
pub open spec fn knows(t: CallTables, call: Seq<char>) -> bool {
    let found = seq!['<'] + call + seq!['>'];
    &&& t.text10(call_hash(call, 10)) == found
    &&& t.text12(call_hash(call, 12)) == found
    &&& t.text22(call_hash(call, 22)) == found
}

/// The sender of a standard message is found by its hashes from then on,
/// where there is room; so is the one that the message is for, unless it has a
/// hash in common with the sender. Nothing that the message does not name is entered.
pub proof fn law_standard_calls_are_remembered(t: CallTables, bits: Seq<u8>)
    requires
        bits.len() >= 77,
        bits_value(bits, 74, 3) == 1 || bits_value(bits, 74, 3) == 2,
        t.calls22.dom().finite(),
        t.calls22.len() + 1 < CACHE_LIMIT,
    ensures
        ({
            let a = bits_value(bits, 0, 28) as int;
            let b = bits_value(bits, 29, 28) as int;
            let first = standard28(a);
            let second = standard28(b);
            let after = tables_after(t, bits);
            &&& b >= 6257896 && valid28(b) ==> knows(after, second)
            &&& a >= 6257896 && valid28(a) && b < 6257896 ==> knows(after, first)
            &&& a >= 6257896 && valid28(a) && b >= 6257896 && valid28(b) && call_hash(first, 22)
                != call_hash(second, 22) ==> after.text22(call_hash(first, 22)) == seq!['<'] + first
                + seq!['>']
            &&& a < 6257896 && b < 6257896 ==> after == t
        }),
{
    let a = bits_value(bits, 0, 28) as int;
    let b = bits_value(bits, 29, 28) as int;
    lemma_bits_value_bound(bits, 0, 28);
    lemma_bits_value_bound(bits, 29, 28);
    lemma2_to64();
    let mid = saved28(t, a);
    if is_standard28(a) && valid28(a) {
        lemma_standard_call(a);
        lemma_saved_room(t, standard28(a));
        law_saved_call_is_found(t, standard28(a));
    } else if is_standard28(a) {
        lemma_refused_call(a);
        lemma_saved_room(t, standard28(a));
    }
    if is_standard28(b) && valid28(b) {
        lemma_standard_call(b);
        law_saved_call_is_found(mid, standard28(b));
    }
}

/// A number of 28 bits whose call sign is refused names none with slashes.
proof fn lemma_refused_call(n28: int)
    requires
        is_standard28(n28),
        n28 < 0x1000_0000,
    ensures
        !text::trim(text::trim_both(standard28(n28), CharClass::Angle)).contains('/'),
{
    let s = letters6(n28 - NTOKENS - MAX22);
    let c = standard28(n28);
    lemma_letters6(n28 - NTOKENS - MAX22);
    assert forall|i: int| 0 <= i < s.len() implies s[i] != '/' by {
        assert(s[i] == ' ' || is_digit_or_letter(s[i]));
    }
    text::lemma_trim_brings_none(s, CharClass::White, '/');
    text::lemma_trim_brings_none(c, CharClass::Angle, '/');
    text::lemma_trim_brings_none(text::trim_both(c, CharClass::Angle), CharClass::White, '/');
}

/// A hash that no call sign was entered for is shown as such.
pub proof fn law_unknown_hash_is_shown(t: CallTables, h: u32)
    ensures
        !t.calls10.contains_key(h) ==> t.text10(h) == "<...>"@,
        !t.calls12.contains_key(h) ==> t.text12(h) == "<..."@ + numbers::decimal(h as nat) + ">"@,
        !t.calls22.contains_key(h) ==> t.text22(h) == "<..."@ + numbers::decimal(h as nat) + ">"@,
{
    reveal_strlit(">");
    assert(">"@ =~= seq!['>']);
}

fn is_set(bits: &[u8], i: usize) -> (r: bool)
    ensures
        r == bit_at(bits@, i as int),
{
    i < bits.len() && bits[i] != 0
}

fn read28(bits: &[u8], start: usize) -> (r: u32)
    requires
        start < 100,
    ensures
        r == bits_value(bits@, start as int, 28),
        r < 0x1000_0000,
{
    let r = read_bits(bits, start, 28);
    proof {
        lemma2_to64();
    }
    r
}

fn add_suffix(call: &mut String, has: bool, i3: u32)
    ensures
        final(call)@ == suffixed(old(call)@, has, i3 as int),
{
    if has {
        if i3 == 1 {
            call.append("/R");
        } else {
            call.append("/P");
        }
    }
}

fn unpack_standard(cache: &mut HashCache, bits: &[u8], i3: u32) -> (r: Option<Ft8Message>)
    requires
        bits@.len() >= 77,
    ensures
        (match r {
            Some(m) => Some(m@),
            None => None,
        }) == standard_message(old(cache)@, bits@, i3 as int),
        final(cache)@ == saved28(
            saved28(old(cache)@, bits_value(bits@, 0, 28) as int),
            bits_value(bits@, 29, 28) as int,
        ),
{
    let ghost t = cache@;
    let n28a = read28(bits, 0);
    let n28b = read28(bits, 29);
    let ir = is_set(bits, 58);
    let igrid4 = read_bits(bits, 59, 15);
    proof {
        lemma2_to64();
    }
    let (mut call1, ok1) = unpack28(cache, n28a);
    let (mut call2, ok2) = unpack28(cache, n28b);
    let cq_first = has_prefix(call1.as_str(), "CQ");
    add_suffix(&mut call1, is_set(bits, 28), i3);
    add_suffix(&mut call2, is_set(bits, 57), i3);
    let cq = has_prefix(call1.as_str(), "CQ");
    if !ok1 || !ok2 || (cq_first && ir) {
        return None;
    }
    let mut text = String::new();
    text.append(call1.as_str());
    text.append(" ");
    text.append(call2.as_str());
    let ghost head = call1@ + " "@ + call2@;
    assert(text@ =~= head);
    let mut grid: Option<String> = None;
    let mut snr: Option<i32> = None;
    if igrid4 < 32400 {
        let square = grid_text(igrid4);
        if ir {
            text.append(" R ");
        } else {
            text.append(" ");
        }
        text.append(square.as_str());
        assert(text@ =~= head + standard_tail(igrid4 as int, ir));
        if !same_text(square.as_str(), "RR73") {
            grid = Some(square);
        }
    } else {
        let irpt: u32 = igrid4 - 32400;
        if cq && irpt >= 2 {
            return None;
        }
        if irpt == 1 {
            assert(text@ =~= head + standard_tail(igrid4 as int, ir));
        } else if irpt == 2 {
            text.append(" RRR");
        } else if irpt == 3 {
            text.append(" RR73");
        } else if irpt == 4 {
            text.append(" 73");
        } else {
            let mut isnr: i32 = irpt as i32 - 35;
            if isnr > 50 {
                isnr = isnr - 101;
            }
            snr = Some(isnr);
            if ir {
                text.append(" R");
            } else {
                text.append(" ");
            }
            text.append(report_text(isnr).as_str());
            assert(text@ =~= head + standard_tail(igrid4 as int, ir));
        }
        assert(text@ =~= head + standard_tail(igrid4 as int, ir));
    }
    let msg = Ft8Message {
        msg_type: Ft8MessageType::Standard,
        text: trimmed(text.as_str()),
        call_1: Some(call1),
        call_2: Some(call2),
        grid,
        snr,
    };
    assert(msg@ =~= standard_message(t, bits@, i3 as int)->0);
    Some(msg)
}

fn unpack_dxpedition(cache: &mut HashCache, bits: &[u8]) -> (r: Option<Ft8Message>)
    requires
        bits@.len() >= 77,
    ensures
        (match r {
            Some(m) => Some(m@),
            None => None,
        }) == dxpedition_message(old(cache)@, bits@),
        final(cache)@ == saved28(
            saved28(old(cache)@, bits_value(bits@, 0, 28) as int),
            bits_value(bits@, 28, 28) as int,
        ),
{
    let ghost t = cache@;
    let n28a = read28(bits, 0);
    let n28b = read28(bits, 28);
    let n10 = read_bits(bits, 56, 10);
    let n5 = read_bits(bits, 66, 5);
    proof {
        lemma2_to64();
    }
    let (call1, ok1) = unpack28(cache, n28a);
    let (call2, ok2) = unpack28(cache, n28b);
    if !ok1 || !ok2 || n28a <= 2 || n28b <= 2 {
        return None;
    }
    let rpt: i32 = 2 * n5 as i32 - 30;
    let hashed = cache.lookup_hash10(n10);
    let mut text = String::new();
    text.append(call1.as_str());
    text.append(" RR73; ");
    text.append(call2.as_str());
    text.append(" ");
    text.append(hashed.as_str());
    text.append(" ");
    text.append(report_text(rpt).as_str());
    let msg = Ft8Message {
        msg_type: Ft8MessageType::Dxpedition,
        text,
        call_1: Some(call1),
        call_2: Some(call2),
        grid: None,
        snr: Some(rpt),
    };
    assert(msg@ =~= dxpedition_message(t, bits@)->0);
    Some(msg)
}

fn unpack_nonstandard(cache: &mut HashCache, bits: &[u8]) -> (r: Option<Ft8Message>)
    requires
        bits@.len() >= 77,
    ensures
        (match r {
            Some(m) => Some(m@),
            None => None,
        }) == nonstandard_message(old(cache)@, bits@),
        final(cache)@ == old(cache)@.saved(call11(bits@)),
{
    let ghost t = cache@;
    let n12 = read_bits(bits, 0, 12);
    let n58 = read_bits_u64(bits, 12, 58);
    let flip = is_set(bits, 70);
    let nrpt = read_bits(bits, 71, 2);
    let c11 = trimmed(last_chars38(n58, 11).as_str());
    save_hash_call(cache, c11.as_str());
    if c11.as_str().unicode_len() == 0 {
        return None;
    }
    let hashed = cache.lookup_hash12(n12);
    let (c1, c2) = if flip {
        (c11, hashed)
    } else {
        (hashed, c11)
    };
    let mut text = String::new();
    if is_set(bits, 73) {
        text.append("CQ ");
        text.append(c2.as_str());
    } else {
        text.append(c1.as_str());
        text.append(" ");
        text.append(c2.as_str());
        if nrpt == 1 {
            text.append(" RRR");
        } else if nrpt == 2 {
            text.append(" RR73");
        } else if nrpt == 3 {
            text.append(" 73");
        }
    }
    let msg = Ft8Message {
        msg_type: Ft8MessageType::Standard,
        text,
        call_1: Some(c1),
        call_2: Some(c2),
        grid: None,
        snr: None,
    };
    assert(msg@ =~= nonstandard_message(t, bits@)->0);
    Some(msg)
}

fn unpack_contest(cache: &HashCache, bits: &[u8]) -> (r: Ft8Message)
    requires
        bits@.len() >= 77,
    ensures
        r@ == contest_message(cache@, bits@),
{
    let n12 = read_bits(bits, 0, 12);
    let n22 = read_bits(bits, 12, 22);
    let irpt = read_bits(bits, 35, 3);
    let iserial = read_bits(bits, 38, 11);
    proof {
        lemma2_to64();
    }
    let call1 = cache.lookup_hash12(n12);
    let call2 = cache.lookup_hash22(n22);
    let number: u32 = 5200 + irpt * 1000 + iserial;
    let mut text = String::new();
    text.append(call1.as_str());
    text.append(" ");
    text.append(call2.as_str());
    text.append(" ");
    if is_set(bits, 34) {
        text.append("R ");
    }
    text.append(padded_text(number as u64, 10, 4).as_str());
    text.append(" [GRID6]");
    let msg = Ft8Message {
        msg_type: Ft8MessageType::Contest,
        text,
        call_1: Some(call1),
        call_2: Some(call2),
        grid: None,
        snr: None,
    };
    assert(msg@ =~= contest_message(cache@, bits@));
    msg
}

fn text_message(msg_type: Ft8MessageType, text: String) -> (r: Ft8Message)
    ensures
        r@ == plain_message(msg_type, text@),
{
    Ft8Message { msg_type, text, call_1: None, call_2: None, grid: None, snr: None }
}

proof fn lemma_leading_zeros(bits: Seq<u8>, n: nat, len: nat)
    requires
        forall|i: int| 0 <= i < n ==> !bit_at(bits, i),
    ensures
        bits_value(bits, 0, n) == 0,
        bits_value(bits, 0, n + len) == bits_value(bits, n as int, len),
    decreases n + len,
{
    if len > 0 {
        lemma_leading_zeros(bits, n, (len - 1) as nat);
    } else if n > 0 {
        lemma_leading_zeros(bits, (n - 1) as nat, 0);
    }
}

/// Whether the bits hold telemetry that does not fit in 64 bits.
pub open spec fn is_wide_telemetry(bits: Seq<u8>) -> bool {
    &&& bits.len() >= 77
    &&& bits_value(bits, 71, 3) == 5
    &&& bits_value(bits, 74, 3) == 0
    &&& exists|i: int| 0 <= i < 7 && #[trigger] bit_at(bits, i)
}

/// Tells whether the bits hold telemetry that does not fit in 64 bits.
pub fn holds_wide_telemetry(bits: &[u8]) -> (r: bool)
    ensures
        r == is_wide_telemetry(bits@),
{
    if bits.len() < 77 || read_bits(bits, 71, 3) != 5 || read_bits(bits, 74, 3) != 0 {
        return false;
    }
    let mut i: usize = 0;
    while i < 7
        invariant
            bits@.len() >= 77,
            bits_value(bits@, 71, 3) == 5,
            bits_value(bits@, 74, 3) == 0,
            i <= 7,
            forall|k: int| 0 <= k < i ==> !#[trigger] bit_at(bits@, k),
        decreases 7 - i,
    {
        if is_set(bits, i) {
            return true;
        }
        i += 1;
    }
    false
}

/// Reads the message that 77 bits hold, and saves the call signs it names.
pub fn unpack77(cache: &mut HashCache, bits: &[u8], _nrx: bool) -> (r: Option<Ft8Message>)
    requires
        !is_wide_telemetry(bits@),
    ensures
        (match r {
            Some(m) => Some(m@),
            None => None,
        }) == unpacked(old(cache)@, bits@),
        final(cache)@ == tables_after(old(cache)@, bits@),
{
    if bits.len() < 77 {
        return None;
    }
    let n3 = read_bits(bits, 71, 3);
    let i3 = read_bits(bits, 74, 3);
    if i3 == 0 {
        if n3 == 0 {
            let text = unpack_text77(bits);
            let words = split_words(text.as_str());
            let ghost all = text::words(text@);
            let ghost t = cache@;
            let mut i: usize = 0;
            assert(all.take(0) =~= Seq::<Seq<char>>::empty());
            while i < words.len()
                invariant
                    all == text::texts(words@),
                    i <= words@.len(),
                    cache@ == t.saved_all(all.take(i as int)),
                decreases words@.len() - i,
            {
                assert(all.take(i + 1).drop_last() =~= all.take(i as int));
                save_hash_call(cache, words[i].as_str());
                i += 1;
            }
            assert(all.take(words@.len() as int) =~= all);
            if text.as_str().unicode_len() == 0 {
                return None;
            }
            Some(text_message(Ft8MessageType::FreeText, text))
        } else if n3 == 1 {
            unpack_dxpedition(cache, bits)
        } else if n3 == 5 {
            assert forall|i: int| 0 <= i < 7 implies !bit_at(bits@, i) by {}
            proof {
                lemma_leading_zeros(bits@, 7, 64);
            }
            let mut text = String::from_str("TELEMETRY: ");
            text.append(padded_text(read_bits_u64(bits, 7, 64), 16, 18).as_str());
            Some(text_message(Ft8MessageType::Telemetry, text))
        } else {
            None
        }
    } else if i3 == 1 || i3 == 2 {
        unpack_standard(cache, bits, i3)
    } else if i3 == 4 {
        unpack_nonstandard(cache, bits)
    } else if i3 == 5 {
        Some(unpack_contest(cache, bits))
    } else {
        None
    }
}

/// A call sign is saved without the brackets around it; what is too short to be
/// one, or stands for one that is not known, is not saved.
pub proof fn law_what_is_saved(t: CallTables, call: Seq<char>)
    requires
        call.len() > 0,
        forall|i: int| 0 <= i < call.len() ==> is_digit_or_letter(#[trigger] call[i]),
    ensures
        call.len() >= 3 ==> t.saved(call) == t.entered(call),
        call.len() >= 3 ==> t.saved(seq!['<'] + call + seq!['>']) == t.entered(call),
        call.len() < 3 ==> t.saved(call) == t,
        t.saved("<...>"@) == t,
        t.saved(Seq::empty()) == t,
{
    reveal_strlit("<...>");
    text::lemma_ascii_byte_len(call);
    let b = seq!['<'] + call + seq!['>'];
    assert(!CharClass::Angle.has(call[0]) && !CharClass::Angle.has(call[call.len() - 1]));
    assert(text::trim_both(call, CharClass::Angle) == call);
    text::lemma_trim_none(call);
    assert(!call.contains('/'));
    assert(call != "<...>"@) by {
        assert("<...>"@[0] == '<');
    }
    assert(b.drop_first() =~= call + seq!['>']);
    assert(text::trim_start(b, CharClass::Angle) == text::trim_start(
        call + seq!['>'],
        CharClass::Angle,
    ));
    let c = call + seq!['>'];
    assert(c[0] == call[0]);
    assert(text::trim_start(c, CharClass::Angle) == c);
    assert(c.drop_last() =~= call);
    assert(text::trim_end(c, CharClass::Angle) == text::trim_end(call, CharClass::Angle));
    assert(text::trim_both(b, CharClass::Angle) == call);
    assert(b != "<...>"@) by {
        assert("<...>"@[1] == '.');
        assert(b[1] == call[0]);
    }
}

/// The longest part of a call sign is one of its parts, none is longer, and
/// none before it is as long.
pub proof fn law_longest_part(v: Seq<Seq<char>>) -> (k: int)
    requires
        v.len() > 0,
    ensures
        0 <= k < v.len(),
        first_longest(v) == v[k],
        forall|i: int| 0 <= i < v.len() ==> encode_utf8(#[trigger] v[i]).len() <= encode_utf8(v[k]).len(),
        forall|i: int| 0 <= i < k ==> encode_utf8(#[trigger] v[i]).len() < encode_utf8(v[k]).len(),
    decreases v.len(),
{
    if v.len() == 1 {
        0
    } else {
        let t = v.drop_last();
        let k = law_longest_part(t);
        assert forall|i: int| 0 <= i < t.len() implies t[i] == #[trigger] v[i] by {}
        if text::byte_len(v.last()) > text::byte_len(t[k]) {
            v.len() - 1
        } else {
            k
        }
    }
}

/// A call sign of six characters, filled up with spaces, is taken for one if it
/// has three characters or more and a letter among them.
pub proof fn law_which_calls_are_valid(c: Seq<char>)
    requires
        c.len() == 6,
        c[0] == ' ' || is_digit_or_letter(c[0]),
        is_digit_or_letter(c[1]),
        '0' <= c[2] <= '9',
        is_letter_or_space(c[3]),
        is_letter_or_space(c[4]),
        is_letter_or_space(c[5]),
    ensures
        valid28(packed28(c)) <==> text::trim(c).len() >= 3 && exists|i: int|
            0 <= i < 6 && 'A' <= #[trigger] c[i] <= 'Z',
{
    reveal_strlit("<...>");
    law_call_reads_back(
        CallTables { calls10: Map::empty(), calls12: Map::empty(), calls22: Map::empty() },
        c,
    );
    let s = text::trim(c);
    let (from, to) = text::law_trim_takes_the_ends(c, CharClass::White);
    text::lemma_trim_none_of_trimmed(c);
    assert(from <= 1 && to >= 3) by {
        assert(!CharClass::White.has(c[1]) && !CharClass::White.has(c[2]));
    }
    assert forall|i: int| 0 <= i < s.len() implies #[trigger] s[i] == c[from + i] by {}
    assert(is_ascii_chars(s)) by {
        assert forall|i: int| 0 <= i < s.len() implies '\0' <= #[trigger] s[i] <= '\u{7f}' by {
            let k = from + i;
            assert(k == 0 || k == 1 || k == 2 || k == 3 || k == 4 || k == 5);
        }
    }
    text::lemma_ascii_byte_len(s);
    assert(s[2 - from] == c[2]);
    assert(s != "<...>"@) by {
        assert(s[0] == c[from]);
        assert("<...>"@[0] == '<');
    }
    if exists|i: int| 0 <= i < 6 && 'A' <= #[trigger] c[i] <= 'Z' {
        let i = choose|i: int| 0 <= i < 6 && 'A' <= #[trigger] c[i] <= 'Z';
        assert(from <= i < to) by {
            assert(!CharClass::White.has(c[i]));
        }
        assert(is_letter(s[i - from]));
    }
    if is_base_call(s) {
        let i = choose|i: int| 0 <= i < s.len() && is_letter(#[trigger] s[i]);
        let k = from + i;
        assert(k == 0 || k == 1 || k == 2 || k == 3 || k == 4 || k == 5);
        assert('A' <= c[k] <= 'Z');
    }
}

/// The call sign of a message with other call signs is remembered, as are all
/// words of free text and both call signs of an expedition; telemetry and
/// contests bring none.
pub proof fn law_other_calls_are_remembered(t: CallTables, bits: Seq<u8>, call: Seq<char>)
    requires
        bits.len() >= 77,
        t.calls22.dom().finite(),
        t.calls22.len() + 1 < CACHE_LIMIT,
        call.len() >= 3,
        forall|i: int| 0 <= i < call.len() ==> is_digit_or_letter(#[trigger] call[i]),
    ensures
        ({
            let after = tables_after(t, bits);
            let n3 = bits_value(bits, 71, 3);
            let i3 = bits_value(bits, 74, 3);
            let b = bits_value(bits, 28, 28) as int;
            &&& i3 == 4 && call11(bits) == call ==> knows(after, call)
            &&& i3 == 0 && n3 == 0 && text::words(free_text(bits)) == seq![call] ==> knows(
                after,
                call,
            )
            &&& i3 == 0 && n3 == 1 && b >= 6257896 && standard28(b) == call && valid28(b) ==> knows(
                after,
                call,
            )
            &&& i3 == 0 && n3 == 5 ==> after == t
            &&& i3 == 5 ==> after == t
        }),
{
    law_what_is_saved(t, call);
    let after = tables_after(t, bits);
    let n3 = bits_value(bits, 71, 3);
    let i3 = bits_value(bits, 74, 3);
    if i3 == 0 && n3 == 0 && text::words(free_text(bits)) == seq![call] {
        let v = seq![call];
        assert(v.drop_last() =~= Seq::<Seq<char>>::empty());
        assert(t.saved_all(v.drop_last()) == t);
    }
    if i3 == 0 && n3 == 1 {
        let a = bits_value(bits, 0, 28) as int;
        lemma_bits_value_bound(bits, 0, 28);
        lemma2_to64();
        if is_standard28(a) {
            lemma_refused_call(a);
            lemma_saved_room(t, standard28(a));
        }
        law_what_is_saved(saved28(t, a), call);
    }
}

} // verus!
