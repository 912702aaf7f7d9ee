//! Text primitives: trimming, splitting and searching of strings, and the
//! number formats that FT8 messages are written in.
//!
//! A string is modelled by the sequence of its characters. Where a length in
//! bytes matters, it is the length of the UTF-8 encoding.
use vstd::prelude::*;
use vstd::string::*;
use vstd::utf8::*;

verus! {

/// `String::push` of std: appends one character at the end.
pub assume_specification[ String::push ](s: &mut String, c: char)
    ensures
        final(s)@ == old(s)@.push(c),
;

/// What `str::to_uppercase` makes of a text.
pub uninterp spec fn unicode_uppercase(s: Seq<char>) -> Seq<char>;

/// A text with its ASCII letters in upper case.
pub open spec fn ascii_upper(s: Seq<char>) -> Seq<char> {
    s.map_values(|c: char| if 'a' <= c <= 'z' { (c as u32 - 32) as char } else { c })
}

/// `str::to_uppercase` follows the case tables of Unicode, which are named
/// here and not written out. On ASCII text it maps `a` to `z` and nothing else.
pub assume_specification[ str::to_uppercase ](s: &str) -> (r: String)
    ensures
        r@ == unicode_uppercase(s@),
        is_ascii_chars(s@) ==> r@ == ascii_upper(s@),
;

/// A text in upper case.
pub open spec fn uppercase(s: Seq<char>) -> Seq<char> {
    if is_ascii_chars(s) {
        ascii_upper(s)
    } else {
        unicode_uppercase(s)
    }
}

/// What `char::is_alphanumeric` says of a character.
pub uninterp spec fn unicode_alphanumeric(c: char) -> bool;

/// Whether a character is an ASCII letter or digit.
pub open spec fn ascii_alphanumeric(c: char) -> bool {
    '0' <= c <= '9' || 'A' <= c <= 'Z' || 'a' <= c <= 'z'
}

/// `char::is_alphanumeric` follows the character tables of Unicode, which are
/// named here and not written out. Of ASCII it takes letters and digits.
pub assume_specification[ char::is_alphanumeric ](c: char) -> (r: bool)
    ensures
        r == unicode_alphanumeric(c),
        c as u32 <= 127 ==> r == ascii_alphanumeric(c),
;

/// Whether a character is a letter or a digit.
pub open spec fn alphanumeric(c: char) -> bool {
    if c as u32 <= 127 {
        ascii_alphanumeric(c)
    } else {
        unicode_alphanumeric(c)
    }
}

/// The characters of the Unicode property `White_Space`.
pub open spec fn white_space(c: char) -> bool {
    let u = c as u32;
    ||| 0x09 <= u <= 0x0d
    ||| u == 0x20
    ||| u == 0x85
    ||| u == 0xa0
    ||| u == 0x1680
    ||| 0x2000 <= u <= 0x200a
    ||| u == 0x2028
    ||| u == 0x2029
    ||| u == 0x202f
    ||| u == 0x205f
    ||| u == 0x3000
}

/// Tells whether a character is white space.
pub fn is_white_space(c: char) -> (r: bool)
    ensures
        r == white_space(c),
{
    let u: u32 = c as u32;
    (0x09 <= u && u <= 0x0d) || u == 0x20 || u == 0x85 || u == 0xa0 || u == 0x1680 || (0x2000 <= u
        && u <= 0x200a) || u == 0x2028 || u == 0x2029 || u == 0x202f || u == 0x205f || u == 0x3000
}

/// A class of characters that trimming takes away.
#[derive(Clone, Copy, PartialEq, Eq, Structural)]
pub enum CharClass {
    /// White space.
    White,
    /// The NUL character, with which fixed-size fields are filled up.
    Nul,
    /// The angle brackets that mark a hashed callsign.
    Angle,
    /// The semicolon that ends a prefix list.
    Semicolon,
    /// The brackets that open a remark after a prefix.
    Opening,
}

impl CharClass {
    /// Whether the class holds a character.
    pub open spec fn has(self, c: char) -> bool {
        match self {
            CharClass::White => white_space(c),
            CharClass::Nul => c == '\0',
            CharClass::Angle => c == '<' || c == '>',
            CharClass::Semicolon => c == ';',
            CharClass::Opening => c == '(' || c == '[' || c == '<',
        }
    }

    /// Tells whether the class holds a character.
    pub fn holds(self, c: char) -> (r: bool)
        ensures
            r == self.has(c),
    {
        match self {
            CharClass::White => is_white_space(c),
            CharClass::Nul => c == '\0',
            CharClass::Angle => c == '<' || c == '>',
            CharClass::Semicolon => c == ';',
            CharClass::Opening => c == '(' || c == '[' || c == '<',
        }
    }
}

/// The characters of a string, one by one.
pub fn chars_of(s: &str) -> (r: Vec<char>)
    ensures
        r@ == s@,
{
    let mut out: Vec<char> = Vec::new();
    for c in it: s.chars()
        invariant
            out@ == it.seq().take(it.index()),
            it.seq() == s@,
    {
        out.push(c);
    }
    out
}

/// The string made of the characters at `from..to`.
pub fn string_of(v: &Vec<char>, from: usize, to: usize) -> (r: String)
    requires
        from <= to <= v@.len(),
    ensures
        r@ == v@.subrange(from as int, to as int),
{
    let mut out = String::new();
    let mut i: usize = from;
    while i < to
        invariant
            from <= i <= to <= v@.len(),
            out@ == v@.subrange(from as int, i as int),
        decreases to - i,
    {
        out.push(v[i]);
        i += 1;
        assert(v@.subrange(from as int, i as int) =~= v@.subrange(from as int, i - 1).push(
            v@[i - 1],
        ));
    }
    out
}

/// The length in bytes of a text.
pub open spec fn byte_len(s: Seq<char>) -> nat {
    encode_utf8(s).len()
}

/// The length in bytes of a string.
pub fn byte_length(s: &str) -> (r: usize)
    ensures
        r == byte_len(s@),
{
    s.as_bytes().len()
}

/// An ASCII text is as long in bytes as in characters.
pub proof fn lemma_ascii_byte_len(s: Seq<char>)
    requires
        is_ascii_chars(s),
    ensures
        byte_len(s) == s.len(),
{
    is_ascii_chars_encode_utf8(s);
}

/// A text is at least as long in bytes as in characters.
pub proof fn lemma_byte_len_bound(s: Seq<char>)
    ensures
        byte_len(s) >= s.len(),
    decreases s.len(),
{
    if s.len() > 0 {
        lemma_byte_len_bound(s.drop_first());
    }
}

/// Tells whether two strings hold the same text.
pub fn same_text(a: &str, b: &str) -> (r: bool)
    ensures
        r == (a@ == b@),
{
    let x = a.as_bytes();
    let y = b.as_bytes();
    proof {
        encode_utf8_decode_utf8(a@);
        encode_utf8_decode_utf8(b@);
    }
    if x.len() != y.len() {
        return false;
    }
    let mut i: usize = 0;
    while i < x.len()
        invariant
            x@.len() == y@.len(),
            i <= x@.len(),
            x@ == encode_utf8(a@),
            y@ == encode_utf8(b@),
            forall|k: int| 0 <= k < i ==> x@[k] == y@[k],
        decreases x@.len() - i,
    {
        if x[i] != y[i] {
            return false;
        }
        i += 1;
    }
    assert(x@ =~= y@);
    true
}

/// A text without the characters of a class at its start.
pub open spec fn trim_start(s: Seq<char>, class: CharClass) -> Seq<char>
    decreases s.len(),
{
    if s.len() > 0 && class.has(s[0]) {
        trim_start(s.drop_first(), class)
    } else {
        s
    }
}

/// A text without the characters of a class at its end.
pub open spec fn trim_end(s: Seq<char>, class: CharClass) -> Seq<char>
    decreases s.len(),
{
    if s.len() > 0 && class.has(s.last()) {
        trim_end(s.drop_last(), class)
    } else {
        s
    }
}

/// A text without the characters of a class at either end.
pub open spec fn trim_both(s: Seq<char>, class: CharClass) -> Seq<char> {
    trim_end(trim_start(s, class), class)
}

/// A text without white space at either end.
pub open spec fn trim(s: Seq<char>) -> Seq<char> {
    trim_both(s, CharClass::White)
}

/// What is left of nothing is nothing.
pub proof fn lemma_trim_empty(s: Seq<char>)
    ensures
        s.len() == 0 ==> trim(s).len() == 0,
{
}

/// A text up to the first character of a class.
pub open spec fn until(s: Seq<char>, class: CharClass) -> Seq<char>
    decreases s.len(),
{
    if s.len() == 0 || class.has(s[0]) {
        Seq::empty()
    } else {
        seq![s[0]] + until(s.drop_first(), class)
    }
}

/// The start of a string up to the first character of a class.
pub fn head_until(s: &str, class: CharClass) -> (r: String)
    ensures
        r@ == until(s@, class),
{
    let v = chars_of(s);
    let mut out = String::new();
    let mut i: usize = 0;
    assert(s@.skip(0) =~= s@);
    assert(out@ + until(s@, class) =~= until(s@, class));
    while i < v.len() && !class.holds(v[i])
        invariant
            v@ == s@,
            i <= v@.len(),
            out@ + until(s@.skip(i as int), class) == until(s@, class),
        decreases v@.len() - i,
    {
        let ghost rest = s@.skip(i as int);
        assert(rest.drop_first() =~= s@.skip(i + 1));
        let ghost before = out@;
        out.push(v[i]);
        assert(before + (seq![rest[0]] + until(s@.skip(i + 1), class)) =~= before.push(rest[0])
            + until(s@.skip(i + 1), class));
        i += 1;
    }
    assert(until(s@.skip(i as int), class) =~= Seq::<char>::empty());
    assert(out@ + Seq::<char>::empty() =~= out@);
    out
}

/// Removes the characters of a class from the end of a string.
pub fn trimmed_end(s: &str, class: CharClass) -> (r: String)
    ensures
        r@ == trim_end(s@, class),
{
    let v = chars_of(s);
    let mut to: usize = v.len();
    assert(v@.subrange(0, to as int) =~= v@);
    while to > 0 && class.holds(v[to - 1])
        invariant
            v@ == s@,
            to <= v@.len(),
            trim_end(s@, class) == trim_end(v@.subrange(0, to as int), class),
        decreases to,
    {
        assert(v@.subrange(0, to as int).drop_last() =~= v@.subrange(0, to - 1));
        to -= 1;
    }
    string_of(&v, 0, to)
}

/// Removes the characters of a class from both ends of a string.
pub fn trimmed_both(s: &str, class: CharClass) -> (r: String)
    ensures
        r@ == trim_both(s@, class),
{
    let v = chars_of(s);
    let n = v.len();
    let mut from: usize = 0;
    assert(v@.subrange(0, n as int) =~= v@);
    while from < n && class.holds(v[from])
        invariant
            v@ == s@,
            n == v@.len(),
            from <= n,
            trim_start(s@, class) == trim_start(v@.subrange(from as int, n as int), class),
        decreases n - from,
    {
        assert(v@.subrange(from as int, n as int).drop_first() =~= v@.subrange(
            from + 1,
            n as int,
        ));
        from += 1;
    }
    let ghost rest = v@.subrange(from as int, n as int);
    assert(trim_start(s@, class) == rest);
    let mut to: usize = n;
    while to > from && class.holds(v[to - 1])
        invariant
            v@ == s@,
            n == v@.len(),
            from <= to <= n,
            trim_both(s@, class) == trim_end(v@.subrange(from as int, to as int), class),
        decreases to,
    {
        assert(v@.subrange(from as int, to as int).drop_last() =~= v@.subrange(
            from as int,
            to - 1,
        ));
        to -= 1;
    }
    string_of(&v, from, to)
}

/// Removes white space from both ends of a string.
pub fn trimmed(s: &str) -> (r: String)
    ensures
        r@ == trim(s@),
{
    trimmed_both(s, CharClass::White)
}

/// A text without any angle bracket.
pub open spec fn without_brackets(s: Seq<char>) -> Seq<char>
    decreases s.len(),
{
    if s.len() == 0 {
        s
    } else if CharClass::Angle.has(s.last()) {
        without_brackets(s.drop_last())
    } else {
        without_brackets(s.drop_last()).push(s.last())
    }
}

/// Removes every angle bracket from a string.
pub fn bracketless(s: &str) -> (r: String)
    ensures
        r@ == without_brackets(s@),
{
    let v = chars_of(s);
    let mut out = String::new();
    let mut i: usize = 0;
    assert(v@.take(0) =~= Seq::<char>::empty());
    while i < v.len()
        invariant
            v@ == s@,
            i <= v@.len(),
            out@ == without_brackets(v@.take(i as int)),
        decreases v@.len() - i,
    {
        let ghost next = v@.take(i + 1);
        assert(next.drop_last() =~= v@.take(i as int));
        if !CharClass::Angle.holds(v[i]) {
            out.push(v[i]);
        }
        i += 1;
    }
    assert(v@.take(v@.len() as int) =~= v@);
    out
}

/// The number of characters before the first white space.
pub open spec fn word_len(s: Seq<char>) -> nat
    decreases s.len(),
{
    if s.len() == 0 || white_space(s[0]) {
        0
    } else {
        1 + word_len(s.drop_first())
    }
}

pub proof fn lemma_word_len(s: Seq<char>)
    ensures
        word_len(s) <= s.len(),
        forall|k: int| 0 <= k < word_len(s) ==> !white_space(#[trigger] s[k]),
        word_len(s) < s.len() ==> white_space(s[word_len(s) as int]),
    decreases s.len(),
{
    if s.len() > 0 && !white_space(s[0]) {
        let t = s.drop_first();
        lemma_word_len(t);
        assert forall|k: int| 0 <= k < word_len(s) implies !white_space(#[trigger] s[k]) by {
            if k > 0 {
                assert(s[k] == t[k - 1]);
            }
        }
    }
}

/// The words of a text: its longest pieces without white space, in order.
pub open spec fn words(s: Seq<char>) -> Seq<Seq<char>>
    decreases s.len(),
{
    if s.len() == 0 {
        Seq::empty()
    } else if white_space(s[0]) {
        words(s.drop_first())
    } else {
        let n = word_len(s) as int;
        proof {
            lemma_word_len(s);
        }
        seq![s.take(n)] + words(s.skip(n))
    }
}

/// The texts that a list of strings holds.
pub open spec fn texts(v: Seq<String>) -> Seq<Seq<char>> {
    Seq::new(v.len(), |i: int| v[i]@)
}

/// No word is empty.
pub proof fn lemma_words_not_empty(s: Seq<char>, i: int)
    requires
        0 <= i < words(s).len(),
    ensures
        words(s)[i].len() > 0,
    decreases s.len(),
{
    lemma_word_len(s);
    if s.len() > 0 {
        if white_space(s[0]) {
            lemma_words_not_empty(s.drop_first(), i);
        } else if i > 0 {
            lemma_words_not_empty(s.skip(word_len(s) as int), i - 1);
        }
    }
}

/// Whether a text is a word: not empty and without white space.
pub open spec fn is_word(s: Seq<char>) -> bool {
    &&& s.len() > 0
    &&& forall|i: int| 0 <= i < s.len() ==> !white_space(#[trigger] s[i])
}

/// The words of a word alone, and of a word with a space and more after it.
pub proof fn lemma_words_of_word(w: Seq<char>, rest: Seq<char>)
    requires
        is_word(w),
    ensures
        words(w) == seq![w],
        words(w + seq![' '] + rest) == seq![w] + words(rest),
{
    lemma_word_len(w);
    assert(word_len(w) == w.len());
    assert(w.take(w.len() as int) =~= w);
    assert(w.skip(w.len() as int) =~= Seq::<char>::empty());
    assert(!white_space(w[0]));
    assert(words(w.skip(w.len() as int)) == Seq::<Seq<char>>::empty());
    assert(words(w) == seq![w] + Seq::<Seq<char>>::empty());
    assert(words(w) =~= seq![w]);
    let s = w + seq![' '] + rest;
    lemma_word_len(s);
    let n = word_len(s) as int;
    assert(s[w.len() as int] == ' ');
    assert(n == w.len()) by {
        if n < w.len() {
            assert(s[n] == w[n]);
        }
        if n > w.len() {
            assert(!white_space(s[w.len() as int]));
        }
    }
    assert(s[0] == w[0]);
    assert(s.take(n) =~= w);
    let after = s.skip(n);
    assert(after =~= seq![' '] + rest);
    assert(after[0] == ' ');
    assert(after.drop_first() =~= rest);
    assert(words(after) == words(rest));
    assert(words(s) == seq![s.take(n)] + words(s.skip(n)));
}

/// The words of three words with spaces between them.
pub proof fn lemma_three_words(a: Seq<char>, b: Seq<char>, c: Seq<char>)
    requires
        is_word(a),
        is_word(b),
        is_word(c),
    ensures
        words(a + " "@ + b + " "@ + c) == seq![a, b, c],
{
    reveal_strlit(" ");
    assert(" "@ =~= seq![' ']);
    let tail = b + seq![' '] + c;
    assert(a + " "@ + b + " "@ + c =~= a + seq![' '] + tail);
    lemma_words_of_word(a, tail);
    lemma_words_of_word(b, c);
    lemma_words_of_word(c, c);
    assert(words(a + seq![' '] + tail) =~= seq![a, b, c]);
}

/// The words of words with a space between them are those words.
pub proof fn law_words_put_together(v: Seq<Seq<char>>)
    requires
        forall|i: int| 0 <= i < v.len() ==> is_word(#[trigger] v[i]),
    ensures
        words(joined(v, ' ')) == v,
    decreases v.len(),
{
    if v.len() == 1 {
        lemma_words_of_word(v[0], Seq::empty());
        assert(v =~= seq![v[0]]);
    } else if v.len() > 1 {
        let rest = v.drop_first();
        assert forall|i: int| 0 <= i < rest.len() implies is_word(#[trigger] rest[i]) by {
            assert(rest[i] == v[i + 1]);
        }
        law_words_put_together(rest);
        lemma_words_of_word(v[0], joined(rest, ' '));
        assert(v =~= seq![v[0]] + rest);
    } else {
        assert(v =~= Seq::empty());
    }
}

/// Every word is a word, and white space around a text does not change its words.
pub proof fn law_words_have_no_white_space(s: Seq<char>, c: char)
    requires
        white_space(c),
    ensures
        forall|i: int| 0 <= i < words(s).len() ==> is_word(#[trigger] words(s)[i]),
        words(seq![c] + s) == words(s),
        words(s.push(c)) == words(s),
    decreases s.len(),
{
    let before = seq![c] + s;
    assert(before.drop_first() =~= s);
    let after = s.push(c);
    lemma_word_len(s);
    lemma_word_len(after);
    if s.len() == 0 {
        assert(after.drop_first() =~= s);
    } else if white_space(s[0]) {
        law_words_have_no_white_space(s.drop_first(), c);
        assert(after.drop_first() =~= s.drop_first().push(c));
    } else {
        let n = word_len(s) as int;
        let m = word_len(after) as int;
        assert(m == n) by {
            if m < n {
                assert(after[m] == s[m]);
            }
            if m > n {
                assert(!white_space(after[n]));
                if n < s.len() {
                    assert(after[n] == s[n]);
                }
            }
        }
        law_words_have_no_white_space(s.skip(n), c);
        assert(after.take(n) =~= s.take(n));
        assert(after.skip(n) =~= s.skip(n).push(c));
        assert(is_word(s.take(n)));
        assert forall|i: int| 0 <= i < words(s).len() implies is_word(#[trigger] words(s)[i]) by {
            if i > 0 {
                assert(words(s)[i] == words(s.skip(n))[i - 1]);
            }
        }
    }
}

/// Trimming takes away what is of the class at both ends, and no more.
pub proof fn law_trim_takes_the_ends(s: Seq<char>, class: CharClass) -> (r: (int, int))
    ensures
        ({
            let (from, to) = r;
            &&& 0 <= from <= to <= s.len()
            &&& trim_both(s, class) == s.subrange(from, to)
            &&& forall|i: int| 0 <= i < from || to <= i < s.len() ==> class.has(#[trigger] s[i])
            &&& from < to ==> !class.has(s[from]) && !class.has(s[to - 1])
        }),
    decreases s.len(),
{
    if s.len() > 0 && class.has(s[0]) {
        let t = s.drop_first();
        let (a, b) = law_trim_takes_the_ends(t, class);
        assert(t.subrange(a, b) =~= s.subrange(a + 1, b + 1));
        assert forall|i: int| 0 <= i < a + 1 || b + 1 <= i < s.len() implies class.has(
            #[trigger] s[i],
        ) by {
            if i > 0 {
                assert(t[i - 1] == s[i]);
            }
        }
        assert(trim_start(s, class) == trim_start(t, class));
        (a + 1, b + 1)
    } else {
        let to = lemma_trim_end(s, class);
        assert(s.subrange(0, to) =~= s.take(to));
        (0, to)
    }
}

proof fn lemma_trim_end(s: Seq<char>, class: CharClass) -> (to: int)
    ensures
        0 <= to <= s.len(),
        trim_end(s, class) == s.take(to),
        forall|i: int| to <= i < s.len() ==> class.has(#[trigger] s[i]),
        to > 0 ==> !class.has(s[to - 1]),
    decreases s.len(),
{
    if s.len() > 0 && class.has(s.last()) {
        let t = s.drop_last();
        let to = lemma_trim_end(t, class);
        assert(t.take(to) =~= s.take(to));
        assert forall|i: int| to <= i < s.len() implies class.has(#[trigger] s[i]) by {
            if i < s.len() - 1 {
                assert(t[i] == s[i]);
            }
        }
        to
    } else {
        assert(s.take(s.len() as int) =~= s);
        s.len() as int
    }
}

/// A text that neither begins nor ends with white space is not trimmed.
pub proof fn lemma_trim_none(s: Seq<char>)
    requires
        s.len() > 0,
        !white_space(s[0]),
        !white_space(s.last()),
    ensures
        trim(s) == s,
{
}

/// Trimming brings no character in.
pub proof fn lemma_trim_brings_none(s: Seq<char>, class: CharClass, c: char)
    requires
        forall|i: int| 0 <= i < s.len() ==> s[i] != c,
    ensures
        forall|i: int| 0 <= i < trim_both(s, class).len() ==> trim_both(s, class)[i] != c,
{
    let (from, to) = law_trim_takes_the_ends(s, class);
    let t = trim_both(s, class);
    assert forall|i: int| 0 <= i < t.len() implies t[i] != c by {
        assert(t[i] == s[from + i]);
    }
}

/// What is left by trimming is not trimmed further.
pub proof fn lemma_trim_none_of_trimmed(s: Seq<char>)
    ensures
        trim(trim(s)) == trim(s),
        trim(s).len() > 0 ==> !white_space(trim(s)[0]) && !white_space(trim(s).last()),
{
    let (from, to) = law_trim_takes_the_ends(s, CharClass::White);
    let t = trim(s);
    if t.len() > 0 {
        assert(t[0] == s[from] && t.last() == s[to - 1]);
        lemma_trim_none(t);
    }
}

/// White space at the ends of a text does not matter to what is left of it.
pub proof fn law_trim_forgets_white_space(s: Seq<char>, c: char)
    requires
        white_space(c),
    ensures
        trim(seq![c] + s) == trim(s),
        trim(s.push(c)) == trim(s),
    decreases s.len(),
{
    let before = seq![c] + s;
    assert(before.drop_first() =~= s);
    assert(trim_start(before, CharClass::White) == trim_start(s, CharClass::White));
    let after = s.push(c);
    if s.len() == 0 {
        assert(after.drop_first() =~= s);
    } else if white_space(s[0]) {
        law_trim_forgets_white_space(s.drop_first(), c);
        assert(after.drop_first() =~= s.drop_first().push(c));
        assert(after[0] == s[0]);
        assert(trim_start(after, CharClass::White) == trim_start(
            s.drop_first().push(c),
            CharClass::White,
        ));
    } else {
        assert(after[0] == s[0]);
        assert(after.drop_last() =~= s);
    }
}

/// Trimming and writing in upper case can be done in either order.
pub proof fn lemma_trim_upper(s: Seq<char>)
    requires
        is_ascii_chars(s),
    ensures
        trim(ascii_upper(s)) == ascii_upper(trim(s)),
        is_ascii_chars(trim(s)),
        is_ascii_chars(ascii_upper(s)),
        ascii_upper(ascii_upper(s)) == ascii_upper(s),
{
    lemma_trim_start_upper(s);
    assert(ascii_upper(ascii_upper(s)) =~= ascii_upper(s));
    lemma_trim_end_upper(trim_start(s, CharClass::White));
}

proof fn lemma_upper_char(s: Seq<char>, i: int)
    requires
        is_ascii_chars(s),
        0 <= i < s.len(),
    ensures
        white_space(ascii_upper(s)[i]) == white_space(s[i]),
        ascii_upper(s)[i] as u32 <= 127,
        !('a' <= ascii_upper(s)[i] <= 'z'),
{
    let c = s[i];
    assert('\0' <= c <= '\u{7f}');
    if 'a' <= c <= 'z' {
        let u = (c as u32 - 32) as u32;
        assert(65 <= u <= 90);
        assert(ascii_upper(s)[i] as u32 == u);
    }
}

proof fn lemma_trim_start_upper(s: Seq<char>)
    requires
        is_ascii_chars(s),
    ensures
        trim_start(ascii_upper(s), CharClass::White) == ascii_upper(
            trim_start(s, CharClass::White),
        ),
        is_ascii_chars(trim_start(s, CharClass::White)),
        is_ascii_chars(ascii_upper(s)),
    decreases s.len(),
{
    assert forall|i: int| 0 <= i < s.len() implies (#[trigger] ascii_upper(s)[i]) as u32 <= 127 by {
        lemma_upper_char(s, i);
    }
    if s.len() > 0 {
        lemma_upper_char(s, 0);
        if white_space(s[0]) {
            let t = s.drop_first();
            assert forall|i: int| 0 <= i < t.len() implies '\0' <= #[trigger] t[i] <= '\u{7f}' by {
                assert(t[i] == s[i + 1]);
            }
            lemma_trim_start_upper(t);
            assert(ascii_upper(s).drop_first() =~= ascii_upper(t));
        }
    }
}

proof fn lemma_trim_end_upper(s: Seq<char>)
    requires
        is_ascii_chars(s),
    ensures
        trim_end(ascii_upper(s), CharClass::White) == ascii_upper(trim_end(s, CharClass::White)),
        is_ascii_chars(trim_end(s, CharClass::White)),
    decreases s.len(),
{
    if s.len() > 0 {
        lemma_upper_char(s, s.len() - 1);
        if white_space(s.last()) {
            let t = s.drop_last();
            assert forall|i: int| 0 <= i < t.len() implies '\0' <= #[trigger] t[i] <= '\u{7f}' by {
                assert(t[i] == s[i]);
            }
            lemma_trim_end_upper(t);
            assert(ascii_upper(s).drop_last() =~= ascii_upper(t));
        }
    }
}

/// A text without small letters is in upper case already.
pub proof fn lemma_upper_none(s: Seq<char>)
    requires
        is_ascii_chars(s),
        forall|i: int| 0 <= i < s.len() ==> !('a' <= #[trigger] s[i] <= 'z'),
    ensures
        ascii_upper(s) == s,
        uppercase(s) == s,
{
    assert(ascii_upper(s) =~= s);
}

/// What words with a space between them are made of, and where they begin and end.
pub proof fn lemma_joined_chars(v: Seq<Seq<char>>, p: spec_fn(char) -> bool)
    requires
        v.len() > 0,
        forall|i: int| 0 <= i < v.len() ==> is_word(#[trigger] v[i]),
        p(' '),
    ensures
        ({
            let s = joined(v, ' ');
            &&& s.len() >= 2 * v.len() - 1
            &&& s[0] == v[0][0]
            &&& s.last() == v.last().last()
            &&& (forall|i: int| 0 <= i < s.len() ==> p(#[trigger] s[i])) <==> (forall|
                w: int,
                k: int,
            |
                0 <= w < v.len() && 0 <= k < v[w].len() ==> p(#[trigger] v[w][k]))
        }),
    decreases v.len(),
{
    let s = joined(v, ' ');
    if v.len() == 1 {
        if forall|i: int| 0 <= i < s.len() ==> p(#[trigger] s[i]) {
            assert forall|w: int, k: int|
                0 <= w < v.len() && 0 <= k < v[w].len() implies p(#[trigger] v[w][k]) by {
                assert(v[w][k] == s[k]);
            }
        }
        if forall|w: int, k: int|
            0 <= w < v.len() && 0 <= k < v[w].len() ==> p(#[trigger] v[w][k]) {
            assert forall|i: int| 0 <= i < s.len() implies p(#[trigger] s[i]) by {
                assert(s[i] == v[0][i]);
            }
        }
    } else {
        let rest = v.drop_first();
        let t = joined(rest, ' ');
        let n = v[0].len() as int;
        assert forall|i: int| 0 <= i < rest.len() implies is_word(#[trigger] rest[i]) by {
            assert(rest[i] == v[i + 1]);
        }
        lemma_joined_chars(rest, p);
        assert(s =~= v[0] + seq![' '] + t);
        if forall|i: int| 0 <= i < s.len() ==> p(#[trigger] s[i]) {
            assert forall|i: int| 0 <= i < t.len() implies p(#[trigger] t[i]) by {
                assert(t[i] == s[i + n + 1]);
            }
            assert forall|w: int, k: int|
                0 <= w < v.len() && 0 <= k < v[w].len() implies p(#[trigger] v[w][k]) by {
                if w == 0 {
                    assert(v[w][k] == s[k]);
                } else {
                    assert(v[w][k] == rest[w - 1][k]);
                }
            }
        }
        if forall|w: int, k: int|
            0 <= w < v.len() && 0 <= k < v[w].len() ==> p(#[trigger] v[w][k]) {
            assert forall|w: int, k: int|
                0 <= w < rest.len() && 0 <= k < rest[w].len() implies p(#[trigger] rest[w][k]) by {
                assert(rest[w][k] == v[w + 1][k]);
            }
            assert forall|i: int| 0 <= i < s.len() implies p(#[trigger] s[i]) by {
                if i < n {
                    assert(s[i] == v[0][i]);
                } else if i > n {
                    assert(s[i] == t[i - n - 1]);
                }
            }
        }
    }
}

/// Removing brackets keeps all other characters, in order.
pub proof fn law_brackets_alone_go(s: Seq<char>)
    ensures
        without_brackets(s) == s.filter(|c: char| c != '<' && c != '>'),
    decreases s.len(),
{
    reveal(Seq::filter);
    if s.len() > 0 {
        law_brackets_alone_go(s.drop_last());
    } else {
        assert(s.filter(|c: char| c != '<' && c != '>') =~= s);
    }
}

/// A text without brackets stays as it is when brackets are removed.
pub proof fn lemma_no_brackets(s: Seq<char>)
    requires
        forall|i: int| 0 <= i < s.len() ==> !CharClass::Angle.has(#[trigger] s[i]),
    ensures
        without_brackets(s) == s,
    decreases s.len(),
{
    if s.len() > 0 {
        lemma_no_brackets(s.drop_last());
        assert(s.drop_last().push(s.last()) =~= s);
    }
}

/// Splits a string at white space.
pub fn split_words(s: &str) -> (r: Vec<String>)
    ensures
        texts(r@) == words(s@),
{
    let v = chars_of(s);
    let n = v.len();
    let mut out: Vec<String> = Vec::new();
    let mut i: usize = 0;
    assert(v@.skip(0) =~= v@);
    assert(texts(out@) + words(v@) =~= words(v@));
    while i < n
        invariant
            v@ == s@,
            n == v@.len(),
            i <= n,
            texts(out@) + words(v@.skip(i as int)) == words(s@),
        decreases n - i,
    {
        let ghost rest = v@.skip(i as int);
        if is_white_space(v[i]) {
            assert(rest.drop_first() =~= v@.skip(i + 1));
            i += 1;
        } else {
            let mut j: usize = i;
            assert(rest =~= v@.skip(j as int));
            while j < n && !is_white_space(v[j])
                invariant
                    n == v@.len(),
                    i <= j <= n,
                    rest == v@.skip(i as int),
                    j - i + word_len(v@.skip(j as int)) == word_len(rest),
                decreases n - j,
            {
                assert(v@.skip(j as int).drop_first() =~= v@.skip(j + 1));
                j += 1;
            }
            proof {
                assert(word_len(v@.skip(j as int)) == 0);
                assert(word_len(rest) == j - i);
                assert(j > i);
                assert(rest.take(j - i) =~= v@.subrange(i as int, j as int));
                assert(rest.skip(j - i) =~= v@.skip(j as int));
            }
            let w = string_of(&v, i, j);
            let ghost before = texts(out@);
            out.push(w);
            assert(texts(out@) =~= before.push(w@));
            assert(before.push(w@) + words(v@.skip(j as int)) =~= before + (seq![w@] + words(
                v@.skip(j as int),
            )));
            i = j;
        }
    }
    assert(v@.skip(n as int).len() == 0);
    assert(texts(out@) + words(v@.skip(n as int)) =~= texts(out@));
    out
}

/// The number of characters before the first separator.
pub open spec fn piece_len(s: Seq<char>, sep: char) -> nat
    decreases s.len(),
{
    if s.len() == 0 || s[0] == sep {
        0
    } else {
        1 + piece_len(s.drop_first(), sep)
    }
}

pub proof fn lemma_piece_len(s: Seq<char>, sep: char)
    ensures
        piece_len(s, sep) <= s.len(),
        forall|k: int| 0 <= k < piece_len(s, sep) ==> #[trigger] s[k] != sep,
        piece_len(s, sep) < s.len() ==> s[piece_len(s, sep) as int] == sep,
    decreases s.len(),
{
    if s.len() > 0 && s[0] != sep {
        let t = s.drop_first();
        lemma_piece_len(t, sep);
        assert forall|k: int| 0 <= k < piece_len(s, sep) implies #[trigger] s[k] != sep by {
            if k > 0 {
                assert(s[k] == t[k - 1]);
            }
        }
    }
}

/// The pieces of a text between separators; there is always at least one.
pub open spec fn pieces(s: Seq<char>, sep: char) -> Seq<Seq<char>>
    decreases s.len(),
{
    let n = piece_len(s, sep) as int;
    if n >= s.len() {
        seq![s]
    } else {
        seq![s.take(n)] + pieces(s.skip(n + 1), sep)
    }
}

/// How often a character occurs in a text.
pub open spec fn count_of(s: Seq<char>, c: char) -> nat
    decreases s.len(),
{
    if s.len() == 0 {
        0
    } else {
        count_of(s.drop_first(), c) + if s[0] == c {
            1nat
        } else {
            0nat
        }
    }
}

/// There is one piece more than there are separators, and putting the pieces
/// together gives the text.
pub proof fn law_pieces_between_separators(s: Seq<char>, sep: char)
    ensures
        pieces(s, sep).len() == count_of(s, sep) + 1,
        forall|i: int, k: int|
            0 <= i < pieces(s, sep).len() && 0 <= k < pieces(s, sep)[i].len() ==> #[trigger] pieces(
                s,
                sep,
            )[i][k] != sep,
        joined(pieces(s, sep), sep) == s,
    decreases s.len(),
{
    let n = piece_len(s, sep) as int;
    lemma_piece_len(s, sep);
    let all = pieces(s, sep);
    lemma_count_before(s, sep, n);
    if n >= s.len() {
        assert(all =~= seq![s]);
        assert(joined(all, sep) =~= s);
    } else {
        let rest = s.skip(n + 1);
        law_pieces_between_separators(rest, sep);
        assert(s.skip(n).drop_first() =~= rest);
        assert(all.drop_first() =~= pieces(rest, sep));
        assert(s =~= s.take(n) + seq![sep] + rest);
        assert forall|i: int, k: int|
            0 <= i < all.len() && 0 <= k < all[i].len() implies #[trigger] all[i][k] != sep by {
            if i > 0 {
                assert(all[i] == pieces(rest, sep)[i - 1]);
            }
        }
    }
}

/// Texts put together with a separator between them.
pub open spec fn joined(v: Seq<Seq<char>>, sep: char) -> Seq<char>
    decreases v.len(),
{
    if v.len() == 0 {
        Seq::empty()
    } else if v.len() == 1 {
        v[0]
    } else {
        v[0] + seq![sep] + joined(v.drop_first(), sep)
    }
}

proof fn lemma_count_before(s: Seq<char>, sep: char, n: int)
    requires
        0 <= n <= s.len(),
        forall|k: int| 0 <= k < n ==> s[k] != sep,
    ensures
        count_of(s, sep) == count_of(s.skip(n), sep),
    decreases n,
{
    if n > 0 {
        let t = s.drop_first();
        assert forall|k: int| 0 <= k < n - 1 implies t[k] != sep by {
            assert(t[k] == s[k + 1]);
        }
        lemma_count_before(t, sep, n - 1);
        assert(t.skip(n - 1) =~= s.skip(n));
    } else {
        assert(s.skip(0) =~= s);
    }
}

/// Splits a string at every separator.
pub fn split_at_char(s: &str, sep: char) -> (r: Vec<String>)
    ensures
        texts(r@) == pieces(s@, sep),
        r@.len() >= 1,
{
    let v = chars_of(s);
    let n = v.len();
    let mut out: Vec<String> = Vec::new();
    let mut i: usize = 0;
    assert(v@.skip(0) =~= v@);
    assert(texts(out@) + pieces(v@, sep) =~= pieces(v@, sep));
    loop
        invariant
            v@ == s@,
            n == v@.len(),
            i <= n,
            texts(out@) + pieces(v@.skip(i as int), sep) == pieces(s@, sep),
        decreases n - i,
    {
        let ghost rest = v@.skip(i as int);
        let mut j: usize = i;
        while j < n && v[j] != sep
            invariant
                n == v@.len(),
                i <= j <= n,
                rest == v@.skip(i as int),
                j - i + piece_len(v@.skip(j as int), sep) == piece_len(rest, sep),
            decreases n - j,
        {
            assert(v@.skip(j as int).drop_first() =~= v@.skip(j + 1));
            j += 1;
        }
        assert(piece_len(v@.skip(j as int), sep) == 0);
        let w = string_of(&v, i, j);
        let ghost before = texts(out@);
        out.push(w);
        proof {
            assert(texts(out@) =~= before.push(w@));
            assert(rest.take(j - i) =~= v@.subrange(i as int, j as int));
        }
        if j >= n {
            proof {
                assert(rest.take(j - i) =~= rest);
                assert(before + seq![w@] =~= texts(out@));
            }
            return out;
        }
        proof {
            assert(rest.skip(j - i + 1) =~= v@.skip(j + 1));
            assert(before.push(w@) + pieces(v@.skip(j + 1), sep) =~= before + (seq![w@] + pieces(
                v@.skip(j + 1),
                sep,
            )));
        }
        i = j + 1;
    }
}

/// Whether one text occurs in another.
pub open spec fn contains(s: Seq<char>, pat: Seq<char>) -> bool {
    exists|i: int| #[trigger] occurs_at(s, pat, i)
}

/// Whether a text occurs in another at an index.
pub open spec fn occurs_at(s: Seq<char>, pat: Seq<char>, i: int) -> bool {
    &&& 0 <= i
    &&& i + pat.len() <= s.len()
    &&& s.subrange(i, i + pat.len()) == pat
}

fn occurs_here(v: &Vec<char>, p: &Vec<char>, i: usize) -> (r: bool)
    requires
        i + p@.len() <= v@.len(),
    ensures
        r == occurs_at(v@, p@, i as int),
{
    let n = v.len();
    let mut k: usize = 0;
    while k < p.len()
        invariant
            k <= p@.len(),
            i + p@.len() <= v@.len(),
            n == v@.len(),
            forall|m: int| 0 <= m < k ==> v@[i + m] == p@[m],
        decreases p@.len() - k,
    {
        if v[i + k] != p[k] {
            assert(v@.subrange(i as int, i + p@.len())[k as int] != p@[k as int]);
            return false;
        }
        k += 1;
    }
    assert(v@.subrange(i as int, i + p@.len()) =~= p@);
    true
}

/// Tells whether one string occurs in another.
pub fn contains_text(s: &str, pat: &str) -> (r: bool)
    ensures
        r == contains(s@, pat@),
{
    let v = chars_of(s);
    let p = chars_of(pat);
    if p.len() > v.len() {
        return false;
    }
    let last: usize = v.len() - p.len();
    let mut i: usize = 0;
    while i <= last
        invariant
            v@ == s@,
            p@ == pat@,
            last == v@.len() - p@.len(),
            i <= last + 1,
            last < usize::MAX || i <= last,
            forall|k: int| 0 <= k < i ==> !occurs_at(s@, pat@, k),
        decreases last + 1 - i,
    {
        if occurs_here(&v, &p, i) {
            return true;
        }
        if i == last {
            assert(forall|k: int| !occurs_at(s@, pat@, k));
            return false;
        }
        i += 1;
    }
    false
}

/// Whether a text starts with another.
pub open spec fn starts_with(s: Seq<char>, pat: Seq<char>) -> bool {
    pat.len() <= s.len() && s.take(pat.len() as int) == pat
}

/// Whether a text ends with another.
pub open spec fn ends_with(s: Seq<char>, pat: Seq<char>) -> bool {
    pat.len() <= s.len() && s.skip(s.len() - pat.len()) == pat
}

/// Tells whether a string starts with another.
pub fn has_prefix(s: &str, pat: &str) -> (r: bool)
    ensures
        r == starts_with(s@, pat@),
{
    let v = chars_of(s);
    let p = chars_of(pat);
    if p.len() > v.len() {
        return false;
    }
    assert(s@.subrange(0, pat@.len() as int) =~= s@.take(pat@.len() as int));
    occurs_here(&v, &p, 0)
}

/// Tells whether a string ends with another.
pub fn has_suffix(s: &str, pat: &str) -> (r: bool)
    ensures
        r == ends_with(s@, pat@),
{
    let v = chars_of(s);
    let p = chars_of(pat);
    if p.len() > v.len() {
        return false;
    }
    let at: usize = v.len() - p.len();
    assert(s@.subrange(at as int, at + pat@.len()) =~= s@.skip(at as int));
    occurs_here(&v, &p, at)
}

/// Tells whether a string holds a character.
pub fn contains_char(s: &str, c: char) -> (r: bool)
    ensures
        r == s@.contains(c),
{
    let v = chars_of(s);
    let mut i: usize = 0;
    while i < v.len()
        invariant
            v@ == s@,
            i <= v@.len(),
            forall|k: int| 0 <= k < i ==> v@[k] != c,
        decreases v@.len() - i,
    {
        if v[i] == c {
            assert(s@[i as int] == c);
            return true;
        }
        i += 1;
    }
    false
}

/// The pieces of texts put together with a separator that none of them holds
/// are those texts.
pub proof fn law_pieces_put_together(v: Seq<Seq<char>>, sep: char)
    requires
        v.len() > 0,
        forall|i: int, k: int| 0 <= i < v.len() && 0 <= k < v[i].len() ==> #[trigger] v[i][k] != sep,
    ensures
        pieces(joined(v, sep), sep) == v,
    decreases v.len(),
{
    let s = joined(v, sep);
    lemma_piece_len(s, sep);
    let n = piece_len(s, sep) as int;
    let m = v[0].len() as int;
    if v.len() == 1 {
        assert(n == m) by {
            if n < m {
                assert(v[0][n] != sep);
            }
        }
        assert(v =~= seq![s]);
    } else {
        let rest = v.drop_first();
        assert forall|i: int, k: int| 0 <= i < rest.len() && 0 <= k < rest[i].len() implies #[trigger]
            rest[i][k] != sep by {
            assert(rest[i][k] == v[i + 1][k]);
        }
        law_pieces_put_together(rest, sep);
        assert(s =~= v[0] + seq![sep] + joined(rest, sep));
        assert(s[m] == sep);
        assert(n == m) by {
            if n < m {
                assert(s[n] == v[0][n]);
            }
        }
        assert(s.take(n) =~= v[0]);
        assert(s.skip(n + 1) =~= joined(rest, sep));
        assert(v =~= seq![v[0]] + rest);
    }
}

} // verus!
