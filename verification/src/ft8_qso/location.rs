//! Where call signs come from, by the prefixes of the country file.
use crate::outside;
use crate::outside::parse_pairs;
use crate::text;
use crate::text::{
    byte_length, chars_of, contains_char, same_text, split_at_char, string_of, trimmed,
    trimmed_both, trimmed_end, CharClass,
};
use vstd::hash_map::StringHashMap;
use vstd::prelude::*;
use vstd::string::*;

verus! {

/// A country of the country file.
#[derive(Debug, Clone)]
pub struct CountryInfo {
    pub name: String,
    pub continent: String,
    pub primary_prefix: String,
}

/// What the country file says of a country.
#[verifier::ext_equal]
pub struct CountryText {
    pub name: Seq<char>,
    pub continent: Seq<char>,
    pub primary_prefix: Seq<char>,
}

impl View for CountryInfo {
    type V = CountryText;

    open spec fn view(&self) -> CountryText {
        CountryText {
            name: self.name@,
            continent: self.continent@,
            primary_prefix: self.primary_prefix@,
        }
    }
}

impl CountryInfo {
    fn copy(&self) -> (r: CountryInfo)
        ensures
            r@ == self@,
    {
        CountryInfo {
            name: String::from_str(self.name.as_str()),
            continent: String::from_str(self.continent.as_str()),
            primary_prefix: String::from_str(self.primary_prefix.as_str()),
        }
    }
}

/// What was read of the country file: the countries by prefix, and the
/// country that the next prefixes are of.
#[verifier::ext_equal]
pub struct CountryFile {
    pub prefixes: Map<Seq<char>, CountryText>,
    pub current: Option<CountryText>,
}

/// The prefix of an entry, without what stands in brackets after it.
pub open spec fn entry_prefix(s: Seq<char>) -> Seq<char> {
    text::trim(text::until(s, CharClass::Opening))
}

/// The prefixes after the entries of a line were read.
pub open spec fn with_entries(
    prefixes: Map<Seq<char>, CountryText>,
    entries: Seq<Seq<char>>,
    country: CountryText,
) -> Map<Seq<char>, CountryText>
    decreases entries.len(),
{
    if entries.len() == 0 {
        prefixes
    } else {
        let before = with_entries(prefixes, entries.drop_last(), country);
        let p = entry_prefix(entries.last());
        if p.len() == 0 {
            before
        } else {
            before.insert(p, country)
        }
    }
}

impl CountryFile {
    /// What was read after one more line.
    pub open spec fn line_read(self, line: Seq<char>) -> CountryFile {
        if text::trim(line).len() == 0 {
            self
        } else if line[0] == ' ' || line[0] == '\t' {
            match self.current {
                Some(country) => CountryFile {
                    prefixes: with_entries(
                        self.prefixes,
                        text::pieces(text::trim_end(text::trim(line), CharClass::Semicolon), ','),
                        country,
                    ),
                    current: self.current,
                },
                None => self,
            }
        } else {
            let parts = text::pieces(line, ':');
            if parts.len() >= 8 {
                let country = CountryText {
                    name: text::trim(parts[0]),
                    continent: text::trim(parts[3]),
                    primary_prefix: text::trim(parts[7]),
                };
                CountryFile {
                    prefixes: self.prefixes.insert(country.primary_prefix, country),
                    current: Some(country),
                }
            } else {
                self
            }
        }
    }

    /// What was read after some more lines.
    pub open spec fn lines_read(self, lines: Seq<Seq<char>>) -> CountryFile
        decreases lines.len(),
    {
        if lines.len() == 0 {
            self
        } else {
            self.lines_read(lines.drop_last()).line_read(lines.last())
        }
    }
}

/// The part of a call sign that tells its country: of one with slashes the
/// second part where the first has three bytes or fewer, else the first.
pub open spec fn effective_call(call: Seq<char>) -> Seq<char> {
    let up = text::uppercase(call);
    let parts = text::pieces(up, '/');
    if !up.contains('/') || parts.len() < 2 {
        up
    } else if text::byte_len(parts[0]) <= 3 {
        parts[1]
    } else {
        parts[0]
    }
}

/// The country of the longest of the first `n` prefixes of a text.
pub open spec fn longest_match(
    prefixes: Map<Seq<char>, CountryText>,
    s: Seq<char>,
    n: nat,
) -> Option<CountryText>
    decreases n,
{
    if n == 0 {
        None
    } else if prefixes.contains_key(s.take(n as int)) {
        Some(prefixes[s.take(n as int)])
    } else {
        longest_match(prefixes, s, (n - 1) as nat)
    }
}

/// The country of a call sign.
pub open spec fn country_of(
    prefixes: Map<Seq<char>, CountryText>,
    call: Seq<char>,
) -> Option<CountryText> {
    longest_match(prefixes, effective_call(call), effective_call(call).len())
}

/// The name of the region of a call sign, in Chinese where there is one.
pub open spec fn region_of(
    prefixes: Map<Seq<char>, CountryText>,
    names: Map<Seq<char>, Seq<char>>,
    call: Seq<char>,
) -> Seq<char> {
    let name = match country_of(prefixes, call) {
        Some(c) => c.name,
        None => "未知地区"@,
    };
    if names.contains_key(name) {
        names[name]
    } else {
        name
    }
}

/// The country is that of the longest known prefix, and there is none only
/// where no prefix is known.
pub proof fn law_longest_prefix_wins(
    prefixes: Map<Seq<char>, CountryText>,
    s: Seq<char>,
    n: nat,
    k: int,
)
    requires
        n <= s.len(),
        1 <= k <= n,
        prefixes.contains_key(s.take(k)),
        forall|j: int| k < j <= n ==> !prefixes.contains_key(#[trigger] s.take(j)),
    ensures
        longest_match(prefixes, s, n) == Some(prefixes[s.take(k)]),
    decreases n,
{
    if k < n {
        assert(!prefixes.contains_key(s.take(n as int)));
        law_longest_prefix_wins(prefixes, s, (n - 1) as nat, k);
    }
}

/// A call sign without brackets and in upper case.
pub open spec fn plain_call(sender: Seq<char>) -> Seq<char> {
    text::uppercase(text::trim_both(sender, CharClass::Angle))
}

/// The most call signs whose region is remembered, before all are forgotten.
pub const REGION_CACHE_LIMIT: usize = 5000;

/// Finds the regions of call signs.
pub struct LocationEngine {
    prefix_map: StringHashMap<CountryInfo>,
    zh_map: StringHashMap<String>,
    callsign_cache: StringHashMap<String>,
}

/// Whether an engine finds a region for a sender and remembers it.
pub open spec fn finds_region(
    before: LocationEngine,
    after: LocationEngine,
    sender: Seq<char>,
    region: Seq<char>,
) -> bool {
    let call = plain_call(sender);
    let found = region_of(before.prefixes(), before.names(), call);
    &&& after.prefixes() == before.prefixes()
    &&& after.names() == before.names()
    &&& if sender == "Unknown"@ || sender.len() == 0 {
        region == "未知"@ && after.cache() == before.cache()
    } else if before.cache().contains_key(call) {
        region == before.cache()[call] && after.cache() == before.cache()
    } else {
        &&& region == found
        &&& after.cache() == (if before.cache().len() > REGION_CACHE_LIMIT {
            Map::empty()
        } else {
            before.cache()
        }).insert(call, found)
    }
}

/// An engine that remembers only what it would find goes on to do so, and
/// what it finds is then what its countries and names say.
pub proof fn law_memory_changes_nothing(
    before: LocationEngine,
    after: LocationEngine,
    sender: Seq<char>,
    region: Seq<char>,
)
    requires
        before.coherent(),
        finds_region(before, after, sender, region),
    ensures
        after.coherent(),
        sender != "Unknown"@ && sender.len() > 0 ==> region == region_of(
            before.prefixes(),
            before.names(),
            plain_call(sender),
        ),
{
}

impl LocationEngine {
    /// The countries by prefix.
    pub closed spec fn prefixes(&self) -> Map<Seq<char>, CountryText> {
        self.prefix_map@.map_values(|c: CountryInfo| c@)
    }

    /// The Chinese names of the countries.
    pub closed spec fn names(&self) -> Map<Seq<char>, Seq<char>> {
        self.zh_map@.map_values(|s: String| s@)
    }

    /// The regions that are remembered.
    pub closed spec fn cache(&self) -> Map<Seq<char>, Seq<char>> {
        self.callsign_cache@.map_values(|s: String| s@)
    }

    /// Whether what is remembered is what would be found.
    pub open spec fn coherent(&self) -> bool {
        forall|k: Seq<char>| #[trigger]
            self.cache().contains_key(k) ==> self.cache()[k] == region_of(
                self.prefixes(),
                self.names(),
                k,
            )
    }

    /// An engine that knows no country.
    pub fn new() -> (r: LocationEngine)
        ensures
            r.prefixes() == Map::<Seq<char>, CountryText>::empty(),
            r.names() == Map::<Seq<char>, Seq<char>>::empty(),
            r.cache() == Map::<Seq<char>, Seq<char>>::empty(),
            r.coherent(),
    {
        let r = LocationEngine {
            prefix_map: StringHashMap::new(),
            zh_map: StringHashMap::new(),
            callsign_cache: StringHashMap::new(),
        };
        assert(r.prefixes() =~= Map::<Seq<char>, CountryText>::empty());
        assert(r.names() =~= Map::<Seq<char>, Seq<char>>::empty());
        assert(r.cache() =~= Map::<Seq<char>, Seq<char>>::empty());
        r
    }

    /// Takes the Chinese names from JSON; JSON that is no object of texts
    /// changes nothing.
    pub fn load_names(&mut self, json: &str)
        ensures
            final(self).prefixes() == old(self).prefixes(),
            final(self).cache() == old(self).cache(),
            final(self).names() == match outside::json_pairs(json@) {
                Some(pairs) => outside::map_of(pairs),
                None => old(self).names(),
            },
    {
        let ghost before = *self;
        if let Some(pairs) = parse_pairs(json) {
            let mut map: StringHashMap<String> = StringHashMap::new();
            let ghost all = outside::pair_texts(pairs@);
            let mut i: usize = 0;
            assert(all.take(0) =~= Seq::<(Seq<char>, Seq<char>)>::empty());
            assert(map@.map_values(|s: String| s@) =~= Map::<Seq<char>, Seq<char>>::empty());
            while i < pairs.len()
                invariant
                    all == outside::pair_texts(pairs@),
                    i <= pairs@.len(),
                    map@.map_values(|s: String| s@) == outside::map_of(all.take(i as int)),
                decreases pairs@.len() - i,
            {
                let ghost prev = map@.map_values(|s: String| s@);
                assert(all.take(i + 1).drop_last() =~= all.take(i as int));
                assert(all[i as int] == (pairs@[i as int].0@, pairs@[i as int].1@));
                let k = String::from_str(pairs[i].0.as_str());
                let v = String::from_str(pairs[i].1.as_str());
                map.insert(k, v);
                assert(map@.map_values(|s: String| s@) =~= prev.insert(k@, v@));
                i += 1;
            }
            assert(all.take(i as int) =~= all);
            self.zh_map = map;
        }
    }

    /// Takes the countries from the lines of the country file.
    pub fn load_countries(&mut self, lines: &Vec<String>)
        ensures
            final(self).names() == old(self).names(),
            final(self).cache() == old(self).cache(),
            final(self).prefixes() == (CountryFile {
                prefixes: old(self).prefixes(),
                current: None,
            }).lines_read(text::texts(lines@)).prefixes,
    {
        let ghost start = CountryFile { prefixes: self.prefixes(), current: None };
        let ghost all = text::texts(lines@);
        let mut current: Option<CountryInfo> = None;
        let mut i: usize = 0;
        assert(all.take(0) =~= Seq::<Seq<char>>::empty());
        while i < lines.len()
            invariant
                all == text::texts(lines@),
                i <= lines@.len(),
                self.names() == old(self).names(),
                self.cache() == old(self).cache(),
                ({
                    let read = start.lines_read(all.take(i as int));
                    &&& self.prefixes() == read.prefixes
                    &&& country_option(current) == read.current
                }),
            decreases lines@.len() - i,
        {
            assert(all.take(i + 1).drop_last() =~= all.take(i as int));
            assert(all.take(i + 1).last() == lines@[i as int]@);
            self.read_line(lines[i].as_str(), &mut current);
            i += 1;
        }
        assert(all.take(i as int) =~= all);
    }

    fn read_line(&mut self, line: &str, current: &mut Option<CountryInfo>)
        ensures
            final(self).names() == old(self).names(),
            final(self).cache() == old(self).cache(),
            ({
                let read = (CountryFile {
                    prefixes: old(self).prefixes(),
                    current: country_option(*old(current)),
                }).line_read(line@);
                &&& final(self).prefixes() == read.prefixes
                &&& country_option(*final(current)) == read.current
            }),
    {
        let bare = trimmed(line);
        if bare.as_str().unicode_len() == 0 {
            return;
        }
        proof {
            text::lemma_trim_empty(line@);
        }
        let v = chars_of(line);
        if v[0] == ' ' || v[0] == '\t' {
            if let Some(country) = current {
                let list = trimmed_end(bare.as_str(), CharClass::Semicolon);
                let entries = split_at_char(list.as_str(), ',');
                self.read_entries(&entries, country);
            }
        } else {
            let parts = split_at_char(line, ':');
            let ghost all = text::pieces(line@, ':');
            if parts.len() >= 8 {
                assert(all[0] == parts@[0]@ && all[3] == parts@[3]@ && all[7] == parts@[7]@);
                let country = CountryInfo {
                    name: trimmed(parts[0].as_str()),
                    continent: trimmed(parts[3].as_str()),
                    primary_prefix: trimmed(parts[7].as_str()),
                };
                let key = String::from_str(country.primary_prefix.as_str());
                let ghost before = self.prefixes();
                let copy = country.copy();
                self.prefix_map.insert(key, copy);
                assert(self.prefixes() =~= before.insert(key@, country@));
                *current = Some(country);
            }
        }
    }

    fn read_entries(&mut self, entries: &Vec<String>, country: &CountryInfo)
        ensures
            final(self).names() == old(self).names(),
            final(self).cache() == old(self).cache(),
            final(self).prefixes() == with_entries(
                old(self).prefixes(),
                text::texts(entries@),
                country@,
            ),
    {
        let ghost all = text::texts(entries@);
        let mut i: usize = 0;
        assert(all.take(0) =~= Seq::<Seq<char>>::empty());
        while i < entries.len()
            invariant
                all == text::texts(entries@),
                i <= entries@.len(),
                self.names() == old(self).names(),
                self.cache() == old(self).cache(),
                self.prefixes() == with_entries(
                    old(self).prefixes(),
                    all.take(i as int),
                    country@,
                ),
            decreases entries@.len() - i,
        {
            assert(all.take(i + 1).drop_last() =~= all.take(i as int));
            assert(all.take(i + 1).last() == entries@[i as int]@);
            let head = text::head_until(entries[i].as_str(), CharClass::Opening);
            let prefix = trimmed(head.as_str());
            if prefix.as_str().unicode_len() != 0 {
                let ghost before = self.prefixes();
                let copy = country.copy();
                self.prefix_map.insert(prefix, copy);
                assert(self.prefixes() =~= before.insert(prefix@, country@));
            }
            i += 1;
        }
        assert(all.take(i as int) =~= all);
    }

    /// Finds the country of a call sign by its longest known prefix.
    fn match_callsign(&self, callsign: &str) -> (r: Option<String>)
        ensures
            (match r {
                Some(name) => Some(name@),
                None => None,
            }) == (match country_of(self.prefixes(), callsign@) {
                Some(c) => Some(c.name),
                None => None,
            }),
    {
        let up = callsign.to_uppercase();
        let mut effective = String::from_str(up.as_str());
        if contains_char(up.as_str(), '/') {
            let parts = split_at_char(up.as_str(), '/');
            let ghost all = text::pieces(up@, '/');
            if parts.len() >= 2 {
                assert(all[0] == parts@[0]@ && all[1] == parts@[1]@);
                if byte_length(parts[0].as_str()) <= 3 {
                    effective = String::from_str(parts[1].as_str());
                } else {
                    effective = String::from_str(parts[0].as_str());
                }
            }
        }
        assert(effective@ == effective_call(callsign@));
        let v = chars_of(effective.as_str());
        let mut n: usize = v.len();
        while n > 0
            invariant
                v@ == effective@,
                n <= v@.len(),
                longest_match(self.prefixes(), effective@, n as nat) == longest_match(
                    self.prefixes(),
                    effective@,
                    effective@.len(),
                ),
                effective@ == effective_call(callsign@),
            decreases n,
        {
            let sub = string_of(&v, 0, n);
            assert(sub@ =~= effective@.take(n as int));
            if let Some(info) = self.prefix_map.get(sub.as_str()) {
                assert(self.prefixes().contains_key(sub@));
                assert(self.prefixes()[sub@] == info@);
                return Some(String::from_str(info.name.as_str()));
            }
            assert(!self.prefixes().contains_key(sub@));
            n -= 1;
        }
        None
    }

    /// Says where a sender is: the Chinese name of the region where there is
    /// one. What was found is remembered.
    pub fn get_region(&mut self, sender: &str) -> (r: String)
        ensures
            finds_region(*old(self), *final(self), sender@, r@),
    {
        if same_text(sender, "Unknown") || sender.unicode_len() == 0 {
            return String::from_str("未知");
        }
        let call = trimmed_both(sender, CharClass::Angle).as_str().to_uppercase();
        if let Some(cached) = self.callsign_cache.get(call.as_str()) {
            assert(self.cache().contains_key(call@));
            return String::from_str(cached.as_str());
        }
        assert(!self.cache().contains_key(call@));
        let name = match self.match_callsign(call.as_str()) {
            Some(name) => name,
            None => String::from_str("未知地区"),
        };
        let region = match self.zh_map.get(name.as_str()) {
            Some(zh) => {
                assert(self.names().contains_key(name@));
                String::from_str(zh.as_str())
            },
            None => {
                assert(!self.names().contains_key(name@));
                name
            },
        };
        let ghost before = *self;
        assert(self.cache().dom() =~= self.callsign_cache@.dom());
        if self.callsign_cache.len() > REGION_CACHE_LIMIT {
            self.callsign_cache.clear();
            assert(self.cache() =~= Map::<Seq<char>, Seq<char>>::empty());
        }
        let ghost kept = self.cache();
        let copy = String::from_str(region.as_str());
        self.callsign_cache.insert(call, copy);
        assert(self.cache() =~= kept.insert(call@, region@));
        region
    }
}

/// The country that there may be.
spec fn country_option(c: Option<CountryInfo>) -> Option<CountryText> {
    match c {
        Some(x) => Some(x@),
        None => None,
    }
}

/// What tells the country of a call sign: the call sign itself; of one with a
/// slash the part after it where the part before it has three characters or
/// fewer, else the part before it. Small letters count as large.
pub proof fn law_part_that_tells_the_country(a: Seq<char>, b: Seq<char>)
    requires
        a.len() > 0,
        forall|i: int|
            0 <= i < a.len() ==> '0' <= #[trigger] a[i] <= '9' || 'A' <= a[i] <= 'Z',
        forall|i: int|
            0 <= i < b.len() ==> '0' <= #[trigger] b[i] <= '9' || 'A' <= b[i] <= 'Z',
    ensures
        effective_call(a) == a,
        a.len() <= 3 ==> effective_call(a + "/"@ + b) == b,
        a.len() > 3 ==> effective_call(a + "/"@ + b) == a,
{
    reveal_strlit("/");
    text::lemma_upper_none(a);
    assert(!a.contains('/'));
    let s = a + "/"@ + b;
    assert forall|i: int| 0 <= i < s.len() implies '\0' <= #[trigger] s[i] <= '\u{7f}' && !('a'
        <= s[i] <= 'z') by {
        if i < a.len() {
            assert(s[i] == a[i]);
        } else if i > a.len() {
            assert(s[i] == b[i - a.len() - 1]);
        }
    }
    text::lemma_upper_none(s);
    assert(s[a.len() as int] == '/');
    let v = seq![a, b];
    assert(v.drop_first() =~= seq![b]);
    assert(text::joined(v.drop_first(), '/') == b);
    assert(text::joined(v, '/') =~= s);
    assert forall|i: int, k: int| 0 <= i < v.len() && 0 <= k < v[i].len() implies #[trigger] v[i][k]
        != '/' by {
        if i == 0 {
            assert(v[i][k] == a[k]);
        } else {
            assert(v[i][k] == b[k]);
        }
    }
    text::law_pieces_put_together(v, '/');
    text::lemma_ascii_byte_len(a);
}

/// The head of a country in the file: eight fields or more with colons between
/// them, of which the first is its name, the fourth its continent and the
/// eighth its first prefix. The prefixes that follow are of that country.
pub proof fn law_head_of_a_country(f: CountryFile, fields: Seq<Seq<char>>)
    requires
        fields.len() >= 8,
        forall|i: int, k: int|
            0 <= i < fields.len() && 0 <= k < fields[i].len() ==> #[trigger] fields[i][k] != ':',
        fields[0].len() > 0,
        !text::white_space(fields[0][0]),
    ensures
        ({
            let after = f.line_read(text::joined(fields, ':'));
            let prefix = text::trim(fields[7]);
            &&& after.current is Some
            &&& (after.current->0).name == text::trim(fields[0])
            &&& (after.current->0).continent == text::trim(fields[3])
            &&& (after.current->0).primary_prefix == prefix
            &&& after.prefixes == f.prefixes.insert(prefix, after.current->0)
        }),
{
    let line = text::joined(fields, ':');
    text::law_pieces_put_together(fields, ':');
    assert(line[0] == fields[0][0]);
    let (from, to) = text::law_trim_takes_the_ends(line, CharClass::White);
    assert(text::trim(line).len() > 0) by {
        if text::trim(line).len() == 0 {
            assert(from == to);
            assert(CharClass::White.has(line[0]));
        }
    }
}

/// Every entry of a country stands for that country, and no other prefix is changed.
pub proof fn law_entries_are_of_the_country(
    m: Map<Seq<char>, CountryText>,
    entries: Seq<Seq<char>>,
    country: CountryText,
    p: Seq<char>,
)
    ensures
        ({
            let after = with_entries(m, entries, country);
            let named = exists|i: int| 0 <= i < entries.len() && entry_prefix(#[trigger] entries[i]) == p;
            &&& named && p.len() > 0 ==> after.contains_key(p) && after[p] == country
            &&& !named || p.len() == 0 ==> (after.contains_key(p) <==> m.contains_key(p)) && (
            m.contains_key(p) ==> after[p] == m[p])
        }),
    decreases entries.len(),
{
    if entries.len() > 0 {
        let fewer = entries.drop_last();
        law_entries_are_of_the_country(m, fewer, country, p);
        assert forall|i: int| 0 <= i < fewer.len() implies fewer[i] == #[trigger] entries[i] by {}
        assert(entries.last() == entries[entries.len() - 1]);
        if exists|i: int| 0 <= i < entries.len() && entry_prefix(#[trigger] entries[i]) == p {
            let i = choose|i: int|
                0 <= i < entries.len() && entry_prefix(#[trigger] entries[i]) == p;
            if i < fewer.len() {
                assert(entry_prefix(fewer[i]) == p);
            }
        } else {
            assert forall|i: int| 0 <= i < fewer.len() implies entry_prefix(#[trigger] fewer[i])
                != p by {
                assert(entries[i] == fewer[i]);
            }
        }
    }
}

/// A prefix may have a remark in brackets after it, which does not count.
pub proof fn law_remark_after_a_prefix(p: Seq<char>, remark: Seq<char>)
    requires
        forall|i: int| 0 <= i < p.len() ==> #[trigger] p[i] != '(' && p[i] != '[' && p[i] != '<',
    ensures
        entry_prefix(p) == text::trim(p),
        entry_prefix(p + seq!['('] + remark) == text::trim(p),
        entry_prefix(p + seq!['['] + remark) == text::trim(p),
        entry_prefix(p + seq!['<'] + remark) == text::trim(p),
{
    lemma_until(p, '(', remark);
    lemma_until(p, '[', remark);
    lemma_until(p, '<', remark);
}

proof fn lemma_until(p: Seq<char>, b: char, remark: Seq<char>)
    requires
        forall|i: int| 0 <= i < p.len() ==> #[trigger] p[i] != '(' && p[i] != '[' && p[i] != '<',
        b == '(' || b == '[' || b == '<',
    ensures
        text::until(p, CharClass::Opening) == p,
        text::until(p + seq![b] + remark, CharClass::Opening) == p,
    decreases p.len(),
{
    let s = p + seq![b] + remark;
    if p.len() == 0 {
        assert(s[0] == b);
        assert(p =~= Seq::<char>::empty());
    } else {
        let t = p.drop_first();
        assert forall|i: int| 0 <= i < t.len() implies #[trigger] t[i] != '(' && t[i] != '[' && t[i]
            != '<' by {
            assert(t[i] == p[i + 1]);
        }
        lemma_until(t, b, remark);
        assert(s.drop_first() =~= t + seq![b] + remark);
        assert(s[0] == p[0]);
        assert(seq![p[0]] + t =~= p);
    }
}

/// The region of a call sign is the name of its country, in Chinese where there
/// is one; of a call sign without a country it is not known.
pub proof fn law_name_of_a_region(
    prefixes: Map<Seq<char>, CountryText>,
    names: Map<Seq<char>, Seq<char>>,
    call: Seq<char>,
)
    ensures
        country_of(prefixes, call) matches Some(c) ==> {
            &&& names.contains_key(c.name) ==> region_of(prefixes, names, call) == names[c.name]
            &&& !names.contains_key(c.name) ==> region_of(prefixes, names, call) == c.name
        },
        country_of(prefixes, call) is None && !names.contains_key("未知地区"@) ==> region_of(
            prefixes,
            names,
            call,
        ) == "未知地区"@,
{
}

/// The brackets around a call sign do not matter to where it comes from.
pub proof fn law_region_of_a_call_in_brackets(c: Seq<char>)
    requires
        c.len() > 0,
        forall|i: int|
            0 <= i < c.len() ==> '0' <= #[trigger] c[i] <= '9' || 'A' <= c[i] <= 'Z' || c[i] == '/',
    ensures
        plain_call(c) == c,
        plain_call(seq!['<'] + c + seq!['>']) == c,
{
    text::lemma_upper_none(c);
    let b = seq!['<'] + c + seq!['>'];
    assert(!CharClass::Angle.has(c[0]) && !CharClass::Angle.has(c[c.len() - 1]));
    assert(text::trim_both(c, CharClass::Angle) == c);
    let d = c + seq!['>'];
    assert(b.drop_first() =~= d);
    assert(text::trim_start(b, CharClass::Angle) == text::trim_start(d, CharClass::Angle));
    assert(d[0] == c[0]);
    assert(text::trim_start(d, CharClass::Angle) == d);
    assert(d.drop_last() =~= c);
    assert(text::trim_end(d, CharClass::Angle) == text::trim_end(c, CharClass::Angle));
}

/// Of a call sign of three parts the second tells the country where the first has
/// three characters or fewer, else the first.
pub proof fn law_country_of_three_parts(a: Seq<char>, b: Seq<char>, c: Seq<char>)
    requires
        a.len() > 0,
        forall|i: int| 0 <= i < a.len() ==> '0' <= #[trigger] a[i] <= '9' || 'A' <= a[i] <= 'Z',
        forall|i: int| 0 <= i < b.len() ==> '0' <= #[trigger] b[i] <= '9' || 'A' <= b[i] <= 'Z',
        forall|i: int| 0 <= i < c.len() ==> '0' <= #[trigger] c[i] <= '9' || 'A' <= c[i] <= 'Z',
    ensures
        a.len() <= 3 ==> effective_call(a + "/"@ + b + "/"@ + c) == b,
        a.len() > 3 ==> effective_call(a + "/"@ + b + "/"@ + c) == a,
{
    reveal_strlit("/");
    let s = a + "/"@ + b + "/"@ + c;
    let k = a.len() + 1 + b.len();
    assert forall|i: int| 0 <= i < s.len() implies '\0' <= #[trigger] s[i] <= '\u{7f}' && !('a'
        <= s[i] <= 'z') by {
        if i < a.len() {
            assert(s[i] == a[i]);
        } else if a.len() < i < k {
            assert(s[i] == b[i - a.len() - 1]);
        } else if i > k {
            assert(s[i] == c[i - k - 1]);
        }
    }
    text::lemma_upper_none(s);
    assert(s[a.len() as int] == '/');
    let v = seq![a, b, c];
    let t = v.drop_first();
    assert(t =~= seq![b, c]);
    assert(t.drop_first() =~= seq![c]);
    assert(text::joined(t.drop_first(), '/') == c);
    assert(text::joined(t, '/') =~= b + "/"@ + c);
    assert(text::joined(v, '/') =~= s);
    assert forall|i: int, n: int| 0 <= i < v.len() && 0 <= n < v[i].len() implies #[trigger] v[i][n]
        != '/' by {
        if i == 0 {
            assert(v[i][n] == a[n]);
        } else if i == 1 {
            assert(v[i][n] == b[n]);
        } else {
            assert(v[i][n] == c[n]);
        }
    }
    text::law_pieces_put_together(v, '/');
    text::lemma_ascii_byte_len(a);
}

} // verus!
