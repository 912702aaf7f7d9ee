//! What the station has from other crates: stored lists, times and bytes as text.
use crate::numbers;
use crate::text;
use std::collections::{BTreeMap, BTreeSet};
use vstd::prelude::*;
use vstd::utf8::*;

verus! {

/// What `String::from_utf8_lossy` makes of bytes.
pub uninterp spec fn utf8_lossy(b: Seq<u8>) -> Seq<char>;

/// Bytes as text. Of valid UTF-8 the encoding decides.
pub open spec fn text_of_bytes(b: Seq<u8>) -> Seq<char> {
    if valid_utf8(b) {
        decode_utf8(b)
    } else {
        utf8_lossy(b)
    }
}

/// `String::from_utf8_lossy` of std: the text that valid UTF-8 encodes. Where
/// the bytes are not valid, which characters stand in for them is named and
/// not written out.
#[verifier::external_body]
fn from_utf8_lossy(b: &[u8]) -> (r: String)
    ensures
        r@ == utf8_lossy(b@),
        valid_utf8(b@) ==> r@ == decode_utf8(b@),
{
    String::from_utf8_lossy(b).into_owned()
}

/// Reads bytes as text.
pub fn bytes_text(b: &[u8]) -> (r: String)
    ensures
        r@ == text_of_bytes(b@),
{
    from_utf8_lossy(b)
}

/// The texts that `serde_json::from_str` reads from a JSON list as a set, in
/// their order, if it is one.
pub uninterp spec fn json_strings(json: Seq<char>) -> Option<Seq<Seq<char>>>;

/// The JSON that `serde_json::to_string` writes for a list of texts.
pub uninterp spec fn strings_json(v: Seq<Seq<char>>) -> Seq<char>;

/// The pairs that `serde_json::from_str` reads from a JSON object of texts as
/// a map, in the order of their keys, if it is one.
pub uninterp spec fn json_pairs(json: Seq<char>) -> Option<Seq<(Seq<char>, Seq<char>)>>;

/// The JSON that `serde_json::to_string` writes for a map of texts.
pub uninterp spec fn pairs_json(m: Map<Seq<char>, Seq<char>>) -> Seq<char>;

/// The texts of pairs.
pub open spec fn pair_texts(v: Seq<(String, String)>) -> Seq<(Seq<char>, Seq<char>)> {
    v.map_values(|p: (String, String)| (p.0@, p.1@))
}

/// The texts that were read, if any.
pub open spec fn strings_read(r: Option<Vec<String>>) -> Option<Seq<Seq<char>>> {
    match r {
        Some(v) => Some(text::texts(v@)),
        None => None,
    }
}

/// The pairs that were read, if any.
pub open spec fn pairs_read(r: Option<Vec<(String, String)>>) -> Option<
    Seq<(Seq<char>, Seq<char>)>,
> {
    match r {
        Some(v) => Some(pair_texts(v@)),
        None => None,
    }
}

/// Whether no two pairs have the same key.
pub open spec fn keys_differ(v: Seq<(Seq<char>, Seq<char>)>) -> bool {
    forall|i: int, j: int|
        0 <= i < j < v.len() ==> (#[trigger] v[i]).0 != (#[trigger] v[j]).0
}

/// The map that pairs stand for: of equal keys the last counts.
pub open spec fn map_of(v: Seq<(Seq<char>, Seq<char>)>) -> Map<Seq<char>, Seq<char>>
    decreases v.len(),
{
    if v.len() == 0 {
        Map::empty()
    } else {
        map_of(v.drop_last()).insert(v.last().0, v.last().1)
    }
}

/// The set that stored texts stand for: an empty one where they cannot be read.
pub open spec fn stored_set(json: Seq<char>) -> Set<Seq<char>> {
    match json_strings(json) {
        Some(v) => v.to_set(),
        None => Set::empty(),
    }
}

/// The map that stored pairs stand for: an empty one where they cannot be read.
pub open spec fn stored_map(json: Seq<char>) -> Map<Seq<char>, Seq<char>> {
    match json_pairs(json) {
        Some(v) => map_of(v),
        None => Map::empty(),
    }
}

/// `serde_json::from_str` of the serde_json crate, for a set of texts: nothing
/// if the JSON is no list of texts. The grammar of JSON is named and not
/// written out.
#[verifier::external_body]
pub(crate) fn parse_strings(json: &str) -> (r: Option<Vec<String>>)
    ensures
        strings_read(r) == json_strings(json@),
{
    match serde_json::from_str::<BTreeSet<String>>(json) {
        Ok(set) => Some(set.into_iter().collect()),
        Err(_) => None,
    }
}

/// `serde_json::to_string` of the serde_json crate, for a list of texts. What
/// it writes is named and not written out. Claimed is that it is read back as
/// the set of the texts.
#[verifier::external_body]
pub(crate) fn write_strings(v: &Vec<String>) -> (r: String)
    ensures
        r@ == strings_json(text::texts(v@)),
        stored_set(r@) == text::texts(v@).to_set(),
{
    serde_json::to_string(v).unwrap()
}

/// `serde_json::from_str` of the serde_json crate, for a map of texts: nothing
/// if the JSON is no object of texts. The grammar of JSON is named and not
/// written out.
#[verifier::external_body]
pub(crate) fn parse_pairs(json: &str) -> (r: Option<Vec<(String, String)>>)
    ensures
        pairs_read(r) == json_pairs(json@),
{
    match serde_json::from_str::<BTreeMap<String, String>>(json) {
        Ok(map) => Some(map.into_iter().collect()),
        Err(_) => None,
    }
}

/// `serde_json::to_string` of the serde_json crate, for a map of texts. What
/// it writes is named and not written out. Claimed is that it is read back as
/// the same map.
#[verifier::external_body]
pub(crate) fn write_pairs(v: Vec<(String, String)>) -> (r: String)
    requires
        keys_differ(pair_texts(v@)),
    ensures
        r@ == pairs_json(map_of(pair_texts(v@))),
        stored_map(r@) == map_of(pair_texts(v@)),
{
    let map: BTreeMap<String, String> = v.into_iter().collect();
    serde_json::to_string(&map).unwrap()
}

/// The second after 1970 in which the year 10000 begins.
pub const YEAR_10000: i64 = 253402300800;

/// What chrono makes of a second after 1970, in UTC, and a pattern.
pub uninterp spec fn time_format(secs: i64, pattern: Seq<char>) -> Seq<char>;

/// The time of day of a second after 1970, in six digits.
pub open spec fn time_of_day(secs: int) -> Seq<char> {
    let day = secs % 86400;
    numbers::zero_padded(numbers::decimal((day / 3600) as nat), 2) + numbers::zero_padded(
        numbers::decimal((day / 60 % 60) as nat),
        2,
    ) + numbers::zero_padded(numbers::decimal((day % 60) as nat), 2)
}

/// `DateTime::from_timestamp` and `DateTime::format` of the chrono crate: a
/// second after 1970, in UTC, written to a pattern. The calendar is named and
/// not written out. Claimed is what the time of day is, and that a date is
/// eight digits and a date with time 25 characters, up to the year 9999.
#[verifier::external_body]
pub(crate) fn format_time(secs: i64, pattern: &str) -> (r: String)
    requires
        0 <= secs < YEAR_10000,
        pattern@ == "%Y%m%d"@ || pattern@ == "%H%M%S"@ || pattern@ == "%Y-%m-%dT%H:%M:%S+08:00"@,
    ensures
        r@ == time_format(secs, pattern@),
        pattern@ == "%H%M%S"@ ==> r@ == time_of_day(secs as int),
        pattern@ == "%Y%m%d"@ ==> r@.len() == 8 && forall|i: int|
            0 <= i < 8 ==> '0' <= #[trigger] r@[i] <= '9',
        pattern@ == "%Y-%m-%dT%H:%M:%S+08:00"@ ==> r@.len() == 25,
{
    chrono::DateTime::from_timestamp(secs, 0).unwrap().format(pattern).to_string()
}

} // verus!
