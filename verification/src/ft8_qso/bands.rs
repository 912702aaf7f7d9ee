//! Bands, grid squares and the texts of log records.
use crate::numbers;
use crate::numbers::{decimal_text, padded_text};
use crate::text;
use crate::text::byte_length;
use vstd::prelude::*;
use vstd::string::*;
use vstd::utf8::*;

verus! {

/// The name of the band of a frequency in hertz.
pub open spec fn band_of(hz: int) -> Seq<char> {
    if 1_800_000 <= hz <= 2_000_000 {
        "160M"@
    } else if 3_500_000 <= hz <= 3_800_000 {
        "80M"@
    } else if 7_000_000 <= hz <= 7_300_000 {
        "40M"@
    } else if 10_100_000 <= hz <= 10_150_000 {
        "30M"@
    } else if 14_000_000 <= hz <= 14_350_000 {
        "20M"@
    } else if 18_068_000 <= hz <= 18_168_000 {
        "17M"@
    } else if 21_000_000 <= hz <= 21_450_000 {
        "15M"@
    } else if 24_890_000 <= hz <= 24_990_000 {
        "12M"@
    } else if 28_000_000 <= hz <= 29_700_000 {
        "10M"@
    } else if 50_000_000 <= hz <= 54_000_000 {
        "6M"@
    } else if 144_000_000 <= hz <= 148_000_000 {
        "2M"@
    } else {
        "OTHER"@
    }
}

/// The name of the band of a frequency in hertz.
pub fn get_band_name(hz: u64) -> (r: &'static str)
    ensures
        r@ == band_of(hz as int),
{
    if 1_800_000 <= hz && hz <= 2_000_000 {
        "160M"
    } else if 3_500_000 <= hz && hz <= 3_800_000 {
        "80M"
    } else if 7_000_000 <= hz && hz <= 7_300_000 {
        "40M"
    } else if 10_100_000 <= hz && hz <= 10_150_000 {
        "30M"
    } else if 14_000_000 <= hz && hz <= 14_350_000 {
        "20M"
    } else if 18_068_000 <= hz && hz <= 18_168_000 {
        "17M"
    } else if 21_000_000 <= hz && hz <= 21_450_000 {
        "15M"
    } else if 24_890_000 <= hz && hz <= 24_990_000 {
        "12M"
    } else if 28_000_000 <= hz && hz <= 29_700_000 {
        "10M"
    } else if 50_000_000 <= hz && hz <= 54_000_000 {
        "6M"
    } else if 144_000_000 <= hz && hz <= 148_000_000 {
        "2M"
    } else {
        "OTHER"
    }
}

/// A place: the latitude in 48ths and the longitude in 24ths of a degree.
#[derive(Clone, Copy, Debug, PartialEq, Eq, Structural)]
pub struct GridPosition {
    pub lat48: i32,
    pub lon24: i32,
}

/// An ASCII letter in upper case.
pub open spec fn upper_byte(b: u8) -> int {
    if 97 <= b <= 122 {
        b - 32
    } else {
        b as int
    }
}

/// An ASCII letter in lower case.
pub open spec fn lower_byte(b: u8) -> int {
    if 65 <= b <= 90 {
        b + 32
    } else {
        b as int
    }
}

/// The middle of a grid square: a field of 20 by 10 degrees, a square of 2 by
/// 1 degrees in it and, with six characters, a 24th of that in each direction.
pub open spec fn grid_middle(b: Seq<u8>) -> Option<GridPosition> {
    if b.len() < 4 {
        None
    } else {
        let lon = 480 * (upper_byte(b[0]) - 65) - 4320 + 48 * (b[2] - 48);
        let lat = 480 * (upper_byte(b[1]) - 65) - 4320 + 48 * (b[3] - 48);
        if b.len() >= 6 {
            Some(
                GridPosition {
                    lat48: (lat + 2 * (lower_byte(b[5]) - 97) + 1) as i32,
                    lon24: (lon + 2 * (lower_byte(b[4]) - 97) + 1) as i32,
                },
            )
        } else {
            Some(GridPosition { lat48: (lat + 24) as i32, lon24: (lon + 24) as i32 })
        }
    }
}

fn to_upper(b: u8) -> (r: i32)
    ensures
        r == upper_byte(b),
{
    if 97 <= b && b <= 122 {
        b as i32 - 32
    } else {
        b as i32
    }
}

fn to_lower(b: u8) -> (r: i32)
    ensures
        r == lower_byte(b),
{
    if 65 <= b && b <= 90 {
        b as i32 + 32
    } else {
        b as i32
    }
}

/// The middle of a grid square; none if the text has fewer than four bytes.
pub fn grid_to_lat_lon(grid: &str) -> (r: Option<GridPosition>)
    ensures
        r == grid_middle(encode_utf8(grid@)),
{
    let g = grid.as_bytes();
    if g.len() < 4 {
        return None;
    }
    let lon: i32 = 480 * (to_upper(g[0]) - 65) - 4320 + 48 * (g[2] as i32 - 48);
    let lat: i32 = 480 * (to_upper(g[1]) - 65) - 4320 + 48 * (g[3] as i32 - 48);
    if g.len() >= 6 {
        Some(
            GridPosition {
                lat48: lat + 2 * (to_lower(g[5]) - 97) + 1,
                lon24: lon + 2 * (to_lower(g[4]) - 97) + 1,
            },
        )
    } else {
        Some(GridPosition { lat48: lat + 24, lon24: lon + 24 })
    }
}

/// A frequency in megahertz with six places.
pub open spec fn megahertz(hz: nat) -> Seq<char> {
    numbers::decimal(hz / 1_000_000) + "."@ + numbers::zero_padded(
        numbers::decimal(hz % 1_000_000),
        6,
    )
}

/// A frequency in megahertz with six places.
pub fn megahertz_text(hz: u64) -> (r: String)
    ensures
        r@ == megahertz(hz as nat),
{
    let mut out = decimal_text(hz / 1_000_000);
    out.append(".");
    out.append(padded_text(hz % 1_000_000, 10, 6).as_str());
    out
}

/// A field of a log record: its name, its length in bytes and its value.
pub open spec fn adif_field(name: Seq<char>, value: Seq<char>) -> Seq<char> {
    "<"@ + name + ":"@ + numbers::decimal(text::byte_len(value)) + ">"@ + value
}

/// A contact as a log record.
#[verifier::ext_equal]
pub struct AdifContact {
    pub call: Seq<char>,
    pub grid: Seq<char>,
    pub rst_sent: Seq<char>,
    pub rst_rcvd: Seq<char>,
    pub date: Seq<char>,
    pub time: Seq<char>,
    pub freq_hz: nat,
    pub my_call: Seq<char>,
}

/// A contact as a log record.
pub open spec fn adif_text(c: AdifContact) -> Seq<char> {
    adif_field("CALL"@, c.call) + " "@ + adif_field("GRIDSQUARE"@, c.grid) + " <MODE:3>FT8 "@
        + adif_field("RST_SENT"@, c.rst_sent) + " "@ + adif_field("RST_RCVD"@, c.rst_rcvd)
        + " <QSO_DATE:8>"@ + c.date + " <TIME_ON:6>"@ + c.time + " "@ + adif_field(
        "BAND"@,
        band_of(c.freq_hz as int),
    ) + " "@ + adif_field("FREQ"@, megahertz(c.freq_hz)) + " "@ + adif_field(
        "STATION_CALLSIGN"@,
        c.my_call,
    ) + " <EOR>\n"@
}

fn push_field(out: &mut String, name: &str, value: &str)
    ensures
        final(out)@ == old(out)@ + adif_field(name@, value@),
{
    let ghost before = out@;
    out.append("<");
    out.append(name);
    out.append(":");
    out.append(decimal_text(byte_length(value) as u64).as_str());
    out.append(">");
    out.append(value);
    assert(out@ =~= before + adif_field(name@, value@));
}

/// A contact as a log record.
pub fn adif_record(
    call: &str,
    grid: &str,
    rst_sent: &str,
    rst_rcvd: &str,
    date: &str,
    time: &str,
    freq_hz: u64,
    my_call: &str,
) -> (r: String)
    ensures
        r@ == adif_text(
            (AdifContact {
                call: call@,
                grid: grid@,
                rst_sent: rst_sent@,
                rst_rcvd: rst_rcvd@,
                date: date@,
                time: time@,
                freq_hz: freq_hz as nat,
                my_call: my_call@,
            }),
        ),
{
    let mut out = String::new();
    push_field(&mut out, "CALL", call);
    assert(out@ =~= adif_field("CALL"@, call@));
    out.append(" ");
    push_field(&mut out, "GRIDSQUARE", grid);
    out.append(" <MODE:3>FT8 ");
    push_field(&mut out, "RST_SENT", rst_sent);
    out.append(" ");
    push_field(&mut out, "RST_RCVD", rst_rcvd);
    out.append(" <QSO_DATE:8>");
    out.append(date);
    out.append(" <TIME_ON:6>");
    out.append(time);
    out.append(" ");
    push_field(&mut out, "BAND", get_band_name(freq_hz));
    out.append(" ");
    push_field(&mut out, "FREQ", megahertz_text(freq_hz).as_str());
    out.append(" ");
    push_field(&mut out, "STATION_CALLSIGN", my_call);
    out.append(" <EOR>\n");
    out
}

} // verus!
