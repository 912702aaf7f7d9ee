use ft8_station::collections::{TextMap, TextSet};
use ft8_station::ft8_qso::bands::{
    adif_record, get_band_name, grid_to_lat_lon, megahertz_text, GridPosition,
};
use ft8_station::ft8_qso::location::LocationEngine;
use ft8_station::ft8_qso::notion_logger::{
    api_error, network_error, NotionLogger, QsoLog, Route, SendAction,
};
use ft8_station::ft8_qso::psk_reporter::{
    is_reportable, PskSpot, ReporterInfo, SpotBuffer, RECEIVER_FORMAT, SENDER_FORMAT,
};
use ft8_station::ft8_qso::qso_auto_hunter::{
    bin_freq, clean_call, extract_snr_from_text, find_quiet_freq, is_cra_special, is_local_area,
    is_preferred, quiet_bins, restore_set, store_set, stored_grids, unsigned_offset, AutoQsoManager,
    Distance, HuntContext, LogContext, Reception,
};
use ft8_station::ft8_qso::qso_utils::{
    get_next_expect_regex, get_next_tx_msg, get_sender_call, is_grid, is_snr, join3,
};
use ft8_station::numbers::{base_text, decimal_text, padded_text, report_text};
use ft8_station::outside::bytes_text;
use ft8_station::text::{
    bracketless, byte_length, chars_of, contains_char, contains_text, has_prefix, has_suffix,
    head_until, is_white_space, same_text, split_at_char, split_words, string_of, trimmed,
    trimmed_both, trimmed_end, CharClass,
};
use ft8_station::types::{AppState, Ft8DecodeResult, StationConfig};

fn config() -> StationConfig {
    StationConfig {
        my_call: "K1ABC".to_string(),
        my_grid: "FN42".to_string(),
        my_grid_detail: "FN42aa".to_string(),
    }
}

fn heard(text: &str, sender: &str, receiver: &str) -> Ft8DecodeResult {
    Ft8DecodeResult {
        freq: 1500,
        snr: -7,
        text: text.to_string(),
        decode_time_ms: 0,
        sender_call: Some(sender.to_string()),
        receiver_call: Some(receiver.to_string()),
        grid: None,
        region: None,
    }
}

const START: u64 = 50_000_000;

fn manager() -> AutoQsoManager {
    AutoQsoManager::new(LocationEngine::new(), START)
}

fn log_context(now: u64) -> LogContext<'static> {
    LogContext { now, unix_secs: 1_700_000_000, freq_hz: 14_074_000, freq_text: "14.074" }
}

fn hunt_context(now: u64) -> HuntContext {
    HuntContext { now, freq_hz: 14_074_000, tx_even: true, quiet_even: 800, quiet_odd: 900 }
}

#[test]
fn white_space_is_that_of_unicode() {
    for n in 0..=0x10FFFFu32 {
        if let Some(c) = char::from_u32(n) {
            assert_eq!(is_white_space(c), c.is_whitespace(), "{:x}", n);
        }
    }
}

#[test]
fn texts_are_taken_apart() {
    for s in ["", " a  b\t\u{3000}c ", "x", " \u{a0}", "K1ABC/P W9XYZ", "//", "a/b/", "\0a\0"] {
        assert_eq!(split_words(s), s.split_whitespace().map(String::from).collect::<Vec<_>>());
        assert_eq!(split_at_char(s, '/'), s.split('/').map(String::from).collect::<Vec<_>>());
        assert_eq!(trimmed(s), s.trim());
        assert_eq!(trimmed_both(s, CharClass::Nul), s.trim_matches('\0'));
        assert_eq!(trimmed_end(s, CharClass::White), s.trim_end());
        assert_eq!(byte_length(s), s.len());
        assert_eq!(chars_of(s), s.chars().collect::<Vec<_>>());
        for p in ["", "a", "/", " a", "b", "K1ABC/P W9XYZ0"] {
            assert_eq!(contains_text(s, p), s.contains(p));
            assert_eq!(has_prefix(s, p), s.starts_with(p));
            assert_eq!(has_suffix(s, p), s.ends_with(p));
            assert_eq!(same_text(s, p), s == p);
        }
        assert_eq!(contains_char(s, '/'), s.contains('/'));
    }
    assert_eq!(bracketless("<K1>A<"), "K1A");
    assert_eq!(head_until("K1(5)[3]", CharClass::Opening), "K1");
    assert_eq!(trimmed_both("<<A>>", CharClass::Angle), "A");
    assert_eq!(trimmed_end("A,B;;", CharClass::Semicolon), "A,B");
    assert_eq!(string_of(&vec!['a', '\u{e9}', 'c'], 1, 3), "\u{e9}c");
    assert_eq!(bytes_text(b"ab\xc3\xa9"), "ab\u{e9}");
    assert_eq!(bytes_text(b"a\xc3"), "a\u{fffd}");
}

#[test]
fn numbers_as_text() {
    for n in [0u64, 7, 10, 99, 100, 12345, u64::MAX] {
        assert_eq!(decimal_text(n), format!("{}", n));
        assert_eq!(base_text(n, 16), format!("{:X}", n));
        assert_eq!(padded_text(n, 10, 4), format!("{:04}", n));
        assert_eq!(padded_text(n, 16, 18), format!("{:018X}", n));
    }
    for n in [0, 5, -5, 12, -24, 100, -100, i32::MAX, i32::MIN] {
        assert_eq!(report_text(n), format!("{:+03}", n));
    }
}

#[test]
fn sets_and_maps_of_texts() {
    let mut set = TextSet::new();
    assert!(!set.contains("a"));
    set.insert("a".to_string());
    set.insert("b".to_string());
    set.insert("a".to_string());
    assert!(set.contains("a") && set.contains("b"));
    assert_eq!(set.items().len(), 2);
    let mut map = TextMap::new();
    map.insert("x".to_string(), 1);
    map.insert("x".to_string(), 2);
    assert_eq!((map.get("x"), map.get("y")), (Some(&2), None));
    assert!(map.contains_key("x"));
    assert_eq!(map.keys().len(), 1);
}

#[test]
fn reports() {
    for s in ["+02", "-15", "R-05", "R+5", "-1"] {
        assert!(is_snr(s), "{}", s);
    }
    for s in ["", "R", "+", "R+", "+123", "RR73", "73", "X-05", "-0a", "--1", "-05 ", "R R-1"] {
        assert!(!is_snr(s), "{}", s);
    }
    assert!(is_snr("-\u{661}"));
    assert!(!is_snr("-\u{e9}"));
}

#[test]
fn grid_squares() {
    assert!(is_grid("FN42"));
    assert!(is_grid("pm95"));
    for s in ["RR73", "RRR", "73", "", "FN4", "FN421", "F442", "FNA2", "FN\u{e9}"] {
        assert!(!is_grid(s), "{}", s);
    }
}

#[test]
fn next_messages() {
    let next = |m: &str, snr: i32| get_next_tx_msg(m, "K1ABC", "FN42", snr);
    assert_eq!(next("CQ W9XYZ EN37", -5), "W9XYZ K1ABC FN42");
    assert_eq!(next("CQ DX W9XYZ EN37", -5), "W9XYZ K1ABC FN42");
    assert_eq!(next("K1ABC W9XYZ EN37", 4), "W9XYZ K1ABC +04");
    assert_eq!(next("K1ABC W9XYZ EN37", -5), "W9XYZ K1ABC -05");
    assert_eq!(next("K1ABC W9XYZ -11", -15), "W9XYZ K1ABC R-15");
    assert_eq!(next("K1ABC W9XYZ R-11", -15), "W9XYZ K1ABC RR73");
    assert_eq!(next("K1ABC W9XYZ RR73", 0), "W9XYZ K1ABC 73");
    assert_eq!(next("K1ABC W9XYZ RRR", 0), "W9XYZ K1ABC 73");
    assert_eq!(next("K1ABC W9XYZ 73", 0), "");
    assert_eq!(next("<K1ABC> <PJ4/W9XYZ> EN37", 0), "PJ4/W9XYZ K1ABC +00");
    assert_eq!(next("W1AW W9XYZ EN37", 0), "");
    assert_eq!(next("K1ABC W9XYZ", 0), "");
    assert_eq!(next("CQ AB EN37", 0), "");
    assert_eq!(next("CQ <...> EN37", 0), "");
    assert_eq!(next("AB W9XYZ EN37", 0), "");
    assert_eq!(next("K1ABC W9XYZ HELLO", 0), "");
    assert_eq!(join3("A", "B", "C"), "A B C");
}

#[test]
fn a_contact_completes() {
    let (a, b) = (("K1ABC", "FN42"), ("W9XYZ", "EN37"));
    let mut sent = vec!["CQ K1ABC FN42".to_string()];
    loop {
        let (me, grid) = if sent.len() % 2 == 1 { b } else { a };
        let m = get_next_tx_msg(&sent[sent.len() - 1], me, grid, -9);
        if m.is_empty() {
            break;
        }
        sent.push(m);
    }
    assert_eq!(
        sent,
        vec![
            "CQ K1ABC FN42",
            "K1ABC W9XYZ EN37",
            "W9XYZ K1ABC -09",
            "K1ABC W9XYZ R-09",
            "W9XYZ K1ABC RR73",
            "K1ABC W9XYZ 73",
        ]
    );
}

#[test]
fn expected_patterns() {
    let expect = |m: &str| get_next_expect_regex(m, "K1ABC");
    assert_eq!(
        expect("CQ K1ABC FN42"),
        r"^<?K1ABC>?\s+<?[A-Z0-9/]+>?\s+([A-Z][0-9A-Z][0-9]{2}|[+-]\d{1,2})"
    );
    let report = r"^<?K1ABC>?\s+<?W9XYZ>?\s+R?[+-]\d{1,2}";
    let ack = r"^<?K1ABC>?\s+<?W9XYZ>?\s+(RR73|RRR|73)";
    assert_eq!(expect("<W9XYZ> K1ABC FN42"), report);
    assert_eq!(expect("W9XYZ K1ABC -05"), report);
    assert_eq!(expect("W9XYZ K1ABC R-05"), ack);
    assert_eq!(expect("W9XYZ K1ABC RR73"), ack);
    assert_eq!(expect("W9XYZ K1ABC RRR"), ack);
    assert_eq!(expect("W9XYZ K1ABC 73"), "");
    assert_eq!(expect("W9XYZ K1ABC"), "");
    assert_eq!(expect("AB K1ABC FN42"), "");
}

#[test]
fn answers_match_what_is_expected() {
    let (me, partner) = ("K1ABC", ("W9XYZ", "EN37"));
    for sent in [
        "CQ K1ABC FN42",
        "W9XYZ K1ABC FN42",
        "W9XYZ K1ABC -09",
        "W9XYZ K1ABC R-09",
        "W9XYZ K1ABC RR73",
        "W9XYZ K1ABC RRR",
    ] {
        let expected = regex::Regex::new(&get_next_expect_regex(sent, me)).unwrap();
        let answer = get_next_tx_msg(sent, partner.0, partner.1, -9);
        assert!(expected.is_match(&answer), "{} {}", sent, answer);
        assert!(!expected.is_match("W1AW W9XYZ -09"));
    }
}

#[test]
fn answers_are_told_from_other_messages() {
    let mut s = AppState::new("");
    assert!(!s.expects("K1ABC W9XYZ EN37"));
    s.set_expect(&get_next_expect_regex("CQ K1ABC FN42", "K1ABC"));
    for m in [
        "K1ABC W9XYZ EN37",
        "K1ABC <W9XYZ/P> EN37",
        "K1ABC W9XYZ -09",
        "<K1ABC>  W9XYZ +1",
        "K1ABC W9XYZ RR73",
    ] {
        assert!(s.expects(m), "{}", m);
    }
    for m in ["K1ABC W9XYZ RRR", "K1ABD W9XYZ EN37", " K1ABC W9XYZ EN37", "K1ABC w9xyz EN37"] {
        assert!(!s.expects(m), "{}", m);
    }
    s.set_expect(&get_next_expect_regex("W9XYZ K1ABC FN42", "K1ABC"));
    for m in ["K1ABC W9XYZ -09", "K1ABC W9XYZ R-09", "K1ABC <W9XYZ> R+3", "K1ABC\tW9XYZ -09 more"] {
        assert!(s.expects(m), "{}", m);
    }
    for m in ["K1ABC W9XYZ RR73", "K1ABC W9XYZ EN37", "K1ABC W1AW -09", "K1ABCW9XYZ -09"] {
        assert!(!s.expects(m), "{}", m);
    }
    s.set_expect(&get_next_expect_regex("W9XYZ K1ABC R-09", "K1ABC"));
    for m in ["K1ABC W9XYZ RR73", "K1ABC W9XYZ RRR", "K1ABC W9XYZ 73", "<K1ABC W9XYZ> 73"] {
        assert!(s.expects(m), "{}", m);
    }
    for m in ["K1ABC W9XYZ R-09", "K1ABC W9XYZ R73", "K1ABC W9XYZ", "K1ABC W9XYZ RR7"] {
        assert!(!s.expects(m), "{}", m);
    }
    s.set_expect(&get_next_expect_regex("W9XYZ K1ABC 73", "K1ABC"));
    assert!(!s.expects("K1ABC W9XYZ 73"));
}

#[test]
fn senders() {
    assert_eq!(get_sender_call("K1ABC W9XYZ -05").as_deref(), Some("W9XYZ"));
    assert_eq!(get_sender_call("K1ABC <W9XYZ>").as_deref(), Some("W9XYZ"));
    assert_eq!(get_sender_call("CQ DX W9XYZ EN37").as_deref(), Some("W9XYZ"));
    assert_eq!(get_sender_call("CQ W9XYZ EN").as_deref(), Some("W9XYZ"));
    assert_eq!(get_sender_call("CQ W9XYZ EN37").as_deref(), Some("W9XYZ"));
    assert_eq!(get_sender_call("CQ BG5VDH OL96").as_deref(), Some("BG5VDH"));
    assert_eq!(get_sender_call("CQ <W9XYZ> EN37").as_deref(), Some("W9XYZ"));
    assert_eq!(get_sender_call("CQ DX W9XYZ").as_deref(), Some("W9XYZ"));
    assert_eq!(get_sender_call("CQ TEST K1ABC").as_deref(), Some("K1ABC"));
    assert_eq!(get_sender_call("CQ TEST K1ABC FN42").as_deref(), Some("K1ABC"));
    assert_eq!(get_sender_call("CQ W9XYZ 73").as_deref(), Some("W9XYZ"));
    assert_eq!(get_sender_call("CQ AB EN37"), None);
    assert_eq!(get_sender_call("CQ W9XYZ"), None);
    assert_eq!(get_sender_call("K1ABC AB -05"), None);
    assert_eq!(get_sender_call("K1ABC"), None);
}

#[test]
fn cleaned_calls() {
    assert_eq!(clean_call("<W9XYZ>"), "W9XYZ");
    assert_eq!(clean_call("<...>"), "UNKNOWN");
    assert_eq!(clean_call("<...77>"), "...77");
}

#[test]
fn reports_at_the_end() {
    let r = |s: &str| extract_snr_from_text(s);
    assert_eq!(r("K1ABC W9XYZ -05").as_deref(), Some("-05"));
    assert_eq!(r("K1ABC W9XYZ R+12").as_deref(), Some("+12"));
    assert_eq!(r("K1ABC W9XYZ X-5").as_deref(), Some("X-5"));
    assert_eq!(r("K1ABC W9XYZ RR73"), None);
    assert_eq!(r("-05 K1ABC"), None);
    assert_eq!(r(""), None);
}

#[test]
fn special_and_local_calls() {
    assert!(is_cra_special("B1CRA"));
    assert!(is_cra_special("b9cra"));
    assert!(!is_cra_special("BACRA"));
    assert!(!is_cra_special("B12CRA"));
    assert!(!is_cra_special("K1CRA"));
    for c in ["BG5VDH", "ja1xyz", "7K1ABC", "8N1A", "HL1A", "DS1A", "D71A", "6K1A", "YB1A", "JS1A"] {
        assert!(is_local_area(c), "{}", c);
    }
    for c in ["BV1A", "BX2A", "VR2A", "XX9A", "JT1A", "K1ABC", "DL1A", "7O1A", "YA1A", "B", ""] {
        assert!(!is_local_area(c), "{}", c);
    }
}

#[test]
fn bands() {
    let floats = |hz: u64| -> &'static str {
        let f = hz as f64 / 1_000_000.0;
        match f {
            1.8..=2.0 => "160M",
            3.5..=3.8 => "80M",
            7.0..=7.3 => "40M",
            10.1..=10.15 => "30M",
            14.0..=14.35 => "20M",
            18.068..=18.168 => "17M",
            21.0..=21.45 => "15M",
            24.89..=24.99 => "12M",
            28.0..=29.7 => "10M",
            50.0..=54.0 => "6M",
            144.0..=148.0 => "2M",
            _ => "OTHER",
        }
    };
    let edges = [
        1_800_000, 2_000_000, 3_500_000, 3_800_000, 7_000_000, 7_300_000, 10_100_000, 10_150_000,
        14_000_000, 14_350_000, 18_068_000, 18_168_000, 21_000_000, 21_450_000, 24_890_000,
        24_990_000, 28_000_000, 29_700_000, 50_000_000, 54_000_000, 144_000_000, 148_000_000, 1,
        u64::MAX - 1,
    ];
    for e in edges {
        for hz in [e - 1, e, e + 1] {
            assert_eq!(get_band_name(hz), floats(hz), "{}", hz);
        }
    }
}

#[test]
fn grid_positions() {
    let p = grid_to_lat_lon("FN42").unwrap();
    assert_eq!(p, GridPosition { lat48: 2040, lon24: -1704 });
    let p = grid_to_lat_lon("fn42AA").unwrap();
    assert_eq!(p, GridPosition { lat48: 2017, lon24: -1727 });
    assert_eq!(grid_to_lat_lon("FN4"), None);
    assert_eq!(grid_to_lat_lon("FN42a"), grid_to_lat_lon("FN42"));
}

#[test]
fn frequencies_as_text() {
    for hz in [0u64, 1, 999_999, 14_074_000, 144_489_012] {
        assert_eq!(megahertz_text(hz), format!("{:.6}", hz as f64 / 1_000_000.0));
    }
}

#[test]
fn adif_records() {
    assert_eq!(
        adif_record("W9XYZ", "EN37", "-05", "+03", "20231115", "061320", 14_074_000, "K1ABC"),
        "<CALL:5>W9XYZ <GRIDSQUARE:4>EN37 <MODE:3>FT8 <RST_SENT:3>-05 <RST_RCVD:3>+03 \
         <QSO_DATE:8>20231115 <TIME_ON:6>061320 <BAND:3>20M <FREQ:9>14.074000 \
         <STATION_CALLSIGN:5>K1ABC <EOR>\n"
    );
}

#[test]
fn contacts_are_logged_once() {
    let c = config();
    let mut m = manager();
    m.push_decode(heard("K1ABC W9XYZ R-12", "W9XYZ", "K1ABC"), true, START, None, &c);
    assert_eq!(m.last_incoming_for_me, START);
    let mut with_grid = heard("CQ W9XYZ EN37", "W9XYZ", "CQ");
    with_grid.grid = Some("EN37".to_string());
    let far = Some(Distance { km: 1500, far: false });
    m.push_decode(with_grid, true, START, far, &c);
    assert_eq!(m.get_distance("W9XYZ"), far);
    assert!(m.is_dirty);
    m.report_failure();
    let ctx = log_context(START + 1000);
    let r = m.push_tx_decode("W9XYZ K1ABC RR73", 1200, false, &c, &ctx).unwrap();
    assert_eq!(
        r.log,
        QsoLog {
            time: "2023-11-15T06:13:20+08:00".to_string(),
            freq: "14.074".to_string(),
            call: "W9XYZ".to_string(),
            my_snr: "-07".to_string(),
            his_snr: "-12".to_string(),
            grid: "EN37 [1500km]".to_string(),
            region: "\u{672a}\u{77e5}\u{5730}\u{533a}".to_string(),
        }
    );
    assert_eq!(
        r.adif,
        adif_record("W9XYZ", "EN37", "-07", "-12", "20231115", "061320", 14_074_000, "K1ABC")
    );
    assert!(m.successful_calls.contains("W9XYZ:20M"));
    assert!(m.successful_grids.contains("EN37"));
    assert_eq!(m.consecutive_failures, 0);
    assert_eq!((m.is_dirty, m.last_save_time), (false, START + 1000));
    let again = heard("K1ABC W9XYZ 73", "W9XYZ", "K1ABC");
    assert!(m.check_and_log_qso(&again, &c, &log_context(START + 2000)).is_none());
    assert!(m.check_and_log_qso(&again, &c, &log_context(START + 601_000)).is_some());
}

#[test]
fn contacts_that_are_not_logged() {
    let c = config();
    let mut m = manager();
    let ctx = log_context(START);
    assert!(m.check_and_log_qso(&heard("W1AW W9XYZ 73", "W9XYZ", "W1AW"), &c, &ctx).is_none());
    assert!(m.check_and_log_qso(&heard("K1ABC W9XYZ -05", "W9XYZ", "K1ABC"), &c, &ctx).is_none());
    assert!(m.check_and_log_qso(&heard("K1ABC <...> 73", "<...>", "K1ABC"), &c, &ctx).is_none());
    assert!(m.push_tx_decode("TEST", 0, true, &c, &ctx).is_none());
    assert!(m.msg_history.is_empty());
    let r = m.check_and_log_qso(&heard("K1ABC W9XYZ 73", "W9XYZ", "K1ABC"), &c, &ctx).unwrap();
    assert_eq!((r.log.grid.as_str(), r.log.my_snr.as_str()), ("\u{672a}\u{77e5}", ""));
}

#[test]
fn old_entries_are_dropped() {
    let c = config();
    let mut m = manager();
    m.push_decode(heard("A B 1", "A", "B"), true, START, None, &c);
    m.push_decode(heard("A B 2", "A", "B"), true, START + 1_800_000, None, &c);
    assert_eq!(m.msg_history.len(), 2);
    m.push_decode(heard("A B 3", "A", "B"), true, START + 1_800_001, None, &c);
    assert_eq!(m.msg_history.len(), 2);
    assert_eq!(m.msg_history[0].res.text, "A B 2");
}

#[test]
fn saving_is_limited() {
    let mut m = manager();
    assert!(!m.maybe_save(false, START + 400_000));
    m.is_dirty = true;
    assert!(!m.maybe_save(false, START + 299_999));
    assert!(m.maybe_save(false, START + 300_000));
    assert!(!m.is_dirty);
    assert_eq!(m.last_save_time, START + 300_000);
    assert!(m.maybe_save(true, START + 300_001));
}

#[test]
fn replies_reset_failures() {
    let mut m = manager();
    m.report_failure();
    m.report_failure();
    assert_eq!(m.consecutive_failures, 2);
    m.report_any_reply();
    assert_eq!(m.consecutive_failures, 0);
}

fn ready(calls: &[(&str, &str, i32, bool)]) -> AutoQsoManager {
    let mut m = manager();
    m.last_update_even = START;
    m.last_update_odd = START;
    for &(text, sender, snr, even) in calls {
        let mut r = heard(text, sender, "CQ");
        r.snr = snr;
        m.push_decode(r, even, START, None, &config());
    }
    m
}

fn chased(m: &mut AutoQsoManager, now: u64) -> Option<String> {
    m.check_auto_chase(true, &config(), &hunt_context(now)).map(|t| t.msg)
}

#[test]
fn stations_are_chased() {
    let mut m = ready(&[("CQ W9XYZ EN37", "W9XYZ", -7, false)]);
    assert!(m.check_auto_chase(false, &config(), &hunt_context(START)).is_none());
    let t = m.check_auto_chase(true, &config(), &hunt_context(START)).unwrap();
    assert_eq!(t.msg, "W9XYZ K1ABC FN42");
    assert_eq!((t.freq, t.target, t.even), (800, 1500, true));
    assert_eq!(m.attempted_recent.get("W9XYZ"), Some(&START));
    assert_eq!(chased(&mut m, START), None);
}

#[test]
fn stations_that_are_left_alone() {
    assert_eq!(chased(&mut ready(&[]), START), None);
    assert_eq!(chased(&mut ready(&[("K1ABC W9XYZ -05", "W9XYZ", 1, true)]), START), None);
    let one = [("CQ W9XYZ EN37", "W9XYZ", -7, false)];
    assert_eq!(chased(&mut ready(&one), START + 20_000), None);
    let mut m = ready(&one);
    m.successful_calls.insert("W9XYZ:20M".to_string());
    assert_eq!(chased(&mut m, START), None);
    let mut m = ready(&one);
    m.successful_calls.insert("W9XYZ".to_string());
    assert_eq!(chased(&mut m, START), None);
    let mut m = ready(&one);
    m.successful_calls.insert("W9XYZ:40M".to_string());
    assert!(chased(&mut m, START).is_some());
    let mut m = ready(&one);
    m.last_update_even = START - 120_001;
    assert_eq!(chased(&mut m, START), None);
    let mut m = ready(&one);
    m.last_incoming_for_me = START - 29_999;
    assert_eq!(chased(&mut m, START), None);
    assert_eq!(chased(&mut ready(&[("CQ K1ABC FN42", "K1ABC", 1, true)]), START), None);
    assert_eq!(chased(&mut ready(&[("CQ <W9XYZ>", "<W9XYZ>", 1, true)]), START), None);
    assert_eq!(chased(&mut ready(&[("W1AW W9XYZ -05", "W9XYZ", 1, true)]), START), None);
}

#[test]
fn patience_is_longer_with_neighbours() {
    for (call, wait) in [("W9XYZ", 600_000u64), ("BG5VDH", 1_200_000)] {
        let mut m = ready(&[]);
        m.attempted_recent.insert(call.to_string(), START);
        for (at, due) in [(START + wait - 1, false), (START + wait, true)] {
            m.msg_history.clear();
            m.last_update_even = at;
            m.last_update_odd = at;
            m.push_decode(heard("CQ X", call, "CQ"), true, at, None, &config());
            assert_eq!(chased(&mut m, at).is_some(), due, "{} {}", call, at);
        }
    }
}

#[test]
fn stations_in_order_of_preference() {
    let far = Some(Distance { km: 9000, far: true });
    let mut calls = vec![
        ("W1AW JA1AA -01", "JA1AA", 20, true),
        ("W1AW JA1AB RRR", "JA1AB", 5, true),
        ("W1AW JA1AC RRR", "JA1AC", 6, true),
        ("CQ JA1AD PM95", "JA1AD", -20, true),
        ("CQ JA1AE PM95", "JA1AE", -24, false),
        ("CQ W9XYZ EN37", "W9XYZ", -24, true),
        ("CQ JA1FAR PM95", "JA1FAR", -24, true),
        ("CQ B3CRA OM89", "B3CRA", -24, true),
    ];
    let mut want = vec!["B3CRA", "JA1FAR", "W9XYZ", "JA1AE", "JA1AD", "JA1AC", "JA1AB"];
    while let Some(first) = want.first().copied() {
        let mut m = ready(&calls);
        m.learn_grid("JA1FAR".to_string(), "PM95".to_string(), far);
        assert_eq!(chased(&mut m, START), Some(format!("{} K1ABC FN42", first)));
        calls.retain(|c| c.1 != first);
        want.remove(0);
    }
    let mut m = ready(&calls);
    assert_eq!(chased(&mut m, START), None);
}

#[test]
fn general_calls() {
    let c = config();
    let mut m = manager();
    let ctx = hunt_context(START);
    m.last_update_even = START;
    assert!(m.check_auto_cq(false, 10, &c, &ctx).is_none());
    assert!(m.check_auto_cq(true, 30, &c, &ctx).is_none());
    let t = m.check_auto_cq(true, 29, &c, &ctx).unwrap();
    assert_eq!((t.msg.as_str(), t.freq, t.even), ("CQ K1ABC FN42", 800, true));
    assert_eq!(m.last_cq_time, START);
    assert!(m.check_auto_cq(true, 29, &c, &ctx).is_none());
    m.report_failure();
    m.report_failure();
    assert!(m.check_auto_cq(true, 29, &c, &ctx).is_some());
    assert_eq!(m.consecutive_failures, 0);
    m.last_cq_time = START - 180_000;
    m.last_incoming_for_me = START - 44_999;
    assert!(m.check_auto_cq(true, 29, &c, &ctx).is_none());
    m.last_incoming_for_me = START - 45_000;
    assert!(m.check_auto_cq(true, 29, &c, &ctx).is_some());
}

#[test]
fn quiet_frequencies() {
    assert!(quiet_bins(84).is_empty());
    assert_eq!(quiet_bins(85), vec![68]);
    assert_eq!(quiet_bins(1194).len(), 134);
    assert_eq!(quiet_bins(1194)[133], 68 + 7 * 133);
    for b in (68..1006usize).step_by(7) {
        assert_eq!(bin_freq(b), (b as f32 * 2.93) as i16, "{}", b);
    }
    assert!(is_preferred(500) && is_preferred(2700));
    assert!(!is_preferred(499) && !is_preferred(2701));
    assert_eq!(find_quiet_freq(&vec![]), 1000);
    assert_eq!(find_quiet_freq(&vec![None, None]), 1000);
    assert_eq!(find_quiet_freq(&vec![None, Some(9), Some(4), Some(4)]), bin_freq(68 + 14));
}

#[test]
fn answers_in_contacts_without_end() {
    let c = config();
    let mut m = manager();
    let mut s = AppState::new("");
    let ctx = hunt_context(START);
    let msg = |message, snr| Reception { message, snr, freq: 1700, wind_sec: 30 };
    m.handle_auto_qso_logic(&mut s, &msg("K1ABC W9XYZ EN37", -9), &c, &ctx);
    assert_eq!(s.status.pending_string(), "");
    s.status.auto_tx_mode = 3;
    s.set_pending("CQ K1ABC FN42");
    s.status.repeat_count = 3;
    m.report_failure();
    m.handle_auto_qso_logic(&mut s, &msg(" k1abc w9xyz en37 ", -9), &c, &ctx);
    assert_eq!(s.status.pending_string(), "W9XYZ K1ABC -09");
    assert_eq!((s.status.repeat_count, m.consecutive_failures), (0, 0));
    assert_eq!((s.status.pending_offset, s.target_offset, s.status.tx_window_even), (900, 1700, 0));
    s.status.repeat_count = 3;
    m.handle_auto_qso_logic(&mut s, &msg("K1ABC W9XYZ EN37", -8), &c, &ctx);
    assert_eq!((s.status.pending_string().as_str(), s.status.repeat_count), ("W9XYZ K1ABC -08", 1));
    m.handle_auto_qso_logic(&mut s, &msg("K1ABC W1AW -02", 5), &c, &ctx);
    assert_eq!((s.status.pending_string().as_str(), m.task_queue.len()), ("W9XYZ K1ABC -08", 1));
    let t = &m.task_queue[0];
    assert_eq!((t.msg.as_str(), t.freq, t.target, t.even), ("W1AW K1ABC R+05", 900, 1700, false));
    m.handle_auto_qso_logic(&mut s, &msg("K1ABC W1AW -02", 5), &c, &ctx);
    assert_eq!(m.task_queue.len(), 1);
    s.status.repeat_count = 2;
    m.handle_auto_qso_logic(&mut s, &msg("K1ABC W9XYZ R-02", 5), &c, &ctx);
    assert_eq!((s.status.pending_string().as_str(), s.status.repeat_count), ("W9XYZ K1ABC RR73", 0));
    m.handle_auto_qso_logic(&mut s, &msg("K1ABC W9XYZ 73", 5), &c, &ctx);
    assert_eq!(s.status.pending_string(), "");
    m.handle_auto_qso_logic(&mut s, &msg("W1AW W9XYZ -02", 5), &c, &ctx);
    assert_eq!(s.status.pending_string(), "");
    assert_eq!(unsigned_offset(-1), 65535);
    assert_eq!(unsigned_offset(900), 900);
}

#[test]
fn stored_sets() {
    let mut set = TextSet::new();
    set.insert("W9XYZ:20M".to_string());
    set.insert("say \"\u{e9}\"\n".to_string());
    let json = store_set(&set);
    assert_eq!(json, "[\"W9XYZ:20M\",\"say \\\"\u{e9}\\\"\\n\"]");
    let back = restore_set(&json);
    assert_eq!(back.items().len(), 2);
    assert!(back.contains("W9XYZ:20M") && back.contains("say \"\u{e9}\"\n"));
    assert!(restore_set("[1]").items().is_empty());
    assert!(restore_set("").items().is_empty());
    assert_eq!(restore_set(" [ \"a\" , \"a\" ] ").items().len(), 1);
}

#[test]
fn stored_maps() {
    let mut m = manager();
    m.learn_grid("W9XYZ".to_string(), "EN37".to_string(), None);
    m.learn_grid("JA1AA".to_string(), "PM95".to_string(), None);
    let json = m.grids_to_store();
    assert_eq!(json, "{\"JA1AA\":\"PM95\",\"W9XYZ\":\"EN37\"}");
    let pair = |a: &str, b: &str| (a.to_string(), b.to_string());
    assert_eq!(stored_grids(&json), vec![pair("JA1AA", "PM95"), pair("W9XYZ", "EN37")]);
    assert!(stored_grids("[]").is_empty());
}

fn engine() -> LocationEngine {
    let mut e = LocationEngine::new();
    e.load_names("{\"Japan\":\"\u{65e5}\u{672c}\"}");
    let lines = [
        "Japan:                    25:  45:  AS:   36.40:  -138.38:    -9.0:  JA:",
        "    7J,7K(25)[45],JA,=JA1ZZZ;",
        "",
        "Minami Torishima:         90:  90:  OC:   24.28:  -153.97:   -10.0:  JD/m:",
        "\tJD1,=JG8NQJ/JD1;",
        "broken:line",
        "    XX9;",
    ];
    e.load_countries(&lines.iter().map(|s| s.to_string()).collect());
    e
}

#[test]
fn regions_by_the_longest_prefix() {
    let mut e = engine();
    assert_eq!(e.get_region("JA1ABC"), "\u{65e5}\u{672c}");
    assert_eq!(e.get_region("<7k1abc>"), "\u{65e5}\u{672c}");
    assert_eq!(e.get_region("JD1ABC"), "Minami Torishima");
    assert_eq!(e.get_region("XX9A"), "Minami Torishima");
    assert_eq!(e.get_region("BY/JA1ABC"), "\u{65e5}\u{672c}");
    assert_eq!(e.get_region("JA1ABC/BY"), "\u{65e5}\u{672c}");
    assert_eq!(e.get_region("W9XYZ"), "\u{672a}\u{77e5}\u{5730}\u{533a}");
    assert_eq!(e.get_region("W9XYZ"), "\u{672a}\u{77e5}\u{5730}\u{533a}");
    assert_eq!(e.get_region(""), "\u{672a}\u{77e5}");
    assert_eq!(e.get_region("Unknown"), "\u{672a}\u{77e5}");
}

fn log(call: &str) -> QsoLog {
    QsoLog {
        time: String::new(),
        freq: String::new(),
        call: call.to_string(),
        my_snr: String::new(),
        his_snr: String::new(),
        grid: String::new(),
        region: String::new(),
    }
}

#[test]
fn queue_of_contact_reports() {
    let mut q = NotionLogger::new(vec![log("A")]);
    q.enqueue(log("B"));
    q.enqueue(log("C"));
    q.enqueue(log("D"));
    let calls = |q: &NotionLogger| q.queue.iter().map(|l| l.call.clone()).collect::<String>();
    assert_eq!(q.settle(Route::Proxy, &None), SendAction::Done);
    assert_eq!(calls(&q), "BCD");
    let down = Some(network_error("timeout"));
    assert_eq!(q.settle(Route::Proxy, &down), SendAction::TryDirect);
    assert_eq!(q.settle(Route::Direct, &down), SendAction::RetryLater);
    assert_eq!(calls(&q), "BCD");
    let refused = Some(api_error(400, "bad", "{}"));
    assert_eq!(q.settle(Route::Proxy, &refused), SendAction::Discard);
    assert_eq!(calls(&q), "CD");
    let failed = Some(api_error(503, "busy", "{}"));
    assert_eq!(q.settle(Route::Direct, &failed), SendAction::Discard);
    assert_eq!(calls(&q), "D");
    let moved = Some(api_error(302, "moved", "{}"));
    assert_eq!(q.settle(Route::Proxy, &moved), SendAction::RetryLater);
    assert_eq!(q.settle(Route::Direct, &None), SendAction::Done);
    assert!(q.queue.is_empty());
}

#[test]
fn errors_of_contact_reports() {
    assert_eq!(
        api_error(400, "bad", "{}"),
        "Notion 400 \u{9519}\u{8bef}\u{8be6}\u{60c5}: bad | \u{8bf7}\u{6c42}\u{5185}\u{5bb9}: {}"
    );
    assert_eq!(
        network_error("x"),
        "\u{7f51}\u{7edc}\u{4f20}\u{8f93}\u{5931}\u{8d25}: x"
    );
    let mut l = log("A");
    assert_eq!((l.shown_freq().as_str(), l.shown_region().as_str()), ("-", "Unknown"));
    l.freq = "14.074".to_string();
    l.region = "Japan".to_string();
    assert_eq!((l.shown_freq().as_str(), l.shown_region().as_str()), ("14.074", "Japan"));
}

fn spot(call: &str, hz: u64, grid: &str) -> PskSpot {
    PskSpot {
        callsign: call.to_string(),
        frequency_hz: hz,
        snr: -7,
        dt_ms: 0,
        sender_grid: grid.to_string(),
    }
}

#[test]
fn spots_are_gathered_by_station() {
    let mut b = SpotBuffer::new();
    b.insert(spot("W9XYZ", 1, ""));
    b.insert(spot("JA1AA", 2, ""));
    b.insert(spot("W9XYZ", 3, ""));
    assert_eq!(b.count(), 2);
    assert!(b.spots.iter().any(|s| s.callsign == "W9XYZ" && s.frequency_hz == 3));
    b.mark_sent();
    assert_eq!((b.count(), b.sequence_number), (0, 2));
    assert!(is_reportable("W9XYZ"));
    assert!(!is_reportable("") && !is_reportable("..."));
}

#[test]
fn report_of_spots() {
    let info = ReporterInfo {
        call: "K1ABC".to_string(),
        grid: "FN42aa".to_string(),
        software: "S".to_string(),
        antenna: "".to_string(),
        rig: "R".to_string(),
        random_id: 0x01020304,
    };
    let mut b = SpotBuffer::new();
    b.sequence_number = 9;
    b.insert(spot("W9XYZ", 14_075_500, "EN37"));
    let p = b.report(&info, 0x65551234);
    let mut want = vec![0, 10];
    want.extend_from_slice(&(p.len() as u16).to_be_bytes());
    want.extend_from_slice(&[0x65, 0x55, 0x12, 0x34, 0, 0, 0, 9, 1, 2, 3, 4]);
    want.extend_from_slice(&RECEIVER_FORMAT);
    want.extend_from_slice(&SENDER_FORMAT);
    want.extend_from_slice(&[0x99, 0x92, 0, 24]);
    want.extend_from_slice(b"\x05K1ABC\x06FN42aa\x01S\x00\x01R\0\0");
    want.extend_from_slice(&[0x99, 0x93, 0, 32]);
    want.extend_from_slice(b"\x05W9XYZ");
    want.extend_from_slice(&14_075_500u32.to_be_bytes());
    want.extend_from_slice(&[(-7i8) as u8, 127, 3, b'F', b'T', b'8', 1, 4]);
    want.extend_from_slice(b"EN37");
    want.extend_from_slice(&[0x65, 0x55, 0x12, 0x34]);
    want.extend_from_slice(&[0, 0]);
    assert_eq!(p, want);
    assert_eq!(p.len() % 4, 0);
}
