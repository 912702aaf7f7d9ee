use ft8_station::ft8_codec::packjt77::{ihashcall, HashCache};
use ft8_station::radio_ctrl::parser::{
    own_entry, parse_radio_packet, save_words, status_due, RadioEvent, RadioStatus,
};
use ft8_station::radio_ctrl::{
    parse_ipv4, query_status, reboot, send_command, send_ft8_transmit, send_tone_test,
    set_base_frequency, set_current_protection, set_lo_frequency, set_pc_ip, set_rx_mode,
    set_stg_frequency, set_swr_protection, set_tx_power, switch_bpf, switch_lpf, trigger_ota,
    Datagram,
};
use ft8_station::tasks::heartbeat_to_radio::heartbeat_packet;
use ft8_station::tasks::radio_bridge_to_pc::{bridge_packet, extract_radio_info, RadioInfo};
use ft8_station::wire::{
    push_bytes, push_u16_be, push_u16_le, push_u32_be, push_u32_le, push_u64_le, read_u16_le,
    read_u32_le, read_u64_le,
};

fn payload(d: &Datagram, cmd: u8) -> Vec<u8> {
    assert_eq!(d.target, "10.0.0.7:1432");
    assert_eq!(&d.bytes[..4], &[0xE3, 0x2D, 0x01, cmd]);
    d.bytes[4..].to_vec()
}

const IP: &str = "10.0.0.7";

#[test]
fn numbers_on_the_wire() {
    let mut out = Vec::new();
    push_u16_le(&mut out, 0x1234);
    push_u32_le(&mut out, 0x89ABCDEF);
    push_u64_le(&mut out, 0x0102030405060708);
    assert_eq!(out[..6], [0x34, 0x12, 0xEF, 0xCD, 0xAB, 0x89]);
    assert_eq!(read_u16_le(&out, 0), 0x1234);
    assert_eq!(read_u32_le(&out, 2), 0x89ABCDEF);
    assert_eq!(read_u64_le(&out, 6), 0x0102030405060708);
    let mut be = Vec::new();
    push_u16_be(&mut be, 0x1234);
    push_u32_be(&mut be, 0x89ABCDEF);
    push_bytes(&mut be, &[9, 8]);
    assert_eq!(be, vec![0x12, 0x34, 0x89, 0xAB, 0xCD, 0xEF, 9, 8]);
}

#[test]
fn commands_without_payload() {
    assert!(payload(&query_status(IP), 1).is_empty());
    assert!(payload(&reboot(IP), 2).is_empty());
    assert_eq!(query_status(IP).bytes, heartbeat_packet());
    assert_eq!(payload(&send_command(IP, 99, &[1, 2, 3]), 99), vec![1, 2, 3]);
}

#[test]
fn commands_with_bytes() {
    assert_eq!(payload(&trigger_ota(IP, "http://x/\u{e9}"), 3), "http://x/\u{e9}".as_bytes());
    assert_eq!(payload(&switch_bpf(IP, 4), 22), vec![4]);
    assert_eq!(payload(&switch_lpf(IP, 3), 23), vec![3]);
    assert_eq!(payload(&set_rx_mode(IP, true), 24), vec![1]);
    assert_eq!(payload(&set_rx_mode(IP, false), 24), vec![0]);
    assert_eq!(payload(&set_tx_power(IP, 2800), 25), vec![0xF0, 0x0A]);
    assert_eq!(payload(&set_swr_protection(IP, 25), 26), vec![25, 0]);
    assert_eq!(payload(&set_current_protection(IP, 1500), 27), vec![0xDC, 0x05]);
}

#[test]
fn commands_with_frequencies() {
    let hundredths = (14074000u64 * 100).to_le_bytes().to_vec();
    assert_eq!(payload(&set_lo_frequency(IP, 14074000), 20), hundredths);
    assert_eq!(payload(&set_base_frequency(IP, 14074000), 21), hundredths);
    assert_eq!(payload(&set_stg_frequency(IP, 14074000), 41), hundredths);
    let mut tone = hundredths.clone();
    tone.extend_from_slice(&1500u32.to_le_bytes());
    assert_eq!(payload(&send_tone_test(IP, 14074000, 1500), 40), tone);
}

#[test]
fn address_of_the_host() {
    let d = set_pc_ip(IP, "192.168.1.20").unwrap();
    assert_eq!(payload(&d, 6), vec![192, 168, 1, 20]);
    assert!(set_pc_ip(IP, "192.168.1").is_none());
}

#[test]
fn addresses_are_read_as_by_the_standard_library() {
    for s in [
        "0.0.0.0", "255.255.255.255", "1.2.3.4", "256.1.1.1", "1.2.3", "1.2.3.4.5", "01.2.3.4",
        "1.2.3.04", "1..2.3", ".1.2.3", "1.2.3.", "", "a.b.c.d", "1.2.3.4 ", " 1.2.3.4", "+1.2.3.4",
        "-1.2.3.4", "1.2.3.999", "0001.2.3.4", "1.2.3.00", "10.0.0.\u{661}", "1.2.3.0", "1,2.3.4",
        "99999999999999999999.1.1.1",
    ] {
        let want = s.parse::<core::net::Ipv4Addr>().ok().map(|a| a.octets().to_vec());
        assert_eq!(parse_ipv4(s), want, "{:?}", s);
    }
}

#[test]
fn transmission_of_a_message() {
    let mut symbols = [0i32; 79];
    for (i, s) in symbols.iter_mut().enumerate() {
        *s = (i % 8) as i32;
    }
    symbols[78] = -1;
    let p = payload(&send_ft8_transmit(IP, "CQ K1ABC FN42", 1500, &symbols), 28);
    assert_eq!(p.len(), 2 + 79 + 13);
    assert_eq!(&p[..2], &[0xDC, 0x05]);
    assert_eq!(p[2 + 9], 1);
    assert_eq!(p[80], 255);
    assert_eq!(&p[81..], b"CQ K1ABC FN42");
    let long = "ABCDEFGHIJKLMNOPQRSTUVWXYZ0123456789";
    let p = payload(&send_ft8_transmit(IP, long, 0, &symbols), 28);
    assert_eq!(&p[81..], b"ABCDEFGHIJKLMNOPQRSTUVWX");
}

fn packet(kind: u8, rest: &[u8]) -> Vec<u8> {
    let mut p = vec![0xE3, 0x2D, 0x01, kind];
    p.extend_from_slice(rest);
    p
}

#[test]
fn status_of_the_radio() {
    let mut body = vec![0u8; 73];
    body[0..8].copy_from_slice(&5_000_000u64.to_le_bytes());
    body[8..16].copy_from_slice(&1_700_000_000_000_000u64.to_le_bytes());
    body[18..20].copy_from_slice(&41u16.to_le_bytes());
    body[20] = (-60i8) as u8;
    body[25] = 90;
    body[26] = 80;
    body[27] = 33;
    body[28] = 44;
    body[33..41].copy_from_slice(&1_407_400_000u64.to_le_bytes());
    body[41..49].copy_from_slice(&1_407_500_000u64.to_le_bytes());
    body[49..51].copy_from_slice(&1500u16.to_le_bytes());
    body[51] = 1;
    body[52] = 2;
    body[53] = 3;
    body[54] = 4;
    body[61..63].copy_from_slice(&777u16.to_le_bytes());
    body[67..69].copy_from_slice(&125u16.to_le_bytes());
    let mut cache = HashCache::new();
    let s = match parse_radio_packet(&mut cache, &packet(4, &body), "K1ABC") {
        RadioEvent::Status(s) => s,
        _ => panic!("no status"),
    };
    assert_eq!((s.uptime_us, s.core_temp, s.wifi_rssi), (5_000_000, 41, -60));
    assert_eq!((s.core0_idle, s.core1_idle, s.ram_usage, s.psram_usage), (90, 80, 33, 44));
    assert_eq!((s.tx_base_freq, s.tx_offset), (1_407_500_000, 1500));
    assert_eq!((s.tx_state, s.rx_state, s.bpf_select, s.lpf_select), (1, 2, 3, 4));
    assert_eq!((s.pa_current, s.swr), (777, 125));
    assert_eq!(s.lo_hz(), Some(14_074_000));
    assert_eq!(s.clock_drift_ms(1_700_000_000_012), 12);
    assert_eq!(s.clock_drift_ms(1_699_999_999_999), -1);
    let past = RadioStatus { timestamp_us: u64::MAX - 4999, ..s };
    assert_eq!(past.clock_drift_ms(0), 5);
    assert_eq!(past.clock_drift_ms(u64::MAX), 4);
    body[33..41].copy_from_slice(&[0; 8]);
    match parse_radio_packet(&mut cache, &packet(4, &body), "K1ABC") {
        RadioEvent::Status(s) => assert_eq!(s.lo_hz(), None),
        _ => panic!("no status"),
    }
    assert!(matches!(
        parse_radio_packet(&mut cache, &packet(4, &body[..72]), "K1ABC"),
        RadioEvent::Ignored
    ));
}

#[test]
fn status_is_shown_every_four_seconds() {
    assert!(!status_due(3999, 0));
    assert!(status_due(4000, 0));
}

#[test]
fn ignored_packets() {
    let mut cache = HashCache::new();
    for p in [
        vec![],
        vec![0xE3, 0x2D, 1],
        vec![0xE4, 0x2D, 1, 5, b'x'],
        vec![0xE3, 0x2C, 1, 5, b'x'],
        packet(77, b"text"),
        packet(50, b"1"),
        packet(51, &[0; 17]),
        packet(51, &[0; 18]),
        packet(5, b" \0\0"),
    ] {
        assert!(matches!(parse_radio_packet(&mut cache, &p, "K1ABC"), RadioEvent::Ignored));
    }
}

#[test]
fn log_lines_of_the_radio() {
    let mut cache = HashCache::new();
    match parse_radio_packet(&mut cache, &packet(5, b"\0 boot ok \0\0"), "K1ABC") {
        RadioEvent::Log(text) => assert_eq!(text, "boot ok"),
        _ => panic!("no log"),
    }
    match parse_radio_packet(&mut cache, &packet(5, b"bad \xff byte"), "K1ABC") {
        RadioEvent::Log(text) => assert_eq!(text, "bad \u{fffd} byte"),
        _ => panic!("no log"),
    }
}

#[test]
fn results_of_commands() {
    let mut cache = HashCache::new();
    match parse_radio_packet(&mut cache, &packet(50, b"\x14\x00done\0"), "K1ABC") {
        RadioEvent::CommandResult { command, success, text } => {
            assert_eq!((command, success, text.as_str()), (20, true, "done"));
        }
        _ => panic!("no result"),
    }
    match parse_radio_packet(&mut cache, &packet(50, &[25, 7]), "K1ABC") {
        RadioEvent::CommandResult { command, success, text } => {
            assert_eq!((command, success, text.as_str()), (25, false, ""));
        }
        _ => panic!("no result"),
    }
}

#[test]
fn echo_of_a_transmission() {
    let mut body = vec![0u8; 16];
    body.extend_from_slice(&1234u16.to_le_bytes());
    body.extend_from_slice(b"W9XYZ K1ABC -07\0\0");
    let mut cache = HashCache::new();
    match parse_radio_packet(&mut cache, &packet(51, &body), "K1ABC") {
        RadioEvent::Sent(e) => {
            assert_eq!((e.offset, e.text.as_str(), e.mine), (1234, "W9XYZ K1ABC -07", true));
        }
        _ => panic!("no echo"),
    }
    assert_eq!(cache.lookup_hash22(ihashcall("W9XYZ", 22)), "<W9XYZ>");
    match extract_radio_info(&packet(51, &body), "BG5VDH") {
        RadioInfo::Sent { entry, mine } => {
            assert!(!mine);
            assert_eq!((entry.freq, entry.snr, entry.text.as_str()), (1234, 99, "W9XYZ K1ABC -07"));
            assert_eq!(entry.sender_call.as_deref(), Some("K1ABC"));
            assert_eq!(entry.receiver_call.as_deref(), Some("W9XYZ"));
        }
        _ => panic!("no echo"),
    }
}

#[test]
fn short_entries_have_no_parties() {
    let e = own_entry(7, "HELLO");
    assert_eq!((e.freq, e.sender_call, e.receiver_call, e.grid), (7, None, None, None));
    let mut cache = HashCache::new();
    save_words(&mut cache, &vec!["W9XYZ".to_string(), "no".to_string()]);
    assert_eq!(cache.calls22.len(), 1);
}

#[test]
fn oscillator_of_the_radio() {
    let mut body = vec![0u8; 41];
    body[33..41].copy_from_slice(&1_407_400_000u64.to_le_bytes());
    match extract_radio_info(&packet(4, &body), "K1ABC") {
        RadioInfo::Oscillator(hz) => assert_eq!(hz, 14_074_000),
        _ => panic!("no frequency"),
    }
    assert!(matches!(extract_radio_info(&packet(4, &[0; 41]), "K1ABC"), RadioInfo::Nothing));
    assert!(matches!(extract_radio_info(&packet(4, &body[..40]), "K1ABC"), RadioInfo::Nothing));
    assert!(matches!(extract_radio_info(&[0xE3], "K1ABC"), RadioInfo::Nothing));
    assert!(matches!(extract_radio_info(&packet(51, &[0; 20]), "K1ABC"), RadioInfo::Nothing));
}

#[test]
fn packets_are_passed_on() {
    assert_eq!(bridge_packet(&[7, 8, 9]), vec![1, 7, 8, 9]);
    assert_eq!(bridge_packet(&[]), vec![1]);
}
