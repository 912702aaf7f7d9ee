use ft8_station::dsp::adpcm::{
    adpcm_fits, audio_packet, encode_adpcm, AdpcmState, INDEX_TABLE, STEP_TABLE,
};
use ft8_station::dsp::flow::{
    ft8_row_packet, is_txing, next_fill, next_wf_counter, row_packet, AudioFeed, AudioStep, Fill,
    SampleFeed,
};
use ft8_station::ft8_codec::packjt77::{ihashcall, HashCache};
use ft8_station::dsp::waterfall::Waterfall;
use ft8_station::ft8_qso::location::LocationEngine;
use ft8_station::ft8_qso::qso_auto_hunter::{
    AutoQsoManager, Distance, HistoryEntry, HuntContext, LogContext, NoiseStep, Task,
};
use ft8_station::ft8_qso::qso_auto_once::handle_auto_reply_logic;
use ft8_station::tasks::ft8_decode::{
    decode_packet, decode_window, spot_of, take_decode, Clock, DecodeWindow, Hearing,
};
use ft8_station::tasks::heartbeat_to_radio::status_packet;
use ft8_station::tasks::tx_control::{
    auto_qso_tick, is_tx_start, plan_tx, settle_tx, take_task, Moment,
};
use ft8_station::types::{
    clamp_i16, clamp_u16, fixed24, fixed32, fixed48, wrap_i8, AppState, DecodeBuffer,
    Ft8DecodeResult, StationConfig, BUFFER_SIZE, TARGET_BINS,
};
use ft8_station::utils::{decode_24le, log_packet};
use ft8_station::ws_server::{demod_name, handle_command, has_its_bytes, WsAction};

fn config() -> StationConfig {
    StationConfig {
        my_call: "K1ABC".to_string(),
        my_grid: "FN42".to_string(),
        my_grid_detail: "FN42aa".to_string(),
    }
}

fn result(text: &str) -> Ft8DecodeResult {
    Ft8DecodeResult {
        freq: 1500,
        snr: -7,
        text: text.to_string(),
        decode_time_ms: 0,
        sender_call: None,
        receiver_call: None,
        grid: None,
        region: None,
    }
}

#[test]
fn bytes_of_fixed_length() {
    assert_eq!(&fixed24(b"abc")[..5], b"abc\0\0");
    assert_eq!(fixed24(&[7; 30]), [7; 24]);
    assert_eq!(fixed32(&[7; 40]), [7; 32]);
    assert_eq!(&fixed48(b"^x$")[..4], b"^x$\0");
}

#[test]
fn numbers_are_cut() {
    assert_eq!(wrap_i8(127), 127);
    assert_eq!(wrap_i8(128), -128);
    assert_eq!(wrap_i8(-24), -24);
    assert_eq!(wrap_i8(i32::MIN), 0);
    for n in [-70000, -40000, -129, -1, 0, 200, 40000, 70000] {
        assert_eq!(wrap_i8(n), n as i8);
        assert_eq!(clamp_i16(n), (n as f32) as i16);
        assert_eq!(clamp_u16(n), (n as f32) as u16);
    }
}

#[test]
fn initial_state() {
    let s = AppState::new("");
    assert!(s.radio_ip.is_none());
    let s = AppState::new("10.0.0.7");
    assert_eq!(s.radio_ip.as_deref(), Some("10.0.0.7"));
    assert_eq!((s.current_if_hz, s.target_offset, s.qso_total_tx_count), (12000, 1000, 0));
    let st = s.status;
    assert_eq!((st.max_repeats, st.tx_window_even, st.pending_offset), (4, 1, 2950));
    assert_eq!((st.ft8_decode_on, st.audio_on, st.auto_tx_mode), (1, 0, 0));
    assert_eq!((st.usb_bw, st.lsb_bw, st.am_bw), (3000, 3000, 6000));
    assert_eq!((s.waterfall.speed, s.waterfall.min_db, s.waterfall.max_db), (3, -120, 0));
    assert_eq!((s.waterfall.full_on, s.waterfall.zoom_on), (1, 1));
}

#[test]
fn pending_message_is_kept() {
    let mut s = AppState::new("");
    s.set_pending("W9XYZ K1ABC R-07");
    assert_eq!(s.status.pending_string(), "W9XYZ K1ABC R-07");
    s.set_pending("ABCDEFGHIJKLMNOPQRSTUVWXYZ");
    assert_eq!(s.status.pending_string(), "ABCDEFGHIJKLMNOPQRSTUVWX");
    s.clear_pending();
    assert_eq!(s.status.pending_string(), "");
    s.status.pending_msg = fixed24(b"\0A\xffB\0");
    assert_eq!(s.status.pending_string(), "A\u{fffd}B");
}

#[test]
fn expected_replies() {
    let mut s = AppState::new("");
    s.set_expect("^A+$");
    assert_eq!(&s.status.expect_regex[..5], b"^A+$\0");
    assert_eq!(s.expect_regex_compiled.as_deref(), Some("^A+$"));
    s.set_expect("(");
    assert_eq!(&s.status.expect_regex[..2], b"(\0");
    assert_eq!(s.expect_regex_compiled, None);
    s.set_expect("^A+$");
    s.set_expect("");
    assert_eq!(s.status.expect_regex, [0; 48]);
    assert_eq!(s.expect_regex_compiled, None);
    s.set_expect("^A+$");
    s.clear_expect();
    assert_eq!(s.status.expect_regex, [0; 48]);
    assert_eq!(s.expect_regex_compiled, None);
}

#[test]
fn status_on_the_wire() {
    let mut s = AppState::new("");
    s.status.tx_count = 0x01020304;
    s.set_pending("CQ");
    let p = status_packet(&mut s, 77, 0x0A0B0C0D0E0F1011);
    assert_eq!((s.status.uptime_ms, s.status.timestamp_ms), (77, 0x0A0B0C0D0E0F1011));
    assert_eq!(p.len(), 132);
    assert_eq!(p[0], 0x11);
    assert_eq!(&p[1..5], &[4, 3, 2, 1]);
    assert_eq!(&p[9..13], &[77, 0, 0, 0]);
    assert_eq!(&p[13..21], &0x0A0B0C0D0E0F1011u64.to_le_bytes());
    assert_eq!(p[21], 0);
    assert_eq!(&p[46..49], b"CQ\0");
    assert_eq!(&p[70..72], &2950u16.to_le_bytes());
    assert_eq!(&p[120..126], &[0, 4, 1, 0, 1, 0]);
    assert_eq!(&p[126..132], &[0xB8, 0x0B, 0xB8, 0x0B, 0x70, 0x17]);
}

#[test]
fn buffer_holds_the_last_samples() {
    let mut b = DecodeBuffer::new();
    assert_eq!(b.get_last_16s(), vec![0i16; BUFFER_SIZE]);
    b.push(5);
    b.push(6);
    let v = b.get_last_16s();
    assert_eq!(&v[BUFFER_SIZE - 3..], &[0, 5, 6]);
    let many: Vec<i16> = (0..BUFFER_SIZE + 10).map(|i| (i % 30011) as i16).collect();
    b.push_all(&many);
    assert_eq!(b.get_last_16s(), many[10..].to_vec());
}

#[test]
fn samples_of_24_bits() {
    assert_eq!(decode_24le(&[1, 2, 3]), 0x030201);
    assert_eq!(decode_24le(&[0xff, 0xff, 0xff]), -1);
    assert_eq!(decode_24le(&[0, 0, 0x80]), -8388608);
    assert_eq!(decode_24le(&[0xff, 0xff, 0x7f]), 8388607);
}

#[test]
fn log_lines_for_clients() {
    assert_eq!(log_packet("a\u{e9}"), vec![0x12, b'a', 0xC3, 0xA9]);
    assert_eq!(log_packet(""), vec![0x12]);
}

/// The coder as its tables describe it, in wide arithmetic.
fn reference_code(sample: i32, prev: i32, step: i32) -> (u8, i32) {
    let mut diff = sample - prev;
    let mut code = 0u8;
    if diff < 0 {
        code = 8;
        diff = -diff;
    }
    let mut s = step;
    for bit in [4u8, 2, 1] {
        if diff >= s {
            code |= bit;
            diff -= s;
        }
        s >>= 1;
    }
    let mut q = step >> 3;
    if code & 4 != 0 {
        q += step;
    }
    if code & 2 != 0 {
        q += step >> 1;
    }
    if code & 1 != 0 {
        q += step >> 2;
    }
    (code, q)
}

#[test]
fn audio_codes() {
    let mut st = AdpcmState::new();
    let mut wave = 0i32;
    for i in 0..2000 {
        wave = (wave * 7 + i * 13) % 9001;
        let sample = (wave - 4500) as i16;
        if !adpcm_fits(sample, &st) {
            continue;
        }
        let (code, q) = reference_code(sample as i32, st.valprev as i32, STEP_TABLE[st.index as usize] as i32);
        let want = if code & 8 != 0 { st.valprev as i32 - q } else { st.valprev as i32 + q };
        let index = (st.index + INDEX_TABLE[code as usize]).clamp(0, 88);
        assert_eq!(encode_adpcm(sample, &mut st), code);
        assert_eq!(st.valprev as i32, want.clamp(-32768, 32767));
        assert_eq!(st.index, index);
    }
}

#[test]
fn first_audio_codes() {
    let mut st = AdpcmState::new();
    assert_eq!(encode_adpcm(0, &mut st), 0);
    assert_eq!((st.valprev, st.index), (0, 0));
    assert_eq!(encode_adpcm(100, &mut st), 7);
    assert_eq!((st.valprev, st.index), (11, 8));
    assert_eq!(encode_adpcm(-100, &mut st), 15);
    assert_eq!((st.valprev, st.index), (-19, 16));
}

#[test]
fn prediction_comes_near() {
    let mut st = AdpcmState { valprev: 0, index: 40 };
    let step = STEP_TABLE[40] as i32;
    encode_adpcm(500, &mut st);
    assert!((500 - st.valprev as i32).abs() <= step / 8 + 2);
    let mut st = AdpcmState { valprev: 0, index: 0 };
    encode_adpcm(13, &mut st);
    assert_eq!(st.valprev, 11);
}

#[test]
fn audio_that_overflows() {
    let mut st = AdpcmState { valprev: 32767, index: 0 };
    assert!(!adpcm_fits(-32768, &st));
    let mut loud = vec![0i16; 256];
    loud[0] = -32768;
    assert!(audio_packet(&loud, &mut st).is_none());
}

#[test]
fn audio_packets() {
    let mut st = AdpcmState { valprev: -2, index: 3 };
    let mut twin = st;
    let samples: Vec<i16> = (0..256).map(|i| (i * 5) as i16).collect();
    let p = audio_packet(&samples, &mut st).unwrap();
    assert_eq!(p.len(), 4 + 128);
    assert_eq!(&p[..4], &[0x05, 0xFE, 0xFF, 3]);
    let c1 = encode_adpcm(samples[0], &mut twin);
    let c2 = encode_adpcm(samples[1], &mut twin);
    assert_eq!(p[4], c1 | (c2 << 4));
    for s in &samples[2..] {
        encode_adpcm(*s, &mut twin);
    }
    assert_eq!(st, twin);
}

#[test]
fn waterfall_blocks() {
    let mut w = Waterfall::new(2, 3, 2, 2, 16);
    assert_eq!((w.block_stride, w.mag.len(), w.max_bin, w.protocol), (12, 24, 19, 1));
    let mut levels: Vec<Option<i32>> = (0..12).map(|i| Some(i * 40 - 80)).collect();
    levels[5] = None;
    w.store_block(&levels);
    assert_eq!(&w.mag[..12], &[0, 0, 0, 40, 80, 0, 160, 200, 240, 255, 255, 255]);
    w.store_block(&vec![Some(9); 12]);
    assert_eq!(w.num_blocks, 2);
    assert_eq!(&w.mag[12..], &[9; 12]);
    w.store_block(&vec![Some(1); 12]);
    assert_eq!(w.num_blocks, 2);
    assert_eq!(&w.mag[12..], &[9; 12]);
}

#[test]
fn rows_of_the_waterfalls() {
    assert_eq!(next_wf_counter(0, 3), 1);
    assert_eq!(next_wf_counter(2, 3), 0);
    assert_eq!(next_wf_counter(9, 0), 0);
    assert_eq!(next_wf_counter(254, 255), 0);
    assert_eq!(row_packet(0x13, &[1, 2]), vec![0x13, 1, 2]);
    let mut last = 60;
    let levels = vec![7u8; TARGET_BINS];
    let p = ft8_row_packet(&mut last, 15, &levels);
    assert_eq!(p[0], 4);
    assert_eq!(&p[1..], &[255u8; 1194][..]);
    assert_eq!(last, 15);
    let p = ft8_row_packet(&mut last, 15, &levels);
    assert_eq!(&p[1..], &levels[..]);
    let p = ft8_row_packet(&mut last, 16, &levels);
    assert_eq!((p[1], last), (7, 15));
}

#[test]
fn sending_is_told_from_the_clock() {
    let mut s = AppState::new("");
    s.status.auto_tx_mode = 1;
    s.set_pending("CQ K1ABC FN42");
    assert!(is_txing(&s.status, 0));
    assert!(is_txing(&s.status, 42));
    assert!(!is_txing(&s.status, 13));
    assert!(!is_txing(&s.status, 15));
    s.status.tx_window_even = 0;
    assert!(is_txing(&s.status, 15));
    s.status.auto_tx_mode = 0;
    assert!(!is_txing(&s.status, 15));
    s.status.auto_tx_mode = 3;
    s.clear_pending();
    assert!(!is_txing(&s.status, 15));
}

#[test]
fn slots_to_be_decoded() {
    let clock = |second, millis| Clock { hour: 23, minute: 59, second, millis };
    let w = decode_window(true, clock(44, 600), -1).unwrap();
    assert_eq!(
        w,
        DecodeWindow { index: 2, timestamp: 235930, dt_offset_ms: -1400, is_even: true }
    );
    assert_eq!(decode_window(true, clock(44, 600), 2), None);
    assert_eq!(decode_window(true, clock(44, 500), -1), None);
    assert_eq!(decode_window(true, clock(43, 600), -1), None);
    assert_eq!(decode_window(false, clock(44, 600), -1), None);
    let w = decode_window(true, clock(29, 999), 0).unwrap();
    assert_eq!((w.index, w.timestamp, w.dt_offset_ms, w.is_even), (1, 235915, -1001, false));
}

#[test]
fn decoded_messages_for_clients() {
    let mut res = result("CQ K1ABC FN42");
    res.freq = 40000;
    let p = decode_packet(&res, 235930, -3);
    assert_eq!(p.len(), 41);
    assert_eq!(&p[..9], &[3, 23, 59, 30, (-7i8) as u8, 0xFD, 0xFF, 0xFF, 0x7F]);
    assert_eq!(&p[9..22], b"CQ K1ABC FN42");
    assert!(p[22..].iter().all(|&b| b == 0));
}

#[test]
fn reported_spots() {
    let mut res = result("CQ K1ABC FN42");
    assert!(spot_of(&res, 14_075_500, 100).is_none());
    res.sender_call = Some("...".to_string());
    assert!(spot_of(&res, 14_075_500, 100).is_none());
    res.sender_call = Some("K1ABC".to_string());
    let s = spot_of(&res, 14_075_500, 100).unwrap();
    assert_eq!((s.callsign.as_str(), s.frequency_hz, s.snr, s.dt_ms), ("K1ABC", 14_075_500, -7, 100));
    assert_eq!(s.sender_grid, "");
    res.grid = Some("FN42".to_string());
    assert_eq!(spot_of(&res, 0, 0).unwrap().sender_grid, "FN42");
}

#[test]
fn commands_of_clients_to_the_radio() {
    let c = config();
    let mut s = AppState::new("");
    assert!(matches!(handle_command(&mut s, &[0x02, 9, 8], &c), WsAction::NoRadio));
    s.radio_ip = Some("10.0.0.7".to_string());
    match handle_command(&mut s, &[0x02, 9, 8], &c) {
        WsAction::Forward { ip, bytes } => assert_eq!((ip.as_str(), bytes), ("10.0.0.7", vec![9, 8])),
        _ => panic!("not forwarded"),
    }
    assert!(matches!(handle_command(&mut s, &[], &c), WsAction::Nothing));
    assert!(matches!(handle_command(&mut s, &[0x33, 1], &c), WsAction::Nothing));
}

#[test]
fn commands_of_clients_to_the_station() {
    let c = config();
    let mut s = AppState::new("");
    let mut set = vec![0x10, 2, 2, 0, 0xDC, 0x05];
    set.extend_from_slice(&fixed24(b"W9XYZ K1ABC FN42"));
    assert!(has_its_bytes(&set));
    handle_command(&mut s, &set, &c);
    assert_eq!((s.status.auto_tx_mode, s.status.tx_window_even, s.status.pending_offset), (2, 0, 1500));
    assert_eq!(s.status.pending_string(), "W9XYZ K1ABC FN42");
    assert_eq!(
        s.expect_regex_compiled.as_deref(),
        Some(r"^<?K1ABC>?\s+<?W9XYZ>?\s+R?[+-]\d{1,2}")
    );
    s.status.repeat_count = 3;
    handle_command(&mut s, &[0x10, 1], &c);
    assert_eq!((s.status.auto_tx_mode, s.status.repeat_count), (0, 0));
    assert_eq!(s.expect_regex_compiled, None);
    set[2] = 3;
    handle_command(&mut s, &set, &c);
    assert_eq!((s.status.auto_tx_mode, s.status.pending_string().as_str()), (3, ""));
    handle_command(&mut s, &set[..29], &c);
    assert_eq!(s.status.auto_tx_mode, 3);
    handle_command(&mut s, &[0x10, 3, 0x10, 0x27], &c);
    assert_eq!(s.current_if_hz, 10000);
    handle_command(&mut s, &[0x10, 4, 9], &c);
    assert_eq!(s.status.max_repeats, 9);
    handle_command(&mut s, &[0x10, 5, 2], &c);
    assert_eq!(s.status.demod_mode, 2);
    handle_command(&mut s, &[0x10, 6, 0], &c);
    assert_eq!(s.status.ft8_decode_on, 0);
    handle_command(&mut s, &[0x10, 7, 1], &c);
    assert_eq!(s.status.audio_on, 1);
    handle_command(&mut s, &[0x10, 8, 1, 0, 2, 0, 3, 1], &c);
    assert_eq!((s.status.usb_bw, s.status.lsb_bw, s.status.am_bw), (1, 2, 259));
    handle_command(&mut s, &[0x10, 9, 5, 0x88, 0xFF, 10, 0, 0, 1], &c);
    assert_eq!((s.waterfall.speed, s.waterfall.min_db, s.waterfall.max_db), (5, -120, 10));
    assert_eq!((s.waterfall.full_on, s.waterfall.zoom_on), (0, 1));
    handle_command(&mut s, &[0x10, 9, 6], &c);
    assert_eq!(s.waterfall.speed, 5);
}

#[test]
fn commands_that_are_cut_short() {
    assert!(!has_its_bytes(&[0x10]));
    assert!(!has_its_bytes(&[0x10, 3, 1]));
    assert!(!has_its_bytes(&[0x10, 7]));
    assert!(has_its_bytes(&[0x10, 2]));
    assert!(has_its_bytes(&[]));
    assert!(has_its_bytes(&[0x02]));
    assert_eq!(
        (demod_name(0), demod_name(1), demod_name(2), demod_name(3)),
        ("USB", "LSB", "AM", "Unknown")
    );
}

#[test]
fn transmissions_start_with_a_slot() {
    assert!(is_tx_start(0, 499));
    assert!(is_tx_start(45, 0));
    assert!(!is_tx_start(0, 500));
    assert!(!is_tx_start(1, 0));
}

#[test]
fn planned_transmissions() {
    let mut s = AppState::new("10.0.0.7");
    s.set_pending("W9XYZ K1ABC FN42");
    assert!(plan_tx(&s, 0).is_none());
    s.status.auto_tx_mode = 3;
    assert!(plan_tx(&s, 15).is_none());
    let p = plan_tx(&s, 30).unwrap();
    assert_eq!((p.msg.as_str(), p.freq, p.even), ("W9XYZ K1ABC FN42", 2950, true));
    assert_eq!(p.ip.as_deref(), Some("10.0.0.7"));
    s.status.repeat_count = 1;
    assert_eq!(plan_tx(&s, 0).unwrap().freq, 1000);
    s.set_pending("CQ K1ABC FN42");
    assert_eq!(plan_tx(&s, 0).unwrap().freq, 2950);
    s.clear_pending();
    assert!(plan_tx(&s, 0).is_none());
}

#[test]
fn settled_transmissions() {
    let mut s = AppState::new("");
    s.status.auto_tx_mode = 2;
    s.set_pending("W9XYZ K1ABC FN42");
    assert!(!settle_tx(&mut s, false));
    assert_eq!((s.status.tx_count, s.status.repeat_count, s.qso_total_tx_count), (0, 1, 1));
    assert!(!settle_tx(&mut s, true));
    assert!(!settle_tx(&mut s, true));
    assert!(settle_tx(&mut s, true));
    assert_eq!((s.status.auto_tx_mode, s.status.pending_msg), (0, [0; 24]));
    assert_eq!((s.status.tx_count, s.status.repeat_count), (3, 4));
    s.status.auto_tx_mode = 1;
    s.status.repeat_count = 0;
    s.set_pending("W9XYZ K1ABC 73");
    assert!(settle_tx(&mut s, true));
    s.status.auto_tx_mode = 3;
    s.status.repeat_count = 0;
    s.set_pending("W9XYZ K1ABC 73");
    assert!(!settle_tx(&mut s, true));
    s.status.tx_count = u32::MAX;
    assert!(!settle_tx(&mut s, false));
    assert_eq!(s.status.tx_count, u32::MAX);
}

fn manager() -> AutoQsoManager {
    AutoQsoManager::new(LocationEngine::new(), 10_000_000)
}

fn context(now: u64) -> HuntContext {
    HuntContext { now, freq_hz: 14_074_000, tx_even: true, quiet_even: 800, quiet_odd: 900 }
}

fn task(msg: &str) -> Task {
    Task { msg: msg.to_string(), freq: 700, target: 1234, even: false }
}

const LATER: Moment = Moment { minute: 5, second: 7, millis: 0 };

#[test]
fn tasks_are_taken() {
    let mut s = AppState::new("");
    s.status.repeat_count = 2;
    s.qso_total_tx_count = 8;
    take_task(&mut s, &Task { freq: -1, ..task("W9XYZ K1ABC -05") });
    assert_eq!(s.status.pending_string(), "W9XYZ K1ABC -05");
    assert_eq!((s.status.pending_offset, s.target_offset), (65535, 1234));
    assert_eq!((s.status.tx_window_even, s.status.repeat_count, s.qso_total_tx_count), (0, 0, 0));
}

#[test]
fn queue_is_served_in_order() {
    let (c, ctx) = (config(), context(10_000_000));
    let mut m = manager();
    let mut s = AppState::new("");
    m.task_queue.push(task("W9XYZ K1ABC -05"));
    m.task_queue.push(task("W1AW K1ABC -05"));
    assert!(!auto_qso_tick(&mut m, &mut s, &LATER, &c, &ctx));
    assert_eq!(m.task_queue.len(), 2);
    s.status.auto_tx_mode = 3;
    assert!(!auto_qso_tick(&mut m, &mut s, &LATER, &c, &ctx));
    assert_eq!((m.task_queue.len(), s.status.pending_string().as_str()), (1, "W9XYZ K1ABC -05"));
    s.status.repeat_count = 2;
    auto_qso_tick(&mut m, &mut s, &LATER, &c, &ctx);
    assert_eq!(s.status.pending_string(), "W9XYZ K1ABC -05");
    s.status.repeat_count = 3;
    auto_qso_tick(&mut m, &mut s, &LATER, &c, &ctx);
    assert_eq!((s.status.pending_string().as_str(), m.consecutive_failures), ("W1AW K1ABC -05", 1));
    s.status.repeat_count = 3;
    auto_qso_tick(&mut m, &mut s, &LATER, &c, &ctx);
    assert_eq!(s.status.pending_string(), "W1AW K1ABC -05");
    s.status.repeat_count = 4;
    auto_qso_tick(&mut m, &mut s, &LATER, &c, &ctx);
    assert_eq!((s.status.pending_msg, m.consecutive_failures), ([0; 24], 2));
}

#[test]
fn limits_of_repetition() {
    let (c, ctx) = (config(), context(10_000_000));
    let ends = |msg: &str, repeats: u8, total: u32| {
        let mut m = manager();
        let mut s = AppState::new("");
        s.status.auto_tx_mode = 3;
        s.set_pending(msg);
        s.status.repeat_count = repeats;
        s.qso_total_tx_count = total;
        auto_qso_tick(&mut m, &mut s, &LATER, &c, &ctx);
        (s.status.pending_msg[0] == 0, m.consecutive_failures)
    };
    assert_eq!(ends("W9XYZ K1ABC FN42", 2, 0), (false, 0));
    assert_eq!(ends("W9XYZ K1ABC FN42", 3, 0), (true, 1));
    assert_eq!(ends("W9XYZ K1ABC R-05", 3, 0), (false, 0));
    assert_eq!(ends("W9XYZ K1ABC R-05", 4, 0), (true, 1));
    assert_eq!(ends("W9XYZ K1ABC RR73", 1, 0), (false, 0));
    assert_eq!(ends("W9XYZ K1ABC RR73", 2, 0), (true, 0));
    assert_eq!(ends("CQ K1ABC FN42", 3, 0), (false, 0));
    assert_eq!(ends("CQ K1ABC FN42", 4, 0), (true, 0));
    assert_eq!(ends("W9XYZ K1ABC FN42", 0, 9), (false, 0));
    assert_eq!(ends("W9XYZ K1ABC FN42", 0, 10), (true, 1));
}

#[test]
fn hunt_at_the_end_of_a_slot() {
    let c = config();
    let end = Moment { minute: 31, second: 29, millis: 900 };
    let mut m = manager();
    let mut s = AppState::new("");
    s.status.auto_tx_mode = 3;
    let mut ctx = context(10_000_000);
    assert!(auto_qso_tick(&mut m, &mut s, &end, &c, &ctx));
    assert_eq!(s.status.pending_msg[0], 0);
    m.last_update_odd = 10_000_000;
    assert!(auto_qso_tick(&mut m, &mut s, &end, &c, &ctx));
    assert_eq!(s.status.pending_string(), "CQ K1ABC FN42");
    assert_eq!((s.status.pending_offset, s.target_offset, s.status.tx_window_even), (900, 900, 0));
    assert_eq!(m.last_cq_time, 10_000_000);
    s.clear_pending();
    ctx.now += 60_000;
    let mut heard = result("CQ W9XYZ EN37");
    heard.sender_call = Some("W9XYZ".to_string());
    m.msg_history.push(HistoryEntry { at: ctx.now, res: heard, is_even: true });
    assert!(auto_qso_tick(&mut m, &mut s, &end, &c, &ctx));
    assert_eq!(s.status.pending_string(), "W9XYZ K1ABC FN42");
    assert_eq!((s.status.pending_offset, s.target_offset, s.status.tx_window_even), (900, 1500, 0));
    assert_eq!(m.attempted_recent.get("W9XYZ"), Some(&ctx.now));
}

#[test]
fn hunt_goes_by_the_window_of_the_state() {
    let c = config();
    let end = Moment { minute: 31, second: 29, millis: 900 };
    for (even, call) in [(1, "JA1AE"), (0, "JA1AD")] {
        for tx_even in [true, false] {
            let ctx = HuntContext { tx_even, ..context(10_000_000) };
            let mut m = manager();
            m.last_update_even = ctx.now;
            m.last_update_odd = ctx.now;
            m.last_cq_time = ctx.now;
            for (sender, is_even) in [("JA1AD", true), ("JA1AE", false)] {
                let mut res = result(&format!("CQ {} PM95", sender));
                res.sender_call = Some(sender.to_string());
                m.msg_history.push(HistoryEntry { at: ctx.now, res, is_even });
            }
            let mut s = AppState::new("");
            s.status.auto_tx_mode = 3;
            s.status.tx_window_even = even;
            assert!(auto_qso_tick(&mut m, &mut s, &end, &c, &ctx));
            assert_eq!(s.status.pending_string(), format!("{} K1ABC FN42", call));
            assert_eq!(m.attempted_recent.get(call), Some(&ctx.now));
        }
    }
}

#[test]
fn answers_follow_the_contact() {
    let c = config();
    let mut s = AppState::new("");
    handle_auto_reply_logic(&mut s, "K1ABC W9XYZ -05", 3, &c);
    assert_eq!(s.status.pending_string(), "");
    s.status.auto_tx_mode = 2;
    s.status.repeat_count = 2;
    handle_auto_reply_logic(&mut s, "K1ABC W9XYZ -05", 3, &c);
    assert_eq!((s.status.pending_string().as_str(), s.status.repeat_count), ("W9XYZ K1ABC R+03", 0));
    assert_eq!(
        s.expect_regex_compiled.as_deref(),
        Some(r"^<?K1ABC>?\s+<?W9XYZ>?\s+(RR73|RRR|73)")
    );
    handle_auto_reply_logic(&mut s, "W1AW W9XYZ -05", 3, &c);
    assert_eq!(s.status.pending_string(), "W9XYZ K1ABC R+03");
    handle_auto_reply_logic(&mut s, "K1ABC W9XYZ RR73", 3, &c);
    assert_eq!(s.status.pending_string(), "W9XYZ K1ABC 73");
    assert_eq!(s.expect_regex_compiled, None);
}

#[test]
fn noise_is_gathered_in_quiet_slots() {
    let mut m = manager();
    let step = |reset, accumulate, publish| NoiseStep { reset, accumulate, publish };
    assert_eq!(m.push_fft_noise(30, 1194, false, 1), step(true, false, None));
    assert_eq!(m.push_fft_noise(31, 1194, false, 1), step(false, true, None));
    assert_eq!(m.push_fft_noise(31, 1194, false, 1), step(false, false, None));
    assert_eq!(m.push_fft_noise(32, 10, false, 1), step(false, false, None));
    assert_eq!(m.push_fft_noise(33, 1194, false, 1), step(false, true, None));
    assert_eq!(m.push_fft_noise(41, 1194, false, 77), step(false, false, Some((2, true))));
    assert_eq!(m.last_update_even, 77);
    m.push_fft_noise(45, 1194, true, 80);
    assert_eq!(m.push_fft_noise(46, 1194, false, 80), step(false, false, None));
    assert_eq!(m.push_fft_noise(56, 1194, false, 80), step(false, false, None));
    m.push_fft_noise(15, 1194, false, 90);
    m.push_fft_noise(16, 1194, false, 90);
    assert_eq!(m.push_fft_noise(26, 1194, false, 90), step(false, false, Some((1, false))));
    assert_eq!(m.last_update_odd, 90);
}

#[test]
fn samples_of_a_spectrum() {
    assert_eq!(next_fill(false, 4095), Fill::Drop);
    assert_eq!(next_fill(true, 0), Fill::Keep);
    assert_eq!(next_fill(true, 4094), Fill::Keep);
    assert_eq!(next_fill(true, 4095), Fill::Full);
}

#[test]
fn audio_is_sent_in_blocks() {
    let mut feed = AudioFeed::new();
    let samples: Vec<i16> = (0..256).map(|i| (i * 3) as i16).collect();
    for s in &samples[..255] {
        assert!(matches!(feed.push(true, *s), AudioStep::Nothing));
    }
    let mut st = AdpcmState::new();
    let want = audio_packet(&samples, &mut st).unwrap();
    match feed.push(true, samples[255]) {
        AudioStep::Packet(p) => assert_eq!(p, want),
        _ => panic!("no packet"),
    }
    assert_eq!(feed.state, st);
    assert!(feed.waiting.is_empty());
    feed.push(true, 1);
    assert_eq!(feed.waiting, vec![1]);
    assert!(matches!(feed.push(false, 2), AudioStep::Nothing));
    assert!(feed.waiting.is_empty());
    let mut loud = AudioFeed { state: AdpcmState { valprev: 32767, index: 0 }, waiting: vec![] };
    for _ in 0..255 {
        loud.push(true, -32768);
    }
    assert!(matches!(loud.push(true, -32768), AudioStep::Overflow));
}

#[test]
fn samples_reach_the_decoder_in_order() {
    let mut feed = SampleFeed::new();
    let mut buffer = DecodeBuffer::new();
    for i in 0..300i16 {
        assert_eq!(feed.push(true, i, &mut buffer), i == 127 || i == 255);
    }
    let held = buffer.get_last_16s();
    let mut all: Vec<i16> = held[BUFFER_SIZE - 256..].to_vec();
    all.extend_from_slice(&feed.waiting);
    assert_eq!(all, (0..300).collect::<Vec<i16>>());
    assert!(!feed.push(false, 7, &mut buffer));
    assert!(feed.waiting.is_empty());
    assert_eq!(buffer.get_last_16s(), held);
}

#[test]
fn heard_messages_are_taken() {
    let c = config();
    let mut cache = HashCache::new();
    let mut m = manager();
    let mut s = AppState::new("");
    s.status.auto_tx_mode = 2;
    m.consecutive_failures = 3;
    let mut res = result("K1ABC W9XYZ EN37");
    res.sender_call = Some("W9XYZ".to_string());
    res.receiver_call = Some("K1ABC".to_string());
    res.grid = Some("EN37".to_string());
    let at = Hearing {
        timestamp: 123015,
        is_even: false,
        dt_tenths: 2,
        dt_ms: 200,
        frequency_hz: 14_075_500,
        dist: Some(Distance { km: 1200, far: false }),
    };
    let ctx = LogContext {
        now: 10_000_000,
        unix_secs: 1_700_000_000,
        freq_hz: 14_074_000,
        freq_text: "14.074",
    };
    let r = take_decode(&mut cache, &mut s, &mut m, res.clone(), &at, &c, &ctx);
    assert_eq!(r.packet, decode_packet(&res, 123015, 2));
    assert!(r.record.is_none());
    let spot = r.spot.unwrap();
    assert_eq!((spot.callsign.as_str(), spot.frequency_hz, spot.dt_ms), ("W9XYZ", 14_075_500, 200));
    assert_eq!(s.status.pending_string(), "W9XYZ K1ABC -07");
    assert_eq!((m.consecutive_failures, m.last_incoming_for_me), (0, 10_000_000));
    assert_eq!(m.get_distance("W9XYZ").map(|d| d.km), Some(1200));
    assert_eq!(cache.lookup_hash22(ihashcall("W9XYZ", 22)), "<W9XYZ>");
    let mut last = result("K1ABC W9XYZ RR73");
    last.sender_call = Some("W9XYZ".to_string());
    last.receiver_call = Some("K1ABC".to_string());
    let r = take_decode(&mut cache, &mut s, &mut m, last, &at, &c, &ctx);
    assert_eq!(r.record.unwrap().log.call, "W9XYZ");
    assert_eq!(s.status.pending_string(), "W9XYZ K1ABC 73");
    assert!(m.successful_calls.contains("W9XYZ:20M"));
}
