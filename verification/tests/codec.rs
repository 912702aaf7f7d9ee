use ft8_station::ft8_codec::candidates::{
    collect_candidates, dedup_candidates, noise_index, noise_segments, search_step, BinPeak,
    SyncCandidate,
};
use ft8_station::ft8_codec::code::Code;
use ft8_station::ft8_codec::ldpc_decoder::{
    check_crc14_96, check_crc14_wsjtx, count_hard_errors, osd_passes, saves_sum, BpAction,
    BpMonitor, DecodeCourse, DecodeResult, NextStep, ParityChecks,
};
use ft8_station::ft8_codec::messages::{
    is_likely_valid_msg, parse_ft8_message, parties, read_codeword, SeenMessages,
};
use ft8_station::ft8_codec::osd::{osd174_91, pick_nearest, reliability_order};
use ft8_station::ft8_codec::packjt77::{
    holds_wide_telemetry, ihashcall, is_valid_base_call, read_bits, read_bits_u64, save_hash_call,
    unpack28, unpack77, unpack_text77, Ft8Message, Ft8MessageType, HashCache,
};
use ft8_station::ft8_codec::ranking::{first_max, rank_order};
use ft8_station::ft8_codec::subtraction::next_power_of_2;
use ft8_station::ft8_codec::symbols::{
    band_bins, band_rotation, count_sync, get_tones_from_result, is_synchronised, osd_depth,
    symbol_groups, symbol_window,
};
use ft8_station::ft8_codec::wav_reader::{WavError, WavHeader};

/// The remainder of a message of 77 bits with five zeros, by long division.
fn crc_of(message: &[u8]) -> Vec<u8> {
    let poly = [1u8, 1, 0, 0, 1, 1, 1, 0, 1, 0, 1, 0, 1, 1, 1];
    let mut w: Vec<u8> = message.to_vec();
    w.extend([0u8; 19]);
    for i in 0..w.len() - 14 {
        if w[i] == 1 {
            for j in 0..15 {
                w[i + j] ^= poly[j];
            }
        }
    }
    w[w.len() - 14..].to_vec()
}

fn message_with_crc(message: &[u8]) -> Vec<u8> {
    let mut m = message.to_vec();
    m.extend(crc_of(message));
    m
}

fn bits_of(n: u64, len: usize) -> Vec<u8> {
    (0..len).map(|i| ((n >> (len - 1 - i)) & 1) as u8).collect()
}

fn message_bits(parts: &[(u64, usize)]) -> Vec<u8> {
    let mut bits = Vec::new();
    for &(n, len) in parts {
        bits.extend(bits_of(n, len));
    }
    bits
}

fn call28(call: &str) -> u64 {
    let find = |set: &str, c: char| set.find(c).unwrap() as u64;
    let c: Vec<char> = call.chars().collect();
    let c37 = " 0123456789ABCDEFGHIJKLMNOPQRSTUVWXYZ";
    let c36 = "0123456789ABCDEFGHIJKLMNOPQRSTUVWXYZ";
    let c10 = "0123456789";
    let c27 = " ABCDEFGHIJKLMNOPQRSTUVWXYZ";
    let mut n = find(c37, c[0]);
    n = n * 36 + find(c36, c[1]);
    n = n * 10 + find(c10, c[2]);
    n = n * 27 + find(c27, c[3]);
    n = n * 27 + find(c27, c[4]);
    n = n * 27 + find(c27, c[5]);
    2063592 + 4194304 + n
}

fn grid15(g: &str) -> u64 {
    let b = g.as_bytes();
    ((b[0] - b'A') as u64 * 18 + (b[1] - b'A') as u64) * 100
        + (b[2] - b'0') as u64 * 10
        + (b[3] - b'0') as u64
}

fn text_of(cache: &mut HashCache, bits: &[u8]) -> Option<Ft8Message> {
    unpack77(cache, bits, false)
}

#[test]
fn crc_accepts_what_division_gives() {
    let message: Vec<u8> = (0..77).map(|i| ((i * i + i / 3) % 2) as u8).collect();
    let mut cw = message_with_crc(&message);
    assert!(check_crc14_96(&cw));
    let mut spread = message.clone();
    spread.extend([0u8; 5]);
    spread.extend(crc_of(&message));
    assert!(check_crc14_wsjtx(&spread));
    cw[40] ^= 1;
    assert!(!check_crc14_96(&cw));
    cw[40] ^= 1;
    cw[90] ^= 1;
    assert!(!check_crc14_96(&cw));
}

#[test]
fn crc_of_the_generator_itself() {
    assert!(check_crc14_wsjtx(&[1, 1, 0, 0, 1, 1, 1, 0, 1, 0, 1, 0, 1, 1, 1]));
    assert!(!check_crc14_wsjtx(&[1, 0, 0, 0, 0, 0, 0, 0, 0, 0, 0, 0, 0, 0, 0]));
    assert!(check_crc14_wsjtx(&[0; 15]));
    assert!(check_crc14_wsjtx(&[0, 1, 1, 0, 0, 1, 1, 1, 0, 1, 0, 1, 0, 1, 1, 1]));
}

#[test]
fn crc_notices_every_burst() {
    let message: Vec<u8> = (0..77).map(|i| (i % 3 == 0) as u8).collect();
    let good = message_with_crc(&message);
    for p in 0..78 {
        for pattern in [1u32, 0x2001, 0x3fff, 0x1555] {
            let mut bad = good.clone();
            for k in 0..14 {
                if p + k < 91 && (pattern >> k) & 1 == 1 {
                    bad[p + k] ^= 1;
                }
            }
            if p + 14 <= 77 || p >= 77 {
                assert!(!check_crc14_96(&bad), "burst at {}", p);
            }
        }
    }
}

#[test]
fn parity_checks_are_counted() {
    let checks = ParityChecks { rows: vec![vec![0, 1, 2], vec![3, 4], vec![0, 173]] };
    let mut word = [0u8; 174];
    assert_eq!(checks.count_failed(&word), 0);
    word[0] = 1;
    assert_eq!(checks.count_failed(&word), 2);
    word[173] = 1;
    assert_eq!(checks.count_failed(&word), 1);
    word[4] = 1;
    assert_eq!(checks.count_failed(&word), 2);
}

#[test]
fn monitor_accepts_a_codeword() {
    let checks = ParityChecks { rows: vec![vec![0, 1]] };
    let mut m = BpMonitor::new();
    let word = [0u8; 174];
    assert_eq!(m.step(&checks, &word), BpAction::Accept);
    assert_eq!(m.iter, 0);
}

#[test]
fn monitor_gives_up_on_a_stalled_word() {
    let rows: Vec<Vec<usize>> = (0..20).map(|i| vec![i]).collect();
    let checks = ParityChecks { rows };
    let mut word = [0u8; 174];
    for b in word.iter_mut().take(20) {
        *b = 1;
    }
    let mut m = BpMonitor::new();
    let mut steps = 0;
    loop {
        steps += 1;
        match m.step(&checks, &word) {
            BpAction::Continue => continue,
            other => {
                assert_eq!(other, BpAction::Stop);
                break;
            }
        }
    }
    assert_eq!(steps, 11);
    assert_eq!(m.nclast, 20);
}

#[test]
fn monitor_stops_after_the_last_iteration() {
    let rows: Vec<Vec<usize>> = (0..3).map(|i| vec![i]).collect();
    let checks = ParityChecks { rows };
    let mut word = [0u8; 174];
    word[0] = 1;
    let mut m = BpMonitor::new();
    for _ in 0..30 {
        assert_eq!(m.step(&checks, &word), BpAction::Continue);
    }
    assert_eq!(m.step(&checks, &word), BpAction::Stop);
    assert_eq!(m.nclast, 1);
}

#[test]
fn ordered_decoding_passes() {
    assert_eq!(osd_passes(-1), 0);
    assert_eq!(osd_passes(0), 0);
    assert_eq!(osd_passes(2), 2);
    assert_eq!(osd_passes(7), 3);
    assert!(!saves_sum(2, 0));
    assert!(saves_sum(2, 1));
    assert!(saves_sum(2, 2));
    assert!(!saves_sum(2, 3));
    assert!(!saves_sum(0, 1));
}

#[test]
fn results_carry_their_codeword() {
    let received = [0u8; 174];
    let mut cw = [0u8; 174];
    cw[3] = 1;
    cw[170] = 1;
    assert_eq!(count_hard_errors(&received, &cw), 2);
    let r = DecodeResult::found(&received, &cw, 4, 1);
    assert!(r.success);
    assert_eq!(r.message_bits.len(), 91);
    assert_eq!(r.codeword, cw.to_vec());
    assert_eq!((r.nharderror, r.iter, r.ntype, r.ncheck), (2, 4, 1, 0));
    let f = DecodeResult::not_found(17);
    assert!(!f.success);
    assert!(f.codeword.is_empty() && f.message_bits.is_empty());
    assert_eq!((f.nharderror, f.iter, f.ntype, f.ncheck), (-1, 30, 0, 17));
}

fn small_generator() -> Vec<Vec<u8>> {
    (0..91)
        .map(|i: usize| (0..83).map(|j: usize| ((i * 7 + j * 3 + i * j) % 5 == 1) as u8).collect())
        .collect()
}

fn encode(gen: &[Vec<u8>], m: &[u8]) -> Vec<u8> {
    let mut w = m.to_vec();
    for j in 0..83 {
        let mut b = 0;
        for i in 0..91 {
            b ^= m[i] & gen[i][j];
        }
        w.push(b);
    }
    w
}

fn small_checks() -> Vec<Vec<usize>> {
    let gen = small_generator();
    (0..83)
        .map(|j| (0..91).filter(|&i| gen[i][j] == 1).chain([91 + j]).collect())
        .collect()
}

fn small_code() -> Code {
    Code::new(ParityChecks { rows: small_checks() }, small_generator()).unwrap()
}

#[test]
fn tables_of_a_code() {
    let made = |rows: Vec<Vec<usize>>, gen: Vec<Vec<u8>>| {
        Code::new(ParityChecks { rows }, gen).map(|c| (c.checks.rows, c.generator))
    };
    let (rows, gen) = (small_checks(), small_generator());
    assert_eq!(made(rows.clone(), gen.clone()), Some((rows.clone(), gen.clone())));
    assert!(made(vec![], gen.clone()).is_some());
    let mut far = rows.clone();
    far[82].push(174);
    assert!(made(far, gen.clone()).is_none());
    let mut other = rows.clone();
    other[82].pop();
    assert!(made(other, gen.clone()).is_none());
    assert!(made(rows.clone(), gen[..90].to_vec()).is_none());
    let mut short = gen.clone();
    short[90].pop();
    assert!(made(rows.clone(), short).is_none());
    let mut wide = gen.clone();
    wide[90][82] += 2;
    assert!(made(rows.clone(), wide).is_none());
    let mut wrong = gen;
    wrong[90][82] ^= 1;
    assert!(made(rows, wrong).is_none());
}

#[test]
fn codewords_meet_the_checks() {
    let code = small_code();
    for seed in 0..20u64 {
        let message: Vec<u8> = (0..77).map(|i| ((seed * 37 + i * i) % 3 == 1) as u8).collect();
        let mut cw = encode(&code.generator, &message_with_crc(&message));
        assert_eq!(code.checks.count_failed(&cw), 0);
        let order: Vec<usize> = (0..174).rev().collect();
        for kept in osd174_91(&code.generator, &cw, &order, 1) {
            assert_eq!(code.checks.count_failed(&kept), 0);
        }
        cw[91] ^= 1;
        assert_eq!(code.checks.count_failed(&cw), 1);
    }
}

#[test]
fn ordered_decoding_finds_the_codeword() {
    let gen = small_generator();
    let message: Vec<u8> = (0..77).map(|i| (i % 5 == 2) as u8).collect();
    let cw = encode(&gen, &message_with_crc(&message));
    let keys: Vec<u32> = (0..174u32).map(|i| (i * 37) % 174).collect();
    let order = reliability_order(&keys);
    let kept = osd174_91(&gen, &cw, &order, 0);
    assert_eq!(kept, vec![cw.clone()]);
}

#[test]
fn ordered_decoding_mends_reliable_bits() {
    let gen = small_generator();
    let message: Vec<u8> = (0..77).map(|i| (i % 4 == 1) as u8).collect();
    let cw = encode(&gen, &message_with_crc(&message));
    let keys: Vec<u32> = (0..174).map(|i| 1000 - i as u32).collect();
    let order = reliability_order(&keys);
    assert_eq!(order, (0..174).collect::<Vec<usize>>());
    let mut one = cw.clone();
    one[10] ^= 1;
    assert!(!osd174_91(&gen, &one, &order, 0).contains(&cw));
    assert!(osd174_91(&gen, &one, &order, 1).contains(&cw));
    let mut two = one.clone();
    two[60] ^= 1;
    assert!(!osd174_91(&gen, &two, &order, 1).contains(&cw));
    assert!(osd174_91(&gen, &two, &order, 2).contains(&cw));
    let mut weak = cw.clone();
    for b in weak.iter_mut().skip(91) {
        *b ^= 1;
    }
    assert_eq!(osd174_91(&gen, &weak, &order, 0), vec![cw]);
}

#[test]
fn nearest_is_the_first_least() {
    assert_eq!(pick_nearest(&vec![]), None);
    assert_eq!(pick_nearest(&vec![None, None]), None);
    assert_eq!(pick_nearest(&vec![None, Some(5), Some(3), Some(3), Some(9)]), Some(2));
}

#[test]
fn ranking_is_stable() {
    assert_eq!(rank_order(&vec![3, 9, 3, 7]), vec![1, 3, 0, 2]);
    assert_eq!(rank_order(&vec![]), Vec::<usize>::new());
    assert_eq!(first_max(&[1, 4, 4, 2]), 1);
    assert_eq!(first_max(&[0]), 0);
}

#[test]
fn tones_of_the_zero_word() {
    let tones = get_tones_from_result(&[0u8; 174]);
    assert_eq!(tones.len(), 79);
    assert_eq!(&tones[0..7], &[3, 1, 4, 0, 6, 5, 2]);
    assert_eq!(&tones[36..43], &[3, 1, 4, 0, 6, 5, 2]);
    assert_eq!(&tones[72..79], &[3, 1, 4, 0, 6, 5, 2]);
    assert!(tones[7..36].iter().all(|&t| t == 0));
    assert_eq!(count_sync(&tones), 21);
}

#[test]
fn tones_follow_the_gray_map() {
    let mut cw = [0u8; 174];
    cw[0] = 1;
    cw[5] = 1;
    cw[87] = 1;
    cw[88] = 1;
    cw[171] = 1;
    cw[172] = 1;
    cw[173] = 1;
    let tones = get_tones_from_result(&cw);
    assert_eq!(tones[7], 5);
    assert_eq!(tones[8], 1);
    assert_eq!(tones[43], 4);
    assert_eq!(tones[71], 7);
}

#[test]
fn synchronisation_decides() {
    let mut tones = [9u8; 79];
    assert_eq!(count_sync(&tones), 0);
    tones[0] = 3;
    tones[37] = 1;
    tones[78] = 2;
    assert_eq!(count_sync(&tones), 3);
    assert!(!is_synchronised(4));
    assert!(is_synchronised(5));
    assert_eq!(osd_depth(1, 21), 0);
    assert_eq!(osd_depth(2, 12), 0);
    assert_eq!(osd_depth(2, 13), 1);
}

#[test]
fn windows_stay_in_the_samples() {
    assert_eq!(symbol_window(-1, 0, 3200), None);
    assert_eq!(symbol_window(0, 0, 3200), Some(0));
    assert_eq!(symbol_window(0, 0, 31), None);
    assert_eq!(symbol_window(0, 0, 32), Some(0));
    assert_eq!(symbol_window(-32, 1, 3200), Some(0));
    assert_eq!(symbol_window(704, 78, 3200), None);
    assert_eq!(symbol_window(i32::MAX - 31, 0, 3200), None);
    assert_eq!(symbol_window(i32::MIN, 78, 3200), None);
    assert_eq!(symbol_window(0, 0, 0x8000_0000), None);
    assert_eq!(symbol_window(0, 0, 0x1_0000_0020), Some(0));
    assert_eq!(symbol_window(1, 0, 0x1_0000_0020), None);
}

#[test]
fn bands_stay_in_the_spectrum() {
    assert_eq!(band_bins(-3, 4, 100), (0, 5));
    assert_eq!(band_bins(90, 200, 100), (90, 10));
    assert_eq!(band_bins(0, 9999, 10000), (0, 3200));
    assert_eq!(band_bins(-9, -1, 100), (0, 0));
    assert_eq!(band_rotation(10, 7), 3);
    assert_eq!(band_rotation(7, 10), 3197);
    assert_eq!(band_rotation(3207, 7), 0);
    assert_eq!(band_rotation(i32::MAX, 0), 2047);
    assert_eq!(band_rotation(0, i32::MAX), 1153);
}

#[test]
fn candidates_are_collected_and_thinned() {
    let peaks = vec![
        BinPeak { bin: 40, near_step: 2, near_key: Some(10), far_step: 2, far_key: Some(99) },
        BinPeak { bin: 41, near_step: 0, near_key: None, far_step: 30, far_key: Some(50) },
        BinPeak { bin: 42, near_step: 1, near_key: Some(20), far_step: -40, far_key: Some(20) },
    ];
    let all = collect_candidates(&peaks, 600);
    let keys: Vec<(usize, i32, u32)> = all.iter().map(|c| (c.bin, c.step, c.key)).collect();
    assert_eq!(keys, vec![(41, 30, 50), (42, 1, 20), (42, -40, 20), (40, 2, 10)]);
    assert_eq!(collect_candidates(&peaks, 2).len(), 2);
    let c = |bin, step, key| SyncCandidate { bin, step, key };
    let kept = dedup_candidates(&vec![c(5, 0, 9), c(5, 1, 8), c(5, 2, 7), c(6, 0, 6)], 1);
    assert_eq!(kept, vec![c(5, 0, 9), c(5, 2, 7), c(6, 0, 6)]);
    assert_eq!(dedup_candidates(&vec![c(5, 0, 9), c(6, 0, 8)], 2), vec![c(5, 0, 9)]);
    assert!(dedup_candidates(&vec![], 1).is_empty());
}

#[test]
fn powers_of_two() {
    assert_eq!(next_power_of_2(0), 1);
    assert_eq!(next_power_of_2(1), 1);
    assert_eq!(next_power_of_2(5), 8);
    assert_eq!(next_power_of_2(1024), 1024);
    assert_eq!(next_power_of_2(153680), 262144);
}

#[test]
fn hashes_of_call_signs() {
    let naive = |call: &str, bits: u32| -> u32 {
        let set = " 0123456789ABCDEFGHIJKLMNOPQRSTUVWXYZ/";
        let mut n: u64 = 0;
        for c in format!("{:<11}", call.to_uppercase()).chars().take(11) {
            n = 38 * n + set.find(c).unwrap_or(0) as u64;
        }
        (n.wrapping_mul(8523930129890207281) >> (64 - bits)) as u32
    };
    for call in ["K1ABC", "BG5VDH", "PJ4/K1ABC", "w9xyz", "YW18FIFA", "A B?C", ""] {
        for bits in [10, 12, 22, 32] {
            assert_eq!(ihashcall(call, bits), naive(call, bits), "{} {}", call, bits);
        }
    }
    assert_eq!(ihashcall("k1abc", 22), ihashcall("K1ABC", 22));
    assert!(ihashcall("K1ABC", 10) < 1024);
    assert_eq!(ihashcall("stra\u{df}e", 22), ihashcall("STRASSE", 22));
}

#[test]
fn saved_calls_are_found() {
    let mut cache = HashCache::new();
    let h12 = ihashcall("PJ4/K1ABC", 12);
    assert_eq!(cache.lookup_hash12(h12), format!("<...{}>", h12));
    assert_eq!(cache.lookup_hash10(5), "<...>");
    assert_eq!(cache.lookup_hash22(77), "<...77>");
    save_hash_call(&mut cache, "<PJ4/K1ABC>");
    assert_eq!(cache.lookup_hash12(h12), "<PJ4/K1ABC>");
    assert_eq!(cache.lookup_hash12(ihashcall("K1ABC", 12)), "<K1ABC>");
    assert_eq!(cache.lookup_hash10(ihashcall("K1ABC", 10)), "<K1ABC>");
    assert_eq!(cache.lookup_hash22(ihashcall("K1ABC", 22)), "<K1ABC>");
    let mut empty = HashCache::new();
    save_hash_call(&mut empty, "");
    save_hash_call(&mut empty, "<...>");
    save_hash_call(&mut empty, "AB");
    save_hash_call(&mut empty, "< A >");
    assert!(empty.calls22.is_empty());
}

#[test]
fn full_cache_takes_no_more() {
    let mut cache = HashCache::new();
    for i in 0..50000u32 {
        cache.calls22.insert(i, String::new());
    }
    let before = cache.calls22.len();
    save_hash_call(&mut cache, "K1ABC");
    assert_eq!(cache.calls22.len(), before);
    assert!(cache.calls10.is_empty());
}

#[test]
fn bits_are_read_high_first() {
    assert_eq!(read_bits(&[1, 0, 1, 1], 0, 4), 11);
    assert_eq!(read_bits(&[1, 0, 1, 1], 2, 4), 12);
    assert_eq!(read_bits(&[0, 7], 0, 2), 1);
    assert_eq!(read_bits_u64(&[1; 64], 0, 64), u64::MAX);
}

#[test]
fn numbers_of_28_bits() {
    let mut cache = HashCache::new();
    let mut text = |n: u32| unpack28(&mut cache, n);
    assert_eq!(text(0), ("DE".to_string(), true));
    assert_eq!(text(1), ("QRZ".to_string(), true));
    assert_eq!(text(2), ("CQ".to_string(), true));
    assert_eq!(text(3), ("CQ 000".to_string(), true));
    assert_eq!(text(1002), ("CQ 999".to_string(), true));
    assert_eq!(text(1003 + 27 * 4 + 24), ("CQ DX".to_string(), true));
    assert_eq!(text(532443).0, "CQ ZZZZ");
    assert_eq!(text(532444), ("<...0>/R".to_string(), true));
    assert_eq!(text(532445), ("<...0>/P".to_string(), true));
    assert_eq!(text(532446), ("<...0>/0".to_string(), true));
    assert_eq!(text(532444 + 12), ("<...0>/QRP".to_string(), true));
    assert_eq!(text(2063592 + 9), ("<...9>".to_string(), true));
    assert_eq!(text(call28(" K1ABC") as u32), ("K1ABC".to_string(), true));
    assert_eq!(text(call28(" 11   ") as u32), ("11".to_string(), false));
    let h = ihashcall("K1ABC", 22);
    assert_eq!(text(2063592 + h), ("<K1ABC>".to_string(), true));
}

#[test]
fn base_calls() {
    assert!(is_valid_base_call("K1ABC"));
    assert!(is_valid_base_call("<...>"));
    assert!(!is_valid_base_call("K1"));
    assert!(!is_valid_base_call("ABCDE"));
    assert!(!is_valid_base_call("12345"));
}

#[test]
fn standard_messages() {
    let mut cache = HashCache::new();
    let k = call28(" K1ABC");
    let w = call28(" W9XYZ");
    let grid = |g: &str| grid15(g);
    let msg = |a: u64, b: u64, ir: u64, g: u64| {
        message_bits(&[(a, 28), (0, 1), (b, 28), (0, 1), (ir, 1), (g, 15), (1, 3)])
    };
    let m = text_of(&mut cache, &msg(2, k, 0, grid("FN42"))).unwrap();
    assert_eq!(m.text, "CQ K1ABC FN42");
    assert_eq!(m.msg_type, Ft8MessageType::Standard);
    assert_eq!(m.call_1.as_deref(), Some("CQ"));
    assert_eq!(m.call_2.as_deref(), Some("K1ABC"));
    assert_eq!(m.grid.as_deref(), Some("FN42"));
    assert_eq!(m.snr, None);
    let m = text_of(&mut cache, &msg(k, w, 0, grid("RR73"))).unwrap();
    assert_eq!((m.text.as_str(), m.grid), ("K1ABC W9XYZ RR73", None));
    let m = text_of(&mut cache, &msg(k, w, 1, grid("EN37"))).unwrap();
    assert_eq!(m.text, "K1ABC W9XYZ R EN37");
    let m = text_of(&mut cache, &msg(k, w, 0, 32400 + 35 - 11)).unwrap();
    assert_eq!((m.text.as_str(), m.snr), ("K1ABC W9XYZ -11", Some(-11)));
    let m = text_of(&mut cache, &msg(k, w, 1, 32400 + 35 + 9)).unwrap();
    assert_eq!((m.text.as_str(), m.snr), ("K1ABC W9XYZ R+09", Some(9)));
    let m = text_of(&mut cache, &msg(k, w, 0, 32400)).unwrap();
    assert_eq!((m.text.as_str(), m.snr), ("K1ABC W9XYZ -35", Some(-35)));
    let m = text_of(&mut cache, &msg(k, w, 0, 32400 + 100)).unwrap();
    assert_eq!(m.snr, Some(-36));
    assert_eq!(text_of(&mut cache, &msg(k, w, 0, 32401)).unwrap().text, "K1ABC W9XYZ");
    assert_eq!(text_of(&mut cache, &msg(k, w, 0, 32402)).unwrap().text, "K1ABC W9XYZ RRR");
    assert_eq!(text_of(&mut cache, &msg(k, w, 0, 32403)).unwrap().text, "K1ABC W9XYZ RR73");
    assert_eq!(text_of(&mut cache, &msg(k, w, 0, 32404)).unwrap().text, "K1ABC W9XYZ 73");
    assert_eq!(text_of(&mut cache, &msg(2, k, 1, grid("FN42"))), None);
    assert_eq!(text_of(&mut cache, &msg(2, k, 0, 32402)), None);
    assert_eq!(text_of(&mut cache, &msg(2, k, 0, 32401)).unwrap().text, "CQ K1ABC");
    let rover = message_bits(&[(k, 28), (1, 1), (w, 28), (1, 1), (0, 1), (32401, 15), (2, 3)]);
    assert_eq!(text_of(&mut cache, &rover).unwrap().text, "K1ABC/P W9XYZ/P");
    let rover = message_bits(&[(k, 28), (1, 1), (w, 28), (0, 1), (0, 1), (32401, 15), (1, 3)]);
    assert_eq!(text_of(&mut cache, &rover).unwrap().text, "K1ABC/R W9XYZ");
    assert_eq!(cache.lookup_hash22(ihashcall("W9XYZ", 22)), "<W9XYZ>");
}

#[test]
fn dxpedition_messages() {
    let mut cache = HashCache::new();
    save_hash_call(&mut cache, "KH1/KH7Z");
    let n10 = ihashcall("KH1/KH7Z", 10) as u64;
    let bits = message_bits(&[
        (call28(" K1ABC"), 28),
        (call28(" W9XYZ"), 28),
        (n10, 10),
        (11, 5),
        (1, 3),
        (0, 3),
    ]);
    let m = text_of(&mut cache, &bits).unwrap();
    assert_eq!(m.text, "K1ABC RR73; W9XYZ <KH1/KH7Z> -08");
    assert_eq!(m.msg_type, Ft8MessageType::Dxpedition);
    assert_eq!(m.snr, Some(-8));
    let bad = message_bits(&[(2, 28), (call28(" W9XYZ"), 28), (n10, 10), (11, 5), (1, 3), (0, 3)]);
    assert_eq!(text_of(&mut cache, &bad), None);
}

#[test]
fn free_text_messages() {
    let mut cache = HashCache::new();
    let set = " 0123456789ABCDEFGHIJKLMNOPQRSTUVWXYZ+-./?";
    let mut n: u128 = 0;
    for c in "TNX K1ABC 73 ".chars() {
        n = n * 42 + set.find(c).unwrap() as u128;
    }
    let mut bits: Vec<u8> = (0..71).map(|i| ((n >> (70 - i)) & 1) as u8).collect();
    assert_eq!(unpack_text77(&bits), "TNX K1ABC 73");
    bits.extend([0u8; 6]);
    let m = text_of(&mut cache, &bits).unwrap();
    assert_eq!((m.text.as_str(), m.msg_type), ("TNX K1ABC 73", Ft8MessageType::FreeText));
    assert_eq!(cache.lookup_hash22(ihashcall("K1ABC", 22)), "<K1ABC>");
    assert_eq!(text_of(&mut cache, &[0u8; 77]), None);
}

#[test]
fn telemetry_messages() {
    let mut cache = HashCache::new();
    let mut bits = message_bits(&[(0, 7), (0x123456789ABCDEF0, 64), (5, 3), (0, 3)]);
    let m = text_of(&mut cache, &bits).unwrap();
    assert_eq!(m.text, "TELEMETRY: 00123456789ABCDEF0");
    assert_eq!(m.msg_type, Ft8MessageType::Telemetry);
    assert!(!holds_wide_telemetry(&bits));
    bits[6] = 1;
    assert!(holds_wide_telemetry(&bits));
}

#[test]
fn nonstandard_messages() {
    let mut cache = HashCache::new();
    save_hash_call(&mut cache, "K1ABC");
    let h12 = ihashcall("K1ABC", 12) as u64;
    let set = " 0123456789ABCDEFGHIJKLMNOPQRSTUVWXYZ/";
    let mut n58: u64 = 0;
    for c in "   PJ4/W9XY".chars() {
        n58 = n58 * 38 + set.find(c).unwrap() as u64;
    }
    let msg = |flip: u64, rpt: u64, cq: u64| {
        message_bits(&[(h12, 12), (n58, 58), (flip, 1), (rpt, 2), (cq, 1), (4, 3)])
    };
    let m = text_of(&mut cache, &msg(0, 0, 0)).unwrap();
    assert_eq!(m.text, "<K1ABC> PJ4/W9XY");
    assert_eq!(m.call_2.as_deref(), Some("PJ4/W9XY"));
    assert_eq!(text_of(&mut cache, &msg(1, 2, 0)).unwrap().text, "PJ4/W9XY <K1ABC> RR73");
    assert_eq!(text_of(&mut cache, &msg(0, 1, 0)).unwrap().text, "<K1ABC> PJ4/W9XY RRR");
    assert_eq!(text_of(&mut cache, &msg(0, 3, 0)).unwrap().text, "<K1ABC> PJ4/W9XY 73");
    assert_eq!(text_of(&mut cache, &msg(0, 0, 1)).unwrap().text, "CQ PJ4/W9XY");
    let empty = message_bits(&[(h12, 12), (0, 58), (0, 1), (0, 2), (0, 1), (4, 3)]);
    assert_eq!(text_of(&mut cache, &empty), None);
    assert_eq!(cache.lookup_hash12(ihashcall("PJ4/W9XY", 12)), "<PJ4/W9XY>");
}

#[test]
fn contest_messages() {
    let mut cache = HashCache::new();
    let bits =
        message_bits(&[(7, 12), (9, 22), (1, 1), (2, 3), (3, 11), (0, 25), (5, 3)]);
    let m = text_of(&mut cache, &bits).unwrap();
    assert_eq!(m.text, "<...7> <...9> R 7203 [GRID6]");
    assert_eq!(m.msg_type, Ft8MessageType::Contest);
}

#[test]
fn refused_bits() {
    let mut cache = HashCache::new();
    assert_eq!(text_of(&mut cache, &[0u8; 76]), None);
    for (n3, i3) in [(2, 0), (3, 0), (4, 0), (6, 0), (7, 0), (0, 3), (0, 6), (0, 7)] {
        let bits = message_bits(&[(1, 7), (1, 64), (n3, 3), (i3, 3)]);
        assert_eq!(text_of(&mut cache, &bits), None);
    }
    for (n3, i3) in [(0, 0), (1, 0), (5, 0), (0, 1), (0, 2), (0, 4), (0, 5)] {
        let bits = message_bits(&[(0, 7), (1, 64), (n3, 3), (i3, 3)]);
        assert_eq!(text_of(&mut cache, &bits[..76]), None);
    }
    assert_eq!(parse_ft8_message(&mut cache, &[0u8; 50]), None);
    let k = call28(" K1ABC");
    let mut long = message_bits(&[(2, 28), (0, 1), (k, 28), (0, 2), (grid15("FN42"), 15), (1, 3)]);
    long.extend([1u8; 14]);
    assert_eq!(parse_ft8_message(&mut cache, &long).unwrap().text, "CQ K1ABC FN42");
}

#[test]
fn likely_messages() {
    assert!(is_likely_valid_msg("CQ K1ABC FN42"));
    assert!(is_likely_valid_msg(" k1abc w9xyz -05 "));
    assert!(is_likely_valid_msg("CQ DX K1ABC FN42"));
    assert!(is_likely_valid_msg("<PJ4/K1ABC> W9XYZ"));
    assert!(is_likely_valid_msg("\u{c4}B C"));
    assert!(!is_likely_valid_msg(""));
    assert!(!is_likely_valid_msg("A ?? B"));
    assert!(!is_likely_valid_msg("K1ABC"));
    assert!(!is_likely_valid_msg("A B C D"));
    assert!(!is_likely_valid_msg("A B C D E"));
    assert!(!is_likely_valid_msg("K1ABC W9XYZ ="));
    assert!(!is_likely_valid_msg("K1ABC /W9XYZ"));
    assert!(!is_likely_valid_msg("K1ABC W9XYZ/"));
    assert!(!is_likely_valid_msg("K1ABC W9//XYZ"));
    assert!(!is_likely_valid_msg("K1ABC A/B/C/D"));
    assert!(is_likely_valid_msg("K1ABC A/B/C"));
    assert!(is_likely_valid_msg("K1ABC 1234567890123"));
    assert!(!is_likely_valid_msg("K1ABC 12345678901234"));
}

fn message(text: &str, c1: Option<&str>, c2: Option<&str>) -> Ft8Message {
    Ft8Message {
        msg_type: Ft8MessageType::Standard,
        text: text.to_string(),
        call_1: c1.map(String::from),
        call_2: c2.map(String::from),
        grid: None,
        snr: None,
    }
}

#[test]
fn messages_are_reported_once() {
    let mut seen = SeenMessages::new();
    let m = message("CQ K1ABC FN42", Some("CQ"), Some("K1ABC"));
    let p = seen.accept(&m).unwrap();
    assert_eq!(p.sender.as_deref(), Some("K1ABC"));
    assert_eq!(p.receiver.as_deref(), Some("CQ"));
    assert!(seen.accept(&m).is_none());
    assert!(seen.accept(&message("NOISE", None, None)).is_none());
    let p = parties(&message("X", Some("K1ABC"), None));
    assert_eq!((p.sender.as_deref(), p.receiver), (Some("K1ABC"), None));
    let p = parties(&message("X", None, Some("W9XYZ")));
    assert_eq!((p.sender.as_deref(), p.receiver), (Some("W9XYZ"), None));
    let p = parties(&message("X", None, None));
    assert_eq!((p.sender, p.receiver), (None, None));
}

fn wav(chunks: &[(&[u8], Vec<u8>)]) -> Vec<u8> {
    let mut b = b"RIFF\0\0\0\0WAVE".to_vec();
    for (id, data) in chunks {
        b.extend_from_slice(id);
        b.extend_from_slice(&(data.len() as u32).to_le_bytes());
        b.extend_from_slice(data);
    }
    b
}

fn fmt(bits: u16) -> Vec<u8> {
    let mut f = vec![1, 0, 1, 0];
    f.extend_from_slice(&12000u32.to_le_bytes());
    f.extend_from_slice(&[0; 6]);
    f.extend_from_slice(&bits.to_le_bytes());
    f
}

#[test]
fn wav_files() {
    let b = wav(&[(b"LIST", vec![9; 5]), (b"fmt ", fmt(16)), (b"data", vec![1, 0, 255, 255, 0, 128])]);
    let (h, s) = WavHeader::parse(&b).unwrap();
    assert_eq!(s, vec![1, -1, -32768]);
    assert_eq!(h.sample_rate, 12000);
    assert_eq!((h.audio_format, h.num_channels, h.bits_per_sample), (1, 1, 16));
    assert_eq!((h.data_size, h.file_size), (6, 0));
}

#[test]
fn wav_errors() {
    let err = |b: &[u8]| WavHeader::parse(b).err();
    assert_eq!(err(b"RIF"), Some(WavError::NoRiff));
    assert_eq!(err(b"RIFX"), Some(WavError::NotRiff));
    assert_eq!(err(b"RIFF1234WAV"), Some(WavError::Truncated));
    assert_eq!(err(b"RIFF1234WAVX"), Some(WavError::NotWave));
    assert_eq!(err(b"RIFF1234WAVE"), Some(WavError::NoData));
    assert_eq!(err(b"RIFF1234WAVEdata12"), Some(WavError::Truncated));
    assert_eq!(err(&wav(&[(b"fmt ", vec![0; 15])])), Some(WavError::ShortFormat));
    assert_eq!(err(&wav(&[(b"data", vec![])])), Some(WavError::ZeroDepth));
    assert_eq!(err(&wav(&[(b"fmt ", fmt(4)), (b"data", vec![])])), Some(WavError::NoWholeSample));
    assert_eq!(
        err(&wav(&[(b"fmt ", fmt(8)), (b"data", vec![0; 4])])),
        Some(WavError::SamplesMissing)
    );
    let mut far = wav(&[]);
    far.extend_from_slice(b"junk\xff\xff\xff\xff");
    assert_eq!(err(&far), Some(WavError::NoData));
    let mut cut = wav(&[]);
    cut.extend_from_slice(b"fmt \x10\0\0\0abc");
    assert_eq!(err(&cut), Some(WavError::Truncated));
}

#[test]
fn codewords_are_read() {
    let mut cache = HashCache::new();
    let k = call28(" K1ABC");
    let m = message_bits(&[(2, 28), (0, 1), (k, 28), (0, 2), (grid15("FN42"), 15), (1, 3)]);
    let cw = encode(&small_generator(), &message_with_crc(&m));
    let found = DecodeResult::found(&cw, &cw, 0, 1);
    let r = read_codeword(&mut cache, &found).unwrap();
    assert_eq!(r.message.text, "CQ K1ABC FN42");
    assert_eq!(r.tones, get_tones_from_result(&cw));
    assert_eq!(cache.lookup_hash22(ihashcall("K1ABC", 22)), "<K1ABC>");
    assert!(read_codeword(&mut cache, &DecodeResult::not_found(9)).is_none());
    let noise = encode(&small_generator(), &message_with_crc(&[0; 77]));
    assert!(read_codeword(&mut cache, &DecodeResult::found(&noise, &noise, 0, 1)).is_none());
    let t = message_bits(&[(0, 7), (1, 64), (5, 3), (0, 3)]);
    let cw = encode(&small_generator(), &message_with_crc(&t));
    assert!(read_codeword(&mut cache, &DecodeResult::found(&cw, &cw, 0, 1)).is_none());
}

#[test]
fn groups_of_symbols() {
    let list = |n| symbol_groups(n).iter().map(|g| (g.symbol, g.bit)).collect::<Vec<_>>();
    for nsym in 1..=3 {
        let mut want = Vec::new();
        for half in 0..2 {
            for k in (0..29).step_by(nsym) {
                want.push((k + if half == 0 { 7 } else { 43 }, 3 * k + 87 * half));
            }
        }
        assert_eq!(list(nsym), want);
    }
    assert_eq!((list(1).len(), list(2).len(), list(3).len()), (58, 30, 20));
}

#[test]
fn steps_of_the_search() {
    assert_eq!(search_step(-12, 0), None);
    assert_eq!(search_step(-11, 0), Some(0));
    assert_eq!(search_step(48, 78), Some(371));
    assert_eq!(search_step(49, 78), None);
    assert_eq!(search_step(i32::MAX - 12, 0), None);
    assert_eq!(search_step(i32::MIN, 0), None);
}

#[test]
fn noise_is_measured_in_tenths() {
    let s = noise_segments(32, 1120);
    assert_eq!((s[0], s[1], s[9]), ((32, 139), (140, 247), (1004, 1111)));
    assert_eq!(noise_segments(5, 14)[9], (14, 14));
    assert_eq!((noise_index(1), noise_index(108)), (0, 10));
}

#[test]
fn course_of_a_good_word() {
    let code = small_code();
    let received = [1u8; 174];
    let mut course = DecodeCourse::new(&code, 1);
    let mut word = [0u8; 174];
    word[91] = 1;
    assert!(matches!(course.take_word(&word, &received), NextStep::Iterate));
    match course.take_word(&[0; 174], &received) {
        NextStep::Finished(r) => {
            assert_eq!((r.success, r.iter, r.ntype, r.nharderror), (true, 1, 1, 174));
        }
        _ => panic!("not finished"),
    }
}

#[test]
fn course_of_a_lost_word() {
    let code = small_code();
    let mut word = [0u8; 174];
    word[91..].fill(1);
    let received = [0u8; 174];
    for (maxosd, tries) in [(0, 0), (1, 1), (2, 2), (9, 3)] {
        let mut course = DecodeCourse::new(&code, maxosd);
        let mut next = NextStep::Iterate;
        let mut words = 0;
        let mut orders = Vec::new();
        let result = loop {
            next = match next {
                NextStep::Iterate => {
                    words += 1;
                    course.take_word(&word, &received)
                }
                NextStep::Order(i) => {
                    orders.push(i);
                    course.take_ordered(&None, &received)
                }
                NextStep::Finished(r) => break r,
            };
        };
        assert_eq!((words, orders.len()), (11, tries));
        assert_eq!(orders, (1..=tries).collect::<Vec<usize>>());
        assert_eq!((result.success, result.ncheck, result.iter), (false, 83, 30));
    }
    let mut course = DecodeCourse::new(&code, 1);
    while matches!(course.take_word(&word, &received), NextStep::Iterate) {}
    let good = encode(&code.generator, &message_with_crc(&[1u8; 77]));
    let ones = good.iter().filter(|&&b| b == 1).count() as i32;
    match course.take_ordered(&Some(good.clone()), &received) {
        NextStep::Finished(r) => {
            assert_eq!((r.success, r.iter, r.ntype, r.nharderror), (true, 0, 2, ones));
            assert_eq!(r.message_bits, good[..91]);
            assert_eq!(code.checks.count_failed(&r.codeword), 0);
        }
        _ => panic!("not finished"),
    }
}
