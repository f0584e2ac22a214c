use qar_decode::config::{default_options, Param};
use qar_decode::decode::{counter_fits, frame_set_fits, get_param, param_fits, param_rate, ValueKind};
use qar_decode::dword::{
    extraction16_fits, extraction_fits, get_dword_raw, get_dword_raw_subframe, get_subframe_raws, get_word_raw16,
};
use qar_decode::sync::{find_frame, find_sync, find_sync_subframe, SYNC1, SYNC2, SYNC3, SYNC4};
use qar_decode::info::param_info;
use qar_decode::values::SampleValue;

const WPS: usize = 8;

fn put(buf: &mut Vec<u8>, pos: usize, w: u16) {
    buf[pos] = (w & 0xff) as u8;
    buf[pos + 1] = (w >> 8) as u8;
}

/// `frames` frames of four subframes of `WPS` words after `lead` zero bytes;
/// word 2 of subframe `s` of frame `f` holds `100 * f + s`, word 3 holds `f`.
fn recording(lead: usize, frames: usize) -> Vec<u8> {
    let mut buf = vec![0u8; lead + frames * 8 * WPS];
    let syncs = [SYNC1, SYNC2, SYNC3, SYNC4];
    for f in 0..frames {
        for s in 0..4 {
            let p = lead + f * 8 * WPS + s * 2 * WPS;
            put(&mut buf, p, syncs[s]);
            put(&mut buf, p + 2, (100 * f + s + 1) as u16);
            put(&mut buf, p + 4, f as u16);
        }
    }
    buf
}

fn param(words: Vec<Vec<usize>>, signed: bool, fmt: &str, conv: Vec<u8>) -> Param {
    Param {
        words,
        superframe: 0,
        signed,
        RecFormat: fmt.to_string(),
        ConvConfig: conv,
        Unit: String::new(),
        LongName: String::new(),
        Options: default_options(),
    }
}

#[test]
fn default_options_is_empty() {
    assert!(default_options().is_empty());
}

#[test]
fn find_sync_skips_to_first_sync_word() {
    let buf = recording(3, 1);
    let mut byte_cnt = 0usize;
    let mut word_cnt = 0usize;
    assert!(find_sync(&mut byte_cnt, &mut word_cnt, WPS, buf.len(), &buf));
    assert_eq!(byte_cnt, 3);
    assert_eq!(word_cnt, 1);
}

#[test]
fn find_sync_fails_without_sync() {
    let buf = vec![0u8; 40];
    let mut byte_cnt = 0usize;
    let mut word_cnt = 0usize;
    assert!(!find_sync(&mut byte_cnt, &mut word_cnt, WPS, buf.len(), &buf));
    assert_eq!(byte_cnt, 38);
}

#[test]
fn find_sync_subframe_records_subframe() {
    let buf = recording(0, 1);
    let mut byte_cnt = 1usize;
    let mut word_cnt = 0usize;
    let mut sub = 0usize;
    assert!(find_sync_subframe(&mut byte_cnt, &mut word_cnt, WPS, &mut sub, buf.len(), &buf));
    assert_eq!(byte_cnt, 2 * WPS);
    assert_eq!(sub, 2);
}

#[test]
fn find_frame_needs_all_four_sync_words() {
    let mut buf = recording(4, 2);
    // break the second subframe of the first frame
    put(&mut buf, 4 + 2 * WPS, 0);
    let mut byte_cnt = 0usize;
    let mut word_cnt = 0usize;
    assert!(find_frame(&mut byte_cnt, &mut word_cnt, WPS, buf.len(), &buf));
    assert_eq!(byte_cnt, 4 + 8 * WPS);
}

#[test]
fn find_frame_rejects_truncated_frame() {
    let buf = recording(0, 1);
    let short = &buf[..8 * WPS - 2];
    let mut byte_cnt = 0usize;
    let mut word_cnt = 0usize;
    assert!(!find_frame(&mut byte_cnt, &mut word_cnt, WPS, short.len(), short));
    assert_eq!(byte_cnt, 0);
}

#[test]
fn dword_concatenates_groups_last_most_significant() {
    let mut buf = vec![0u8; 16];
    put(&mut buf, 2, 0x0AB); // word 2
    put(&mut buf, 4, 0x0C0); // word 3
    // word 2 bits 1..8 (0xAB) low, word 3 bits 7..8 (0b11) high
    let set = vec![0, 2, 1, 8, 0, 0, 3, 7, 8, 0];
    assert!(extraction_fits(&buf, &set, false, 0, 0, 1, false));
    assert_eq!(get_dword_raw_subframe(&set, false, 0, 1, &buf), Some(0x3AB));
}

#[test]
fn dword_sign_correction() {
    let mut buf = vec![0u8; 8];
    put(&mut buf, 0, 0x0FFF);
    let set = vec![0, 1, 1, 12, 0];
    assert_eq!(get_dword_raw_subframe(&set, true, 0, 1, &buf), Some(-1));
    assert_eq!(get_dword_raw_subframe(&set, false, 0, 1, &buf), Some(0xFFF));
}

#[test]
fn dword_other_subframe_gives_none() {
    let buf = vec![0u8; 8];
    let set = vec![3, 1, 1, 12, 0];
    assert_eq!(get_dword_raw_subframe(&set, false, 0, 2, &buf), None);
}

#[test]
fn extraction_fits_rejects_bad_groups() {
    let buf = vec![0u8; 8];
    assert!(!extraction_fits(&buf, &vec![0, 1, 1, 12], false, 0, 0, 1, false));
    assert!(!extraction_fits(&buf, &vec![0, 0, 1, 12, 0], false, 0, 0, 1, false));
    assert!(!extraction_fits(&buf, &vec![0, 5, 1, 12, 0], false, 0, 0, 1, false));
    assert!(!extraction_fits(&buf, &vec![0, 1, 5, 4, 0], false, 0, 0, 1, false));
    assert!(extraction_fits(&buf, &vec![0, 4, 1, 12, 0], false, 0, 0, 1, false));
    // a group of another subframe is never read, so its word is not checked
    assert!(extraction_fits(&buf, &vec![2, 9, 1, 12, 0, 0, 1, 1, 12, 0], false, 0, 0, 1, false));
}

#[test]
fn subframe_raws_skip_other_subframes() {
    let mut buf = vec![0u8; 8];
    put(&mut buf, 0, 5);
    put(&mut buf, 2, 7);
    let words = vec![vec![0, 1, 1, 12, 0], vec![2, 2, 1, 12, 0], vec![1, 2, 1, 12, 0]];
    assert_eq!(get_subframe_raws(&words, false, 0, 1, &buf), vec![5, 7]);
    assert_eq!(get_subframe_raws(&words, false, 0, 2, &buf), vec![5, 7]);
    assert_eq!(get_subframe_raws(&words, false, 0, 3, &buf), vec![5]);
}

#[test]
fn frame_dword_reads_named_subframe() {
    let buf = recording(0, 1);
    let prm = param(vec![vec![0, 3, 2, 1, 12, 0]], false, "BNR", vec![]);
    let mut err = 0u8;
    let set = vec![0, 3, 2, 1, 12, 0];
    assert_eq!(get_dword_raw(&prm, &set, 0, WPS, 0, &buf, &mut err), Some(3));
    assert_eq!(err, 0);
    let set2 = vec![0, 0, 2, 1, 12, 1];
    assert_eq!(get_dword_raw(&prm, &set2, 0, WPS, 4, &buf, &mut err), Some(4));
    assert_eq!(err, 1);
}

#[test]
fn checks_of_configurations() {
    assert!(frame_set_fits(&vec![0, 0, 2, 1, 12, 0], WPS, true));
    assert!(!frame_set_fits(&vec![0, 0, 2, 1, 12, 0], WPS, false));
    assert!(!frame_set_fits(&vec![0, 1, 9, 1, 12, 0], WPS, true));
    assert!(!frame_set_fits(&vec![0, 5, 2, 1, 12, 0], WPS, true));
    assert!(counter_fits(&vec![0, 1, 3, 1, 4, 0], WPS));
    assert!(!counter_fits(&vec![0, 1, 3, 1, 30, 0, 0, 1, 4, 1, 12, 0], WPS));
    assert!(param_fits(&param(vec![vec![0, 0, 2, 1, 12, 0]], true, "BNR", vec![]), WPS));
    assert!(!param_fits(&param(vec![], false, "BNR", vec![]), WPS));
    assert!(!param_fits(&param(vec![vec![0, 0, 2, 1, 12, 0, 0, 0, 3, 1, 19, 0]], true, "BNR", vec![]), WPS));
    assert!(param_fits(&param(vec![vec![0, 0, 2, 1, 12, 0]], false, "BCD", vec![4, 4, 4]), WPS));
    assert!(!param_fits(&param(vec![vec![0, 0, 2, 1, 12, 0]], false, "BCD", vec![30, 30]), WPS));
    assert!(!param_fits(&param(vec![vec![0, 0, 2, 1, 12, 0]], false, "ISO5", vec![31]), WPS));
}

#[test]
fn get_param_decodes_every_subframe_of_every_frame() {
    let buf = recording(2, 2);
    let prm = param(vec![vec![0, 0, 2, 1, 12, 0]], false, "BNR", vec![]);
    let counter = param(vec![vec![0, 1, 3, 1, 4, 0]], false, "BNR", vec![]);
    let cset = counter.words[0].clone();
    assert!(param_fits(&prm, WPS) && counter_fits(&cset, WPS));
    let d = get_param(&buf, &prm, &counter, &cset, WPS, 16);
    assert_eq!(d.kind, ValueKind::Float);
    assert_eq!(d.samples.len(), 8);
    for (i, s) in d.samples.iter().enumerate() {
        let f = i / 4;
        let sub = i % 4;
        assert_eq!(s.second, i as i32);
        assert_eq!(s.slot, 0);
        assert!(matches!(s.value, SampleValue::Number(v) if v == (100 * f + sub + 1) as i32));
    }
    assert_eq!((d.rate.num, d.rate.den), (1, 1));
    assert!(!d.counter_target_bits);
    assert!(!d.param_target_bits);
}

#[test]
fn get_param_superframe_parameter_only_in_its_frame() {
    let buf = recording(0, 3);
    let prm = param(vec![vec![2, 1, 2, 1, 12, 0]], false, "BNR", vec![]);
    let counter = param(vec![vec![0, 1, 3, 1, 4, 0]], false, "BNR", vec![]);
    let cset = counter.words[0].clone();
    let d = get_param(&buf, &prm, &counter, &cset, WPS, 16);
    assert_eq!(d.samples.len(), 1);
    assert_eq!(d.samples[0].second, 4);
    assert!(matches!(d.samples[0].value, SampleValue::Number(101)));
    assert_eq!((d.rate.num, d.rate.den), (1, 16));
}

#[test]
fn get_param_without_frames_gives_text_kind() {
    let buf = vec![0u8; 40];
    let prm = param(vec![vec![0, 0, 2, 1, 12, 0]], false, "BNR", vec![]);
    let counter = param(vec![vec![0, 1, 3, 1, 4, 0]], false, "BNR", vec![]);
    let cset = counter.words[0].clone();
    let d = get_param(&buf, &prm, &counter, &cset, WPS, 16);
    assert_eq!(d.samples.len(), 0);
    assert_eq!(d.kind, ValueKind::Str);
}

#[test]
fn get_param_bcd_and_utc_values() {
    let mut buf = recording(0, 1);
    put(&mut buf, 2, 0x0259); // subframe 1, word 2: BCD 2,5,9
    let prm = param(vec![vec![0, 1, 2, 1, 12, 0]], false, "BCD", vec![4, 4, 4]);
    let counter = param(vec![vec![0, 1, 3, 1, 4, 0]], false, "BNR", vec![]);
    let cset = counter.words[0].clone();
    let d = get_param(&buf, &prm, &counter, &cset, WPS, 16);
    assert_eq!(d.samples.len(), 1);
    assert!(matches!(d.samples[0].value, SampleValue::Number(259)));
    assert_eq!(d.kind, ValueKind::Float);

    // 12:34:56 in three 6-bit fields over two words
    let v: u32 = (12 << 12) | (34 << 6) | 56;
    put(&mut buf, 2, (v & 0xfff) as u16);
    put(&mut buf, 4, (v >> 12) as u16);
    let utc = param(vec![vec![0, 1, 2, 1, 12, 0, 0, 1, 3, 1, 6, 0]], false, "UTC", vec![]);
    let d = get_param(&buf, &utc, &counter, &cset, WPS, 16);
    assert_eq!(d.kind, ValueKind::Str);
    assert!(matches!(d.samples[0].value, SampleValue::Utc { hh: 12, mm: 34, ss: 56 }));
}

#[test]
fn param_rate_of_subframe_lists() {
    let prm = param(vec![vec![0, 2, 2, 1, 12, 0], vec![0, 2, 4, 1, 12, 0], vec![0, 3, 4, 1, 12, 0]], false, "BNR", vec![]);
    let r = param_rate(&prm, 16);
    assert_eq!((r.num, r.den), (2, 1));
    let all = param(vec![vec![0, 0, 2, 1, 12, 0], vec![0, 0, 4, 1, 12, 0]], false, "BNR", vec![]);
    let r = param_rate(&all, 16);
    assert_eq!((r.num, r.den), (2, 1));
}

#[test]
fn word_raw16_drops_bits_beyond_sixteen() {
    let mut buf = vec![0u8; 8];
    put(&mut buf, 0, 0x1FF); // word 1
    put(&mut buf, 2, 0x0AB); // word 2
    // word 2 bits 1..8 low (0xAB), word 1 bits 1..9 high (0x1FF): 17 bits, the top one falls off
    let set = vec![0, 2, 1, 8, 0, 1, 1, 9];
    assert!(extraction16_fits(&set, 0, &buf));
    assert_eq!(get_word_raw16(&set, 0, &buf), 0xFFAB);
    let single = vec![3, 2, 2, 5];
    assert_eq!(get_word_raw16(&single, 0, &buf), (0x0AB >> 1) & 0xF);
    assert!(!extraction16_fits(&vec![0, 2, 1, 16], 0, &buf));
    assert!(!extraction16_fits(&vec![0, 5, 1, 8], 0, &buf));
    assert!(!extraction16_fits(&vec![0, 2, 1], 0, &buf));
}

#[test]
fn parameter_info_texts() {
    let bnr = param(vec![vec![0, 0, 2, 1, 12, 0]], false, "BNR", vec![]);
    assert_eq!(param_info(&bnr), "{\"RecFormat\":\"BNR\"}");
    let mut dis = param(vec![vec![0, 0, 2, 1, 12, 0]], false, "DIS", vec![]);
    dis.Options = vec![(0, "OFF".to_string()), (1, "ON".to_string())];
    assert_eq!(param_info(&dis), "{\"Options\":[[0,\"OFF\"],[1,\"ON\"]],\"RecFormat\":\"DIS\"}");
    let mut odd = param(vec![vec![0, 0, 2, 1, 12, 0]], false, "A\"B", vec![]);
    odd.Options = vec![(5, "x".to_string())];
    assert_eq!(param_info(&odd), "{\"RecFormat\":\"A\\\"B\"}");
}
