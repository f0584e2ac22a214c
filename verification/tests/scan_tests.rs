use qar_decode::aligned::{scan_aligned, AlignedEvent};
use qar_decode::bitstream::{scan_bitstream, BitScan, GetBit, ScanEvent};

/// Packs 12-bit words low bits first, as a bitstream recorder writes them.
fn pack12(words: &[u16]) -> Vec<u8> {
    let mut bits: Vec<bool> = Vec::new();
    for w in words {
        for i in 0..12 {
            bits.push((w >> i) & 1 == 1);
        }
    }
    while bits.len() % 8 != 0 {
        bits.push(false);
    }
    let mut out = Vec::new();
    for chunk in bits.chunks(8) {
        let mut b = 0u8;
        for (i, bit) in chunk.iter().enumerate() {
            if *bit {
                b |= 1 << i;
            }
        }
        out.push(b);
    }
    out
}

#[test]
fn getbit_high_first_order() {
    let mut g = GetBit::new(vec![0b1000_0001, 0b0100_0000], true);
    assert_eq!(g.len, 2);
    assert_eq!(g.bit, 0x80);
    let mut got = Vec::new();
    while let Some(b) = g.next() {
        got.push(b);
    }
    assert_eq!(
        got,
        vec![true, false, false, false, false, false, false, true, false, true, false, false, false, false, false, false]
    );
    assert_eq!(g.byte_cnt, 2);
    assert_eq!(g.bit_cnt, 0);
    assert_eq!(g.next(), None);
}

#[test]
fn getbit_low_first_order() {
    let mut g = GetBit::new(vec![0b0000_0110], false);
    assert_eq!(g.bit, 0x01);
    assert_eq!(g.next(), Some(false));
    assert_eq!(g.next(), Some(true));
    assert_eq!(g.next(), Some(true));
    assert_eq!(g.byte_cnt, 0);
    assert_eq!(g.bit_cnt, 3);
    assert_eq!(g.bit, 0x08);
    for _ in 0..5 {
        assert_eq!(g.next(), Some(false));
    }
    assert_eq!(g.byte_cnt, 1);
    assert_eq!(g.next(), None);
}

#[test]
fn bitstream_reports_aligned_sync_words() {
    let buf = pack12(&[0x247, 0x000, 0x5B8, 0x000]);
    assert_eq!(buf.len(), 6);
    let events = scan_bitstream(buf, false, false, false, 0);
    assert_eq!(
        events,
        vec![
            ScanEvent::Sync { sync: 1, word_cnt: 0, bit: 11, word_len: 0, byte_cnt: 1, byte_bit: 4, byte_len: 1 },
            ScanEvent::Sync { sync: 2, word_cnt: 2, bit: 11, word_len: 2, byte_cnt: 4, byte_bit: 4, byte_len: 3 },
        ]
    );
}

#[test]
fn bitstream_stops_at_word_limit() {
    let buf = pack12(&[0x247, 0x000, 0x5B8, 0x000]);
    let events = scan_bitstream(buf, false, false, false, 1);
    assert_eq!(
        events,
        vec![
            ScanEvent::Sync { sync: 1, word_cnt: 0, bit: 11, word_len: 0, byte_cnt: 1, byte_bit: 4, byte_len: 1 },
            ScanEvent::Limit { words: 1, bytes: 3 },
        ]
    );
}

#[test]
fn bitstream_reports_long_fff_run() {
    let mut words = vec![0xFFFu16; 70];
    words.push(0x000);
    let buf = pack12(&words);
    let events = scan_bitstream(buf, false, false, false, 0);
    assert_eq!(events, vec![ScanEvent::FffRun { count: 70 }]);
}

#[test]
fn bitstream_step_shifts_bits_in() {
    let mut s = BitScan { word: 0, mark: -1, bit_cnt: 0, word_cnt: 0, word_cnt2: 0, byte_cnt2: 0, fff_cnt: 0 };
    let mut ev = Vec::new();
    let stop = s.step(true, 0, 1, true, false, 0, &mut ev);
    assert!(!stop);
    assert_eq!(s.word, 1);
    assert_eq!(s.bit_cnt, 1);
    let stop = s.step(true, 0, 2, false, false, 0, &mut ev);
    assert!(!stop);
    assert_eq!(s.word, 0x800);
    assert!(ev.is_empty());
}

#[test]
fn aligned_reports_sync_words_and_parity() {
    let buf = [0x47u8, 0x02, 0x00, 0x00, 0xB8, 0x05, 0x00, 0x47, 0x0A];
    let events = scan_aligned(&buf, 0);
    assert_eq!(
        events,
        vec![
            AlignedEvent::Sync { sync: 1, word_cnt: 0, byte: 0, word_len: 0 },
            AlignedEvent::Sync { sync: 2, word_cnt: 2, byte: 0, word_len: 2 },
            AlignedEvent::Sync { sync: 3, word_cnt: 4, byte: 1, word_len: 2 },
        ]
    );
}

#[test]
fn aligned_stops_after_limit() {
    let buf = [0x47u8, 0x02, 0x00, 0x00, 0xB8, 0x05];
    let events = scan_aligned(&buf, 2);
    assert_eq!(
        events,
        vec![AlignedEvent::Sync { sync: 1, word_cnt: 0, byte: 0, word_len: 0 }, AlignedEvent::Limit { bytes: 2 }]
    );
}

#[test]
fn aligned_empty_input() {
    assert!(scan_aligned(&[], 0).is_empty());
}

#[test]
fn getbit_on_empty_buffer() {
    let mut g = GetBit::new(Vec::new(), true);
    assert_eq!(g.len, 0);
    assert_eq!(g.byte_cnt, 0);
    assert_eq!(g.bit, 0x80);
    assert_eq!(g.next(), None);
    assert_eq!(g.next(), None);
    assert!(scan_bitstream(Vec::new(), false, false, false, 0).is_empty());
}
