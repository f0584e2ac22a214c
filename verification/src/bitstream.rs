//! Scanning of "bitstream" recordings, whose 12-bit words are packed one after
//! another without alignment to bytes: the bits are read one at a time and the
//! positions of the synchronisation words are reported.

use crate::sync::{is_sync, sync_subframe, SYNC1};
use vstd::prelude::*;

verus! {

/// The mask of bit `k` (0 to 7) of a byte in reading order: from bit 7 down
/// to bit 0 when `high_first`, else from bit 0 up to bit 7.
pub open spec fn bit_mask(high_first: bool, k: int) -> u8 {
    if high_first {
        0x80u8 >> (k as u8)
    } else {
        0x01u8 << (k as u8)
    }
}

/// Bit `i` of the stream that `buf` holds, bytes in order and the bits of each
/// byte in reading order.
pub open spec fn bit_at(buf: Seq<u8>, high_first: bool, i: int) -> bool {
    buf[i / 8] & bit_mask(high_first, i % 8) != 0
}

proof fn lemma_mask_step(high_first: bool, k: u8)
    requires
        k < 8,
    ensures
        bit_mask(high_first, k as int) != 0,
        k < 7 && high_first ==> bit_mask(high_first, k as int) >> 1u8 == bit_mask(high_first, k + 1),
        k == 7 && high_first ==> bit_mask(high_first, k as int) >> 1u8 == 0,
        k < 7 && !high_first ==> bit_mask(high_first, k as int) << 1u8 == bit_mask(high_first, k + 1),
        k == 7 && !high_first ==> bit_mask(high_first, k as int) << 1u8 == 0,
{
    assert(k < 8 ==> 0x80u8 >> k != 0 && 0x01u8 << k != 0) by (bit_vector);
    assert(k < 7 ==> (0x80u8 >> k) >> 1u8 == 0x80u8 >> ((k + 1) as u8)) by (bit_vector);
    assert(k < 7 ==> (0x01u8 << k) << 1u8 == 0x01u8 << ((k + 1) as u8)) by (bit_vector);
    assert(k == 7 ==> (0x80u8 >> k) >> 1u8 == 0 && (0x01u8 << k) << 1u8 == 0) by (bit_vector);
}

/// Reads a byte buffer one bit at a time.
pub struct GetBit {
    pub buf: Vec<u8>,
    /// Number of bytes in `buf`.
    pub len: usize,
    /// Index of the byte being read.
    pub byte_cnt: usize,
    /// Mask of the next bit in the current byte.
    pub bit: u8,
    /// Number of bits of the current byte already read (0 to 7).
    pub bit_cnt: u8,
    /// Bit order: `true` reads bit 7 to bit 0, `false` bit 0 to bit 7.
    pub order: bool,
}

impl GetBit {
    /// The reader's fields agree: `len` is the buffer's length, the position
    /// is within the buffer and `bit` is the mask of the next bit.
    pub open spec fn wf(&self) -> bool {
        &&& self.len == self.buf@.len()
        &&& self.byte_cnt <= self.len
        &&& self.bit_cnt < 8
        &&& self.bit == bit_mask(self.order, self.bit_cnt as int)
        &&& self.byte_cnt == self.len ==> self.bit_cnt == 0
    }

    /// Number of bits read so far.
    pub open spec fn pos(&self) -> int {
        self.byte_cnt * 8 + self.bit_cnt
    }

    /// A reader at the first bit of `buf`.
    pub fn new(buf: Vec<u8>, order: bool) -> (g: Self)
        ensures
            g.wf(),
            g.buf@ == buf@,
            g.order == order,
            g.byte_cnt == 0,
            g.bit_cnt == 0,
    {
        let bit;
        if order {
            bit = 0x80;
        } else {
            bit = 0x01;
        }
        assert(0x80u8 >> 0u8 == 0x80u8 && 0x01u8 << 0u8 == 0x01u8) by (bit_vector);
        Self { len: buf.len(), buf: buf, byte_cnt: 0, bit, bit_cnt: 0, order: order }
    }

    /// The next bit, `None` at the end of the buffer (at once for an empty
    /// buffer).
    pub fn next(&mut self) -> (r: Option<bool>)
        requires
            old(self).wf(),
        ensures
            final(self).wf(),
            final(self).buf == old(self).buf,
            final(self).len == old(self).len,
            final(self).order == old(self).order,
            old(self).pos() <= 8 * old(self).len,
            r is None <==> old(self).pos() == 8 * old(self).len,
            old(self).byte_cnt >= old(self).len ==> r is None && *final(self) == *old(self),
            old(self).byte_cnt < old(self).len ==> r == Some(bit_at(old(self).buf@, old(self).order, old(self).pos()))
                && final(self).pos() == old(self).pos() + 1,
    {
        if self.byte_cnt >= self.len {
            return None;
        }
        let ghost p = self.pos();
        proof {
            lemma_mask_step(self.order, self.bit_cnt);
            if self.bit_cnt < 7 {
                lemma_mask_step(self.order, (self.bit_cnt + 1) as u8);
            }
            assert(p / 8 == self.byte_cnt && p % 8 == self.bit_cnt);
        }
        let result;
        if self.buf[self.byte_cnt] & self.bit == 0 {
            result = false;
        } else {
            result = true;
        }
        if self.order {
            self.bit >>= 1;
        } else {
            self.bit <<= 1;
        }
        self.bit_cnt += 1;
        if self.bit == 0 {
            if self.order {
                self.bit = 0x80;
            } else {
                self.bit = 0x01;
            }
            self.bit_cnt = 0;
            self.byte_cnt += 1;
        }
        assert(0x80u8 >> 0u8 == 0x80u8 && 0x01u8 << 0u8 == 0x01u8) by (bit_vector);
        Some(result)
    }
}

/// Something the bitstream scan reports.
#[derive(Debug, PartialEq, Eq, Structural)]
pub enum ScanEvent {
    /// A synchronisation word (`sync` 1 to 4) ends at 12-bit word `word_cnt`,
    /// bit `bit`, which is `word_len` words after the previous reported one;
    /// the reader then stands at byte `byte_cnt`, bit `byte_bit`, `byte_len`
    /// bytes after the previous report.
    Sync { sync: u8, word_cnt: usize, bit: i32, word_len: usize, byte_cnt: usize, byte_bit: u8, byte_len: usize },
    /// A run of `count` (more than 64) words 0xFFF ended.
    FffRun { count: usize },
    /// The scan stopped after `words` words, at byte `bytes`.
    Limit { words: usize, bytes: usize },
}

/// The state of the bitstream scan.
pub struct BitScan {
    /// The last 12 bits read.
    pub word: u16,
    /// The bit position (0 to 11) within a word at which the first
    /// synchronisation word was seen, -1 when none is being followed.
    pub mark: i32,
    /// Bit position within the current word (0 to 11).
    pub bit_cnt: i32,
    /// Number of whole 12-bit words read.
    pub word_cnt: usize,
    /// Word count at the previous reported synchronisation word.
    pub word_cnt2: usize,
    /// Byte count at the previous reported synchronisation word.
    pub byte_cnt2: usize,
    /// Number of consecutive words 0xFFF.
    pub fff_cnt: usize,
}

/// The state before the first bit.
pub open spec fn scan_start() -> BitScan {
    BitScan { word: 0, mark: -1i32, bit_cnt: 0, word_cnt: 0, word_cnt2: 0, byte_cnt2: 0, fff_cnt: 0 }
}

/// The 12-bit word after bit `bit` is shifted in: from the right (`move_left`)
/// or from the left.
pub open spec fn shift_in(w: u16, bit: bool, move_left: bool) -> u16 {
    let shifted: u16 = if move_left {
        w << 1u16
    } else {
        w >> 1u16
    };
    let with_bit: u16 = if !bit {
        shifted
    } else if move_left {
        shifted | 0x1u16
    } else {
        shifted | 0x800u16
    };
    with_bit & 0xfffu16
}

/// One step of the scan on bit `bit`, after which the reader stands at byte
/// `byte_cnt`, bit `byte_bit`: the next state, what is reported, and whether
/// the scan stops (its word limit `rawlen`, when not 0, is passed).
///
/// A synchronisation word is reported when every bit position is looked at
/// (`no_align`) or when it ends at the bit position of the first one found.
/// That position is forgotten after more than 0x1000 words without a report,
/// and after a run of more than 64 words 0xFFF, which is reported.
#[verifier::opaque]
pub open spec fn scan_step(
    s: BitScan,
    bit: bool,
    byte_cnt: usize,
    byte_bit: u8,
    move_left: bool,
    no_align: bool,
    rawlen: usize,
) -> (BitScan, Seq<ScanEvent>, bool) {
    let w = shift_in(s.word, bit, move_left);
    let mark1 = if s.mark < 0 && w == SYNC1 {
        s.bit_cnt
    } else {
        s.mark
    };
    let hit = (no_align || s.bit_cnt == mark1) && is_sync(w);
    let ev1 = if hit {
        seq![
            ScanEvent::Sync {
                sync: sync_subframe(w) as u8,
                word_cnt: s.word_cnt,
                bit: s.bit_cnt,
                word_len: (s.word_cnt - s.word_cnt2) as usize,
                byte_cnt,
                byte_bit,
                byte_len: (byte_cnt - s.byte_cnt2) as usize,
            },
        ]
    } else {
        Seq::<ScanEvent>::empty()
    };
    let wc2 = if hit {
        s.word_cnt
    } else {
        s.word_cnt2
    };
    let bc2 = if hit {
        byte_cnt
    } else {
        s.byte_cnt2
    };
    let mark2 = if s.word_cnt - wc2 > 0x1000 {
        -1i32
    } else {
        mark1
    };
    let word_end = s.bit_cnt + 1 >= 12;
    let wc = if word_end {
        (s.word_cnt + 1) as usize
    } else {
        s.word_cnt
    };
    let fff_end = word_end && w != 0xfff && s.fff_cnt > 64;
    let fff = if !word_end {
        s.fff_cnt
    } else if w == 0xfff {
        (s.fff_cnt + 1) as usize
    } else {
        0usize
    };
    let mark3 = if fff_end {
        -1i32
    } else {
        mark2
    };
    let ev2 = if fff_end {
        seq![ScanEvent::FffRun { count: s.fff_cnt }]
    } else {
        Seq::<ScanEvent>::empty()
    };
    let stop = rawlen > 0 && wc > rawlen;
    let ev3 = if stop {
        seq![ScanEvent::Limit { words: rawlen, bytes: byte_cnt }]
    } else {
        Seq::<ScanEvent>::empty()
    };
    let next = BitScan {
        word: w,
        mark: mark3,
        bit_cnt: if word_end {
            0i32
        } else {
            (s.bit_cnt + 1) as i32
        },
        word_cnt: wc,
        word_cnt2: wc2,
        byte_cnt2: bc2,
        fff_cnt: fff,
    };
    (next, ev1 + ev2 + ev3, stop)
}

/// What the scan reports from bit `pos` on, in state `s`, until the end of
/// the stream or its word limit.
pub open spec fn scan_from(
    buf: Seq<u8>,
    high_first: bool,
    move_left: bool,
    no_align: bool,
    rawlen: usize,
    s: BitScan,
    pos: int,
) -> Seq<ScanEvent>
    decreases buf.len() * 8 - pos,
{
    if pos < 0 || pos >= buf.len() * 8 {
        Seq::<ScanEvent>::empty()
    } else {
        let r = scan_step(
            s,
            bit_at(buf, high_first, pos),
            ((pos + 1) / 8) as usize,
            ((pos + 1) % 8) as u8,
            move_left,
            no_align,
            rawlen,
        );
        if r.2 {
            r.1
        } else {
            r.1 + scan_from(buf, high_first, move_left, no_align, rawlen, r.0, pos + 1)
        }
    }
}

/// The bounds that the scan state keeps after `pos` bits, with the reader at
/// byte `byte_cnt`.
pub open spec fn scan_inv(s: BitScan, pos: int, byte_cnt: int) -> bool {
    &&& 0 <= s.bit_cnt < 12
    &&& s.word_cnt * 12 + s.bit_cnt == pos
    &&& -1 <= s.mark < 12
    &&& s.word_cnt2 <= s.word_cnt
    &&& s.byte_cnt2 <= byte_cnt
    &&& s.fff_cnt <= s.word_cnt
    &&& s.word <= 0xfff
}

impl BitScan {
    /// Takes one bit (see [`scan_step`]); appends what is reported to `events`
    /// and returns whether the scan stops.
    pub fn step(
        &mut self,
        bit: bool,
        byte_cnt: usize,
        byte_bit: u8,
        move_left: bool,
        no_align: bool,
        rawlen: usize,
        events: &mut Vec<ScanEvent>,
    ) -> (stop: bool)
        requires
            scan_inv(*old(self), old(self).word_cnt * 12 + old(self).bit_cnt, old(self).byte_cnt2 as int),
            old(self).byte_cnt2 <= byte_cnt,
            old(self).word_cnt < usize::MAX,
        ensures
            ({
                let r = scan_step(*old(self), bit, byte_cnt, byte_bit, move_left, no_align, rawlen);
                &&& *final(self) == r.0
                &&& final(events)@ == old(events)@ + r.1
                &&& stop == r.2
            }),
            scan_inv(*final(self), old(self).word_cnt * 12 + old(self).bit_cnt + 1, byte_cnt as int),
    {
        let ghost s0 = *self;
        let ghost e0 = events@;
        let ghost r = scan_step(s0, bit, byte_cnt, byte_bit, move_left, no_align, rawlen);
        proof {
            reveal(scan_step);
        }
        if move_left {
            self.word <<= 1;
        } else {
            self.word >>= 1;
        }
        if bit {
            if move_left {
                self.word |= 0x1;
            } else {
                self.word |= 0x800;
            }
        }
        let w0 = self.word;
        assert(w0 & 0xfffu16 <= 0xfff) by (bit_vector);
        self.word &= 0xfff;
        let w = self.word;
        assert(w == shift_in(s0.word, bit, move_left));
        if self.mark < 0 && w == SYNC1 {
            self.mark = self.bit_cnt;
        }
        if no_align || self.bit_cnt == self.mark {
            let sync: u8 = if w == 0x247 {
                1
            } else if w == 0x5B8 {
                2
            } else if w == 0xA47 {
                3
            } else if w == 0xDB8 {
                4
            } else {
                0
            };
            if sync > 0 {
                events.push(
                    ScanEvent::Sync {
                        sync,
                        word_cnt: self.word_cnt,
                        bit: self.bit_cnt,
                        word_len: self.word_cnt - self.word_cnt2,
                        byte_cnt,
                        byte_bit,
                        byte_len: byte_cnt - self.byte_cnt2,
                    },
                );
                self.word_cnt2 = self.word_cnt;
                self.byte_cnt2 = byte_cnt;
            }
        }
        if self.word_cnt - self.word_cnt2 > 0x1000 {
            self.mark = -1;
        }
        self.bit_cnt += 1;
        if self.bit_cnt >= 12 {
            self.bit_cnt = 0;
            self.word_cnt += 1;
            if w == 0xfff {
                self.fff_cnt += 1;
            } else {
                if self.fff_cnt > 64 {
                    events.push(ScanEvent::FffRun { count: self.fff_cnt });
                    self.mark = -1;
                }
                self.fff_cnt = 0;
            }
        }
        let stop = rawlen > 0 && self.word_cnt > rawlen;
        if stop {
            events.push(ScanEvent::Limit { words: rawlen, bytes: byte_cnt });
        }
        proof {
            assert(events@ =~= e0 + r.1);
        }
        stop
    }
}

/// Scans a bitstream recording: reads `buf` bit by bit (see [`GetBit`]),
/// builds 12-bit words and reports where synchronisation words and long runs
/// of 0xFFF words are, until the end of `buf` or until more than `rawlen`
/// words (when not 0) have been read.
pub fn scan_bitstream(buf: Vec<u8>, high_first: bool, move_left: bool, no_align: bool, rawlen: usize) -> (events: Vec<ScanEvent>)
    ensures
        events@ == scan_from(buf@, high_first, move_left, no_align, rawlen, scan_start(), 0),
{
    let ghost b = buf@;
    let mut bits = GetBit::new(buf, high_first);
    let mut scan = BitScan { word: 0, mark: -1, bit_cnt: 0, word_cnt: 0, word_cnt2: 0, byte_cnt2: 0, fff_cnt: 0 };
    let mut events: Vec<ScanEvent> = Vec::new();
    proof {
        assert(events@ + scan_from(b, high_first, move_left, no_align, rawlen, scan, 0) =~= scan_from(
            b,
            high_first,
            move_left,
            no_align,
            rawlen,
            scan_start(),
            0,
        ));
    }
    loop
        invariant_except_break
            events@ + scan_from(b, high_first, move_left, no_align, rawlen, scan, bits.pos())
                == scan_from(b, high_first, move_left, no_align, rawlen, scan_start(), 0),
        invariant
            bits.wf(),
            bits.buf@ == b,
            bits.order == high_first,
            scan_inv(scan, bits.pos(), bits.byte_cnt as int),
        ensures
            events@ == scan_from(b, high_first, move_left, no_align, rawlen, scan_start(), 0),
        decreases b.len() * 8 - bits.pos(),
    {
        let ghost p = bits.pos();
        let bit = match bits.next() {
            Some(tmp) => tmp,
            None => {
                assert(scan_from(b, high_first, move_left, no_align, rawlen, scan, bits.pos()) =~= Seq::<ScanEvent>::empty());
                assert(events@ =~= events@ + Seq::<ScanEvent>::empty());
                break;
            },
        };
        proof {
            assert(p < b.len() * 8) by (nonlinear_arith)
                requires
                    p == bits.byte_cnt * 8 + bits.bit_cnt - 1,
                    bits.byte_cnt <= b.len(),
                    bits.byte_cnt == b.len() ==> bits.bit_cnt == 0,
                    bits.bit_cnt < 8,
            ;
            assert(bits.byte_cnt == (p + 1) / 8 && bits.bit_cnt == (p + 1) % 8);
            assert(scan.word_cnt < usize::MAX) by (nonlinear_arith)
                requires
                    scan.word_cnt * 12 + scan.bit_cnt == p,
                    p < b.len() * 8,
                    b.len() <= usize::MAX,
                    scan.bit_cnt >= 0,
            ;
        }
        let ghost s0 = scan;
        let ghost e0 = events@;
        let stop = scan.step(bit, bits.byte_cnt, bits.bit_cnt, move_left, no_align, rawlen, &mut events);
        proof {
            let r = scan_step(s0, bit, bits.byte_cnt, bits.bit_cnt, move_left, no_align, rawlen);
            assert(scan_from(b, high_first, move_left, no_align, rawlen, s0, p) == if r.2 {
                r.1
            } else {
                r.1 + scan_from(b, high_first, move_left, no_align, rawlen, r.0, p + 1)
            });
            if !stop {
                assert(events@ + scan_from(b, high_first, move_left, no_align, rawlen, scan, p + 1)
                    =~= e0 + (r.1 + scan_from(b, high_first, move_left, no_align, rawlen, r.0, p + 1)));
            }
        }
        if stop {
            break;
        }
    }
    events
}

/// When one bit is taken in state `s`, a `Sync` event is reported exactly when
/// the last 12 bits form one of the four synchronisation words (0x247, 0x5B8,
/// 0xA47, 0xDB8, numbered 1 to 4) and either every bit position is looked at
/// (`no_align`), or the word ends at the bit position marked by the first
/// 0x247, or no position is marked yet and the word is 0x247.  The event comes
/// first, carries the word's number and the positions, and is the only `Sync`
/// event of the step.
pub proof fn law_step_sync_event(
    s: BitScan,
    bit: bool,
    byte_cnt: usize,
    byte_bit: u8,
    move_left: bool,
    no_align: bool,
    rawlen: usize,
)
    requires
        0 <= s.bit_cnt,
    ensures
        ({
            let r = scan_step(s, bit, byte_cnt, byte_bit, move_left, no_align, rawlen);
            let w = shift_in(s.word, bit, move_left);
            let looked_at = no_align || s.mark == s.bit_cnt || (s.mark < 0 && w == 0x247);
            let num: u8 = if w == 0x247 {
                1
            } else if w == 0x5B8 {
                2
            } else if w == 0xA47 {
                3
            } else {
                4
            };
            let named = w == 0x247 || w == 0x5B8 || w == 0xA47 || w == 0xDB8;
            &&& (r.1.len() > 0 && r.1[0] is Sync) <==> (looked_at && named)
            &&& looked_at && named ==> r.1[0] == ScanEvent::Sync {
                sync: num,
                word_cnt: s.word_cnt,
                bit: s.bit_cnt,
                word_len: (s.word_cnt - s.word_cnt2) as usize,
                byte_cnt,
                byte_bit,
                byte_len: (byte_cnt - s.byte_cnt2) as usize,
            }
            &&& forall|k: int| 0 < k < r.1.len() ==> !(#[trigger] r.1[k] is Sync)
        }),
{
    reveal(scan_step);
}

} // verus!
