//! Scanning of "aligned" recordings, whose words are 16-bit little-endian:
//! every pair of neighbouring bytes is tested for a synchronisation word, so
//! that a recording off by one byte is recognised too.

use crate::sync::{is_sync, sync_subframe};
use vstd::prelude::*;

verus! {

/// Something the aligned scan reports.
#[derive(Debug, PartialEq, Eq, Structural)]
pub enum AlignedEvent {
    /// A synchronisation word (`sync` 1 to 4) ends in 16-bit word `word_cnt`,
    /// at its first (`byte` 1) or second (`byte` 0) byte, `word_len` words
    /// after the previous one reported.
    Sync { sync: u8, word_cnt: usize, byte: usize, word_len: usize },
    /// The scan stopped after `bytes` bytes.
    Limit { bytes: usize },
}

/// The 16-bit little-endian word whose high byte is byte `i` and whose low
/// byte is the byte before it (0 before the first byte).
pub open spec fn pair16(buf: Seq<u8>, i: int) -> u16 {
    ((buf[i] as u16) << 8u16) | (if i > 0 {
        buf[i - 1]
    } else {
        0u8
    }) as u16
}

/// What the scan reports from byte `i` on, when the previous report was at
/// word `last`: a synchronisation word wherever [`pair16`] is one (byte `i`
/// lies in word `i / 2`), until the end of `buf` or until a word ends after
/// more than `rawlen` bytes (when `rawlen` is not 0).
pub open spec fn aligned_from(buf: Seq<u8>, rawlen: usize, i: int, last: int) -> Seq<AlignedEvent>
    decreases buf.len() - i,
{
    if i < 0 || i >= buf.len() {
        Seq::<AlignedEvent>::empty()
    } else {
        let w = pair16(buf, i);
        let wc = i / 2;
        let ev = if is_sync(w) {
            seq![
                AlignedEvent::Sync {
                    sync: sync_subframe(w) as u8,
                    word_cnt: wc as usize,
                    byte: ((i + 1) % 2) as usize,
                    word_len: (wc - last) as usize,
                },
            ]
        } else {
            Seq::<AlignedEvent>::empty()
        };
        let last2 = if is_sync(w) {
            wc
        } else {
            last
        };
        if (i + 1) % 2 == 0 && rawlen > 0 && i + 1 > rawlen {
            ev + seq![AlignedEvent::Limit { bytes: rawlen }]
        } else {
            ev + aligned_from(buf, rawlen, i + 1, last2)
        }
    }
}

/// Scans an aligned recording byte by byte and reports where synchronisation
/// words are (see [`aligned_from`]).
pub fn scan_aligned(buf: &[u8], rawlen: usize) -> (events: Vec<AlignedEvent>)
    ensures
        events@ == aligned_from(buf@, rawlen, 0, 0),
{
    let n = buf.len();
    let mut word_cnt: usize = 0;
    let mut word_cnt2: usize = 0;
    let mut byte_cnt: usize = 0;
    let mut pre_byte: u8 = 0;
    let mut events: Vec<AlignedEvent> = Vec::new();
    assert(events@ + aligned_from(buf@, rawlen, 0, 0) =~= aligned_from(buf@, rawlen, 0, 0));
    while byte_cnt < n
        invariant_except_break
            events@ + aligned_from(buf@, rawlen, byte_cnt as int, word_cnt2 as int) == aligned_from(
                buf@,
                rawlen,
                0,
                0,
            ),
        invariant
            n == buf@.len(),
            byte_cnt <= n,
            word_cnt == byte_cnt / 2,
            word_cnt2 <= word_cnt,
            byte_cnt > 0 ==> pre_byte == buf@[byte_cnt - 1],
            byte_cnt == 0 ==> pre_byte == 0,
        ensures
            events@ == aligned_from(buf@, rawlen, 0, 0),
        decreases n - byte_cnt,
    {
        let ghost i = byte_cnt as int;
        let ghost e0 = events@;
        let ghost last = word_cnt2 as int;
        let byte = buf[byte_cnt];
        byte_cnt += 1;
        let test_16: u16 = (byte as u16) << 8 | pre_byte as u16;
        pre_byte = byte;
        assert(test_16 == pair16(buf@, i));
        let sync: u8 = if test_16 == 0x247 {
            1
        } else if test_16 == 0x5B8 {
            2
        } else if test_16 == 0xA47 {
            3
        } else if test_16 == 0xDB8 {
            4
        } else {
            0
        };
        if sync > 0 {
            events.push(
                AlignedEvent::Sync {
                    sync,
                    word_cnt,
                    byte: byte_cnt & 0x1,
                    word_len: word_cnt - word_cnt2,
                },
            );
            word_cnt2 = word_cnt;
        }
        let b = byte_cnt;
        assert(b & 0x1 == b % 2) by (bit_vector);
        let stop = if byte_cnt > 0 && (byte_cnt & 0x1) == 0 {
            word_cnt += 1;
            rawlen > 0 && byte_cnt > rawlen
        } else {
            false
        };
        proof {
            if !stop {
                assert(events@ + aligned_from(buf@, rawlen, i + 1, word_cnt2 as int) =~= e0
                    + aligned_from(buf@, rawlen, i, last));
            }
        }
        if stop {
            events.push(AlignedEvent::Limit { bytes: rawlen });
            proof {
                assert(events@ =~= e0 + aligned_from(buf@, rawlen, i, last));
            }
            break;
        }
    }
    events
}

/// The synchronisation word numbered `sync` (0x247 for 1, 0x5B8 for 2, 0xA47
/// for 3, 0xDB8 for 4), given by its high byte `hi` and its low byte `lo`.
pub open spec fn sync_number_bytes(sync: u8, hi: u8, lo: u8) -> bool {
    ||| sync == 1 && hi == 0x02 && lo == 0x47
    ||| sync == 2 && hi == 0x05 && lo == 0xB8
    ||| sync == 3 && hi == 0x0A && lo == 0x47
    ||| sync == 4 && hi == 0x0D && lo == 0xB8
}

/// Whether a reported event names a synchronisation word that stands in `buf`:
/// a `Sync` event in word `word_cnt` at byte `byte` ends at byte
/// `2 * word_cnt + 1 - byte`, whose value and that of the byte before it (0
/// before the first byte) make the word its `sync` number stands for.
pub open spec fn event_names_word(buf: Seq<u8>, e: AlignedEvent) -> bool {
    match e {
        AlignedEvent::Sync { sync, word_cnt, byte, word_len } => {
            let i = 2 * word_cnt + 1 - byte;
            &&& byte <= 1
            &&& 0 <= i < buf.len()
            &&& sync_number_bytes(
                sync,
                buf[i],
                if i > 0 {
                    buf[i - 1]
                } else {
                    0u8
                },
            )
        },
        AlignedEvent::Limit { .. } => true,
    }
}

proof fn lemma_pair16_bytes(hi: u8, lo: u8)
    ensures
        (((hi as u16) << 8u16) | lo as u16) == 0x247u16 <==> (hi == 0x02 && lo == 0x47),
        (((hi as u16) << 8u16) | lo as u16) == 0x5B8u16 <==> (hi == 0x05 && lo == 0xB8),
        (((hi as u16) << 8u16) | lo as u16) == 0xA47u16 <==> (hi == 0x0A && lo == 0x47),
        (((hi as u16) << 8u16) | lo as u16) == 0xDB8u16 <==> (hi == 0x0D && lo == 0xB8),
{
    assert(((((hi as u16) << 8u16) | lo as u16) == 0x247u16 <==> (hi == 0x02 && lo == 0x47)) && ((((
        hi as u16) << 8u16) | lo as u16) == 0x5B8u16 <==> (hi == 0x05 && lo == 0xB8)) && ((((hi as u16)
        << 8u16) | lo as u16) == 0xA47u16 <==> (hi == 0x0A && lo == 0x47)) && ((((hi as u16) << 8u16)
        | lo as u16) == 0xDB8u16 <==> (hi == 0x0D && lo == 0xB8))) by (bit_vector);
}

proof fn lemma_aligned_from_names(buf: Seq<u8>, rawlen: usize, i: int, last: int)
    requires
        0 <= i,
        buf.len() <= usize::MAX,
    ensures
        forall|k: int|
            0 <= k < aligned_from(buf, rawlen, i, last).len() ==> event_names_word(
                buf,
                #[trigger] aligned_from(buf, rawlen, i, last)[k],
            ),
    decreases buf.len() - i,
{
    if i < buf.len() {
        let w = pair16(buf, i);
        let lo: u8 = if i > 0 {
            buf[i - 1]
        } else {
            0u8
        };
        lemma_pair16_bytes(buf[i], lo);
        let last2 = if is_sync(w) {
            i / 2
        } else {
            last
        };
        lemma_aligned_from_names(buf, rawlen, i + 1, last2);
        let rest = aligned_from(buf, rawlen, i + 1, last2);
        let r = aligned_from(buf, rawlen, i, last);
        if is_sync(w) {
            let e = AlignedEvent::Sync {
                sync: sync_subframe(w) as u8,
                word_cnt: (i / 2) as usize,
                byte: ((i + 1) % 2) as usize,
                word_len: #[verifier::truncate] ((i / 2 - last) as usize),
            };
            assert(2 * (i / 2) + 1 - (i + 1) % 2 == i);
            assert(event_names_word(buf, e));
            assert(r[0] == e);
            assert forall|k: int| 0 <= k < r.len() implies event_names_word(buf, #[trigger] r[k]) by {
                if k > 0 && !(r[k] is Limit) {
                    assert(r[k] == rest[k - 1]);
                }
            }
        } else {
            assert forall|k: int| 0 <= k < r.len() implies event_names_word(buf, #[trigger] r[k]) by {
                if !(r[k] is Limit) {
                    assert(r[k] == rest[k]);
                }
            }
        }
    }
}

/// Every `Sync` event of the aligned scan stands where its word is: the byte
/// at `2 * word_cnt + 1 - byte` and the byte before it hold 0x247 when `sync`
/// is 1, 0x5B8 when 2, 0xA47 when 3 and 0xDB8 when 4.
pub proof fn law_aligned_sync_numbers(buf: Seq<u8>, rawlen: usize)
    requires
        buf.len() <= usize::MAX,
    ensures
        forall|k: int|
            0 <= k < aligned_from(buf, rawlen, 0, 0).len() ==> event_names_word(
                buf,
                #[trigger] aligned_from(buf, rawlen, 0, 0)[k],
            ),
{
    lemma_aligned_from_names(buf, rawlen, 0, 0);
}

/// Whether `e` reports synchronisation word number `sync` ending at byte `i`.
pub open spec fn reports_word_at(e: AlignedEvent, sync: u8, i: int) -> bool {
    match e {
        AlignedEvent::Sync { sync: n, word_cnt, byte, .. } => n == sync && word_cnt == i / 2 && byte
            == (i + 1) % 2,
        AlignedEvent::Limit { .. } => false,
    }
}

proof fn lemma_aligned_from_finds(buf: Seq<u8>, rawlen: usize, j: int, last: int, i: int, n: u8)
    requires
        buf.len() <= usize::MAX,
        0 <= j <= i < buf.len(),
        rawlen == 0 || i <= rawlen,
        sync_number_bytes(
            n,
            buf[i],
            if i > 0 {
                buf[i - 1]
            } else {
                0u8
            },
        ),
    ensures
        exists|k: int|
            0 <= k < aligned_from(buf, rawlen, j, last).len() && reports_word_at(
                #[trigger] aligned_from(buf, rawlen, j, last)[k],
                n,
                i,
            ),
    decreases i - j,
{
    let w = pair16(buf, j);
    let lo: u8 = if j > 0 {
        buf[j - 1]
    } else {
        0u8
    };
    lemma_pair16_bytes(buf[j], lo);
    let r = aligned_from(buf, rawlen, j, last);
    if j == i {
        assert(is_sync(w) && sync_subframe(w) == n as usize);
        assert(reports_word_at(r[0], n, i));
    } else {
        let last2 = if is_sync(w) {
            j / 2
        } else {
            last
        };
        lemma_aligned_from_finds(buf, rawlen, j + 1, last2, i, n);
        let rest = aligned_from(buf, rawlen, j + 1, last2);
        let k = choose|k: int| 0 <= k < rest.len() && reports_word_at(#[trigger] rest[k], n, i);
        let off: int = if is_sync(w) {
            1
        } else {
            0
        };
        assert(r[k + off] == rest[k]);
        assert(reports_word_at(r[k + off], n, i));
    }
}

/// The aligned scan misses no synchronisation word that ends before the scan
/// stops: wherever byte `i` and the byte before it hold 0x247, 0x5B8, 0xA47 or
/// 0xDB8 and the limit `rawlen` (when not 0) is not below `i`, a `Sync` event
/// with that word's number (1 to 4) reports word `i / 2`, byte `(i + 1) % 2`.
pub proof fn law_aligned_finds_every_word(buf: Seq<u8>, rawlen: usize, i: int, n: u8)
    requires
        buf.len() <= usize::MAX,
        0 <= i < buf.len(),
        rawlen == 0 || i <= rawlen,
        sync_number_bytes(
            n,
            buf[i],
            if i > 0 {
                buf[i - 1]
            } else {
                0u8
            },
        ),
    ensures
        exists|k: int|
            0 <= k < aligned_from(buf, rawlen, 0, 0).len() && reports_word_at(
                #[trigger] aligned_from(buf, rawlen, 0, 0)[k],
                n,
                i,
            ),
{
    lemma_aligned_from_finds(buf, rawlen, 0, 0, i, n);
}

} // verus!
