//! Synchronisation words of ARINC 717 "aligned" recordings.
//!
//! A recording is a sequence of 16-bit little-endian words whose low 12 bits
//! carry the data.  Every subframe (one second of data) starts with one of the
//! four synchronisation words 0x247, 0x5B8, 0xA47, 0xDB8; a frame is four
//! subframes in that order.

use vstd::prelude::*;

verus! {

/// Synchronisation word of the first subframe of a frame.
pub const SYNC1: u16 = 0x247;
/// Synchronisation word of the second subframe of a frame.
pub const SYNC2: u16 = 0x5B8;
/// Synchronisation word of the third subframe of a frame.
pub const SYNC3: u16 = 0xA47;
/// Synchronisation word of the fourth subframe of a frame.
pub const SYNC4: u16 = 0xDB8;

/// The low 12 bits of the little-endian 16-bit word that starts at byte `p`.
pub open spec fn word12(buf: Seq<u8>, p: int) -> u16 {
    (((buf[p + 1] as u16) << 8u16) | (buf[p] as u16)) & 0x0fffu16
}

/// Whether `w` is one of the four synchronisation words.
pub open spec fn is_sync(w: u16) -> bool {
    w == SYNC1 || w == SYNC2 || w == SYNC3 || w == SYNC4
}

/// The subframe (1 to 4) that a synchronisation word opens, 0 for other words.
pub open spec fn sync_subframe(w: u16) -> usize {
    if w == SYNC1 {
        1
    } else if w == SYNC2 {
        2
    } else if w == SYNC3 {
        3
    } else if w == SYNC4 {
        4
    } else {
        0
    }
}

/// Number of even positive positions in `lo..=hi`: the 16-bit words that a
/// byte-by-byte scan over those positions steps into.
pub open spec fn even_steps(lo: int, hi: int) -> nat
    decreases hi,
{
    if hi < lo || hi <= 0 {
        0
    } else {
        even_steps(lo, hi - 1) + if hi % 2 == 0 {
            1nat
        } else {
            0nat
        }
    }
}

/// A synchronisation word at `p` that is either the last one before the end of
/// the data or is followed, one subframe later, by another synchronisation word.
pub open spec fn sync_hit(buf: Seq<u8>, buflen: int, word_per_sec: int, p: int) -> bool {
    &&& is_sync(word12(buf, p))
    &&& (p + word_per_sec * 2 >= buflen - 2 || is_sync(word12(buf, p + word_per_sec * 2)))
}

/// The subframe of the last synchronisation word among the positions `lo..=hi`,
/// `dflt` when there is none.
pub open spec fn last_sync_subframe(buf: Seq<u8>, lo: int, hi: int, dflt: usize) -> usize
    decreases hi - lo + 1,
{
    if hi < lo {
        dflt
    } else if is_sync(word12(buf, hi)) {
        sync_subframe(word12(buf, hi))
    } else {
        last_sync_subframe(buf, lo, hi - 1, dflt)
    }
}

/// A frame start at `p`: the first synchronisation word, and either the frame
/// runs past the end of the data or the next three subframes start with the
/// other three synchronisation words in order.
pub open spec fn frame_hit(buf: Seq<u8>, buflen: int, word_per_sec: int, p: int) -> bool {
    &&& word12(buf, p) == SYNC1
    &&& (p + word_per_sec * 8 > buflen || {
        &&& word12(buf, p + word_per_sec * 2) == SYNC2
        &&& word12(buf, p + word_per_sec * 4) == SYNC3
        &&& word12(buf, p + word_per_sec * 6) == SYNC4
    })
}

proof fn lemma_even_steps_next(lo: int, hi: int)
    requires
        lo <= hi + 1,
    ensures
        even_steps(lo, hi + 1) == even_steps(lo, hi) + if hi + 1 > 0 && (hi + 1) % 2 == 0 {
            1nat
        } else {
            0nat
        },
{
    if hi + 1 <= 0 {
        if hi < lo || hi <= 0 {
        }
    }
}

/// Reads the low 12 bits of the little-endian word at byte `p`.
pub fn read_word12(buf: &[u8], p: usize) -> (w: u16)
    requires
        p + 1 < buf@.len(),
    ensures
        w == word12(buf@, p as int),
{
    let _n = buf.len();
    ((buf[p + 1] as u16) << 8 | (buf[p] as u16)) & 0x0fff
}

/// Scans forward from `*byte_cnt` for a synchronisation word that is followed,
/// one subframe (`word_per_sec` words) later, by another synchronisation word,
/// or that is the last one before the end of the data.  On success
/// `*byte_cnt` is the position of that word; otherwise the scan stops two
/// bytes before the end of the data.  `*word_cnt` counts the 16-bit words
/// stepped into on the way.
pub fn find_sync(
    byte_cnt: &mut usize,
    word_cnt: &mut usize,
    word_per_sec: usize,
    buflen: usize,
    buf: &[u8],
) -> (found: bool)
    requires
        2 <= buflen <= buf@.len(),
        buflen + 2 * word_per_sec <= usize::MAX,
        *old(word_cnt) + buflen <= usize::MAX,
    ensures
        found ==> {
            &&& *old(byte_cnt) <= *final(byte_cnt) < buflen - 2
            &&& sync_hit(buf@, buflen as int, word_per_sec as int, *final(byte_cnt) as int)
        },
        !found ==> *final(byte_cnt) == if *old(byte_cnt) >= buflen - 2 {
            *old(byte_cnt) as int
        } else {
            buflen - 2
        },
        forall|q: int|
            *old(byte_cnt) <= q < *final(byte_cnt) ==> !sync_hit(
                buf@,
                buflen as int,
                word_per_sec as int,
                q,
            ),
        *final(word_cnt) == *old(word_cnt) + even_steps(
            *old(byte_cnt) as int,
            if found {
                *final(byte_cnt) as int
            } else {
                buflen - 3
            },
        ),
{
    let ghost b0 = *byte_cnt as int;
    let ghost w0 = *word_cnt as int;
    loop
        invariant
            2 <= buflen <= buf@.len(),
            buflen + 2 * word_per_sec <= usize::MAX,
            w0 + buflen <= usize::MAX,
            b0 == *old(byte_cnt),
            w0 == *old(word_cnt),
            b0 <= *byte_cnt,
            *byte_cnt as int == b0 || *byte_cnt <= buflen - 2,
            *word_cnt == w0 + even_steps(b0, *byte_cnt - 1),
            *word_cnt <= w0 + *byte_cnt,
            forall|q: int|
                b0 <= q < *byte_cnt ==> !sync_hit(buf@, buflen as int, word_per_sec as int, q),
        decreases buflen - *byte_cnt,
    {
        if *byte_cnt >= buflen - 2 {
            return false;
        }
        proof {
            lemma_even_steps_next(b0, *byte_cnt - 1);
            assert(even_steps(b0, b0 - 1) == 0);
        }
        if *byte_cnt > 0 && *byte_cnt & 0x1 == 0 {
            assert(*byte_cnt & 0x1 == *byte_cnt % 2) by (bit_vector);
            *word_cnt += 1;
        } else {
            assert(*byte_cnt & 0x1 == *byte_cnt % 2) by (bit_vector);
        }
        let word16 = read_word12(buf, *byte_cnt);
        if word16 == SYNC1 || word16 == SYNC2 || word16 == SYNC3 || word16 == SYNC4 {
            if *byte_cnt + word_per_sec * 2 >= buflen - 2 {
                return true;
            }
            let next = read_word12(buf, *byte_cnt + word_per_sec * 2);
            if next == SYNC1 || next == SYNC2 || next == SYNC3 || next == SYNC4 {
                return true;
            }
        }
        *byte_cnt += 1;
    }
}

/// Like [`find_sync`], and also records in `*subframe_idx` the subframe that the
/// last synchronisation word passed over (the found one included) opens.
pub fn find_sync_subframe(
    byte_cnt: &mut usize,
    word_cnt: &mut usize,
    word_per_sec: usize,
    subframe_idx: &mut usize,
    buflen: usize,
    buf: &[u8],
) -> (found: bool)
    requires
        2 <= buflen <= buf@.len(),
        buflen + 2 * word_per_sec <= usize::MAX,
        *old(word_cnt) + buflen <= usize::MAX,
    ensures
        found ==> {
            &&& *old(byte_cnt) <= *final(byte_cnt) < buflen - 2
            &&& sync_hit(buf@, buflen as int, word_per_sec as int, *final(byte_cnt) as int)
        },
        !found ==> *final(byte_cnt) == if *old(byte_cnt) >= buflen - 2 {
            *old(byte_cnt) as int
        } else {
            buflen - 2
        },
        forall|q: int|
            *old(byte_cnt) <= q < *final(byte_cnt) ==> !sync_hit(
                buf@,
                buflen as int,
                word_per_sec as int,
                q,
            ),
        *final(word_cnt) == *old(word_cnt) + even_steps(
            *old(byte_cnt) as int,
            if found {
                *final(byte_cnt) as int
            } else {
                buflen - 3
            },
        ),
        *final(subframe_idx) == last_sync_subframe(
            buf@,
            *old(byte_cnt) as int,
            if found {
                *final(byte_cnt) as int
            } else {
                buflen - 3
            },
            *old(subframe_idx),
        ),
{
    let ghost b0 = *byte_cnt as int;
    let ghost w0 = *word_cnt as int;
    let ghost s0 = *subframe_idx;
    loop
        invariant
            2 <= buflen <= buf@.len(),
            buflen + 2 * word_per_sec <= usize::MAX,
            w0 + buflen <= usize::MAX,
            b0 == *old(byte_cnt),
            w0 == *old(word_cnt),
            s0 == *old(subframe_idx),
            b0 <= *byte_cnt,
            *byte_cnt as int == b0 || *byte_cnt <= buflen - 2,
            *word_cnt == w0 + even_steps(b0, *byte_cnt - 1),
            *word_cnt <= w0 + *byte_cnt,
            *subframe_idx == last_sync_subframe(buf@, b0, *byte_cnt - 1, s0),
            forall|q: int|
                b0 <= q < *byte_cnt ==> !sync_hit(buf@, buflen as int, word_per_sec as int, q),
        decreases buflen - *byte_cnt,
    {
        if *byte_cnt >= buflen - 2 {
            return false;
        }
        proof {
            lemma_even_steps_next(b0, *byte_cnt - 1);
            assert(even_steps(b0, b0 - 1) == 0);
        }
        if *byte_cnt > 0 && *byte_cnt & 0x1 == 0 {
            assert(*byte_cnt & 0x1 == *byte_cnt % 2) by (bit_vector);
            *word_cnt += 1;
        } else {
            assert(*byte_cnt & 0x1 == *byte_cnt % 2) by (bit_vector);
        }
        let word16 = read_word12(buf, *byte_cnt);
        if word16 == SYNC1 || word16 == SYNC2 || word16 == SYNC3 || word16 == SYNC4 {
            if word16 == SYNC1 {
                *subframe_idx = 1;
            } else if word16 == SYNC2 {
                *subframe_idx = 2;
            } else if word16 == SYNC3 {
                *subframe_idx = 3;
            } else {
                *subframe_idx = 4;
            }
            if *byte_cnt + word_per_sec * 2 >= buflen - 2 {
                return true;
            }
            let next = read_word12(buf, *byte_cnt + word_per_sec * 2);
            if next == SYNC1 || next == SYNC2 || next == SYNC3 || next == SYNC4 {
                return true;
            }
        }
        *byte_cnt += 1;
    }
}

/// Scans forward from `*byte_cnt` for the start of a frame: the first
/// synchronisation word followed, one, two and three subframes later, by the
/// other three in order.  Returns `true` with `*byte_cnt` at a frame that lies
/// wholly inside the data.  Returns `false` either at a first synchronisation
/// word whose frame would run past the end of the data, or, when there is
/// none, two bytes before the end.  `*word_cnt` counts the 16-bit words
/// stepped into on the way.
pub fn find_frame(
    byte_cnt: &mut usize,
    word_cnt: &mut usize,
    word_per_sec: usize,
    buflen: usize,
    buf: &[u8],
) -> (found: bool)
    requires
        2 <= buflen <= buf@.len(),
        buflen + 8 * word_per_sec <= usize::MAX,
        *old(word_cnt) + buflen <= usize::MAX,
    ensures
        *old(byte_cnt) <= *final(byte_cnt),
        forall|q: int|
            *old(byte_cnt) <= q < *final(byte_cnt) ==> !frame_hit(
                buf@,
                buflen as int,
                word_per_sec as int,
                q,
            ),
        *final(byte_cnt) < buflen - 2 ==> frame_hit(
            buf@,
            buflen as int,
            word_per_sec as int,
            *final(byte_cnt) as int,
        ),
        *final(byte_cnt) >= buflen - 2 ==> *final(byte_cnt) == if *old(byte_cnt) >= buflen - 2 {
            *old(byte_cnt) as int
        } else {
            buflen - 2
        },
        found <==> (*final(byte_cnt) < buflen - 2 && *final(byte_cnt) + 8 * word_per_sec
            <= buflen),
        *final(word_cnt) == *old(word_cnt) + even_steps(
            *old(byte_cnt) as int,
            if *final(byte_cnt) < buflen - 2 {
                *final(byte_cnt) as int
            } else {
                buflen - 3
            },
        ),
{
    let ghost b0 = *byte_cnt as int;
    let ghost w0 = *word_cnt as int;
    loop
        invariant
            2 <= buflen <= buf@.len(),
            buflen + 8 * word_per_sec <= usize::MAX,
            w0 + buflen <= usize::MAX,
            b0 == *old(byte_cnt),
            w0 == *old(word_cnt),
            b0 <= *byte_cnt,
            *byte_cnt as int == b0 || *byte_cnt <= buflen - 2,
            *word_cnt == w0 + even_steps(b0, *byte_cnt - 1),
            *word_cnt <= w0 + *byte_cnt,
            forall|q: int|
                b0 <= q < *byte_cnt ==> !frame_hit(buf@, buflen as int, word_per_sec as int, q),
        decreases buflen - *byte_cnt,
    {
        if *byte_cnt >= buflen - 2 {
            return false;
        }
        proof {
            lemma_even_steps_next(b0, *byte_cnt - 1);
            assert(even_steps(b0, b0 - 1) == 0);
        }
        if *byte_cnt > 0 && *byte_cnt & 0x1 == 0 {
            assert(*byte_cnt & 0x1 == *byte_cnt % 2) by (bit_vector);
            *word_cnt += 1;
        } else {
            assert(*byte_cnt & 0x1 == *byte_cnt % 2) by (bit_vector);
        }
        let word16 = read_word12(buf, *byte_cnt);
        if word16 == SYNC1 {
            if *byte_cnt + word_per_sec * 2 * 4 > buflen {
                return false;
            }
            let mut byte_pos: usize = *byte_cnt + word_per_sec * 2;
            let next = read_word12(buf, byte_pos);
            if next == SYNC2 {
                byte_pos += word_per_sec * 2;
                let next = read_word12(buf, byte_pos);
                if next == SYNC3 {
                    byte_pos += word_per_sec * 2;
                    let next = read_word12(buf, byte_pos);
                    if next == SYNC4 {
                        return true;
                    }
                }
            }
        }
        *byte_cnt += 1;
    }
}

/// Where a frame search from `from` stops: the first frame start at or after
/// `from`, or, when there is none, two bytes before the end of the data.
pub open spec fn first_frame_hit(buf: Seq<u8>, buflen: int, word_per_sec: int, from: int) -> int
    decreases buflen - from,
{
    if from >= buflen - 2 {
        from
    } else if frame_hit(buf, buflen, word_per_sec, from) {
        from
    } else {
        first_frame_hit(buf, buflen, word_per_sec, from + 1)
    }
}

/// Whether a frame search that stops at `p` has found a frame that lies wholly
/// inside the data.
pub open spec fn frame_complete(buflen: int, word_per_sec: int, p: int) -> bool {
    p < buflen - 2 && p + 8 * word_per_sec <= buflen
}

pub proof fn lemma_first_frame_hit_ge(buf: Seq<u8>, buflen: int, word_per_sec: int, from: int)
    ensures
        first_frame_hit(buf, buflen, word_per_sec, from) >= from,
        first_frame_hit(buf, buflen, word_per_sec, from) < buflen - 2 ==> frame_hit(
            buf,
            buflen,
            word_per_sec,
            first_frame_hit(buf, buflen, word_per_sec, from),
        ),
    decreases buflen - from,
{
    if from < buflen - 2 && !frame_hit(buf, buflen, word_per_sec, from) {
        lemma_first_frame_hit_ge(buf, buflen, word_per_sec, from + 1);
    }
}

/// The frames that repeated searches find: each search starts one frame
/// (`8 * word_per_sec` bytes) after the previous frame, and the list ends at
/// the first search that finds no whole frame.
pub open spec fn frame_list(buf: Seq<u8>, buflen: int, word_per_sec: int, from: int) -> Seq<int>
    decreases buflen - from,
{
    if word_per_sec <= 0 || from < 0 {
        seq![]
    } else {
        let p = first_frame_hit(buf, buflen, word_per_sec, from);
        if frame_complete(buflen, word_per_sec, p) {
            proof {
                lemma_first_frame_hit_ge(buf, buflen, word_per_sec, from);
            }
            seq![p] + frame_list(buf, buflen, word_per_sec, p + 8 * word_per_sec)
        } else {
            seq![]
        }
    }
}

/// A search result described by the postcondition of [`find_frame`] is the
/// one that [`first_frame_hit`] names.
pub proof fn lemma_find_frame_is_first(
    buf: Seq<u8>,
    buflen: int,
    word_per_sec: int,
    b0: int,
    p: int,
)
    requires
        b0 <= p,
        forall|q: int| b0 <= q < p ==> !frame_hit(buf, buflen, word_per_sec, q),
        p < buflen - 2 ==> frame_hit(buf, buflen, word_per_sec, p),
        p >= buflen - 2 ==> p == if b0 >= buflen - 2 {
            b0
        } else {
            buflen - 2
        },
    ensures
        p == first_frame_hit(buf, buflen, word_per_sec, b0),
    decreases p - b0,
{
    if b0 < p {
        lemma_find_frame_is_first(buf, buflen, word_per_sec, b0 + 1, p);
    }
}

/// No frame is found when a subframe has no words.
pub proof fn lemma_no_frame_without_words(buf: Seq<u8>, buflen: int, p: int)
    requires
        p < buflen - 2,
    ensures
        !frame_hit(buf, buflen, 0, p),
{
}

/// Whether the bytes `lo` (first) and `hi` (second) hold a synchronisation
/// word in their low 12 bits: 0x247, 0x5B8, 0xA47 or 0xDB8, whatever the top
/// four bits of `hi`.
pub open spec fn sync_bytes(hi: u8, lo: u8) -> bool {
    ||| hi & 0x0F == 0x02 && lo == 0x47
    ||| hi & 0x0F == 0x05 && lo == 0xB8
    ||| hi & 0x0F == 0x0A && lo == 0x47
    ||| hi & 0x0F == 0x0D && lo == 0xB8
}

proof fn lemma_word12_bytes(hi: u8, lo: u8)
    ensures
        is_sync((((hi as u16) << 8u16) | (lo as u16)) & 0x0fffu16) <==> sync_bytes(hi, lo),
        ((((hi as u16) << 8u16) | (lo as u16)) & 0x0fffu16 == 0x247u16) <==> (hi & 0x0F == 0x02 && lo
            == 0x47),
        ((((hi as u16) << 8u16) | (lo as u16)) & 0x0fffu16 == 0x5B8u16) <==> (hi & 0x0F == 0x05 && lo
            == 0xB8),
        ((((hi as u16) << 8u16) | (lo as u16)) & 0x0fffu16 == 0xA47u16) <==> (hi & 0x0F == 0x0A && lo
            == 0x47),
        ((((hi as u16) << 8u16) | (lo as u16)) & 0x0fffu16 == 0xDB8u16) <==> (hi & 0x0F == 0x0D && lo
            == 0xB8),
{
    let w = (((hi as u16) << 8u16) | (lo as u16)) & 0x0fffu16;
    assert(w == (((hi as u16) << 8u16) | (lo as u16)) & 0x0fffu16 ==> ((w == 0x247u16 <==> (hi & 0x0F
        == 0x02 && lo == 0x47)) && (w == 0x5B8u16 <==> (hi & 0x0F == 0x05 && lo == 0xB8)) && (w
        == 0xA47u16 <==> (hi & 0x0F == 0x0A && lo == 0x47)) && (w == 0xDB8u16 <==> (hi & 0x0F == 0x0D
        && lo == 0xB8)))) by (bit_vector);
}

/// A position that [`find_sync`] and [`find_sync_subframe`] accept holds a
/// synchronisation word (bytes `p`, `p + 1`), and so does the position one
/// subframe later, `p + 2 * word_per_sec`, unless that lies within the last
/// two bytes of the data or beyond; a word that looks like a synchronisation
/// word but is not so followed is not accepted.
pub proof fn law_sync_hit_followed(buf: Seq<u8>, buflen: int, word_per_sec: int, p: int)
    requires
        0 <= p,
        p + 2 < buflen <= buf.len(),
        0 <= word_per_sec,
    ensures
        sync_hit(buf, buflen, word_per_sec, p) <==> {
            &&& sync_bytes(buf[p + 1], buf[p])
            &&& (p + 2 * word_per_sec >= buflen - 2 || sync_bytes(
                buf[p + 2 * word_per_sec + 1],
                buf[p + 2 * word_per_sec],
            ))
        },
{
    lemma_word12_bytes(buf[p + 1], buf[p]);
    if p + 2 * word_per_sec < buflen - 2 {
        lemma_word12_bytes(buf[p + 2 * word_per_sec + 1], buf[p + 2 * word_per_sec]);
    }
}

/// The subframe that the synchronisation word in bytes `lo` (first) and `hi`
/// (second) opens, read from its bytes: 1 for 0x247, 2 for 0x5B8, 3 for 0xA47,
/// 4 for 0xDB8 (the top four bits of `hi` aside).
pub open spec fn sync_bytes_subframe(hi: u8, lo: u8) -> usize {
    if hi & 0x0F == 0x02 && lo == 0x47 {
        1
    } else if hi & 0x0F == 0x05 && lo == 0xB8 {
        2
    } else if hi & 0x0F == 0x0A && lo == 0x47 {
        3
    } else {
        4
    }
}

/// The subframe that [`find_sync_subframe`] records is that of the last
/// synchronisation word among the positions it passed: when position `hi`
/// holds one, the subframe it opens (1 for 0x247, 2 for 0x5B8, 3 for 0xA47,
/// 4 for 0xDB8); when no position of `lo..=hi` holds one, the value it had.
pub proof fn law_recorded_subframe(buf: Seq<u8>, lo: int, hi: int, dflt: usize)
    requires
        0 <= lo,
        hi + 1 < buf.len(),
    ensures
        lo <= hi && sync_bytes(buf[hi + 1], buf[hi]) ==> last_sync_subframe(buf, lo, hi, dflt)
            == sync_bytes_subframe(buf[hi + 1], buf[hi]),
        (forall|q: int| lo <= q <= hi ==> !sync_bytes(#[trigger] buf[q + 1], buf[q]))
            ==> last_sync_subframe(buf, lo, hi, dflt) == dflt,
    decreases hi - lo + 1,
{
    if lo <= hi {
        let h = buf[hi + 1];
        let l = buf[hi];
        lemma_word12_bytes(h, l);
        law_recorded_subframe(buf, lo, hi - 1, dflt);
    }
}

} // verus!
