//! Extraction of a parameter's raw value from the words of a frame.
//!
//! A parameter's location is a list of bit groups.  In a frame-based layout a
//! group is six numbers `[superframe, subframe, word, lsb, msb, targetBit]`; in
//! a subframe-based layout it is five: `[subframe, word, lsb, msb, targetBit]`.
//! Words are counted from 1, bits from 1 (the least significant).  The groups
//! are concatenated with the last group in the most significant bits.

use crate::config::Param;
use vstd::prelude::*;

verus! {

/// Number of numbers that make up one bit group.
pub open spec fn group_stride(frame: bool) -> int {
    if frame {
        6
    } else {
        5
    }
}

/// Number of whole bit groups in a location list.
pub open spec fn group_count(set: Seq<usize>, frame: bool) -> int {
    (set.len() as int) / group_stride(frame)
}

/// Field `i` (0 = subframe, 1 = word, 2 = lsb, 3 = msb, 4 = targetBit) of group `k`.
pub open spec fn gf(set: Seq<usize>, frame: bool, k: int, i: int) -> usize {
    set[k * group_stride(frame) + (group_stride(frame) - 5) + i]
}

/// Whether group `k` names a subframe other than the one being decoded.
pub open spec fn group_mismatch(set: Seq<usize>, frame: bool, sfi: int, k: int) -> bool {
    let sub = gf(set, frame, k, 0);
    if frame {
        sfi > 0 && sub > 0 && sub != sfi
    } else {
        sub > 0 && sub != sfi
    }
}

/// Whether the extraction reaches group `k`: no group from `k` on mismatches
/// (the groups are visited from the last one down).
pub open spec fn group_reached(set: Seq<usize>, frame: bool, sfi: int, k: int) -> bool {
    forall|j: int|
        k <= j < group_count(set, frame) ==> !#[trigger] group_mismatch(set, frame, sfi, j)
}

/// Byte position of the 16-bit word that group `k` reads.
pub open spec fn group_pos(
    set: Seq<usize>,
    frame: bool,
    bc: int,
    wps: int,
    sfi: int,
    k: int,
) -> int {
    let sub = gf(set, frame, k, 0) as int;
    let word = gf(set, frame, k, 1) as int;
    if !frame {
        bc + (word - 1) * 2
    } else if sub > 0 {
        bc + (sub - 1) * wps * 2 + (word - 1) * 2
    } else {
        bc + (sfi - 1) * wps * 2 + (word - 1) * 2
    }
}

/// Number of bits that group `k` contributes.
pub open spec fn group_bits(set: Seq<usize>, frame: bool, k: int) -> int {
    gf(set, frame, k, 3) - gf(set, frame, k, 2) + 1
}

/// A group that the extraction can read without fault: bits `lsb..=msb` with
/// `1 <= lsb <= msb`, at most 30 of them, and a word inside the data.
pub open spec fn group_ok(
    buf: Seq<u8>,
    set: Seq<usize>,
    frame: bool,
    bc: int,
    wps: int,
    sfi: int,
    k: int,
) -> bool {
    let sub = gf(set, frame, k, 0) as int;
    let word = gf(set, frame, k, 1) as int;
    let lsb = gf(set, frame, k, 2) as int;
    let msb = gf(set, frame, k, 3) as int;
    &&& 1 <= word
    &&& 1 <= lsb <= msb
    &&& lsb <= 32
    &&& msb - lsb + 1 <= 30
    &&& (frame && sub == 0 ==> sfi >= 1)
    &&& 0 <= group_pos(set, frame, bc, wps, sfi, k)
    &&& group_pos(set, frame, bc, wps, sfi, k) + 1 < buf.len()
}

/// The little-endian 16-bit word at byte `p`.
pub open spec fn word16(buf: Seq<u8>, p: int) -> u32 {
    ((buf[p + 1] as u32) << 8u32) | (buf[p] as u32)
}

/// All ones in the low `bits` bits.
pub open spec fn low_mask(bits: int) -> u32 {
    (((1u32 << (bits as u32)) as int) - 1) as u32
}

/// The bits `lsb..=msb` that group `k` reads, shifted down to bit 0.
pub open spec fn group_field(
    buf: Seq<u8>,
    set: Seq<usize>,
    frame: bool,
    bc: int,
    wps: int,
    sfi: int,
    k: int,
) -> u32 {
    let lsb = gf(set, frame, k, 2) as int;
    (word16(buf, group_pos(set, frame, bc, wps, sfi, k)) >> ((lsb - 1) as u32)) & low_mask(
        group_bits(set, frame, k),
    )
}

/// The fields of groups `k..n` concatenated, the last group most significant,
/// in 32-bit two's complement arithmetic (bits beyond 32 fall off the top).
pub open spec fn concat_fields(
    buf: Seq<u8>,
    set: Seq<usize>,
    frame: bool,
    bc: int,
    wps: int,
    sfi: int,
    k: int,
) -> u32
    decreases group_count(set, frame) - k,
{
    if k >= group_count(set, frame) || k < 0 {
        0
    } else {
        (concat_fields(buf, set, frame, bc, wps, sfi, k + 1) << (group_bits(set, frame, k) as u32))
            | group_field(buf, set, frame, bc, wps, sfi, k)
    }
}

/// Total number of bits of the groups `k..n`.
pub open spec fn total_bits(set: Seq<usize>, frame: bool, k: int) -> int
    decreases group_count(set, frame) - k,
{
    if k >= group_count(set, frame) || k < 0 {
        0
    } else {
        total_bits(set, frame, k + 1) + group_bits(set, frame, k)
    }
}

/// Whether a target bit other than 0 is met among the groups that the
/// extraction visits.
pub open spec fn target_bit_seen(set: Seq<usize>, frame: bool, sfi: int) -> bool {
    exists|k: int|
        0 <= k < group_count(set, frame) && group_reached(set, frame, sfi, k) && #[trigger] gf(
            set,
            frame,
            k,
            4,
        ) != 0
}

/// The sign correction: with `signed`, when the highest of the `ttl` bits is set
/// (and `ttl` is at most 31), `2^ttl` is subtracted.
pub open spec fn apply_sign(raw: i32, ttl: int, signed: bool) -> i32 {
    if signed && 1 <= ttl <= 31 && (raw & ((1i32 << ((ttl - 1) as u32)) as i32)) > 0 {
        (raw - (1i32 << (ttl as u32))) as i32
    } else {
        raw
    }
}

/// The raw value of a location list: `None` when a group names another
/// subframe, else the concatenated fields with the sign correction applied.
pub open spec fn raw_value(
    buf: Seq<u8>,
    set: Seq<usize>,
    frame: bool,
    bc: int,
    wps: int,
    sfi: int,
    signed: bool,
) -> Option<i32> {
    if !group_reached(set, frame, sfi, 0) {
        None
    } else {
        Some(
            apply_sign(
                concat_fields(buf, set, frame, bc, wps, sfi, 0) as i32,
                total_bits(set, frame, 0),
                signed,
            ),
        )
    }
}

/// The conditions under which extracting a location list cannot fault: at
/// least one group, every group that the extraction reaches readable, and,
/// for a signed value, a bit count for which the sign correction fits in 32
/// bits.
pub open spec fn extraction_ok(
    buf: Seq<u8>,
    set: Seq<usize>,
    frame: bool,
    bc: int,
    wps: int,
    sfi: int,
    signed: bool,
) -> bool {
    &&& group_count(set, frame) >= 1
    &&& set.len() <= usize::MAX / 8
    &&& forall|k: int|
        0 <= k < group_count(set, frame) && #[trigger] group_reached(set, frame, sfi, k)
            ==> group_ok(buf, set, frame, bc, wps, sfi, k)
    &&& (signed && group_reached(set, frame, sfi, 0)) ==> {
        let ttl = total_bits(set, frame, 0);
        &&& ttl <= 32
        &&& !(ttl == 31 && concat_fields(buf, set, frame, bc, wps, sfi, 0) & 0x4000_0000u32 != 0)
    }
}

proof fn lemma_total_bits_bound(set: Seq<usize>, frame: bool, k: int, buf: Seq<u8>, bc: int, wps: int, sfi: int)
    requires
        0 <= k <= group_count(set, frame),
        forall|j: int|
            k <= j < group_count(set, frame) ==> 1 <= #[trigger] group_bits(set, frame, j) <= 30,
    ensures
        0 <= total_bits(set, frame, k) <= 30 * (group_count(set, frame) - k),
    decreases group_count(set, frame) - k,
{
    if k < group_count(set, frame) {
        lemma_total_bits_bound(set, frame, k + 1, buf, bc, wps, sfi);
    }
}

proof fn lemma_reached_step(set: Seq<usize>, frame: bool, sfi: int, k: int)
    requires
        0 <= k < group_count(set, frame),
        group_reached(set, frame, sfi, k + 1),
        !group_mismatch(set, frame, sfi, k),
    ensures
        group_reached(set, frame, sfi, k),
{
    assert forall|j: int| k <= j < group_count(set, frame) implies !#[trigger] group_mismatch(
        set,
        frame,
        sfi,
        j,
    ) by {
        if j > k {
            assert(!group_mismatch(set, frame, sfi, j));
        }
    }
}

proof fn lemma_concat_bound(d: u32, f: u32, t: u32, b: u32)
    requires
        t + b <= 32,
        1 <= b <= 30,
        (d as u64) < (1u64 << (t as u64)),
        f <= ((1u32 << b) - 1u32) as u32,
    ensures
        (((d << b) | f) as u64) < (1u64 << ((t + b) as u64)),
{
    assert((((d << b) | f) as u64) < (1u64 << ((t + b) as u64))) by (bit_vector)
        requires
            t + b <= 32,
            1 <= b <= 30,
            (d as u64) < (1u64 << (t as u64)),
            f <= ((1u32 << b) - 1u32) as u32,
    ;
}

proof fn lemma_sign_fits(d: u32, t: u32)
    requires
        1 <= t <= 31,
        (d as u64) < (1u64 << (t as u64)),
        t == 31 ==> d & 0x4000_0000u32 == 0,
        ((d as i32) & (1i32 << ((t - 1) as u32))) > 0,
    ensures
        i32::MIN <= (d as i32) - (1i32 << t) <= i32::MAX,
{
    assert(i32::MIN <= (d as i32) - (1i32 << t) <= i32::MAX) by (bit_vector)
        requires
            1 <= t <= 31,
            (d as u64) < (1u64 << (t as u64)),
            t == 31 ==> d & 0x4000_0000u32 == 0,
            ((d as i32) & (1i32 << ((t - 1) as u32))) > 0,
    ;
}

proof fn lemma_mask_facts(b: u32, w: u32, s: u32)
    requires
        1 <= b <= 30,
        s < 32,
    ensures
        (1u32 << b) >= 1,
        ((w >> s) & ((((1u32 << b) as int) - 1) as u32)) <= ((1u32 << b) - 1u32) as u32,
{
    assert((1u32 << b) >= 1) by (bit_vector)
        requires
            1 <= b <= 30,
    ;
    assert(((w >> s) & (((1u32 << b) - 1u32) as u32)) <= ((1u32 << b) - 1u32) as u32)
        by (bit_vector);
}

/// Reads the raw value of one location list.  `frame` selects the layout:
/// frame-based groups of six (the word is looked up in subframe `subframe` of
/// the frame at `byte_cnt`, or in subframe `subframe_idx` when the group names
/// none) or subframe-based groups of five (the word is looked up in the
/// subframe at `byte_cnt`).  Returns `None` when a group names a subframe other
/// than `subframe_idx`.  Adds 0x1 to `*dword_err` (0x2 when `subframe_idx` is
/// 0) when a visited group has a target bit other than 0.
fn extract_raw(
    buf: &[u8],
    prm_set: &Vec<usize>,
    frame: bool,
    byte_cnt: usize,
    word_per_sec: usize,
    subframe_idx: usize,
    signed: bool,
    dword_err: &mut u8,
) -> (r: Option<i32>)
    requires
        extraction_ok(
            buf@,
            prm_set@,
            frame,
            byte_cnt as int,
            word_per_sec as int,
            subframe_idx as int,
            signed,
        ),
    ensures
        r == raw_value(
            buf@,
            prm_set@,
            frame,
            byte_cnt as int,
            word_per_sec as int,
            subframe_idx as int,
            signed,
        ),
        *final(dword_err) == if target_bit_seen(prm_set@, frame, subframe_idx as int) {
            *old(dword_err) | if subframe_idx == 0 && frame {
                2u8
            } else {
                1u8
            }
        } else {
            *old(dword_err)
        },
{
    let ghost set = prm_set@;
    let ghost bc = byte_cnt as int;
    let ghost wps = word_per_sec as int;
    let ghost sfi = subframe_idx as int;
    let stride: usize = if frame {
        6
    } else {
        5
    };
    let off: usize = stride - 5;
    let n: usize = prm_set.len() / stride;
    let mut dword: u32 = 0;
    let mut ttl_bit: usize = 0;
    let mut ii: usize = n;
    let ghost err0 = *dword_err;
    let flag: u8 = if subframe_idx == 0 && frame {
        2
    } else {
        1
    };
    let blen = buf.len();
    proof {
        assert((0u32 as u64) < (1u64 << 0u64)) by (bit_vector);
    }
    while ii > 0
        invariant
            set == prm_set@,
            blen == buf@.len(),
            bc == byte_cnt,
            wps == word_per_sec,
            sfi == subframe_idx,
            stride == group_stride(frame),
            off == stride - 5,
            n == group_count(set, frame),
            n >= 1,
            prm_set@.len() <= usize::MAX / 8,
            0 <= ii <= n,
            group_reached(set, frame, sfi, ii as int),
            extraction_ok(buf@, set, frame, bc, wps, sfi, signed),
            dword == concat_fields(buf@, set, frame, bc, wps, sfi, ii as int),
            ttl_bit == total_bits(set, frame, ii as int),
            n - ii <= ttl_bit <= 30 * (n - ii),
            ttl_bit <= 32 ==> (dword as u64) < (1u64 << (ttl_bit as u64)),
            flag == if subframe_idx == 0 && frame {
                2u8
            } else {
                1u8
            },
            err0 == *old(dword_err),
            *dword_err == if exists|k: int|
                ii <= k < n && #[trigger] gf(set, frame, k, 4) != 0 {
                err0 | flag
            } else {
                err0
            },
        decreases ii,
    {
        let k: usize = ii - 1;
        let base: usize = k * stride + off;
        assert(base + 4 < set.len()) by (nonlinear_arith)
            requires
                base == k * stride + off,
                k < n,
                n == (set.len() as int) / (stride as int),
                stride == 5 || stride == 6,
                off == stride - 5,
        ;
        proof {
            assert(base as int == k * group_stride(frame) + (group_stride(frame) - 5));
        }
        let sub = prm_set[base];
        if frame {
            if subframe_idx > 0 && sub > 0 && sub != subframe_idx {
                proof {
                    assert(group_mismatch(set, frame, sfi, k as int));
                    lemma_seen_after_mismatch(set, frame, sfi, k as int);
                }
                return None;
            }
        } else {
            if sub > 0 && sub != subframe_idx {
                proof {
                    assert(group_mismatch(set, frame, sfi, k as int));
                    lemma_seen_after_mismatch(set, frame, sfi, k as int);
                }
                return None;
            }
        }
        proof {
            lemma_reached_step(set, frame, sfi, k as int);
            assert(group_ok(buf@, set, frame, bc, wps, sfi, k as int));
        }
        assert(prm_set[base + 4] == gf(set, frame, k as int, 4));
        if prm_set[base + 4] != 0 {
            let ghost e = *dword_err;
            *dword_err = *dword_err | flag;
            proof {
                assert((err0 | flag) | flag == err0 | flag) by (bit_vector);
                assert(exists|j: int| k <= j < n && #[trigger] gf(set, frame, j, 4) != 0);
            }
        } else {
            proof {
                if exists|j: int| k <= j < n && #[trigger] gf(set, frame, j, 4) != 0 {
                    let j = choose|j: int| k <= j < n && #[trigger] gf(set, frame, j, 4) != 0;
                    assert(j != k);
                }
            }
        }
        let word = prm_set[base + 1];
        let lsb = prm_set[base + 2];
        let msb = prm_set[base + 3];
        assert(word == gf(set, frame, k as int, 1));
        assert(sub == gf(set, frame, k as int, 0));
        assert(lsb == gf(set, frame, k as int, 2));
        assert(msb == gf(set, frame, k as int, 3));
        assert(group_pos(set, frame, bc, wps, sfi, k as int) + 1 < blen);
        let bits_cnt: usize = msb - lsb + 1;
        ttl_bit = ttl_bit + bits_cnt;
        proof {
            lemma_mask_facts(bits_cnt as u32, 0, 0);
        }
        let bits_mask: u32 = (1u32 << (bits_cnt as u32)) - 1;
        let ghost d0 = dword;
        dword = dword << (bits_cnt as u32);
        let byte_pos: usize = if !frame {
            byte_cnt + (word - 1) * 2
        } else if sub > 0 {
            byte_cnt + (sub - 1) * word_per_sec * 2 + (word - 1) * 2
        } else {
            byte_cnt + (subframe_idx - 1) * word_per_sec * 2 + (word - 1) * 2
        };
        let w16: u32 = (buf[byte_pos + 1] as u32) << 8 | buf[byte_pos] as u32;
        let field: u32 = (w16 >> ((lsb - 1) as u32)) & bits_mask;
        proof {
            lemma_mask_facts(bits_cnt as u32, w16, (lsb - 1) as u32);
            if ttl_bit <= 32 {
                lemma_concat_bound(d0, field, (ttl_bit - bits_cnt) as u32, bits_cnt as u32);
            }
        }
        dword = dword | field;
        ii = k;
    }
    proof {
        lemma_seen_all(set, frame, sfi);
    }
    let raw: i32 = #[verifier::truncate] (dword as i32);
    if signed && ttl_bit <= 31 {
        if raw & (1i32 << ((ttl_bit - 1) as u32)) > 0 {
            proof {
                lemma_sign_fits(dword, ttl_bit as u32);
            }
            Some(raw - (1i32 << (ttl_bit as u32)))
        } else {
            Some(raw)
        }
    } else {
        Some(raw)
    }
}

proof fn lemma_seen_after_mismatch(set: Seq<usize>, frame: bool, sfi: int, k: int)
    requires
        0 <= k < group_count(set, frame),
        group_mismatch(set, frame, sfi, k),
        group_reached(set, frame, sfi, k + 1),
    ensures
        !group_reached(set, frame, sfi, 0),
        target_bit_seen(set, frame, sfi) == exists|j: int|
            k + 1 <= j < group_count(set, frame) && #[trigger] gf(set, frame, j, 4) != 0,
{
    assert(!group_mismatch(set, frame, sfi, k) ==> false);
    if target_bit_seen(set, frame, sfi) {
        let j = choose|j: int|
            0 <= j < group_count(set, frame) && group_reached(set, frame, sfi, j) && #[trigger] gf(
                set,
                frame,
                j,
                4,
            ) != 0;
        if j <= k {
            assert(!group_mismatch(set, frame, sfi, k));
        }
    }
    if exists|j: int| k + 1 <= j < group_count(set, frame) && #[trigger] gf(set, frame, j, 4) != 0 {
        let j = choose|j: int|
            k + 1 <= j < group_count(set, frame) && #[trigger] gf(set, frame, j, 4) != 0;
        assert(group_reached(set, frame, sfi, j));
    }
}

proof fn lemma_seen_all(set: Seq<usize>, frame: bool, sfi: int)
    requires
        group_reached(set, frame, sfi, 0),
    ensures
        target_bit_seen(set, frame, sfi) == exists|j: int|
            0 <= j < group_count(set, frame) && #[trigger] gf(set, frame, j, 4) != 0,
{
    if exists|j: int| 0 <= j < group_count(set, frame) && #[trigger] gf(set, frame, j, 4) != 0 {
        let j = choose|j: int| 0 <= j < group_count(set, frame) && #[trigger] gf(set, frame, j, 4) != 0;
        assert(group_reached(set, frame, sfi, j));
    }
}

/// The concatenated fields of groups `k..n` fit in their total bit count.
pub proof fn lemma_concat_fields_bound(
    buf: Seq<u8>,
    set: Seq<usize>,
    frame: bool,
    bc: int,
    wps: int,
    sfi: int,
    k: int,
)
    requires
        0 <= k <= group_count(set, frame),
        forall|j: int|
            k <= j < group_count(set, frame) ==> 1 <= #[trigger] group_bits(set, frame, j) <= 30
                && 1 <= gf(set, frame, j, 2) <= 32,
        total_bits(set, frame, k) <= 32,
    ensures
        (concat_fields(buf, set, frame, bc, wps, sfi, k) as u64) < (1u64 << (total_bits(
            set,
            frame,
            k,
        ) as u64)),
    decreases group_count(set, frame) - k,
{
    if k == group_count(set, frame) {
        assert((0u32 as u64) < (1u64 << 0u64)) by (bit_vector);
    } else {
        let b = group_bits(set, frame, k);
        assert(1 <= group_bits(set, frame, k) <= 30 && 1 <= gf(set, frame, k, 2) <= 32);
        lemma_total_bits_bound(set, frame, k + 1, buf, bc, wps, sfi);
        lemma_concat_fields_bound(buf, set, frame, bc, wps, sfi, k + 1);
        let lsb = gf(set, frame, k, 2) as int;
        lemma_mask_facts(
            b as u32,
            word16(buf, group_pos(set, frame, bc, wps, sfi, k)),
            (lsb - 1) as u32,
        );
        lemma_concat_bound(
            concat_fields(buf, set, frame, bc, wps, sfi, k + 1),
            group_field(buf, set, frame, bc, wps, sfi, k),
            total_bits(set, frame, k + 1) as u32,
            b as u32,
        );
    }
}

/// A raw value of at most 30 bits lies in `-2^30 .. 2^30`.
pub proof fn lemma_raw_value_small(
    buf: Seq<u8>,
    set: Seq<usize>,
    frame: bool,
    bc: int,
    wps: int,
    sfi: int,
    signed: bool,
)
    requires
        forall|j: int|
            0 <= j < group_count(set, frame) ==> 1 <= #[trigger] group_bits(set, frame, j) <= 30
                && 1 <= gf(set, frame, j, 2) <= 32,
        total_bits(set, frame, 0) <= 30,
        raw_value(buf, set, frame, bc, wps, sfi, signed) is Some,
    ensures
        -0x4000_0000 <= raw_value(buf, set, frame, bc, wps, sfi, signed).unwrap() < 0x4000_0000,
{
    lemma_concat_fields_bound(buf, set, frame, bc, wps, sfi, 0);
    let c = concat_fields(buf, set, frame, bc, wps, sfi, 0);
    lemma_total_bits_bound(set, frame, 0, buf, bc, wps, sfi);
    let t: u64 = total_bits(set, frame, 0) as u64;
    assert(c < 0x4000_0000u32) by (bit_vector)
        requires
            (c as u64) < (1u64 << t),
            t <= 30,
    ;
    let raw = c as i32;
    assert(raw == c);
    let t32: u32 = t as u32;
    if signed && 1 <= t <= 31 && (raw & ((1i32 << ((t - 1) as u32)) as i32)) > 0 {
        assert(-0x4000_0000 <= ((raw - (1i32 << t32)) as i32) && ((raw - (1i32 << t32)) as i32)
            < 0x4000_0000) by (bit_vector)
            requires
                0 <= raw < 0x4000_0000,
                1 <= t32 <= 30,
        ;
    }
}

/// Reads the raw value of one sample of a parameter from the frame that starts
/// at byte `byte_cnt` (frames of four subframes of `word_per_sec` words).
/// `prm_set` is a list of six-number bit groups; a group of subframe 0 is read
/// from subframe `subframe_idx`.  Returns `None` when a group names a subframe
/// other than `subframe_idx` (subframe 0 matches all; `subframe_idx` 0 is used
/// for the superframe counter, whose groups all name a subframe).  With
/// `param_prm.signed`, a set highest bit makes the value negative (two's
/// complement over the total bit count).  A visited group with a target bit
/// other than 0 sets flag 0x1 of `*dword_err` (0x2 when `subframe_idx` is 0).
pub fn get_dword_raw(
    param_prm: &Param,
    prm_set: &Vec<usize>,
    byte_cnt: usize,
    word_per_sec: usize,
    subframe_idx: usize,
    buf: &[u8],
    dword_err: &mut u8,
) -> (r: Option<i32>)
    requires
        extraction_ok(
            buf@,
            prm_set@,
            true,
            byte_cnt as int,
            word_per_sec as int,
            subframe_idx as int,
            param_prm.signed,
        ),
    ensures
        r == raw_value(
            buf@,
            prm_set@,
            true,
            byte_cnt as int,
            word_per_sec as int,
            subframe_idx as int,
            param_prm.signed,
        ),
        *final(dword_err) == if target_bit_seen(prm_set@, true, subframe_idx as int) {
            *old(dword_err) | if subframe_idx == 0 {
                2u8
            } else {
                1u8
            }
        } else {
            *old(dword_err)
        },
{
    extract_raw(
        buf,
        prm_set,
        true,
        byte_cnt,
        word_per_sec,
        subframe_idx,
        param_prm.signed,
        dword_err,
    )
}

/// Reads the raw value of one sample of a parameter from the subframe that
/// starts at byte `byte_cnt`.  `prm_set` is a list of five-number bit groups
/// `[subframe, word, lsb, msb, targetBit]`.  Returns `None` when a group names
/// a subframe (other than 0) that is not `subframe_idx`.  With `signed`, a set
/// highest bit makes the value negative (two's complement over the total bit
/// count).
pub fn get_dword_raw_subframe(
    prm_set: &Vec<usize>,
    signed: bool,
    byte_cnt: usize,
    subframe_idx: usize,
    buf: &[u8],
) -> (r: Option<i32>)
    requires
        extraction_ok(buf@, prm_set@, false, byte_cnt as int, 0, subframe_idx as int, signed),
    ensures
        r == raw_value(buf@, prm_set@, false, byte_cnt as int, 0, subframe_idx as int, signed),
{
    let mut err: u8 = 0;
    extract_raw(buf, prm_set, false, byte_cnt, 0, subframe_idx, signed, &mut err)
}

/// Whether group `k` of `prm_set` can be read without fault (see [`group_ok`]).
fn group_fits(
    buf: &[u8],
    prm_set: &Vec<usize>,
    frame: bool,
    byte_cnt: usize,
    word_per_sec: usize,
    subframe_idx: usize,
    k: usize,
) -> (b: bool)
    requires
        k < group_count(prm_set@, frame),
        prm_set@.len() <= usize::MAX / 8,
    ensures
        b == group_ok(
            buf@,
            prm_set@,
            frame,
            byte_cnt as int,
            word_per_sec as int,
            subframe_idx as int,
            k as int,
        ),
{
    let ghost set = prm_set@;
    let blen = buf.len();
    let stride: usize = if frame {
        6
    } else {
        5
    };
    let n: usize = prm_set.len() / stride;
    let base: usize = k * stride + (stride - 5);
    assert(base + 4 < set.len()) by (nonlinear_arith)
        requires
            base == k * stride + (stride - 5),
            k < n,
            n == (set.len() as int) / (stride as int),
            stride == 5 || stride == 6,
    ;
    assert(base as int == k * group_stride(frame) + (group_stride(frame) - 5));
    let sub = prm_set[base];
    let word = prm_set[base + 1];
    let lsb = prm_set[base + 2];
    let msb = prm_set[base + 3];
    if word < 1 || lsb < 1 || lsb > msb || lsb > 32 || msb - lsb + 1 > 30 {
        return false;
    }
    if frame && sub == 0 && subframe_idx < 1 {
        return false;
    }
    let ghost sf_spec: int = if sub > 0 {
        sub as int
    } else {
        subframe_idx as int
    };
    assert(frame ==> (sf_spec - 1) * word_per_sec * 2 >= 0) by (nonlinear_arith)
        requires
            frame ==> sf_spec >= 1,
    ;
    assert(group_pos(set, frame, byte_cnt as int, word_per_sec as int, subframe_idx as int, k as int)
        == byte_cnt + (if frame {
        (sf_spec - 1) * word_per_sec * 2
    } else {
        0
    }) + (word - 1) * 2);
    let word_off: usize = match (word - 1).checked_mul(2) {
        Some(v) => v,
        None => {
            return false;
        },
    };
    let sub_off: usize = if !frame {
        0
    } else {
        let sf: usize = if sub > 0 {
            sub
        } else {
            subframe_idx
        };
        match (sf - 1).checked_mul(word_per_sec) {
            Some(v) => match v.checked_mul(2) {
                Some(w) => w,
                None => {
                    return false;
                },
            },
            None => {
                proof {
                    assert((sf - 1) * word_per_sec * 2 > usize::MAX) by (nonlinear_arith)
                        requires
                            (sf - 1) * word_per_sec > usize::MAX,
                    ;
                }
                return false;
            },
        }
    };
    let pos: usize = match byte_cnt.checked_add(sub_off) {
        Some(v) => match v.checked_add(word_off) {
            Some(w) => w,
            None => {
                return false;
            },
        },
        None => {
            return false;
        },
    };
    pos < blen && blen - pos > 1
}

/// Whether a location list can be extracted without fault: computes
/// [`extraction_ok`].
pub fn extraction_fits(
    buf: &[u8],
    prm_set: &Vec<usize>,
    frame: bool,
    byte_cnt: usize,
    word_per_sec: usize,
    subframe_idx: usize,
    signed: bool,
) -> (b: bool)
    ensures
        b == extraction_ok(
            buf@,
            prm_set@,
            frame,
            byte_cnt as int,
            word_per_sec as int,
            subframe_idx as int,
            signed,
        ),
{
    let ghost set = prm_set@;
    let ghost bc = byte_cnt as int;
    let ghost wps = word_per_sec as int;
    let ghost sfi = subframe_idx as int;
    let stride: usize = if frame {
        6
    } else {
        5
    };
    if prm_set.len() > usize::MAX / 8 {
        return false;
    }
    let n: usize = prm_set.len() / stride;
    if n < 1 {
        return false;
    }
    let mut k: usize = n;
    let mut ttl: usize = 0;
    while k > 0
        invariant
            set == prm_set@,
            bc == byte_cnt,
            wps == word_per_sec,
            sfi == subframe_idx,
            stride == group_stride(frame),
            n == group_count(set, frame),
            n >= 1,
            set.len() <= usize::MAX / 8,
            k <= n,
            group_reached(set, frame, sfi, k as int),
            forall|j: int| k <= j < n ==> #[trigger] group_ok(buf@, set, frame, bc, wps, sfi, j),
            ttl == total_bits(set, frame, k as int),
            ttl <= 30 * (n - k),
        decreases k,
    {
        let j: usize = k - 1;
        let base: usize = j * stride + (stride - 5);
        assert(base + 4 < set.len()) by (nonlinear_arith)
            requires
                base == j * stride + (stride - 5),
                j < n,
                n == (set.len() as int) / (stride as int),
                stride == 5 || stride == 6,
        ;
        assert(base as int == j * group_stride(frame) + (group_stride(frame) - 5));
        let sub = prm_set[base];
        let mismatch = if frame {
            subframe_idx > 0 && sub > 0 && sub != subframe_idx
        } else {
            sub > 0 && sub != subframe_idx
        };
        if mismatch {
            proof {
                assert(group_mismatch(set, frame, sfi, j as int));
                assert forall|i: int|
                    0 <= i < n && #[trigger] group_reached(set, frame, sfi, i) implies group_ok(
                    buf@,
                    set,
                    frame,
                    bc,
                    wps,
                    sfi,
                    i,
                ) by {
                    if i <= j {
                        assert(!group_mismatch(set, frame, sfi, j as int));
                    }
                }
                assert(!group_reached(set, frame, sfi, 0)) by {
                    if group_reached(set, frame, sfi, 0) {
                        assert(!group_mismatch(set, frame, sfi, j as int));
                    }
                }
            }
            return true;
        }
        proof {
            lemma_reached_step(set, frame, sfi, j as int);
        }
        if !group_fits(buf, prm_set, frame, byte_cnt, word_per_sec, subframe_idx, j) {
            return false;
        }
        assert(prm_set[base + 3] == gf(set, frame, j as int, 3));
        assert(prm_set[base + 2] == gf(set, frame, j as int, 2));
        ttl = ttl + (prm_set[base + 3] - prm_set[base + 2] + 1);
        k = j;
        assert(ttl <= 30 * (n - k)) by (nonlinear_arith)
            requires
                ttl <= 30 * (n - (k + 1)) + 30,
        ;
    }
    if !signed {
        return true;
    }
    if ttl > 32 {
        return false;
    }
    if ttl == 31 {
        let mut err: u8 = 0;
        assert(extraction_ok(buf@, set, frame, bc, wps, sfi, false));
        let raw = extract_raw(buf, prm_set, frame, byte_cnt, word_per_sec, subframe_idx, false, &mut err);
        match raw {
            Some(v) => {
                let ghost c = concat_fields(buf@, set, frame, bc, wps, sfi, 0);
                assert(v == c as i32);
                assert((v & 0x4000_0000i32 != 0) == (c & 0x4000_0000u32 != 0)) by (bit_vector)
                    requires
                        v == c as i32,
                ;
                return v & 0x4000_0000i32 == 0;
            },
            None => {
                return false;
            },
        }
    }
    true
}

/// The raw values that the location lists `words` (five-number groups) give
/// in the subframe at byte `bc`, in order, leaving out the lists that name
/// another subframe.
pub open spec fn subframe_raws(
    buf: Seq<u8>,
    words: Seq<Vec<usize>>,
    bc: int,
    sfi: int,
    signed: bool,
) -> Seq<i32>
    decreases words.len(),
{
    if words.len() == 0 {
        Seq::<i32>::empty()
    } else {
        let rest = subframe_raws(buf, words.drop_first(), bc, sfi, signed);
        match raw_value(buf, words[0]@, false, bc, 0, sfi, signed) {
            Some(v) => seq![v] + rest,
            None => rest,
        }
    }
}

/// Reads one sample of every location list of a parameter from the subframe
/// at byte `byte_cnt` (see [`get_dword_raw_subframe`]) and returns the raw
/// values of the lists that apply to subframe `subframe_idx`, in order.
pub fn get_subframe_raws(
    prm_words: &Vec<Vec<usize>>,
    signed: bool,
    byte_cnt: usize,
    subframe_idx: usize,
    buf: &[u8],
) -> (r: Vec<i32>)
    requires
        forall|j: int|
            0 <= j < prm_words@.len() ==> extraction_ok(
                buf@,
                #[trigger] prm_words@[j]@,
                false,
                byte_cnt as int,
                0,
                subframe_idx as int,
                signed,
            ),
    ensures
        r@ == subframe_raws(buf@, prm_words@, byte_cnt as int, subframe_idx as int, signed),
{
    let n = prm_words.len();
    let mut r: Vec<i32> = Vec::new();
    let mut j: usize = 0;
    assert(prm_words@.subrange(0, n as int) =~= prm_words@);
    while j < n
        invariant
            n == prm_words@.len(),
            j <= n,
            forall|i: int|
                0 <= i < prm_words@.len() ==> extraction_ok(
                    buf@,
                    #[trigger] prm_words@[i]@,
                    false,
                    byte_cnt as int,
                    0,
                    subframe_idx as int,
                    signed,
                ),
            r@ + subframe_raws(
                buf@,
                prm_words@.subrange(j as int, n as int),
                byte_cnt as int,
                subframe_idx as int,
                signed,
            ) == subframe_raws(buf@, prm_words@, byte_cnt as int, subframe_idx as int, signed),
        decreases n - j,
    {
        let ghost rest = prm_words@.subrange(j as int, n as int);
        let ghost r0 = r@;
        assert(rest[0] == prm_words@[j as int]);
        assert(rest.drop_first() =~= prm_words@.subrange(j + 1, n as int));
        match get_dword_raw_subframe(&prm_words[j], signed, byte_cnt, subframe_idx, buf) {
            Some(v) => {
                r.push(v);
                assert(r@ + subframe_raws(buf@, rest.drop_first(), byte_cnt as int, subframe_idx as int, signed)
                    =~= r0 + subframe_raws(buf@, rest, byte_cnt as int, subframe_idx as int, signed));
            },
            None => {},
        }
        j = j + 1;
    }
    assert(prm_words@.subrange(n as int, n as int) =~= Seq::<Vec<usize>>::empty());
    assert(r@ + Seq::<i32>::empty() =~= r@);
    r
}

/// Number of whole four-number groups `[subframe, word, lsb, msb]` in a
/// location list read into a 16-bit value.
pub open spec fn group_count16(set: Seq<usize>) -> int {
    (set.len() as int) / 4
}

/// Field `i` (0 = subframe, 1 = word, 2 = lsb, 3 = msb) of four-number group `k`.
pub open spec fn gf16(set: Seq<usize>, k: int, i: int) -> usize {
    set[k * 4 + i]
}

/// A four-number group that can be read into a 16-bit value without fault:
/// 1 to 15 bits `lsb..=msb` with `lsb <= 16`, of a word inside the data.
pub open spec fn group16_ok(buf: Seq<u8>, set: Seq<usize>, bc: int, k: int) -> bool {
    let word = gf16(set, k, 1) as int;
    let lsb = gf16(set, k, 2) as int;
    let msb = gf16(set, k, 3) as int;
    &&& 1 <= word
    &&& 1 <= lsb <= msb
    &&& lsb <= 16
    &&& msb - lsb + 1 <= 15
    &&& bc + (word - 1) * 2 + 1 < buf.len()
}

/// A location list that can be read into a 16-bit value without fault.
pub open spec fn extraction16_ok(buf: Seq<u8>, set: Seq<usize>, bc: int) -> bool {
    &&& group_count16(set) >= 1
    &&& set.len() <= usize::MAX / 8
    &&& forall|k: int| 0 <= k < group_count16(set) ==> #[trigger] group16_ok(buf, set, bc, k)
}

/// The bits `lsb..=msb` of the word that four-number group `k` reads, shifted
/// down to bit 0.
pub open spec fn group16_field(buf: Seq<u8>, set: Seq<usize>, bc: int, k: int) -> u16 {
    let p = bc + (gf16(set, k, 1) - 1) * 2;
    let w: u16 = ((buf[p + 1] as u16) << 8u16) | (buf[p] as u16);
    (w >> ((gf16(set, k, 2) - 1) as u16)) & ((((1u16 << ((gf16(set, k, 3) - gf16(set, k, 2) + 1) as u16)) as int) - 1) as u16)
}

/// The fields of the four-number groups `k..n` concatenated, the last group
/// most significant, in 16-bit arithmetic (bits beyond 16 fall off the top).
pub open spec fn concat16(buf: Seq<u8>, set: Seq<usize>, bc: int, k: int) -> u16
    decreases group_count16(set) - k,
{
    if k < 0 || k >= group_count16(set) {
        0
    } else {
        (concat16(buf, set, bc, k + 1) << ((gf16(set, k, 3) - gf16(set, k, 2) + 1) as u16)) | group16_field(
            buf,
            set,
            bc,
            k,
        )
    }
}

/// Reads a location list of four-number groups `[subframe, word, lsb, msb]`
/// from the subframe at byte `byte_cnt` into a 16-bit value: the groups'
/// fields concatenated, the last group most significant (the subframe field
/// is not looked at, and bits beyond 16 fall off the top).
pub fn get_word_raw16(prm_set: &Vec<usize>, byte_cnt: usize, buf: &[u8]) -> (r: u16)
    requires
        extraction16_ok(buf@, prm_set@, byte_cnt as int),
    ensures
        r == concat16(buf@, prm_set@, byte_cnt as int, 0),
{
    let ghost set = prm_set@;
    let blen = buf.len();
    let n: usize = prm_set.len() / 4;
    let mut v: u16 = 0;
    let mut k: usize = n;
    while k > 0
        invariant
            set == prm_set@,
            blen == buf@.len(),
            n == group_count16(set),
            k <= n,
            extraction16_ok(buf@, set, byte_cnt as int),
            v == concat16(buf@, set, byte_cnt as int, k as int),
        decreases k,
    {
        let j: usize = k - 1;
        assert(group16_ok(buf@, set, byte_cnt as int, j as int));
        assert(j * 4 + 3 < set.len()) by (nonlinear_arith)
            requires
                j < n,
                n == (set.len() as int) / 4,
        ;
        let word = prm_set[j * 4 + 1];
        let lsb = prm_set[j * 4 + 2];
        let msb = prm_set[j * 4 + 3];
        assert(word == gf16(set, j as int, 1) && lsb == gf16(set, j as int, 2) && msb == gf16(set, j as int, 3));
        let bits: u16 = (msb - lsb + 1) as u16;
        let p: usize = byte_cnt + (word - 1) * 2;
        let w: u16 = ((buf[p + 1] as u16) << 8) | (buf[p] as u16);
        assert(1 <= bits <= 15 ==> (1u16 << bits) >= 1) by (bit_vector);
        let mask: u16 = (1u16 << bits) - 1;
        v = (v << bits) | ((w >> ((lsb - 1) as u16)) & mask);
        k = j;
    }
    v
}

/// Whether a location list of four-number groups can be read into a 16-bit
/// value without fault: computes [`extraction16_ok`].
pub fn extraction16_fits(prm_set: &Vec<usize>, byte_cnt: usize, buf: &[u8]) -> (b: bool)
    ensures
        b == extraction16_ok(buf@, prm_set@, byte_cnt as int),
{
    let ghost set = prm_set@;
    let blen = buf.len();
    if prm_set.len() > usize::MAX / 8 {
        return false;
    }
    let n: usize = prm_set.len() / 4;
    if n < 1 {
        return false;
    }
    let mut k: usize = 0;
    while k < n
        invariant
            set == prm_set@,
            blen == buf@.len(),
            n == group_count16(set),
            set.len() <= usize::MAX / 8,
            k <= n,
            forall|j: int| 0 <= j < k ==> #[trigger] group16_ok(buf@, set, byte_cnt as int, j),
        decreases n - k,
    {
        assert(k * 4 + 3 < set.len()) by (nonlinear_arith)
            requires
                k < n,
                n == (set.len() as int) / 4,
        ;
        let word = prm_set[k * 4 + 1];
        let lsb = prm_set[k * 4 + 2];
        let msb = prm_set[k * 4 + 3];
        assert(word == gf16(set, k as int, 1) && lsb == gf16(set, k as int, 2) && msb == gf16(set, k as int, 3));
        if word < 1 || lsb < 1 || lsb > msb || lsb > 16 || msb - lsb + 1 > 15 {
            assert(!group16_ok(buf@, set, byte_cnt as int, k as int));
            return false;
        }
        let off: usize = match (word - 1).checked_mul(2) {
            Some(v) => v,
            None => {
                assert(!group16_ok(buf@, set, byte_cnt as int, k as int));
                return false;
            },
        };
        let p: usize = match byte_cnt.checked_add(off) {
            Some(v) => v,
            None => {
                assert(!group16_ok(buf@, set, byte_cnt as int, k as int));
                return false;
            },
        };
        if !(p < blen && blen - p > 1) {
            assert(!group16_ok(buf@, set, byte_cnt as int, k as int));
            return false;
        }
        assert(group16_ok(buf@, set, byte_cnt as int, k as int));
        k = k + 1;
    }
    true
}

} // verus!
