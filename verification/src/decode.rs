//! Decoding of all samples of one parameter from an aligned recording.
//!
//! The recording is scanned frame by frame (four subframes of
//! `word_per_sec` words).  For every frame the superframe counter is read;
//! a superframe parameter is decoded only in the frames whose counter (plus
//! one) equals the parameter's superframe.  In each of the four subframes every
//! location list of the parameter that applies to that subframe gives one
//! sample.

use crate::config::Param;
use crate::dword::{
    extraction_ok, get_dword_raw, gf, group_bits, group_count, group_ok, group_pos,
    group_reached, lemma_raw_value_small, raw_value, target_bit_seen, total_bits,
};
use crate::sync::{
    find_frame, first_frame_hit, frame_complete, frame_hit, frame_list, lemma_find_frame_is_first,
    lemma_first_frame_hit_ge,
};
use crate::values::{
    conversion_fits, conversion_ok, convert_value, format_class, is_sample_value, rec_format_class, FormatClass,
    SampleValue,
};
use vstd::prelude::*;

verus! {

/// One decoded sample: the second (subframe counted from the start of the
/// recording), its position among the samples of that second, and its value
/// before the linear conversion.
pub struct Sample {
    pub second: i32,
    pub slot: usize,
    pub value: SampleValue,
}

/// The type of the decoded values.
#[derive(Debug, PartialEq, Eq, Structural)]
pub enum ValueKind {
    Float,
    Int,
    Str,
}

/// The number of samples per second as the fraction `num / den`.
pub struct ParamRate {
    pub num: usize,
    pub den: usize,
}

/// All decoded samples of one parameter.
pub struct DecodedParam {
    pub kind: ValueKind,
    pub samples: Vec<Sample>,
    pub rate: ParamRate,
    /// A bit group of the superframe counter has a target bit other than 0.
    pub counter_target_bits: bool,
    /// A bit group of the parameter that was read has a target bit other than 0.
    pub param_target_bits: bool,
}

/// A location list that can be read in any whole frame: at least one group,
/// and in every group a word of the subframe, a subframe from 0 to 4 (0 only
/// where allowed), and 1 to 30 bits `lsb..=msb` with `lsb <= 32`.
///
/// The bit bounds, `1 <= word` and a subframe for the counter are exactly
/// what reading a group needs.  The bounds `word <= wps` and `subframe <= 4`
/// say that every group lies in the frame being decoded: a frame is only
/// decoded when it lies wholly inside the data, so such a location can be
/// read in every frame of every recording.  A word past the subframe or a
/// subframe past the fourth would be read from the bytes of a later frame,
/// which hold no sample of this frame, and near the end of the data from
/// beyond it, a fault that then depends on the recording; decoding is
/// defined here for the configurations whose locations lie in the frame.
pub open spec fn frame_set_ok(set: Seq<usize>, wps: int, allow_any_subframe: bool) -> bool {
    &&& group_count(set, true) >= 1
    &&& set.len() <= usize::MAX / 8
    &&& forall|k: int|
        0 <= k < group_count(set, true) ==> #[trigger] frame_group_fine(set, k, wps, allow_any_subframe)
}

/// Group `j` of a location list read in whole frames: a word of the subframe,
/// a subframe from 0 to 4 (0 only where allowed), and 1 to 30 bits
/// `lsb..=msb` with `lsb <= 32`.
pub open spec fn frame_group_fine(set: Seq<usize>, j: int, wps: int, allow_any_subframe: bool) -> bool {
    let sub = gf(set, true, j, 0) as int;
    let word = gf(set, true, j, 1) as int;
    let lsb = gf(set, true, j, 2) as int;
    let msb = gf(set, true, j, 3) as int;
    &&& 1 <= word <= wps
    &&& sub <= 4
    &&& (sub == 0 ==> allow_any_subframe)
    &&& 1 <= lsb <= msb
    &&& lsb <= 32
    &&& msb - lsb + 1 <= 30
}

/// A parameter configuration that can be decoded without fault.
pub open spec fn param_ok(prm: Param, wps: int) -> bool {
    &&& prm.words@.len() >= 1
    &&& forall|j: int| 0 <= j < prm.words@.len() ==> frame_set_ok(#[trigger] prm.words@[j]@, wps, true)
    &&& prm.signed ==> forall|j: int|
        0 <= j < prm.words@.len() ==> total_bits(#[trigger] prm.words@[j]@, true, 0) <= 30
            || total_bits(prm.words@[j]@, true, 0) == 32
    &&& conversion_ok(format_class(prm.RecFormat@), prm.ConvConfig@)
}

/// A superframe counter location list that can be read without fault: every
/// group names a subframe and there are at most 30 bits.
pub open spec fn counter_ok(set: Seq<usize>, wps: int) -> bool {
    &&& frame_set_ok(set, wps, false)
    &&& total_bits(set, true, 0) <= 30
}

/// The superframe counter of the frame at `p`.
pub open spec fn counter_value(buf: Seq<u8>, set: Seq<usize>, signed: bool, p: int, wps: int) -> i32 {
    raw_value(buf, set, true, p, wps, 0, signed).unwrap()
}

/// Whether the parameter is decoded in the frame at `p`: it is not a
/// superframe parameter, or its superframe is the frame's counter plus one.
pub open spec fn superframe_passes(
    prm: Param,
    buf: Seq<u8>,
    cset: Seq<usize>,
    csigned: bool,
    p: int,
    wps: int,
) -> bool {
    let sup = prm.words@[0]@[0];
    sup == 0 || (sup as i32) as int == counter_value(buf, cset, csigned, p, wps) as int + 1
}

/// The sample that location list `set` gives in subframe `sfi` of the frame at
/// `p`, if the list applies to that subframe.
pub open spec fn sample_at(
    prm: Param,
    set: Seq<usize>,
    buf: Seq<u8>,
    p: int,
    wps: int,
    sfi: int,
    second: int,
    slot: int,
) -> Option<(i32, int, i32)> {
    match raw_value(buf, set, true, p, wps, sfi, prm.signed) {
        Some(d) => Some((second as i32, slot, d)),
        None => None,
    }
}

/// Whether `s` is the sample of raw value `d`, second `second` and slot `slot`.
pub open spec fn sample_is(s: Sample, prm: Param, second: i32, slot: int, d: i32) -> bool {
    &&& s.second == second
    &&& s.slot as int == slot
    &&& is_sample_value(s.value, format_class(prm.RecFormat@), prm.ConvConfig@, d)
}

/// The (second, slot, raw value) triples of subframe `sfi` of the frame at `p`
/// that the first `m` location lists give.
pub open spec fn subframe_triples(
    prm: Param,
    buf: Seq<u8>,
    p: int,
    wps: int,
    sfi: int,
    second: int,
    m: int,
) -> Seq<(i32, int, i32)>
    decreases m,
{
    if m <= 0 {
        seq![]
    } else {
        let prev = subframe_triples(prm, buf, p, wps, sfi, second, m - 1);
        match sample_at(prm, prm.words@[m - 1]@, buf, p, wps, sfi, second, prev.len() as int) {
            Some(t) => prev.push(t),
            None => prev,
        }
    }
}

/// The triples of the first `sub` subframes of the frame at `p`, whose first
/// second is `base`.
pub open spec fn frame_triples(prm: Param, buf: Seq<u8>, p: int, wps: int, base: int, sub: int) -> Seq<
    (i32, int, i32),
>
    decreases sub,
{
    if sub <= 0 {
        seq![]
    } else {
        frame_triples(prm, buf, p, wps, base, sub - 1) + subframe_triples(
            prm,
            buf,
            p,
            wps,
            sub,
            base + sub - 1,
            prm.words@.len() as int,
        )
    }
}

/// The triples of the first `k` frames of `frames`.
pub open spec fn decoded_triples(
    prm: Param,
    buf: Seq<u8>,
    cset: Seq<usize>,
    csigned: bool,
    wps: int,
    frames: Seq<int>,
    k: int,
) -> Seq<(i32, int, i32)>
    decreases k,
{
    if k <= 0 {
        seq![]
    } else {
        decoded_triples(prm, buf, cset, csigned, wps, frames, k - 1) + if superframe_passes(
            prm,
            buf,
            cset,
            csigned,
            frames[k - 1],
            wps,
        ) {
            frame_triples(prm, buf, frames[k - 1], wps, 4 * (k - 1), 4)
        } else {
            seq![]
        }
    }
}

/// Whether `samples` are the samples described by `triples`, in order.
pub open spec fn samples_are(samples: Seq<Sample>, prm: Param, triples: Seq<(i32, int, i32)>) -> bool {
    &&& samples.len() == triples.len()
    &&& forall|i: int|
        0 <= i < samples.len() ==> sample_is(
            #[trigger] samples[i],
            prm,
            triples[i].0,
            triples[i].1,
            triples[i].2,
        )
}

/// The kind of values that a record format gives.
pub open spec fn kind_of(class: FormatClass) -> ValueKind {
    match class {
        FormatClass::Bcd => ValueKind::Float,
        FormatClass::Numeric => ValueKind::Float,
        _ => ValueKind::Str,
    }
}

/// Number of the first `m` location lists whose first group names subframe `sub`.
pub open spec fn count_subframe(words: Seq<Vec<usize>>, sub: usize, m: int) -> nat
    decreases m,
{
    if m <= 0 {
        0
    } else {
        count_subframe(words, sub, m - 1) + if words[m - 1]@[1] == sub {
            1nat
        } else {
            0nat
        }
    }
}

/// Samples per second of a parameter, as in its first location list: with
/// subframe 0 every list is one sample per second (divided over the
/// superframes of a cycle for a superframe parameter); with a named subframe,
/// the lists of that subframe (or one per cycle for a superframe parameter).
pub open spec fn param_rate_of(prm: Param, super_frame_per_cycle: usize) -> (usize, usize) {
    let w0 = prm.words@[0]@;
    let n = prm.words@.len() as usize;
    if w0[1] == 0 {
        if w0[0] == 0 {
            (n, 1)
        } else {
            (n, super_frame_per_cycle)
        }
    } else {
        if w0[0] == 0 {
            (count_subframe(prm.words@, w0[1], prm.words@.len() as int) as usize, 1)
        } else {
            (1, super_frame_per_cycle)
        }
    }
}

/// Whether some location list of the parameter has a target bit other than 0
/// in a group that is read in one of the four subframes.
pub open spec fn param_target_bit_seen(prm: Param) -> bool {
    exists|j: int, sfi: int|
        0 <= j < prm.words@.len() && 1 <= sfi <= 4 && #[trigger] target_bit_seen(
            prm.words@[j]@,
            true,
            sfi,
        )
}

proof fn lemma_frame_extraction_ok(
    buf: Seq<u8>,
    set: Seq<usize>,
    wps: int,
    p: int,
    sfi: int,
    signed: bool,
    allow_any_subframe: bool,
)
    requires
        frame_set_ok(set, wps, allow_any_subframe),
        0 <= p,
        p + 8 * wps <= buf.len(),
        allow_any_subframe ==> 1 <= sfi <= 4,
        !allow_any_subframe ==> sfi == 0,
        signed ==> ({
            let t = total_bits(set, true, 0);
            t <= 30 || t == 32
        }),
    ensures
        extraction_ok(buf, set, true, p, wps, sfi, signed),
{
    assert forall|k: int|
        0 <= k < group_count(set, true) && #[trigger] group_reached(
            set,
            true,
            sfi,
            k,
        ) implies group_ok(buf, set, true, p, wps, sfi, k) by {
        assert(frame_group_fine(set, k, wps, allow_any_subframe));
        let sub = gf(set, true, k, 0) as int;
        let word = gf(set, true, k, 1) as int;
        let s = if sub > 0 {
            sub
        } else {
            sfi
        };
        assert(1 <= s <= 4);
        assert(0 <= (s - 1) * wps * 2 <= 6 * wps) by (nonlinear_arith)
            requires
                1 <= s <= 4,
                0 <= wps,
        ;
        assert(group_pos(set, true, p, wps, sfi, k) == p + (s - 1) * wps * 2 + (word - 1) * 2);
    }
}

proof fn lemma_samples_are_push(samples: Seq<Sample>, prm: Param, t: Seq<(i32, int, i32)>, s: Sample, x: (i32, int, i32))
    requires
        samples_are(samples, prm, t),
        sample_is(s, prm, x.0, x.1, x.2),
    ensures
        samples_are(samples.push(s), prm, t.push(x)),
{
    assert forall|i: int| 0 <= i < samples.push(s).len() implies sample_is(
        #[trigger] samples.push(s)[i],
        prm,
        t.push(x)[i].0,
        t.push(x)[i].1,
        t.push(x)[i].2,
    ) by {
        if i < samples.len() {
            assert(samples.push(s)[i] == samples[i]);
            assert(t.push(x)[i] == t[i]);
        }
    }
}

/// Decodes the samples of subframe `sfi` of the frame at byte `p` and appends
/// them to `samples`; flag 0x1 of `*err` is set when a visited group has a
/// target bit other than 0.
fn decode_subframe(
    prm: &Param,
    class: &FormatClass,
    buf: &[u8],
    p: usize,
    word_per_sec: usize,
    sfi: usize,
    second: i32,
    samples: &mut Vec<Sample>,
    err: &mut u8,
    Ghost(before): Ghost<Seq<(i32, int, i32)>>,
)
    requires
        param_ok(*prm, word_per_sec as int),
        p + 8 * word_per_sec <= buf@.len(),
        1 <= sfi <= 4,
        *class == format_class(prm.RecFormat@),
        *old(err) == 0 || *old(err) == 1,
        samples_are(old(samples)@, *prm, before),
    ensures
        samples_are(
            final(samples)@,
            *prm,
            before + subframe_triples(
                *prm,
                buf@,
                p as int,
                word_per_sec as int,
                sfi as int,
                second as int,
                prm.words@.len() as int,
            ),
        ),
        *final(err) == if *old(err) == 1 || exists|j: int|
            0 <= j < prm.words@.len() && #[trigger] target_bit_seen(
                prm.words@[j]@,
                true,
                sfi as int,
            ) {
            1u8
        } else {
            0u8
        },
{
    let ghost e0 = *err;
    let n = prm.words.len();
    let mut j: usize = 0;
    let mut slot: usize = 0;
    while j < n
        invariant
            n == prm.words@.len(),
            j <= n,
            param_ok(*prm, word_per_sec as int),
            p + 8 * word_per_sec <= buf@.len(),
            1 <= sfi <= 4,
            *class == format_class(prm.RecFormat@),
            e0 == *old(err),
            slot as int == subframe_triples(
                *prm,
                buf@,
                p as int,
                word_per_sec as int,
                sfi as int,
                second as int,
                j as int,
            ).len(),
            slot <= j,
            samples_are(
                samples@,
                *prm,
                before + subframe_triples(
                    *prm,
                    buf@,
                    p as int,
                    word_per_sec as int,
                    sfi as int,
                    second as int,
                    j as int,
                ),
            ),
            *err == if e0 == 1 || exists|i: int|
                0 <= i < j && #[trigger] target_bit_seen(prm.words@[i]@, true, sfi as int) {
                1u8
            } else {
                0u8
            },
        decreases n - j,
    {
        let set = &prm.words[j];
        proof {
            assert(frame_set_ok(prm.words@[j as int]@, word_per_sec as int, true));
            lemma_frame_extraction_ok(
                buf@,
                set@,
                word_per_sec as int,
                p as int,
                sfi as int,
                prm.signed,
                true,
            );
        }
        let ghost e1 = *err;
        let r = get_dword_raw(prm, set, p, word_per_sec, sfi, buf, err);
        proof {
            assert((0u8 | 1u8) == 1u8 && (1u8 | 1u8) == 1u8) by (bit_vector);
            if exists|i: int|
                0 <= i < j + 1 && #[trigger] target_bit_seen(prm.words@[i]@, true, sfi as int) {
                let i = choose|i: int|
                    0 <= i < j + 1 && #[trigger] target_bit_seen(prm.words@[i]@, true, sfi as int);
                if i < j {
                    assert(exists|i2: int|
                        0 <= i2 < j && #[trigger] target_bit_seen(prm.words@[i2]@, true, sfi as int));
                }
            }
            if target_bit_seen(prm.words@[j as int]@, true, sfi as int) {
                assert(exists|i: int|
                    0 <= i < j + 1 && #[trigger] target_bit_seen(prm.words@[i]@, true, sfi as int));
            }
        }
        let ghost prev = subframe_triples(
            *prm,
            buf@,
            p as int,
            word_per_sec as int,
            sfi as int,
            second as int,
            j as int,
        );
        match r {
            Some(d) => {
                let value = convert_value(class, &prm.ConvConfig, d);
                let smp = Sample { second, slot, value };
                proof {
                    lemma_samples_are_push(
                        samples@,
                        *prm,
                        before + prev,
                        smp,
                        (second, slot as int, d),
                    );
                    assert((before + prev).push((second, slot as int, d)) =~= before + prev.push(
                        (second, slot as int, d),
                    ));
                }
                samples.push(smp);
                slot = slot + 1;
            },
            None => {},
        }
        j = j + 1;
    }
}

/// Samples per second of a parameter (see [`param_rate_of`]).
pub fn param_rate(prm: &Param, super_frame_per_cycle: usize) -> (r: ParamRate)
    requires
        prm.words@.len() >= 1,
        forall|j: int| 0 <= j < prm.words@.len() ==> (#[trigger] prm.words@[j]@).len() >= 2,
    ensures
        (r.num, r.den) == param_rate_of(*prm, super_frame_per_cycle),
{
    let w0 = &prm.words[0];
    assert(w0@.len() >= 2);
    let n = prm.words.len();
    if w0[1] == 0 {
        if w0[0] == 0 {
            ParamRate { num: n, den: 1 }
        } else {
            ParamRate { num: n, den: super_frame_per_cycle }
        }
    } else {
        if w0[0] == 0 {
            let subframe = w0[1];
            let mut num: usize = 0;
            let mut j: usize = 0;
            while j < n
                invariant
                    n == prm.words@.len(),
                    j <= n,
                    num <= j,
                    num == count_subframe(prm.words@, subframe, j as int),
                    forall|i: int| 0 <= i < prm.words@.len() ==> (#[trigger] prm.words@[i]@).len() >= 2,
                decreases n - j,
            {
                let vv = &prm.words[j];
                assert(vv@.len() >= 2);
                if vv[1] == subframe {
                    num = num + 1;
                }
                j = j + 1;
            }
            ParamRate { num, den: 1 }
        } else {
            ParamRate { num: 1, den: super_frame_per_cycle }
        }
    }
}

/// Whether the parameter passes the superframe test in one of the first `k`
/// frames of `frames`.
pub open spec fn passes_somewhere(
    prm: Param,
    buf: Seq<u8>,
    cset: Seq<usize>,
    csigned: bool,
    wps: int,
    frames: Seq<int>,
    k: int,
) -> bool {
    exists|i: int| 0 <= i < k && #[trigger] superframe_passes(prm, buf, cset, csigned, frames[i], wps)
}

/// Decodes every sample of parameter `prm` from an aligned recording `buf`.
///
/// Frames are located as [`find_frame`] does, from the start of the data and
/// one frame further each time.  In each frame the superframe counter
/// (`counter_set`, read with the sign setting of `counter`) is read; when `prm`
/// is a superframe parameter it is decoded only in the frames whose counter
/// plus one equals its superframe.  Subframe `s` (1 to 4) of frame `i` is
/// second `4 * i + s - 1`.  The result lists the samples in that order with
/// their values before the linear conversion, the value kind (`Str` when
/// there is no sample), the samples per second, and whether a target bit
/// other than 0 was met.
pub fn get_param(
    buf: &[u8],
    prm: &Param,
    counter: &Param,
    counter_set: &Vec<usize>,
    word_per_sec: usize,
    super_frame_per_cycle: usize,
) -> (r: DecodedParam)
    requires
        2 <= buf@.len(),
        word_per_sec == 0 || buf@.len() <= 2 * word_per_sec * (i32::MAX - 8),
        buf@.len() + 8 * word_per_sec <= usize::MAX,
        param_ok(*prm, word_per_sec as int),
        counter_ok(counter_set@, word_per_sec as int),
    ensures
        ({
            let frames = frame_list(buf@, buf@.len() as int, word_per_sec as int, 0);
            &&& samples_are(
                r.samples@,
                *prm,
                decoded_triples(
                    *prm,
                    buf@,
                    counter_set@,
                    counter.signed,
                    word_per_sec as int,
                    frames,
                    frames.len() as int,
                ),
            )
            &&& r.counter_target_bits == (frames.len() > 0 && target_bit_seen(
                counter_set@,
                true,
                0,
            ))
            &&& r.param_target_bits == (passes_somewhere(
                *prm,
                buf@,
                counter_set@,
                counter.signed,
                word_per_sec as int,
                frames,
                frames.len() as int,
            ) && param_target_bit_seen(*prm))
        }),
        r.kind == if r.samples@.len() == 0 {
            ValueKind::Str
        } else {
            kind_of(format_class(prm.RecFormat@))
        },
        (r.rate.num, r.rate.den) == param_rate_of(*prm, super_frame_per_cycle),
        forall|i: int|
            0 <= i < r.samples@.len() ==> (#[trigger] r.samples@[i]).slot == count_before(
                sample_seconds(r.samples@),
                r.samples@[i].second,
                i,
            ),
{
    let buflen = buf.len();
    let ghost wps = word_per_sec as int;
    let ghost frames = frame_list(buf@, buflen as int, wps, 0);
    let class = rec_format_class(&prm.RecFormat);
    proof {
        assert(frame_set_ok(prm.words@[0]@, wps, true));
        assert forall|j: int| 0 <= j < prm.words@.len() implies (#[trigger] prm.words@[j]@).len()
            >= 2 by {
            assert(frame_set_ok(prm.words@[j]@, wps, true));
        }
    }
    let rate = param_rate(prm, super_frame_per_cycle);
    let sup = prm.words[0][0];
    let mut samples: Vec<Sample> = Vec::new();
    let mut byte_cnt: usize = 0;
    let mut subframe_cnt: i32 = 0;
    let mut supcount_idx: i32 = 0;
    let mut err_counter: u8 = 0;
    let mut err_param: u8 = 0;
    let ghost mut done: int = 0;
    assert(frames =~= frames.take(0) + frame_list(buf@, buflen as int, wps, 0));
    loop
        invariant
            buflen == buf@.len(),
            2 <= buflen,
            word_per_sec == 0 || buflen <= 2 * word_per_sec * (i32::MAX - 8),
            buflen + 8 * word_per_sec <= usize::MAX,
            param_ok(*prm, wps),
            counter_ok(counter_set@, wps),
            wps == word_per_sec,
            frames == frame_list(buf@, buflen as int, wps, 0),
            sup == prm.words@[0]@[0],
            class == format_class(prm.RecFormat@),
            0 <= done <= frames.len(),
            frames == frames.take(done) + frame_list(buf@, buflen as int, wps, byte_cnt as int),
            byte_cnt <= buflen,
            done * 8 * word_per_sec <= byte_cnt,
            subframe_cnt == 4 * done,
            samples_are(
                samples@,
                *prm,
                decoded_triples(*prm, buf@, counter_set@, counter.signed, wps, frames, done),
            ),
            err_counter == if done > 0 && target_bit_seen(counter_set@, true, 0) {
                2u8
            } else {
                0u8
            },
            err_param == if passes_somewhere(
                *prm,
                buf@,
                counter_set@,
                counter.signed,
                wps,
                frames,
                done,
            ) && param_target_bit_seen(*prm) {
                1u8
            } else {
                0u8
            },
        ensures
            class == format_class(prm.RecFormat@),
            0 <= done <= frames.len(),
            frames == frames.take(done),
            samples_are(
                samples@,
                *prm,
                decoded_triples(*prm, buf@, counter_set@, counter.signed, wps, frames, done),
            ),
            err_counter == if done > 0 && target_bit_seen(counter_set@, true, 0) {
                2u8
            } else {
                0u8
            },
            err_param == if passes_somewhere(
                *prm,
                buf@,
                counter_set@,
                counter.signed,
                wps,
                frames,
                done,
            ) && param_target_bit_seen(*prm) {
                1u8
            } else {
                0u8
            },
        decreases buflen - byte_cnt,
    {
        let ghost b0 = byte_cnt as int;
        let mut word_cnt: usize = 0;
        let found = find_frame(&mut byte_cnt, &mut word_cnt, word_per_sec, buflen, buf);
        proof {
            lemma_find_frame_is_first(buf@, buflen as int, wps, b0, byte_cnt as int);
            if byte_cnt < buflen - 2 && wps == 0 {
                crate::sync::lemma_no_frame_without_words(buf@, buflen as int, byte_cnt as int);
            }
        }
        if !found {
            proof {
                assert(frame_list(buf@, buflen as int, wps, b0) =~= Seq::<int>::empty());
                assert(frames =~= frames.take(done));
            }
            break;
        }
        let p = byte_cnt;
        assert(word_per_sec > 0);
        assert(subframe_cnt + 8 <= i32::MAX) by (nonlinear_arith)
            requires
                subframe_cnt == 4 * done,
                done * 8 * word_per_sec <= p,
                p + 8 * word_per_sec <= buflen,
                buflen <= 2 * word_per_sec * (i32::MAX - 8),
                word_per_sec > 0,
                done >= 0,
        ;
        proof {
            assert(frame_list(buf@, buflen as int, wps, b0) == seq![p as int] + frame_list(
                buf@,
                buflen as int,
                wps,
                p + 8 * wps,
            ));
            assert(frames[done] == p);
            assert(frames.take(done + 1) =~= frames.take(done).push(p as int));
            assert(frames =~= frames.take(done + 1) + frame_list(
                buf@,
                buflen as int,
                wps,
                p + 8 * wps,
            ));
            lemma_frame_extraction_ok(buf@, counter_set@, wps, p as int, 0, counter.signed, false);
        }
        let ghost ec0 = err_counter;
        let c = get_dword_raw(counter, counter_set, p, word_per_sec, 0, buf, &mut err_counter);
        proof {
            assert((0u8 | 2u8) == 2u8 && (2u8 | 2u8) == 2u8) by (bit_vector);
            assert(group_reached(counter_set@, true, 0, 0));
        }
        match c {
            Some(val) => {
                supcount_idx = val;
            },
            None => {},
        }
        proof {
            assert forall|j: int| 0 <= j < group_count(counter_set@, true) implies 1
                <= #[trigger] group_bits(counter_set@, true, j) <= 30 && 1 <= gf(
                counter_set@,
                true,
                j,
                2,
            ) <= 32 by {
                assert(frame_group_fine(counter_set@, j, wps, false));
            }
            lemma_raw_value_small(buf@, counter_set@, true, p as int, wps, 0, counter.signed);
            assert(supcount_idx == counter_value(buf@, counter_set@, counter.signed, p as int, wps));
        }
        let passes = sup == 0 || (#[verifier::truncate] (sup as i32)) == supcount_idx + 1;
        let ghost samples_before = decoded_triples(
            *prm,
            buf@,
            counter_set@,
            counter.signed,
            wps,
            frames,
            done,
        );
        assert(passes == superframe_passes(*prm, buf@, counter_set@, counter.signed, p as int, wps));
        if passes {
            let mut sfi: usize = 1;
            let ghost ep0 = err_param;
            assert(frame_triples(*prm, buf@, p as int, wps, 4 * done, 0) =~= Seq::<
                (i32, int, i32),
            >::empty());
            assert(samples_before + frame_triples(*prm, buf@, p as int, wps, 4 * done, 0)
                =~= samples_before);
            while sfi <= 4
                invariant
                    1 <= sfi <= 5,
                    param_ok(*prm, wps),
                    wps == word_per_sec,
                    p + 8 * word_per_sec <= buf@.len(),
                    class == format_class(prm.RecFormat@),
                    subframe_cnt == 4 * done,
                    subframe_cnt + 8 <= i32::MAX,
                    err_param == 0 || err_param == 1,
                    err_param == if ep0 == 1 || exists|j: int, s: int|
                        0 <= j < prm.words@.len() && 1 <= s < sfi && #[trigger] target_bit_seen(
                            prm.words@[j]@,
                            true,
                            s,
                        ) {
                        1u8
                    } else {
                        0u8
                    },
                    samples_are(
                        samples@,
                        *prm,
                        samples_before + frame_triples(
                            *prm,
                            buf@,
                            p as int,
                            wps,
                            4 * done,
                            sfi - 1,
                        ),
                    ),
                decreases 5 - sfi,
            {
                let ghost ft = frame_triples(*prm, buf@, p as int, wps, 4 * done, sfi - 1);
                let ghost e1 = err_param;
                decode_subframe(
                    prm,
                    &class,
                    buf,
                    p,
                    word_per_sec,
                    sfi,
                    subframe_cnt + (sfi - 1) as i32,
                    &mut samples,
                    &mut err_param,
                    Ghost(samples_before + ft),
                );
                proof {
                    assert(samples_before + ft + subframe_triples(
                        *prm,
                        buf@,
                        p as int,
                        wps,
                        sfi as int,
                        (subframe_cnt + (sfi - 1)) as int,
                        prm.words@.len() as int,
                    ) =~= samples_before + frame_triples(*prm, buf@, p as int, wps, 4 * done, sfi as int));
                    if exists|j: int, s: int|
                        0 <= j < prm.words@.len() && 1 <= s < sfi + 1 && #[trigger] target_bit_seen(
                            prm.words@[j]@,
                            true,
                            s,
                        ) {
                        let (j, s) = choose|j: int, s: int|
                            0 <= j < prm.words@.len() && 1 <= s < sfi + 1 && #[trigger] target_bit_seen(
                                prm.words@[j]@,
                                true,
                                s,
                            );
                        if s < sfi {
                            assert(exists|j2: int, s2: int|
                                0 <= j2 < prm.words@.len() && 1 <= s2 < sfi && #[trigger] target_bit_seen(
                                    prm.words@[j2]@,
                                    true,
                                    s2,
                                ));
                        } else {
                            assert(exists|j2: int|
                                0 <= j2 < prm.words@.len() && #[trigger] target_bit_seen(
                                    prm.words@[j2]@,
                                    true,
                                    sfi as int,
                                ));
                        }
                    }
                    if exists|j2: int|
                        0 <= j2 < prm.words@.len() && #[trigger] target_bit_seen(
                            prm.words@[j2]@,
                            true,
                            sfi as int,
                        ) {
                        let j2 = choose|j2: int|
                            0 <= j2 < prm.words@.len() && #[trigger] target_bit_seen(
                                prm.words@[j2]@,
                                true,
                                sfi as int,
                            );
                        assert(exists|j: int, s: int|
                            0 <= j < prm.words@.len() && 1 <= s < sfi + 1 && #[trigger] target_bit_seen(
                                prm.words@[j]@,
                                true,
                                s,
                            ));
                    }
                }
                sfi = sfi + 1;
            }
            proof {
                assert(passes_somewhere(*prm, buf@, counter_set@, counter.signed, wps, frames, done + 1)) by {
                    assert(superframe_passes(*prm, buf@, counter_set@, counter.signed, frames[done], wps));
                }
                assert(param_target_bit_seen(*prm) == exists|j: int, s: int|
                    0 <= j < prm.words@.len() && 1 <= s < 5 && #[trigger] target_bit_seen(
                        prm.words@[j]@,
                        true,
                        s,
                    ));
                if ep0 == 1 {
                    assert(passes_somewhere(*prm, buf@, counter_set@, counter.signed, wps, frames, done));
                    let i = choose|i: int| 0 <= i < done && #[trigger] superframe_passes(*prm, buf@, counter_set@, counter.signed, frames[i], wps);
                    assert(superframe_passes(*prm, buf@, counter_set@, counter.signed, frames[i], wps));
                }
            }
        } else {
            proof {
                if passes_somewhere(*prm, buf@, counter_set@, counter.signed, wps, frames, done + 1) {
                    let i = choose|i: int| 0 <= i < done + 1 && #[trigger] superframe_passes(*prm, buf@, counter_set@, counter.signed, frames[i], wps);
                    assert(i != done);
                    assert(passes_somewhere(*prm, buf@, counter_set@, counter.signed, wps, frames, done));
                }
                if passes_somewhere(*prm, buf@, counter_set@, counter.signed, wps, frames, done) {
                    let i = choose|i: int| 0 <= i < done && #[trigger] superframe_passes(*prm, buf@, counter_set@, counter.signed, frames[i], wps);
                    assert(passes_somewhere(*prm, buf@, counter_set@, counter.signed, wps, frames, done + 1));
                }
                assert(samples_before + Seq::<(i32, int, i32)>::empty() =~= samples_before);
            }
        }
        byte_cnt = p + word_per_sec * 2 * 4;
        assert((done + 1) * 8 * word_per_sec <= byte_cnt) by (nonlinear_arith)
            requires
                done * 8 * word_per_sec <= p,
                byte_cnt == p + word_per_sec * 2 * 4,
        ;
        subframe_cnt = subframe_cnt + 4;
        proof {
            done = done + 1;
        }
    }
    let kind = if samples.len() == 0 {
        ValueKind::Str
    } else {
        match class {
            FormatClass::Bcd => ValueKind::Float,
            FormatClass::Numeric => ValueKind::Float,
            _ => ValueKind::Str,
        }
    };
    proof {
        assert(frames.take(done).len() == done);
        assert(done == frames.len());
        assert((2u8 & 2u8) != 0u8 && (0u8 & 2u8) == 0u8 && (1u8 & 1u8) != 0u8 && (0u8 & 1u8) == 0u8)
            by (bit_vector);
        if word_per_sec > 0 {
            assert(4 * done <= i32::MAX) by (nonlinear_arith)
                requires
                    done * 8 * word_per_sec <= byte_cnt,
                    byte_cnt <= buflen,
                    buflen <= 2 * word_per_sec * (i32::MAX - 8),
                    word_per_sec > 0,
                    done >= 0,
            ;
        } else {
            assert(frames.len() == 0);
        }
        let t = decoded_triples(*prm, buf@, counter_set@, counter.signed, wps, frames, done);
        law_decoded_slots(*prm, buf@, counter_set@, counter.signed, wps, frames, done);
        assert(sample_seconds(samples@) =~= triple_seconds(t)) by {
            assert forall|i: int| 0 <= i < samples@.len() implies sample_seconds(samples@)[i]
                == triple_seconds(t)[i] by {
                assert(sample_is(samples@[i], *prm, t[i].0, t[i].1, t[i].2));
            }
        }
        assert forall|i: int| 0 <= i < samples@.len() implies (#[trigger] samples@[i]).slot
            == count_before(sample_seconds(samples@), samples@[i].second, i) by {
            assert(sample_is(samples@[i], *prm, t[i].0, t[i].1, t[i].2));
            assert(t[i].1 == count_before(triple_seconds(t), t[i].0, i));
        }
    }
    DecodedParam {
        kind,
        samples,
        rate,
        counter_target_bits: err_counter & 2 != 0,
        param_target_bits: err_param & 1 != 0,
    }
}

/// Whether a location list can be read in any whole frame: computes
/// [`frame_set_ok`].
pub fn frame_set_fits(set: &Vec<usize>, word_per_sec: usize, allow_any_subframe: bool) -> (b: bool)
    ensures
        b == frame_set_ok(set@, word_per_sec as int, allow_any_subframe),
{
    if set.len() > usize::MAX / 8 {
        return false;
    }
    let n: usize = set.len() / 6;
    if n < 1 {
        return false;
    }
    let mut k: usize = 0;
    while k < n
        invariant
            n == group_count(set@, true),
            set@.len() <= usize::MAX / 8,
            k <= n,
            forall|j: int|
                0 <= j < k ==> #[trigger] frame_group_fine(set@, j, word_per_sec as int, allow_any_subframe),
        decreases n - k,
    {
        let base: usize = k * 6 + 1;
        assert(base + 4 < set@.len()) by (nonlinear_arith)
            requires
                base == k * 6 + 1,
                k < n,
                n == (set@.len() as int) / 6,
        ;
        let sub = set[base];
        let word = set[base + 1];
        let lsb = set[base + 2];
        let msb = set[base + 3];
        assert(sub == gf(set@, true, k as int, 0));
        assert(word == gf(set@, true, k as int, 1));
        assert(lsb == gf(set@, true, k as int, 2));
        assert(msb == gf(set@, true, k as int, 3));
        if word < 1 || word > word_per_sec || sub > 4 || (sub == 0 && !allow_any_subframe) || lsb
            < 1 || lsb > msb || lsb > 32 || msb - lsb + 1 > 30 {
            assert(!frame_group_fine(set@, k as int, word_per_sec as int, allow_any_subframe));
            return false;
        }
        assert(frame_group_fine(set@, k as int, word_per_sec as int, allow_any_subframe));
        k = k + 1;
    }
    true
}

/// The total number of bits of a location list that can be read in any
/// whole frame.
fn set_total_bits(set: &Vec<usize>, Ghost(wps): Ghost<int>, Ghost(any): Ghost<bool>) -> (t: usize)
    requires
        frame_set_ok(set@, wps, any),
    ensures
        t == total_bits(set@, true, 0),
{
    let ghost s = set@;
    let n: usize = set.len() / 6;
    let mut k: usize = n;
    let mut t: usize = 0;
    while k > 0
        invariant
            s == set@,
            frame_set_ok(s, wps, any),
            n == group_count(s, true),
            k <= n,
            t == total_bits(s, true, k as int),
            t <= 30 * (n - k),
        decreases k,
    {
        let j: usize = k - 1;
        let base: usize = j * 6 + 1;
        assert(base + 4 < s.len()) by (nonlinear_arith)
            requires
                base == j * 6 + 1,
                j < n,
                n == (s.len() as int) / 6,
        ;
        assert(s[base as int] == gf(s, true, j as int, 0));
        assert(s[base + 3] == gf(s, true, j as int, 3));
        assert(s[base + 2] == gf(s, true, j as int, 2));
        assert(frame_group_fine(s, j as int, wps, any));
        t = t + (set[base + 3] - set[base + 2] + 1);
        k = j;
        assert(t <= 30 * (n - k)) by (nonlinear_arith)
            requires
                t <= 30 * (n - (k + 1)) + 30,
        ;
    }
    t
}

/// Whether a parameter configuration can be decoded without fault: computes
/// [`param_ok`].
pub fn param_fits(prm: &Param, word_per_sec: usize) -> (b: bool)
    ensures
        b == param_ok(*prm, word_per_sec as int),
{
    let n = prm.words.len();
    if n < 1 {
        return false;
    }
    let mut j: usize = 0;
    while j < n
        invariant
            n == prm.words@.len(),
            j <= n,
            forall|i: int| 0 <= i < j ==> frame_set_ok(#[trigger] prm.words@[i]@, word_per_sec as int, true),
        decreases n - j,
    {
        if !frame_set_fits(&prm.words[j], word_per_sec, true) {
            return false;
        }
        j = j + 1;
    }
    if prm.signed {
        let mut j: usize = 0;
        while j < n
            invariant
                prm.signed,
                n == prm.words@.len(),
                j <= n,
                forall|i: int| 0 <= i < n ==> frame_set_ok(#[trigger] prm.words@[i]@, word_per_sec as int, true),
                forall|i: int|
                    0 <= i < j ==> total_bits(#[trigger] prm.words@[i]@, true, 0) <= 30
                        || total_bits(prm.words@[i]@, true, 0) == 32,
            decreases n - j,
        {
            let t = set_total_bits(&prm.words[j], Ghost(word_per_sec as int), Ghost(true));
            if !(t <= 30 || t == 32) {
                assert(t == total_bits(prm.words@[j as int]@, true, 0));
                return false;
            }
            j = j + 1;
        }
    }
    let class = rec_format_class(&prm.RecFormat);
    conversion_fits(&class, &prm.ConvConfig)
}

/// Whether a superframe counter location list can be read without fault:
/// computes [`counter_ok`].
pub fn counter_fits(set: &Vec<usize>, word_per_sec: usize) -> (b: bool)
    ensures
        b == counter_ok(set@, word_per_sec as int),
{
    if !frame_set_fits(set, word_per_sec, false) {
        return false;
    }
    set_total_bits(set, Ghost(word_per_sec as int), Ghost(false)) <= 30
}

/// Number of the first `n` entries of `secs` equal to `sec`.
pub open spec fn count_before(secs: Seq<i32>, sec: i32, n: int) -> nat
    decreases n,
{
    if n <= 0 {
        0
    } else {
        count_before(secs, sec, n - 1) + if secs[n - 1] == sec {
            1nat
        } else {
            0nat
        }
    }
}

/// The seconds of a list of (second, slot, raw value) triples.
pub open spec fn triple_seconds(t: Seq<(i32, int, i32)>) -> Seq<i32> {
    t.map_values(|x: (i32, int, i32)| x.0)
}

/// The seconds of a list of samples.
pub open spec fn sample_seconds(samples: Seq<Sample>) -> Seq<i32> {
    samples.map_values(|x: Sample| x.second)
}

/// Every triple's slot is the number of triples before it in the same second.
pub open spec fn slots_count_earlier(t: Seq<(i32, int, i32)>) -> bool {
    forall|i: int| 0 <= i < t.len() ==> (#[trigger] t[i]).1 == count_before(triple_seconds(t), t[i].0, i)
}

/// The triples come in order of their seconds.
pub open spec fn seconds_in_order(t: Seq<(i32, int, i32)>) -> bool {
    forall|i: int, j: int| 0 <= i < j < t.len() ==> (#[trigger] t[i]).0 <= (#[trigger] t[j]).0
}

proof fn lemma_count_prefix(a: Seq<i32>, b: Seq<i32>, sec: i32, n: int)
    requires
        0 <= n <= a.len(),
    ensures
        count_before(a + b, sec, n) == count_before(a, sec, n),
    decreases n,
{
    if n > 0 {
        lemma_count_prefix(a, b, sec, n - 1);
        assert((a + b)[n - 1] == a[n - 1]);
    }
}

proof fn lemma_count_block(a: Seq<i32>, b: Seq<i32>, sec: i32, i: int)
    requires
        0 <= i <= b.len(),
        forall|k: int| 0 <= k < a.len() ==> a[k] != sec,
        forall|k: int| 0 <= k < b.len() ==> b[k] == sec,
    ensures
        count_before(a + b, sec, a.len() + i) == i,
    decreases i,
{
    if i > 0 {
        lemma_count_block(a, b, sec, i - 1);
        assert((a + b)[a.len() + i - 1] == b[i - 1]);
    } else {
        lemma_count_none(a + b, sec, a.len() as int);
    }
}

proof fn lemma_count_none(a: Seq<i32>, sec: i32, n: int)
    requires
        0 <= n <= a.len(),
        forall|k: int| 0 <= k < n ==> a[k] != sec,
    ensures
        count_before(a, sec, n) == 0,
    decreases n,
{
    if n > 0 {
        lemma_count_none(a, sec, n - 1);
    }
}

/// Appending the samples of one second that no earlier triple has, numbered
/// from slot 0, keeps every slot counting the earlier triples of its second.
proof fn lemma_append_second(a: Seq<(i32, int, i32)>, b: Seq<(i32, int, i32)>, sec: i32)
    requires
        slots_count_earlier(a),
        seconds_in_order(a),
        forall|k: int| 0 <= k < a.len() ==> (#[trigger] a[k]).0 < sec,
        forall|k: int| 0 <= k < b.len() ==> (#[trigger] b[k]).0 == sec && b[k].1 == k,
    ensures
        slots_count_earlier(a + b),
        seconds_in_order(a + b),
{
    assert forall|i: int, j: int| 0 <= i < j < (a + b).len() implies (#[trigger] (a + b)[i]).0 <= (
    #[trigger] (a + b)[j]).0 by {
        if j < a.len() {
            assert((a + b)[i] == a[i] && (a + b)[j] == a[j]);
        } else if i < a.len() {
            assert((a + b)[i] == a[i] && (a + b)[j] == b[j - a.len()]);
        } else {
            assert((a + b)[i] == b[i - a.len()] && (a + b)[j] == b[j - a.len()]);
        }
    }
    let sa = triple_seconds(a);
    let sb = triple_seconds(b);
    assert(triple_seconds(a + b) =~= sa + sb);
    assert forall|i: int| 0 <= i < (a + b).len() implies (#[trigger] (a + b)[i]).1 == count_before(
        triple_seconds(a + b),
        (a + b)[i].0,
        i,
    ) by {
        if i < a.len() {
            assert((a + b)[i] == a[i]);
            lemma_count_prefix(sa, sb, a[i].0, i);
        } else {
            let j = i - a.len();
            assert((a + b)[i] == b[j]);
            assert forall|k: int| 0 <= k < sa.len() implies sa[k] != sec by {
                assert(a[k].0 < sec);
            }
            assert forall|k: int| 0 <= k < sb.len() implies sb[k] == sec by {
                assert(b[k].0 == sec);
            }
            lemma_count_block(sa, sb, sec, j);
        }
    }
}

proof fn lemma_subframe_triples_second(
    prm: Param,
    buf: Seq<u8>,
    p: int,
    wps: int,
    sfi: int,
    second: int,
    m: int,
)
    ensures
        forall|k: int|
            0 <= k < subframe_triples(prm, buf, p, wps, sfi, second, m).len() ==> (#[trigger] subframe_triples(
                prm,
                buf,
                p,
                wps,
                sfi,
                second,
                m,
            )[k]).0 == #[verifier::truncate] (second as i32) && subframe_triples(prm, buf, p, wps, sfi, second, m)[k].1 == k,
    decreases m,
{
    if m > 0 {
        lemma_subframe_triples_second(prm, buf, p, wps, sfi, second, m - 1);
        let prev = subframe_triples(prm, buf, p, wps, sfi, second, m - 1);
        let cur = subframe_triples(prm, buf, p, wps, sfi, second, m);
        match sample_at(prm, prm.words@[m - 1]@, buf, p, wps, sfi, second, prev.len() as int) {
            Some(t) => {
                assert(cur == prev.push(t));
                assert forall|k: int| 0 <= k < cur.len() implies (#[trigger] cur[k]).0 == #[verifier::truncate] (second as i32)
                    && cur[k].1 == k by {
                    if k < prev.len() {
                        assert(cur[k] == prev[k]);
                    }
                }
            },
            None => {},
        }
    }
}

proof fn lemma_frame_slots(
    pre: Seq<(i32, int, i32)>,
    prm: Param,
    buf: Seq<u8>,
    p: int,
    wps: int,
    base: int,
    sub: int,
)
    requires
        slots_count_earlier(pre),
        seconds_in_order(pre),
        forall|k: int| 0 <= k < pre.len() ==> ((#[trigger] pre[k]).0 as int) < base,
        0 <= base,
        0 <= sub,
        base + sub <= i32::MAX + 1,
    ensures
        slots_count_earlier(pre + frame_triples(prm, buf, p, wps, base, sub)),
        seconds_in_order(pre + frame_triples(prm, buf, p, wps, base, sub)),
        forall|k: int|
            0 <= k < frame_triples(prm, buf, p, wps, base, sub).len() ==> base <= ((
            #[trigger] frame_triples(prm, buf, p, wps, base, sub)[k]).0 as int) < base + sub,
    decreases sub,
{
    if sub > 0 {
        lemma_frame_slots(pre, prm, buf, p, wps, base, sub - 1);
        let f = frame_triples(prm, buf, p, wps, base, sub - 1);
        let blk = subframe_triples(prm, buf, p, wps, sub, base + sub - 1, prm.words@.len() as int);
        lemma_subframe_triples_second(prm, buf, p, wps, sub, base + sub - 1, prm.words@.len() as int);
        let sec = (base + sub - 1) as i32;
        assert(sec as int == base + sub - 1);
        let a = pre + f;
        assert forall|k: int| 0 <= k < a.len() implies (#[trigger] a[k]).0 < sec by {
            if k < pre.len() {
                assert(a[k] == pre[k]);
            } else {
                assert(a[k] == f[k - pre.len()]);
            }
        }
        lemma_append_second(a, blk, sec);
        assert(pre + (f + blk) =~= a + blk);
        assert(frame_triples(prm, buf, p, wps, base, sub) == f + blk);
        assert forall|k: int| 0 <= k < (f + blk).len() implies base <= ((#[trigger] (f + blk)[k]).0 as int)
            < base + sub by {
            if k < f.len() {
                assert((f + blk)[k] == f[k]);
            } else {
                assert((f + blk)[k] == blk[k - f.len()]);
            }
        }
    }
}

/// In the samples decoded from the first `k` frames, the slot of every sample
/// is the number of samples before it that have the same second: the first
/// sample of each second has slot 0, and a location list that does not apply
/// to a subframe gives no sample and takes no slot.  (Seconds are `i32`
/// values, so at most `2^31` of them are counted.)  The samples come in order
/// of their seconds, which lie from 0 to below `4 * k` (four per frame).
pub proof fn law_decoded_slots(
    prm: Param,
    buf: Seq<u8>,
    cset: Seq<usize>,
    csigned: bool,
    wps: int,
    frames: Seq<int>,
    k: int,
)
    requires
        0 <= k <= frames.len(),
        4 * k <= i32::MAX + 1,
    ensures
        slots_count_earlier(decoded_triples(prm, buf, cset, csigned, wps, frames, k)),
        seconds_in_order(decoded_triples(prm, buf, cset, csigned, wps, frames, k)),
        forall|i: int|
            0 <= i < decoded_triples(prm, buf, cset, csigned, wps, frames, k).len() ==> 0 <= ((
            #[trigger] decoded_triples(prm, buf, cset, csigned, wps, frames, k)[i]).0 as int) < 4 * k,
    decreases k,
{
    if k > 0 {
        law_decoded_slots(prm, buf, cset, csigned, wps, frames, k - 1);
        let d = decoded_triples(prm, buf, cset, csigned, wps, frames, k - 1);
        if superframe_passes(prm, buf, cset, csigned, frames[k - 1], wps) {
            lemma_frame_slots(d, prm, buf, frames[k - 1], wps, 4 * (k - 1), 4);
            let f = frame_triples(prm, buf, frames[k - 1], wps, 4 * (k - 1), 4);
            assert forall|i: int| 0 <= i < (d + f).len() implies 0 <= ((#[trigger] (d + f)[i]).0 as int)
                < 4 * k by {
                if i < d.len() {
                    assert((d + f)[i] == d[i]);
                } else {
                    assert((d + f)[i] == f[i - d.len()]);
                }
            }
        } else {
            assert(d + Seq::<(i32, int, i32)>::empty() =~= d);
        }
    }
}

} // verus!
