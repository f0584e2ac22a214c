//! Conversion of a raw value according to the parameter's record format.

use vstd::prelude::*;
use vstd::string::*;

verus! {

/// How a record format turns a raw value into a sample.
pub enum FormatClass {
    /// "BCD": binary-coded decimal digits.
    Bcd,
    /// "ISO..." or "CHAR...": a string of character codes.
    Chars,
    /// "UTC": hours, minutes and seconds in three 6-bit fields.
    Utc,
    /// Every other format (BNR, DIS, ...): the raw value itself.
    Numeric,
}

/// A decoded sample value before the linear conversion.
pub enum SampleValue {
    /// A numeric value: the raw value, or the decimal value of BCD digits.
    Number(i32),
    /// Character codes, most significant character first.
    Text(Vec<u8>),
    /// A time of day.
    Utc { hh: u8, mm: u8, ss: u8 },
}

/// The class of a record format name.
pub open spec fn format_class(f: Seq<char>) -> FormatClass {
    if f == seq!['B', 'C', 'D'] {
        FormatClass::Bcd
    } else if (f.len() >= 3 && f.take(3) == seq!['I', 'S', 'O']) || (f.len() >= 4 && f.take(4)
        == seq!['C', 'H', 'A', 'R']) {
        FormatClass::Chars
    } else if f == seq!['U', 'T', 'C'] {
        FormatClass::Utc
    } else {
        FormatClass::Numeric
    }
}

/// Classifies a record format name.
pub fn rec_format_class(f: &String) -> (c: FormatClass)
    ensures
        c == format_class(f@),
{
    let s = f.as_str();
    let n = s.unicode_len();
    let is_bcd = n == 3 && s.get_char(0) == 'B' && s.get_char(1) == 'C' && s.get_char(2) == 'D';
    let is_iso = n >= 3 && s.get_char(0) == 'I' && s.get_char(1) == 'S' && s.get_char(2) == 'O';
    let is_char = n >= 4 && s.get_char(0) == 'C' && s.get_char(1) == 'H' && s.get_char(2) == 'A'
        && s.get_char(3) == 'R';
    let is_utc = n == 3 && s.get_char(0) == 'U' && s.get_char(1) == 'T' && s.get_char(2) == 'C';
    proof {
        let v = s@;
        if is_bcd {
            assert(v =~= seq!['B', 'C', 'D']);
        } else if v == seq!['B', 'C', 'D'] {
            assert(v[0] == 'B' && v[1] == 'C' && v[2] == 'D');
        }
        if is_iso {
            assert(v.take(3) =~= seq!['I', 'S', 'O']);
        } else if v.len() >= 3 && v.take(3) == seq!['I', 'S', 'O'] {
            assert(v.take(3)[0] == v[0] && v.take(3)[1] == v[1] && v.take(3)[2] == v[2]);
        }
        if is_char {
            assert(v.take(4) =~= seq!['C', 'H', 'A', 'R']);
        } else if v.len() >= 4 && v.take(4) == seq!['C', 'H', 'A', 'R'] {
            assert(v.take(4)[0] == v[0] && v.take(4)[1] == v[1] && v.take(4)[2] == v[2]
                && v.take(4)[3] == v[3]);
        }
        if is_utc {
            assert(v =~= seq!['U', 'T', 'C']);
        } else if v == seq!['U', 'T', 'C'] {
            assert(v[0] == 'U' && v[1] == 'T' && v[2] == 'C');
        }
    }
    if is_bcd {
        FormatClass::Bcd
    } else if is_iso || is_char {
        FormatClass::Chars
    } else if is_utc {
        FormatClass::Utc
    } else {
        FormatClass::Numeric
    }
}

/// All ones in the low `b` bits, as an `i32`.
pub open spec fn digit_mask(b: u8) -> i32 {
    ((1i32 << (b as u32)) - 1i32) as i32
}

/// The decimal value of BCD digits: the last width in `conv` is the least
/// significant digit, read from the low bits of `d`; each digit is the masked
/// low bits of what remains after shifting the digits below it out.
pub open spec fn bcd_value(conv: Seq<u8>, d: i32) -> int
    decreases conv.len(),
{
    if conv.len() == 0 {
        0
    } else {
        let b = conv.last();
        (digit_mask(b) & d) as int + 10 * bcd_value(conv.drop_last(), d >> (b as u32))
    }
}

/// The largest decimal value that digits of the widths `conv` can give.
pub open spec fn bcd_max(conv: Seq<u8>) -> int
    decreases conv.len(),
{
    if conv.len() == 0 {
        0
    } else {
        digit_mask(conv.last()) as int + 10 * bcd_max(conv.drop_last())
    }
}

/// The character codes of a string field: the last width in `conv` is the
/// first character, read from the low bits of `d`; each code is the masked low
/// bits (truncated to a byte) of what remains after shifting the earlier
/// characters out.
pub open spec fn char_codes(conv: Seq<u8>, d: i32) -> Seq<u8>
    decreases conv.len(),
{
    if conv.len() == 0 {
        seq![]
    } else {
        let b = conv.last();
        seq![(digit_mask(b) & d) as u8] + char_codes(conv.drop_last(), d >> (b as u32))
    }
}

/// Digit or character widths that the conversion can use without fault.
pub open spec fn widths_ok(conv: Seq<u8>) -> bool {
    forall|i: int| 0 <= i < conv.len() ==> #[trigger] conv[i] <= 30
}

/// BCD widths that the conversion can use without fault: at most ten digits,
/// each at most 30 bits wide, whose largest value fits in an `i32`.
pub open spec fn bcd_ok(conv: Seq<u8>) -> bool {
    &&& conv.len() <= 10
    &&& widths_ok(conv)
    &&& bcd_max(conv) <= i32::MAX
}

/// Whether `v` is the sample value of raw value `d` under a format class.
pub open spec fn is_sample_value(v: SampleValue, class: FormatClass, conv: Seq<u8>, d: i32) -> bool {
    match class {
        FormatClass::Bcd => v == SampleValue::Number(bcd_value(conv, d) as i32),
        FormatClass::Chars => v matches SampleValue::Text(t) && t@ == char_codes(conv, d),
        FormatClass::Utc => v == SampleValue::Utc {
            hh: ((d >> 12u32) & 0x3fi32) as u8,
            mm: ((d >> 6u32) & 0x3fi32) as u8,
            ss: (d & 0x3fi32) as u8,
        },
        FormatClass::Numeric => v == SampleValue::Number(d),
    }
}

/// The conversions that a format class can apply without fault.
pub open spec fn conversion_ok(class: FormatClass, conv: Seq<u8>) -> bool {
    match class {
        FormatClass::Bcd => bcd_ok(conv),
        FormatClass::Chars => widths_ok(conv),
        _ => true,
    }
}

proof fn lemma_mask_bounds(b: u8, d: i32)
    requires
        b <= 30,
    ensures
        0 <= digit_mask(b),
        0 <= (digit_mask(b) & d) <= digit_mask(b),
{
    assert(0 <= ((1i32 << (b as u32)) - 1i32) as i32) by (bit_vector)
        requires
            b <= 30,
    ;
    assert(0 <= ((((1i32 << (b as u32)) - 1i32) as i32) & d) <= ((1i32 << (b as u32)) - 1i32) as i32)
        by (bit_vector)
        requires
            b <= 30,
    ;
}

proof fn lemma_bcd_bounds(conv: Seq<u8>, d: i32)
    requires
        widths_ok(conv),
    ensures
        0 <= bcd_value(conv, d) <= bcd_max(conv),
    decreases conv.len(),
{
    if conv.len() > 0 {
        let b = conv.last();
        assert(conv[conv.len() - 1] <= 30);
        lemma_mask_bounds(b, d);
        assert(widths_ok(conv.drop_last())) by {
            assert forall|i: int| 0 <= i < conv.drop_last().len() implies #[trigger] conv.drop_last()[i] <= 30 by {
                assert(conv.drop_last()[i] == conv[i]);
            }
        }
        lemma_bcd_bounds(conv.drop_last(), d >> (b as u32));
    }
}

proof fn lemma_bcd_max_nonneg(conv: Seq<u8>)
    requires
        widths_ok(conv),
    ensures
        0 <= bcd_max(conv),
    decreases conv.len(),
{
    if conv.len() > 0 {
        lemma_mask_bounds(conv.last(), 0);
        assert(widths_ok(conv.drop_last())) by {
            assert forall|i: int| 0 <= i < conv.drop_last().len() implies #[trigger] conv.drop_last()[i] <= 30 by {
                assert(conv.drop_last()[i] == conv[i]);
            }
        }
        lemma_bcd_max_nonneg(conv.drop_last());
    }
}

/// `10^k`.
pub open spec fn pow10(k: nat) -> int
    decreases k,
{
    if k == 0 {
        1
    } else {
        10 * pow10((k - 1) as nat)
    }
}

proof fn lemma_pow10_pos(k: nat)
    ensures
        pow10(k) >= 1,
    decreases k,
{
    if k > 0 {
        lemma_pow10_pos((k - 1) as nat);
    }
}

proof fn lemma_pow10_le_10(k: nat)
    requires
        k <= 10,
    ensures
        pow10(k) <= 10_000_000_000,
    decreases 10 - k,
{
    if k < 10 {
        lemma_pow10_le_10(k + 1);
        lemma_pow10_pos(k);
    } else {
        reveal_with_fuel(pow10, 11);
    }
}

/// The decimal value of the BCD digits of `d` (see [`bcd_value`]).
pub fn bcd_decode(conv: &Vec<u8>, dword: i32) -> (v: i32)
    requires
        bcd_ok(conv@),
    ensures
        v == bcd_value(conv@, dword),
{
    let n = conv.len();
    let mut value: i64 = 0;
    let mut p10: i64 = 1;
    let mut d: i32 = dword;
    let mut i: usize = n;
    proof {
        assert(conv@.take(n as int) =~= conv@);
        lemma_pow10_le_10(n as nat);
    }
    while i > 0
        invariant
            n == conv@.len(),
            n <= 10,
            i <= n,
            bcd_ok(conv@),
            widths_ok(conv@.take(i as int)),
            0 <= value,
            1 <= p10,
            p10 * pow10(i as nat) <= 10_000_000_000,
            value + p10 * bcd_value(conv@.take(i as int), d) == bcd_value(conv@, dword),
            value + p10 * bcd_max(conv@.take(i as int)) <= bcd_max(conv@),
        decreases i,
    {
        let ghost t = conv@.take(i as int);
        let b = conv[i - 1];
        assert(t.last() == b);
        assert(t.drop_last() =~= conv@.take(i - 1));
        proof {
            lemma_mask_bounds(b, d);
            assert(widths_ok(t.drop_last())) by {
                assert forall|j: int| 0 <= j < t.drop_last().len() implies #[trigger] t.drop_last()[j] <= 30 by {
                    assert(t.drop_last()[j] == t[j]);
                }
            }
            lemma_bcd_bounds(t.drop_last(), d >> (b as u32));
            lemma_bcd_max_nonneg(t.drop_last());
        }
        assert((1i32 << (b as u32)) >= 1) by (bit_vector)
            requires
                b <= 30,
        ;
        let bits_mask: i32 = (1i32 << (b as u32)) - 1;
        let x: i64 = (bits_mask & d) as i64;
        assert(p10 * bcd_value(t, d) == p10 * x + (p10 * 10) * bcd_value(t.drop_last(), d >> (b as u32)))
            by (nonlinear_arith)
            requires
                bcd_value(t, d) == x + 10 * bcd_value(t.drop_last(), d >> (b as u32)),
        ;
        assert(p10 * bcd_max(t) == p10 * (digit_mask(b) as int) + (p10 * 10) * bcd_max(t.drop_last()))
            by (nonlinear_arith)
            requires
                bcd_max(t) == digit_mask(b) as int + 10 * bcd_max(t.drop_last()),
        ;
        assert(p10 * x <= p10 * (digit_mask(b) as int)) by (nonlinear_arith)
            requires
                x <= digit_mask(b) as int,
                p10 >= 1,
        ;
        assert(0 <= (p10 * 10) * bcd_max(t.drop_last())) by (nonlinear_arith)
            requires
                0 <= bcd_max(t.drop_last()),
                p10 >= 1,
        ;
        assert(0 <= p10 * x) by (nonlinear_arith)
            requires
                0 <= x,
                p10 >= 1,
        ;
        assert(p10 * 10 * pow10((i - 1) as nat) == p10 * pow10(i as nat)) by (nonlinear_arith)
            requires
                pow10(i as nat) == 10 * pow10((i - 1) as nat),
        ;
        proof {
            lemma_pow10_pos((i - 1) as nat);
        }
        assert(p10 * 10 <= 10_000_000_000) by (nonlinear_arith)
            requires
                p10 * 10 * pow10((i - 1) as nat) <= 10_000_000_000,
                pow10((i - 1) as nat) >= 1,
                p10 >= 1,
        ;
        value = value + p10 * x;
        d = d >> (b as u32);
        if i > 1 {
            p10 = p10 * 10;
        } else {
            assert(t.drop_last().len() == 0);
            assert(bcd_value(t.drop_last(), d) == 0);
            assert(bcd_max(t.drop_last()) == 0);
            p10 = p10 * 10;
        }
        i = i - 1;
    }
    proof {
        assert(conv@.take(0) =~= Seq::<u8>::empty());
    }
    value as i32
}

/// The character codes of the string field in `d` (see [`char_codes`]).
pub fn char_decode(conv: &Vec<u8>, dword: i32) -> (codes: Vec<u8>)
    requires
        widths_ok(conv@),
    ensures
        codes@ == char_codes(conv@, dword),
{
    let n = conv.len();
    let mut codes: Vec<u8> = Vec::new();
    let mut d: i32 = dword;
    let mut i: usize = n;
    proof {
        assert(conv@.take(n as int) =~= conv@);
    }
    while i > 0
        invariant
            n == conv@.len(),
            i <= n,
            widths_ok(conv@),
            codes@ + char_codes(conv@.take(i as int), d) == char_codes(conv@, dword),
        decreases i,
    {
        let ghost t = conv@.take(i as int);
        let b = conv[i - 1];
        assert(conv@[i - 1] <= 30);
        assert(t.last() == b);
        assert(t.drop_last() =~= conv@.take(i - 1));
        assert((1i32 << (b as u32)) >= 1) by (bit_vector)
            requires
                b <= 30,
        ;
        let bits_mask: i32 = (1i32 << (b as u32)) - 1;
        proof {
            lemma_mask_bounds(b, d);
        }
        let ghost before = codes@;
        codes.push(#[verifier::truncate] ((bits_mask & d) as u8));
        assert(codes@ + char_codes(t.drop_last(), d >> (b as u32)) =~= before + char_codes(t, d));
        d = d >> (b as u32);
        i = i - 1;
    }
    proof {
        assert(conv@.take(0) =~= Seq::<u8>::empty());
        assert(codes@ + Seq::<u8>::empty() =~= codes@);
    }
    codes
}

/// Converts raw value `dword` according to the format class.
pub fn convert_value(class: &FormatClass, conv: &Vec<u8>, dword: i32) -> (v: SampleValue)
    requires
        conversion_ok(*class, conv@),
    ensures
        is_sample_value(v, *class, conv@, dword),
{
    match class {
        FormatClass::Bcd => SampleValue::Number(bcd_decode(conv, dword)),
        FormatClass::Chars => SampleValue::Text(char_decode(conv, dword)),
        FormatClass::Utc => {
            let ss = (dword & 0x3f) as u8;
            let mm = ((dword >> 6) & 0x3f) as u8;
            let hh = ((dword >> 12) & 0x3f) as u8;
            SampleValue::Utc { hh, mm, ss }
        },
        FormatClass::Numeric => SampleValue::Number(dword),
    }
}

proof fn lemma_bcd_max_prefix(conv: Seq<u8>, i: int)
    requires
        widths_ok(conv),
        0 <= i <= conv.len(),
    ensures
        0 <= bcd_max(conv.take(i)) <= bcd_max(conv),
    decreases conv.len() - i,
{
    if i == conv.len() {
        assert(conv.take(i) =~= conv);
        lemma_bcd_max_nonneg(conv);
    } else {
        lemma_bcd_max_prefix(conv, i + 1);
        let t = conv.take(i + 1);
        assert(t.drop_last() =~= conv.take(i));
        assert(t.last() == conv[i]);
        assert(conv[i] <= 30);
        lemma_mask_bounds(conv[i], 0);
        assert(widths_ok(conv.take(i))) by {
            assert forall|j: int| 0 <= j < conv.take(i).len() implies #[trigger] conv.take(i)[j] <= 30 by {
                assert(conv.take(i)[j] == conv[j]);
            }
        }
        lemma_bcd_max_nonneg(conv.take(i));
    }
}

/// Whether every width is at most 30: computes [`widths_ok`].
fn widths_fit(conv: &Vec<u8>) -> (b: bool)
    ensures
        b == widths_ok(conv@),
{
    let mut i: usize = 0;
    while i < conv.len()
        invariant
            i <= conv@.len(),
            forall|j: int| 0 <= j < i ==> #[trigger] conv@[j] <= 30,
        decreases conv@.len() - i,
    {
        if conv[i] > 30 {
            return false;
        }
        i = i + 1;
    }
    true
}

/// Whether BCD digits of the widths `conv` can be decoded without fault:
/// computes [`bcd_ok`].
fn bcd_fits(conv: &Vec<u8>) -> (b: bool)
    ensures
        b == bcd_ok(conv@),
{
    if conv.len() > 10 {
        return false;
    }
    if !widths_fit(conv) {
        return false;
    }
    let n = conv.len();
    let mut m: i64 = 0;
    let mut i: usize = 0;
    assert(conv@.take(0) =~= Seq::<u8>::empty());
    while i < n
        invariant
            n == conv@.len(),
            widths_ok(conv@),
            i <= n,
            m == bcd_max(conv@.take(i as int)),
            0 <= m <= i32::MAX,
        decreases n - i,
    {
        let b = conv[i];
        assert(b <= 30);
        assert(1 <= (1i32 << (b as u32)) <= 0x4000_0000) by (bit_vector)
            requires
                b <= 30,
        ;
        proof {
            lemma_mask_bounds(b, 0);
            let t = conv@.take(i + 1);
            assert(t.drop_last() =~= conv@.take(i as int));
            assert(t.last() == b);
        }
        let mask: i32 = (1i32 << (b as u32)) - 1;
        m = 10 * m + (mask as i64);
        i = i + 1;
        if m > 0x7fff_ffff {
            proof {
                lemma_bcd_max_prefix(conv@, i as int);
            }
            return false;
        }
    }
    assert(conv@.take(n as int) =~= conv@);
    true
}

/// Whether the conversion of a format class can be applied without fault:
/// computes [`conversion_ok`].
pub fn conversion_fits(class: &FormatClass, conv: &Vec<u8>) -> (b: bool)
    ensures
        b == conversion_ok(*class, conv@),
{
    match class {
        FormatClass::Bcd => bcd_fits(conv),
        FormatClass::Chars => widths_fit(conv),
        _ => true,
    }
}

} // verus!
