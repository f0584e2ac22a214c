//! Little-endian integers, byte appending and text bytes.

use vstd::prelude::*;
use vstd::utf8::{encode_utf8, encode_utf8_decode_utf8, encode_utf8_valid_utf8, decode_utf8, valid_utf8, encode_scalar};

verus! {

/// The `n` little-endian bytes of `x` (the low `8 * n` bits).
pub open spec fn le_bytes(x: nat, n: nat) -> Seq<u8>
    decreases n,
{
    if n == 0 {
        seq![]
    } else {
        seq![(x % 256) as u8] + le_bytes(x / 256, (n - 1) as nat)
    }
}

/// `le_bytes(x, n)` has `n` bytes.
pub proof fn lemma_le_len(x: nat, n: nat)
    ensures
        le_bytes(x, n).len() == n,
    decreases n,
{
    if n > 0 {
        lemma_le_len(x / 256, (n - 1) as nat);
    }
}

/// The number that little-endian bytes `s` denote.
pub open spec fn le_value(s: Seq<u8>) -> nat
    decreases s.len(),
{
    if s.len() == 0 {
        0
    } else {
        s[0] as nat + 256 * le_value(s.drop_first())
    }
}

/// `256^n`.
pub open spec fn pow256(n: nat) -> nat
    decreases n,
{
    if n == 0 {
        1
    } else {
        256 * pow256((n - 1) as nat)
    }
}

/// Decoding `n` little-endian bytes gives back the value when it fits in them.
pub proof fn lemma_le_roundtrip(x: nat, n: nat)
    requires
        x < pow256(n),
    ensures
        le_bytes(x, n).len() == n,
        le_value(le_bytes(x, n)) == x,
    decreases n,
{
    if n > 0 {
        assert(x / 256 < pow256((n - 1) as nat)) by (nonlinear_arith)
            requires
                x < 256 * pow256((n - 1) as nat),
        ;
        lemma_le_roundtrip(x / 256, (n - 1) as nat);
        let s = le_bytes(x, n);
        assert(s.drop_first() =~= le_bytes(x / 256, (n - 1) as nat));
    }
}

/// The value of `n` bytes is below `256^n`.
pub proof fn lemma_le_value_bound(s: Seq<u8>)
    ensures
        le_value(s) < pow256(s.len()),
    decreases s.len(),
{
    if s.len() > 0 {
        lemma_le_value_bound(s.drop_first());
        assert(s[0] as nat + 256 * le_value(s.drop_first()) < 256 * pow256((s.len() - 1) as nat))
            by (nonlinear_arith)
            requires
                le_value(s.drop_first()) < pow256((s.len() - 1) as nat),
                s[0] < 256,
        ;
    }
}

/// The UTF-8 bytes of a text.
pub open spec fn text_bytes(t: Seq<char>) -> Seq<u8> {
    encode_utf8(t)
}

/// A text without the character U+0000, the field terminator.
pub open spec fn no_nul(t: Seq<char>) -> bool {
    forall|i: int| 0 <= i < t.len() ==> #[trigger] t[i] != '\0'
}

/// Whether byte 0 does not occur in `s`.
pub open spec fn no_zero_byte(s: Seq<u8>) -> bool {
    forall|i: int| 0 <= i < s.len() ==> #[trigger] s[i] != 0
}

proof fn lemma_scalar_no_zero(c: char)
    requires
        c != '\0',
    ensures
        no_zero_byte(encode_scalar(c as u32)),
{
    let v = c as u32;
    vstd::utf8::char_is_scalar(c);
    assert(v != 0);
    let e = encode_scalar(v);
    assert(((v & 0x7F) as u8) != 0 || v > 0x7F) by (bit_vector)
        requires
            v != 0,
    ;
    assert((0xC0u8 | ((v >> 6) & 0x1F) as u8) != 0) by (bit_vector);
    assert((0xE0u8 | ((v >> 12) & 0x0F) as u8) != 0) by (bit_vector);
    assert((0xF0u8 | ((v >> 18) & 0x7) as u8) != 0) by (bit_vector);
    assert((0x80u8 | (v & 0x3F) as u8) != 0) by (bit_vector);
    assert((0x80u8 | ((v >> 6) & 0x3F) as u8) != 0) by (bit_vector);
    assert((0x80u8 | ((v >> 12) & 0x3F) as u8) != 0) by (bit_vector);
}

/// The UTF-8 bytes of a text without U+0000 contain no zero byte.
pub proof fn lemma_text_no_zero(t: Seq<char>)
    requires
        no_nul(t),
    ensures
        no_zero_byte(text_bytes(t)),
    decreases t.len(),
{
    if t.len() > 0 {
        lemma_scalar_no_zero(t[0]);
        assert(no_nul(t.drop_first())) by {
            assert forall|i: int| 0 <= i < t.drop_first().len() implies #[trigger] t.drop_first()[i]
                != '\0' by {
                assert(t.drop_first()[i] == t[i + 1]);
            }
        }
        lemma_text_no_zero(t.drop_first());
        let a = encode_scalar(t[0] as u32);
        let b = encode_utf8(t.drop_first());
        assert(text_bytes(t) == a + b);
        assert forall|i: int| 0 <= i < (a + b).len() implies #[trigger] (a + b)[i] != 0 by {
            if i < a.len() {
                assert((a + b)[i] == a[i]);
            } else {
                assert((a + b)[i] == b[i - a.len()]);
            }
        }
    }
}

/// Decoding the UTF-8 bytes of a text gives it back.
pub proof fn lemma_text_roundtrip(t: Seq<char>)
    ensures
        valid_utf8(text_bytes(t)),
        decode_utf8(text_bytes(t)) == t,
{
    encode_utf8_valid_utf8(t);
    encode_utf8_decode_utf8(t);
}

/// Appends `n` little-endian bytes of `x` to `out`.
pub fn push_le(out: &mut Vec<u8>, x: u64, n: usize)
    requires
        n <= 8,
    ensures
        final(out)@ == old(out)@ + le_bytes(x as nat, n as nat),
{
    let mut v: u64 = x;
    let mut i: usize = 0;
    let ghost start = out@;
    while i < n
        invariant
            i <= n,
            n <= 8,
            out@ + le_bytes(v as nat, (n - i) as nat) == start + le_bytes(x as nat, n as nat),
        decreases n - i,
    {
        let ghost before = out@;
        out.push((v % 256) as u8);
        proof {
            assert(le_bytes(v as nat, (n - i) as nat) == seq![(v % 256) as u8] + le_bytes(
                (v / 256) as nat,
                (n - i - 1) as nat,
            ));
            assert(out@ + le_bytes((v / 256) as nat, (n - i - 1) as nat) =~= before + le_bytes(
                v as nat,
                (n - i) as nat,
            ));
        }
        v = v / 256;
        i = i + 1;
    }
    proof {
        assert(le_bytes(v as nat, 0) =~= Seq::<u8>::empty());
        assert(out@ + Seq::<u8>::empty() =~= out@);
    }
}

/// Appends all of `bytes` to `out`.
pub fn push_bytes(out: &mut Vec<u8>, bytes: &[u8])
    ensures
        final(out)@ == old(out)@ + bytes@,
{
    let mut i: usize = 0;
    let ghost start = out@;
    let n = bytes.len();
    while i < n
        invariant
            n == bytes@.len(),
            i <= n,
            out@ == start + bytes@.take(i as int),
        decreases n - i,
    {
        out.push(bytes[i]);
        assert(bytes@.take(i + 1) =~= bytes@.take(i as int).push(bytes@[i as int]));
        i = i + 1;
    }
    assert(bytes@.take(n as int) =~= bytes@);
}

/// The number that the `n` little-endian bytes at `pos` denote.
pub fn read_le(bytes: &[u8], pos: usize, n: usize) -> (v: u64)
    requires
        n <= 8,
        pos + n <= bytes@.len(),
    ensures
        v as nat == le_value(bytes@.subrange(pos as int, pos + n)),
{
    let mut v: u64 = 0;
    let mut i: usize = n;
    let blen = bytes.len();
    while i > 0
        invariant
            blen == bytes@.len(),
            i <= n <= 8,
            pos + n <= bytes@.len(),
            v as nat == le_value(bytes@.subrange(pos + i, pos + n)),
            v as nat <= pow256((n - i) as nat) - 1,
        decreases i,
    {
        let ghost s = bytes@.subrange(pos + i - 1, pos + n);
        assert(s.drop_first() =~= bytes@.subrange(pos + i, pos + n));
        proof {
            lemma_pow256_bound((n - i + 1) as nat);
        }
        assert(v * 256 + bytes[pos + i - 1] as nat <= pow256((n - i + 1) as nat) - 1) by (nonlinear_arith)
            requires
                v <= pow256((n - i) as nat) - 1,
                bytes[pos + i - 1] < 256,
                pow256((n - i + 1) as nat) == 256 * pow256((n - i) as nat),
        ;
        v = v * 256 + bytes[pos + i - 1] as u64;
        i = i - 1;
    }
    v
}

proof fn lemma_pow256_bound(n: nat)
    requires
        1 <= n <= 8,
    ensures
        pow256(n) <= 0x1_0000_0000_0000_0000,
        pow256(n) == 256 * pow256((n - 1) as nat),
{
    reveal_with_fuel(pow256, 9);
}

} // verus!
