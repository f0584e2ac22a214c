//! The binary data file that holds decoded parameters.
//!
//! Layout (all integers little-endian):
//! - the 22-byte tag `QAR_Decoded_DATA_V1.0\0`;
//! - the header: its size `u32` (tag included), the metadata text and the
//!   format description text, each followed by a zero byte;
//! - the parameter table: its total size `u32` (this field included), then one
//!   entry per parameter: `selfsize u16`, `data_point u64`, `data_size u32`,
//!   `val_size u16`, `rate i16`, `start_frameid f32` (as its bits), then the
//!   texts name, compression, data type and info, each followed by a zero byte;
//! - the data blocks of the parameters, in table order.

use crate::bytes::{
    le_bytes, lemma_le_len, le_value, lemma_le_roundtrip, lemma_le_value_bound, lemma_text_no_zero,
    lemma_text_roundtrip, no_nul, no_zero_byte, pow256, push_bytes, push_le, read_le, text_bytes,
};
use vstd::prelude::*;
use vstd::string::StringSliceAdditionalSpecFns;
use vstd::utf8::{decode_utf8, valid_utf8};

verus! {

/// Why a data file could not be read.
#[derive(Debug, PartialEq, Eq, Structural)]
pub enum DataFileError {
    /// The data ends before a field that the layout needs.
    UnexpectedEof,
    /// The file does not start with the data-file tag.
    BadTag,
    /// A size field is smaller than the fixed part it must include.
    SizeUnderflow,
    /// The running total of the table entry sizes exceeds 32 bits.
    SizeOverflow,
}

/// The text that `String::from_utf8_lossy` makes of `bytes`.
pub uninterp spec fn utf8_lossy(bytes: Seq<u8>) -> Seq<char>;

/// Calls `String::from_utf8_lossy` (std) and takes ownership of the text.
/// Claimed: the result is the text named [`utf8_lossy`] of the bytes, and, as
/// the function's documentation states, for valid UTF-8 it is the text that
/// the bytes encode.  What it makes of invalid UTF-8 is left unsaid.
#[verifier::external_body]
fn string_from_utf8_lossy(bytes: &[u8]) -> (s: String)
    ensures
        s@ == utf8_lossy(bytes@),
        valid_utf8(bytes@) ==> s@ == decode_utf8(bytes@),
{
    String::from_utf8_lossy(bytes).into_owned()
}

/// The first zero byte at or after `start`, or the length when there is none.
pub open spec fn first_zero_from(s: Seq<u8>, start: int) -> int
    decreases s.len() - start,
{
    if start >= s.len() {
        s.len() as int
    } else if s[start] == 0 {
        start
    } else {
        first_zero_from(s, start + 1)
    }
}

/// Piece `i` (from 0) of the bytes from `start` on, split at zero bytes: the
/// pieces are the runs between zero bytes, the last one running to the end.
pub open spec fn piece(s: Seq<u8>, start: int, i: nat) -> Option<Seq<u8>>
    decreases i,
{
    let z = first_zero_from(s, start);
    if i == 0 {
        Some(s.subrange(start, z))
    } else if z >= s.len() {
        None
    } else {
        piece(s, z + 1, (i - 1) as nat)
    }
}

/// The text of a byte field: the text it encodes when it is valid UTF-8, else
/// what [`utf8_lossy`] makes of it.
pub open spec fn lossy_text(b: Seq<u8>) -> Seq<char> {
    if valid_utf8(b) {
        decode_utf8(b)
    } else {
        utf8_lossy(b)
    }
}

/// Text field `i` of zero-separated bytes: piece `i` read as UTF-8 (lossily),
/// empty when there is no such piece.
pub open spec fn field_text(s: Seq<u8>, i: nat) -> Seq<char> {
    match piece(s, 0, i) {
        Some(b) => lossy_text(b),
        None => seq![],
    }
}

pub proof fn lemma_first_zero_from_bounds(s: Seq<u8>, start: int)
    requires
        0 <= start,
    ensures
        start <= first_zero_from(s, start) || start > s.len(),
        first_zero_from(s, start) <= s.len(),
        first_zero_from(s, start) < s.len() ==> s[first_zero_from(s, start)] == 0,
        forall|j: int| start <= j < first_zero_from(s, start) ==> s[j] != 0,
    decreases s.len() - start,
{
    if start < s.len() && s[start] != 0 {
        lemma_first_zero_from_bounds(s, start + 1);
    }
}

/// The first zero after `start` of `a + [0] + rest`, where `a` holds no zero and
/// starts at `start`, is the one right after `a`.
proof fn lemma_first_zero_after_field(s: Seq<u8>, start: int, a: Seq<u8>)
    requires
        0 <= start,
        start + a.len() < s.len(),
        s.subrange(start, start + a.len()) == a,
        s[start + a.len()] == 0,
        no_zero_byte(a),
    ensures
        first_zero_from(s, start) == start + a.len(),
    decreases a.len(),
{
    if a.len() > 0 {
        assert(s[start] == a[0]);
        assert(s.subrange(start + 1, start + a.len()) =~= a.drop_first());
        assert(no_zero_byte(a.drop_first())) by {
            assert forall|i: int| 0 <= i < a.drop_first().len() implies #[trigger] a.drop_first()[i]
                != 0 by {
                assert(a.drop_first()[i] == a[i + 1]);
            }
        }
        lemma_first_zero_after_field(s, start + 1, a.drop_first());
    }
}

/// Splits zero-separated bytes into the first `count` text fields.
fn split_fields(s: &[u8], count: usize) -> (r: Vec<String>)
    ensures
        r@.len() == count,
        forall|i: int| 0 <= i < count ==> (#[trigger] r@[i])@ == field_text(s@, i as nat),
{
    let n = s.len();
    let mut r: Vec<String> = Vec::new();
    let mut start: usize = 0;
    let mut more: bool = true;
    let mut i: usize = 0;
    while i < count
        invariant
            n == s@.len(),
            i <= count,
            r@.len() == i,
            start <= n,
            forall|k: int| 0 <= k < i ==> (#[trigger] r@[k])@ == field_text(s@, k as nat),
            more ==> forall|k: nat| k >= i ==> #[trigger] piece(s@, 0, k) == piece(s@, start as int, (k - i) as nat),
            !more ==> forall|k: nat| k >= i ==> #[trigger] piece(s@, 0, k) is None,
        decreases count - i,
    {
        if more {
            let mut z: usize = start;
            while z < n && s[z] != 0
                invariant
                    n == s@.len(),
                    start <= z <= n,
                    forall|j: int| start <= j < z ==> s@[j] != 0,
                decreases n - z,
            {
                z = z + 1;
            }
            proof {
                lemma_first_zero_from_bounds(s@, start as int);
                let fz = first_zero_from(s@, start as int);
                if fz < z {
                    assert(s@[fz] == 0);
                }
                if z < fz {
                    assert(s@[z as int] != 0);
                }
                assert(fz == z);
                assert(piece(s@, 0, i as nat) == piece(s@, start as int, 0));
            }
            let field = string_from_utf8_lossy(vstd::slice::slice_subrange(s, start, z));
            r.push(field);
            proof {
                assert forall|k: nat| k >= i + 1 implies #[trigger] piece(s@, 0, k) == if z < n {
                    piece(s@, z + 1, (k - i - 1) as nat)
                } else {
                    None
                } by {
                    assert(piece(s@, 0, k) == piece(s@, start as int, (k - i) as nat));
                }
            }
            if z < n {
                start = z + 1;
            } else {
                more = false;
            }
        } else {
            r.push(String::new());
        }
        i = i + 1;
    }
    r
}

/// One entry of the parameter table.  `start_frameid` holds the bits of the
/// `f32` time of the first value.
pub struct OneParamTable {
    pub selfsize: u16,
    pub data_point: u64,
    pub data_size: u32,
    pub val_size: u16,
    pub rate: i16,
    pub start_frameid: u32,
    pub name: String,
    pub compress: String,
    pub data_type: String,
    pub info: String,
}

/// The abstract value of a table entry: its numbers and texts.
pub struct TableView {
    pub selfsize: u16,
    pub data_point: u64,
    pub data_size: u32,
    pub val_size: u16,
    pub rate: i16,
    pub start_frameid: u32,
    pub name: Seq<char>,
    pub compress: Seq<char>,
    pub data_type: Seq<char>,
    pub info: Seq<char>,
}

impl View for OneParamTable {
    type V = TableView;

    open spec fn view(&self) -> TableView {
        TableView {
            selfsize: self.selfsize,
            data_point: self.data_point,
            data_size: self.data_size,
            val_size: self.val_size,
            rate: self.rate,
            start_frameid: self.start_frameid,
            name: self.name@,
            compress: self.compress@,
            data_type: self.data_type@,
            info: self.info@,
        }
    }
}

/// The serialized size of a table entry: 22 bytes of numbers and the four
/// texts, each with its terminating zero byte.
pub open spec fn table_len(t: TableView) -> int {
    (22 + text_bytes(t.name).len() + 1 + text_bytes(t.compress).len() + 1 + text_bytes(
        t.data_type,
    ).len() + 1 + text_bytes(t.info).len() + 1) as int
}

/// A text followed by its terminating zero byte.
pub open spec fn text_field(t: Seq<char>) -> Seq<u8> {
    text_bytes(t) + seq![0u8]
}

/// The serialized bytes of a table entry.
pub open spec fn table_bytes(t: TableView) -> Seq<u8> {
    le_bytes(t.selfsize as nat, 2) + le_bytes(t.data_point as nat, 8) + le_bytes(
        t.data_size as nat,
        4,
    ) + le_bytes(t.val_size as nat, 2) + le_bytes((t.rate as u16) as nat, 2) + le_bytes(
        t.start_frameid as nat,
        4,
    ) + text_field(t.name) + text_field(t.compress) + text_field(t.data_type) + text_field(
        t.info,
    )
}

/// Reading a table entry at `pos`: the 22 bytes of numbers, then `selfsize - 22`
/// bytes of zero-separated texts, of which the first four are the name,
/// compression, data type and info.
pub open spec fn table_parse(s: Seq<u8>, pos: int) -> Result<(TableView, int), DataFileError> {
    if pos < 0 || pos + 22 > s.len() {
        Err(DataFileError::UnexpectedEof)
    } else {
        let selfsize = le_value(s.subrange(pos, pos + 2)) as u16;
        if selfsize < 22 {
            Err(DataFileError::SizeUnderflow)
        } else if pos + selfsize > s.len() {
            Err(DataFileError::UnexpectedEof)
        } else {
            let strs = s.subrange(pos + 22, pos + selfsize);
            Ok(
                (
                    TableView {
                        selfsize,
                        data_point: le_value(s.subrange(pos + 2, pos + 10)) as u64,
                        data_size: le_value(s.subrange(pos + 10, pos + 14)) as u32,
                        val_size: le_value(s.subrange(pos + 14, pos + 16)) as u16,
                        rate: (le_value(s.subrange(pos + 16, pos + 18)) as u16) as i16,
                        start_frameid: le_value(s.subrange(pos + 18, pos + 22)) as u32,
                        name: field_text(strs, 0),
                        compress: field_text(strs, 1),
                        data_type: field_text(strs, 2),
                        info: field_text(strs, 3),
                    },
                    pos + selfsize,
                ),
            )
        }
    }
}

/// Appends the bytes of `s` and a terminating zero byte.
fn push_text(out: &mut Vec<u8>, s: &String)
    ensures
        final(out)@ == old(out)@ + text_field(s@),
{
    let ghost o0 = out@;
    let st = s.as_str();
    push_bytes(out, st.as_bytes());
    out.push(0u8);
    proof {
        assert(st@ == s@);
        assert(st.spec_bytes() == text_bytes(s@));
        assert(out@ =~= o0 + text_field(s@));
    }
}

impl OneParamTable {
    /// Appends the serialized entry (little-endian) to `writer`.
    pub fn serialize(&self, writer: &mut Vec<u8>)
        ensures
            final(writer)@ == old(writer)@ + table_bytes(self@),
    {
        let ghost w0 = writer@;
        push_le(writer, self.selfsize as u64, 2);
        push_le(writer, self.data_point, 8);
        push_le(writer, self.data_size as u64, 4);
        push_le(writer, self.val_size as u64, 2);
        push_le(writer, (self.rate as u16) as u64, 2);
        push_le(writer, self.start_frameid as u64, 4);
        push_text(writer, &self.name);
        push_text(writer, &self.compress);
        push_text(writer, &self.data_type);
        push_text(writer, &self.info);
        proof {
            let t = self@;
            assert(writer@ =~= w0 + table_bytes(t));
        }
    }

    /// The serialized size of the entry.
    pub fn length(&self) -> (size: usize)
        requires
            table_len(self@) <= usize::MAX,
        ensures
            size == table_len(self@),
    {
        let mut size: usize = 2 + 8 + 4 + 2 + 2 + 4;
        size += self.name.as_str().len() + 1;
        size += self.compress.as_str().len() + 1;
        size += self.data_type.as_str().len() + 1;
        size += self.info.as_str().len() + 1;
        size
    }

    /// Reads an entry at byte `pos` of `reader` (see [`table_parse`]); returns it
    /// with the position after it.
    pub fn deserialize(reader: &[u8], pos: usize) -> (r: Result<(OneParamTable, usize), DataFileError>)
        ensures
            match r {
                Ok((t, end)) => table_parse(reader@, pos as int) == Ok::<(TableView, int), DataFileError>((t@, end as int)),
                Err(e) => table_parse(reader@, pos as int) == Err::<(TableView, int), DataFileError>(e),
            },
    {
        let n = reader.len();
        if pos > n || n - pos < 22 {
            return Err(DataFileError::UnexpectedEof);
        }
        proof {
            lemma_le_value_bound(reader@.subrange(pos as int, pos + 2));
            lemma_le_value_bound(reader@.subrange(pos + 2, pos + 10));
            lemma_le_value_bound(reader@.subrange(pos + 10, pos + 14));
            lemma_le_value_bound(reader@.subrange(pos + 14, pos + 16));
            lemma_le_value_bound(reader@.subrange(pos + 16, pos + 18));
            lemma_le_value_bound(reader@.subrange(pos + 18, pos + 22));
            reveal_with_fuel(pow256, 9);
        }
        let selfsize = read_le(reader, pos, 2) as u16;
        let data_point = read_le(reader, pos + 2, 8);
        let data_size = read_le(reader, pos + 10, 4) as u32;
        let val_size = read_le(reader, pos + 14, 2) as u16;
        let rate = #[verifier::truncate] ((read_le(reader, pos + 16, 2) as u16) as i16);
        let start_frameid = read_le(reader, pos + 18, 4) as u32;
        if selfsize < 22 {
            return Err(DataFileError::SizeUnderflow);
        }
        let str_len = (selfsize - 22) as usize;
        if n - pos - 22 < str_len {
            return Err(DataFileError::UnexpectedEof);
        }
        let strs = vstd::slice::slice_subrange(reader, pos + 22, pos + 22 + str_len);
        let fields = split_fields(strs, 4);
        let name = fields[0].clone();
        let compress = fields[1].clone();
        let data_type = fields[2].clone();
        let info = fields[3].clone();
        let t = OneParamTable {
            selfsize,
            data_point,
            data_size,
            val_size,
            rate,
            start_frameid,
            name,
            compress,
            data_type,
            info,
        };
        Ok((t, pos + selfsize as usize))
    }
}

/// The header of a data file.
pub struct PrmHeader {
    /// Size of the header, the 22-byte tag included.
    pub header_size: u32,
    /// Metadata (a JSON text).
    pub meta: String,
    /// Description of the file format.
    pub description: String,
}

/// The abstract value of a header.
pub struct HeaderView {
    pub header_size: u32,
    pub meta: Seq<char>,
    pub description: Seq<char>,
}

impl View for PrmHeader {
    type V = HeaderView;

    open spec fn view(&self) -> HeaderView {
        HeaderView { header_size: self.header_size, meta: self.meta@, description: self.description@ }
    }
}

/// The size of a header, the 22-byte tag included.
pub open spec fn header_len(h: HeaderView) -> int {
    (22 + 4 + text_bytes(h.meta).len() + 1 + text_bytes(h.description).len() + 1) as int
}

/// The serialized bytes of a header (after the tag).
pub open spec fn header_bytes(h: HeaderView) -> Seq<u8> {
    le_bytes(h.header_size as nat, 4) + text_field(h.meta) + text_field(h.description)
}

/// Reading a header at `pos` (right after the tag): its size, then
/// `header_size - 26` bytes of zero-separated texts, the metadata and the
/// description.
pub open spec fn header_parse(s: Seq<u8>, pos: int) -> Result<(HeaderView, int), DataFileError> {
    if pos < 0 || pos + 4 > s.len() {
        Err(DataFileError::UnexpectedEof)
    } else {
        let header_size = le_value(s.subrange(pos, pos + 4)) as u32;
        if header_size < 26 {
            Err(DataFileError::SizeUnderflow)
        } else if pos + 4 + (header_size - 26) > s.len() {
            Err(DataFileError::UnexpectedEof)
        } else {
            let end = pos + 4 + (header_size - 26);
            let strs = s.subrange(pos + 4, end);
            Ok(
                (
                    HeaderView {
                        header_size,
                        meta: field_text(strs, 0),
                        description: field_text(strs, 1),
                    },
                    end,
                ),
            )
        }
    }
}

impl PrmHeader {
    /// Appends the serialized header (little-endian, without the tag) to `writer`.
    pub fn serialize(&self, writer: &mut Vec<u8>)
        ensures
            final(writer)@ == old(writer)@ + header_bytes(self@),
    {
        let ghost w0 = writer@;
        push_le(writer, self.header_size as u64, 4);
        push_text(writer, &self.meta);
        push_text(writer, &self.description);
        proof {
            assert(writer@ =~= w0 + header_bytes(self@));
        }
    }

    /// The size of the header, the 22-byte tag included.
    pub fn length(&self) -> (size: usize)
        requires
            header_len(self@) <= usize::MAX,
        ensures
            size == header_len(self@),
    {
        let mut size: usize = 22 + 4;
        size += self.meta.as_str().len() + 1;
        size += self.description.as_str().len() + 1;
        size
    }

    /// Reads a header at byte `pos` of `reader` (see [`header_parse`]); returns
    /// it with the position after it.
    pub fn deserialize(reader: &[u8], pos: usize) -> (r: Result<(PrmHeader, usize), DataFileError>)
        ensures
            match r {
                Ok((h, end)) => header_parse(reader@, pos as int) == Ok::<(HeaderView, int), DataFileError>((h@, end as int)),
                Err(e) => header_parse(reader@, pos as int) == Err::<(HeaderView, int), DataFileError>(e),
            },
    {
        let n = reader.len();
        if pos > n || n - pos < 4 {
            return Err(DataFileError::UnexpectedEof);
        }
        proof {
            lemma_le_value_bound(reader@.subrange(pos as int, pos + 4));
            reveal_with_fuel(pow256, 5);
        }
        let header_size = read_le(reader, pos, 4) as u32;
        if header_size < 26 {
            return Err(DataFileError::SizeUnderflow);
        }
        let str_len = (header_size - 26) as usize;
        if n - pos - 4 < str_len {
            return Err(DataFileError::UnexpectedEof);
        }
        let strs = vstd::slice::slice_subrange(reader, pos + 4, pos + 4 + str_len);
        let fields = split_fields(strs, 2);
        let meta = fields[0].clone();
        let description = fields[1].clone();
        Ok((PrmHeader { header_size, meta, description }, pos + 4 + str_len))
    }
}

/// Zero-separated texts without U+0000 split back into the texts.
proof fn lemma_fields_roundtrip(s: Seq<u8>, start: int, texts: Seq<Seq<char>>, i: nat)
    requires
        0 <= start <= s.len(),
        i < texts.len(),
        forall|k: int| 0 <= k < texts.len() ==> no_nul(#[trigger] texts[k]),
        s.subrange(start, s.len() as int) == fields_bytes(texts),
    ensures
        piece(s, start, i) == Some(text_bytes(texts[i as int])),
    decreases i,
{
    let a = text_bytes(texts[0]);
    lemma_text_no_zero(texts[0]);
    assert(fields_bytes(texts) == text_field(texts[0]) + fields_bytes(texts.drop_first()));
    assert(s.subrange(start, start + a.len()) =~= a) by {
        assert forall|j: int| 0 <= j < a.len() implies s.subrange(start, start + a.len())[j] == a[j] by {
            assert(s[start + j] == s.subrange(start, s.len() as int)[j]);
            assert(fields_bytes(texts)[j] == a[j]);
        }
    }
    assert(s[start + a.len()] == 0) by {
        assert(s[start + a.len()] == s.subrange(start, s.len() as int)[a.len() as int]);
        assert(fields_bytes(texts)[a.len() as int] == text_field(texts[0])[a.len() as int]);
    }
    lemma_first_zero_after_field(s, start, a);
    if i > 0 {
        let rest = texts.drop_first();
        assert(s.subrange(start + a.len() + 1, s.len() as int) =~= fields_bytes(rest)) by {
            assert(fields_bytes(texts) =~= text_field(texts[0]) + fields_bytes(rest));
            assert forall|j: int| 0 <= j < fields_bytes(rest).len() implies s.subrange(start + a.len() + 1, s.len() as int)[j] == fields_bytes(rest)[j] by {
                assert(s[start + a.len() + 1 + j] == s.subrange(start, s.len() as int)[a.len() + 1 + j]);
                assert(fields_bytes(texts)[a.len() + 1 + j] == fields_bytes(rest)[j]);
            }
        }
        assert forall|k: int| 0 <= k < rest.len() implies no_nul(#[trigger] rest[k]) by {
            assert(rest[k] == texts[k + 1]);
        }
        lemma_fields_roundtrip(s, start + a.len() + 1, rest, (i - 1) as nat);
        assert(rest[(i - 1) as int] == texts[i as int]);
    }
}

/// Texts, each followed by its terminating zero byte.
pub open spec fn fields_bytes(texts: Seq<Seq<char>>) -> Seq<u8>
    decreases texts.len(),
{
    if texts.len() == 0 {
        seq![]
    } else {
        text_field(texts[0]) + fields_bytes(texts.drop_first())
    }
}

proof fn lemma_field_text_roundtrip(s: Seq<u8>, texts: Seq<Seq<char>>, i: nat)
    requires
        i < texts.len(),
        forall|k: int| 0 <= k < texts.len() ==> no_nul(#[trigger] texts[k]),
        s == fields_bytes(texts),
    ensures
        field_text(s, i) == texts[i as int],
{
    assert(s.subrange(0, s.len() as int) =~= s);
    lemma_fields_roundtrip(s, 0, texts, i);
    lemma_text_roundtrip(texts[i as int]);
}

/// A table entry whose size field is its serialized size and whose texts hold
/// no U+0000.
pub open spec fn table_wf(t: TableView) -> bool {
    &&& t.selfsize == table_len(t)
    &&& no_nul(t.name)
    &&& no_nul(t.compress)
    &&& no_nul(t.data_type)
    &&& no_nul(t.info)
}

/// Reading back a serialized table entry gives the entry.
pub proof fn lemma_table_roundtrip(pre: Seq<u8>, t: TableView, post: Seq<u8>)
    requires
        table_wf(t),
    ensures
        table_parse(pre + table_bytes(t) + post, pre.len() as int) == Ok::<(TableView, int), DataFileError>(
            (t, pre.len() + table_len(t)),
        ),
{
    let s = pre + table_bytes(t) + post;
    let p = pre.len() as int;
    reveal_with_fuel(pow256, 9);
    let texts = seq![t.name, t.compress, t.data_type, t.info];
    let fb = fields_bytes(texts);
    reveal_with_fuel(fields_bytes, 5);
    assert(fb =~= text_field(t.name) + text_field(t.compress) + text_field(t.data_type) + text_field(t.info));
    lemma_le_roundtrip(t.selfsize as nat, 2);
    lemma_le_roundtrip(t.data_point as nat, 8);
    lemma_le_roundtrip(t.data_size as nat, 4);
    lemma_le_roundtrip(t.val_size as nat, 2);
    lemma_le_roundtrip((t.rate as u16) as nat, 2);
    lemma_le_roundtrip(t.start_frameid as nat, 4);
    let tb = table_bytes(t);
    assert(tb.len() == table_len(t));
    assert(s.subrange(p, p + 2) =~= le_bytes(t.selfsize as nat, 2));
    assert(s.subrange(p + 2, p + 10) =~= le_bytes(t.data_point as nat, 8));
    assert(s.subrange(p + 10, p + 14) =~= le_bytes(t.data_size as nat, 4));
    assert(s.subrange(p + 14, p + 16) =~= le_bytes(t.val_size as nat, 2));
    assert(s.subrange(p + 16, p + 18) =~= le_bytes((t.rate as u16) as nat, 2));
    assert(s.subrange(p + 18, p + 22) =~= le_bytes(t.start_frameid as nat, 4));
    assert(s.subrange(p + 22, p + t.selfsize) =~= fb);
    let r = t.rate;
    assert(((r as u16) as i16) == r) by (bit_vector);
    assert forall|k: int| 0 <= k < texts.len() implies no_nul(#[trigger] texts[k]) by {}
    lemma_field_text_roundtrip(fb, texts, 0);
    lemma_field_text_roundtrip(fb, texts, 1);
    lemma_field_text_roundtrip(fb, texts, 2);
    lemma_field_text_roundtrip(fb, texts, 3);
}

/// A header whose texts hold no U+0000.
pub open spec fn header_wf(h: HeaderView) -> bool {
    &&& no_nul(h.meta)
    &&& no_nul(h.description)
}

/// Reading back a serialized header whose size field is its size gives the
/// header.
pub proof fn lemma_header_roundtrip(pre: Seq<u8>, h: HeaderView, post: Seq<u8>)
    requires
        header_wf(h),
        h.header_size == header_len(h),
    ensures
        header_parse(pre + header_bytes(h) + post, pre.len() as int) == Ok::<(HeaderView, int), DataFileError>(
            (h, pre.len() + header_len(h) - 22),
        ),
{
    let s = pre + header_bytes(h) + post;
    let p = pre.len() as int;
    reveal_with_fuel(pow256, 5);
    let texts = seq![h.meta, h.description];
    let fb = fields_bytes(texts);
    reveal_with_fuel(fields_bytes, 3);
    assert(fb =~= text_field(h.meta) + text_field(h.description));
    lemma_le_roundtrip(h.header_size as nat, 4);
    assert(s.subrange(p, p + 4) =~= le_bytes(h.header_size as nat, 4));
    assert(s.subrange(p + 4, p + 4 + (h.header_size - 26)) =~= fb);
    assert forall|k: int| 0 <= k < texts.len() implies no_nul(#[trigger] texts[k]) by {}
    lemma_field_text_roundtrip(fb, texts, 0);
    lemma_field_text_roundtrip(fb, texts, 1);
}

/// The 22-byte tag that opens a data file: `QAR_Decoded_DATA_V1.0` and a zero byte.
pub open spec fn data_tag() -> Seq<u8> {
    seq![
        0x51u8, 0x41u8, 0x52u8, 0x5Fu8, 0x44u8, 0x65u8, 0x63u8, 0x6Fu8, 0x64u8, 0x65u8, 0x64u8,
        0x5Fu8, 0x44u8, 0x41u8, 0x54u8, 0x41u8, 0x5Fu8, 0x56u8, 0x31u8, 0x2Eu8, 0x30u8, 0x00u8,
    ]
}

/// The data-file tag.
pub fn header_tag() -> (tag: Vec<u8>)
    ensures
        tag@ == data_tag(),
{
    let tag = vec![
        0x51u8, 0x41u8, 0x52u8, 0x5Fu8, 0x44u8, 0x65u8, 0x63u8, 0x6Fu8, 0x64u8, 0x65u8, 0x64u8,
        0x5Fu8, 0x44u8, 0x41u8, 0x54u8, 0x41u8, 0x5Fu8, 0x56u8, 0x31u8, 0x2Eu8, 0x30u8, 0x00u8,
    ];
    assert(tag@ =~= data_tag());
    tag
}

/// Sum of the size fields of table entries.
pub open spec fn sum_selfsize(ts: Seq<TableView>) -> int
    decreases ts.len(),
{
    if ts.len() == 0 {
        0
    } else {
        ts[0].selfsize + sum_selfsize(ts.drop_first())
    }
}

/// Sum of the data sizes of table entries.
pub open spec fn sum_data_size(ts: Seq<TableView>) -> int
    decreases ts.len(),
{
    if ts.len() == 0 {
        0
    } else {
        ts[0].data_size + sum_data_size(ts.drop_first())
    }
}

/// A table entry with another data position.
pub open spec fn with_data_point(t: TableView, dp: u64) -> TableView {
    TableView { data_point: dp, ..t }
}

/// The entries with their data positions: the first data block starts at
/// `start`, each next one right after the previous.
pub open spec fn placed_tables(ts: Seq<TableView>, start: int) -> Seq<TableView>
    decreases ts.len(),
{
    if ts.len() == 0 {
        seq![]
    } else {
        seq![with_data_point(ts[0], start as u64)] + placed_tables(
            ts.drop_first(),
            start + ts[0].data_size,
        )
    }
}

/// The entries with their data positions replaced by their indices, from `idx`.
pub open spec fn numbered_tables(ts: Seq<TableView>, idx: int) -> Seq<TableView>
    decreases ts.len(),
{
    if ts.len() == 0 {
        seq![]
    } else {
        seq![with_data_point(ts[0], idx as u64)] + numbered_tables(ts.drop_first(), idx + 1)
    }
}

/// The serialized entries, one after the other.
pub open spec fn tables_bytes(ts: Seq<TableView>) -> Seq<u8>
    decreases ts.len(),
{
    if ts.len() == 0 {
        seq![]
    } else {
        table_bytes(ts[0]) + tables_bytes(ts.drop_first())
    }
}

/// The data blocks, one after the other.
pub open spec fn blocks_bytes(ds: Seq<Seq<u8>>) -> Seq<u8>
    decreases ds.len(),
{
    if ds.len() == 0 {
        seq![]
    } else {
        ds[0] + blocks_bytes(ds.drop_first())
    }
}

/// The bytes of a data file with header `h`, entries `ts` and data blocks
/// `ds`: the header size is set to the header's size (as a `u32`), the table
/// total size to the sum of the entry sizes plus 4, and the entries point at
/// their data blocks, which follow the table in order.
pub open spec fn datafile_bytes(h: HeaderView, ts: Seq<TableView>, ds: Seq<Seq<u8>>) -> Seq<u8> {
    let hs = header_len(h) as u32;
    let total = sum_selfsize(ts) + 4;
    data_tag() + header_bytes(HeaderView { header_size: hs, ..h }) + le_bytes(total as nat, 4)
        + tables_bytes(placed_tables(ts, hs + total)) + blocks_bytes(ds)
}

/// Reading table entries at `pos` while the sizes read so far (`read_len`)
/// stay below `limit`; each entry's data position is replaced by its index.
pub open spec fn tables_parse(s: Seq<u8>, pos: int, read_len: int, limit: int, idx: int) -> Result<
    (Seq<TableView>, int),
    DataFileError,
>
    decreases s.len() - pos,
{
    if read_len >= limit {
        Ok((seq![], pos))
    } else {
        match table_parse(s, pos) {
            Err(e) => Err(e),
            Ok((t, end)) => {
                if read_len + t.selfsize > u32::MAX {
                    Err(DataFileError::SizeOverflow)
                } else if end <= pos {
                    Err(DataFileError::SizeUnderflow)
                } else {
                    match tables_parse(s, end, read_len + t.selfsize, limit, idx + 1) {
                        Err(e) => Err(e),
                        Ok((rest, e2)) => Ok((seq![with_data_point(t, idx as u64)] + rest, e2)),
                    }
                }
            },
        }
    }
}

/// Reading the data blocks of entries `ts[k..]` at `pos`, each `data_size` bytes long.
pub open spec fn blocks_parse(s: Seq<u8>, pos: int, ts: Seq<TableView>, k: int) -> Result<
    Seq<Seq<u8>>,
    DataFileError,
>
    decreases ts.len() - k,
{
    if k >= ts.len() || k < 0 {
        Ok(seq![])
    } else if pos + ts[k].data_size > s.len() {
        Err(DataFileError::UnexpectedEof)
    } else {
        match blocks_parse(s, pos + ts[k].data_size, ts, k + 1) {
            Err(e) => Err(e),
            Ok(rest) => Ok(seq![s.subrange(pos, pos + ts[k].data_size)] + rest),
        }
    }
}

/// Reading a data file: the tag, the header, the table total size, the
/// entries (while the sizes read stay below the total size minus 26), and the
/// data blocks.
pub open spec fn datafile_parse(s: Seq<u8>) -> Result<
    (HeaderView, Seq<TableView>, Seq<Seq<u8>>),
    DataFileError,
> {
    if s.len() < 22 {
        Err(DataFileError::UnexpectedEof)
    } else if s.subrange(0, 22) != data_tag() {
        Err(DataFileError::BadTag)
    } else {
        match header_parse(s, 22) {
            Err(e) => Err(e),
            Ok((h, p1)) => {
                if p1 + 4 > s.len() {
                    Err(DataFileError::UnexpectedEof)
                } else {
                    let total = le_value(s.subrange(p1, p1 + 4)) as u32;
                    if total < 4 || total - 4 < 22 {
                        Err(DataFileError::SizeUnderflow)
                    } else {
                        match tables_parse(s, p1 + 4, 0, total - 4 - 22, 0) {
                            Err(e) => Err(e),
                            Ok((ts, p2)) => match blocks_parse(s, p2, ts, 0) {
                                Err(e) => Err(e),
                                Ok(ds) => Ok((h, ts, ds)),
                            },
                        }
                    }
                }
            },
        }
    }
}

/// The views of table entries.
pub open spec fn table_views(ts: Seq<OneParamTable>) -> Seq<TableView> {
    ts.map_values(|t: OneParamTable| t@)
}

/// The contents of data blocks.
pub open spec fn block_views(ds: Seq<Vec<u8>>) -> Seq<Seq<u8>> {
    ds.map_values(|d: Vec<u8>| d@)
}

/// Sum of the size fields of the first `k` entries.
pub open spec fn prefix_selfsize(ts: Seq<TableView>, k: int) -> int {
    sum_selfsize(ts.take(k))
}

proof fn lemma_sums_concat(a: Seq<TableView>, b: Seq<TableView>)
    ensures
        sum_selfsize(a + b) == sum_selfsize(a) + sum_selfsize(b),
        sum_data_size(a + b) == sum_data_size(a) + sum_data_size(b),
    decreases a.len(),
{
    if a.len() == 0 {
        assert(a + b =~= b);
    } else {
        lemma_sums_concat(a.drop_first(), b);
        assert((a + b).drop_first() =~= a.drop_first() + b);
        assert((a + b)[0] == a[0]);
    }
}

proof fn lemma_tables_bytes_concat(a: Seq<TableView>, b: Seq<TableView>)
    ensures
        tables_bytes(a + b) == tables_bytes(a) + tables_bytes(b),
    decreases a.len(),
{
    if a.len() == 0 {
        assert(a + b =~= b);
        assert(tables_bytes(a) =~= Seq::<u8>::empty());
        assert(Seq::<u8>::empty() + tables_bytes(b) =~= tables_bytes(b));
    } else {
        lemma_tables_bytes_concat(a.drop_first(), b);
        assert((a + b).drop_first() =~= a.drop_first() + b);
        assert((a + b)[0] == a[0]);
        assert(tables_bytes(a + b) =~= tables_bytes(a) + tables_bytes(b));
    }
}

proof fn lemma_placed_concat(a: Seq<TableView>, b: Seq<TableView>, start: int)
    ensures
        placed_tables(a + b, start) == placed_tables(a, start) + placed_tables(
            b,
            start + sum_data_size(a),
        ),
    decreases a.len(),
{
    if a.len() == 0 {
        assert(a + b =~= b);
        assert(placed_tables(a, start) =~= Seq::<TableView>::empty());
        assert(Seq::<TableView>::empty() + placed_tables(b, start) =~= placed_tables(b, start));
    } else {
        lemma_placed_concat(a.drop_first(), b, start + a[0].data_size);
        assert((a + b).drop_first() =~= a.drop_first() + b);
        assert((a + b)[0] == a[0]);
        assert(placed_tables(a + b, start) =~= placed_tables(a, start) + placed_tables(
            b,
            start + sum_data_size(a),
        ));
    }
}

proof fn lemma_blocks_concat(a: Seq<Seq<u8>>, b: Seq<Seq<u8>>)
    ensures
        blocks_bytes(a + b) == blocks_bytes(a) + blocks_bytes(b),
    decreases a.len(),
{
    if a.len() == 0 {
        assert(a + b =~= b);
        assert(blocks_bytes(a) =~= Seq::<u8>::empty());
        assert(Seq::<u8>::empty() + blocks_bytes(b) =~= blocks_bytes(b));
    } else {
        lemma_blocks_concat(a.drop_first(), b);
        assert((a + b).drop_first() =~= a.drop_first() + b);
        assert((a + b)[0] == a[0]);
        assert(blocks_bytes(a + b) =~= blocks_bytes(a) + blocks_bytes(b));
    }
}

proof fn lemma_single_table(t: TableView, start: int)
    ensures
        sum_selfsize(seq![t]) == t.selfsize,
        sum_data_size(seq![t]) == t.data_size,
        tables_bytes(placed_tables(seq![t], start)) == table_bytes(with_data_point(t, start as u64)),
{
    let s1 = seq![t];
    assert(s1.len() == 1);
    assert(s1[0] == t);
    assert(s1.drop_first() =~= Seq::<TableView>::empty());
    assert(sum_selfsize(Seq::<TableView>::empty()) == 0);
    assert(sum_data_size(Seq::<TableView>::empty()) == 0);
    assert(placed_tables(Seq::<TableView>::empty(), start + t.data_size) =~= Seq::<TableView>::empty());
    assert(placed_tables(seq![t], start) =~= seq![with_data_point(t, start as u64)]);
    assert(tables_bytes(Seq::<TableView>::empty()) =~= Seq::<u8>::empty());
    assert(seq![with_data_point(t, start as u64)][0] == with_data_point(t, start as u64));
    assert(seq![with_data_point(t, start as u64)].drop_first() =~= Seq::<TableView>::empty());
    assert(table_bytes(with_data_point(t, start as u64)) + Seq::<u8>::empty() =~= table_bytes(
        with_data_point(t, start as u64),
    ));
}

proof fn lemma_prefix_sums_le(ts: Seq<TableView>, k: int)
    requires
        0 <= k <= ts.len(),
    ensures
        0 <= sum_selfsize(ts.take(k)) <= sum_selfsize(ts),
        0 <= sum_data_size(ts.take(k)) <= sum_data_size(ts),
{
    assert(ts =~= ts.take(k) + ts.skip(k));
    lemma_sums_concat(ts.take(k), ts.skip(k));
    lemma_sums_nonneg(ts.take(k));
    lemma_sums_nonneg(ts.skip(k));
}

proof fn lemma_sums_nonneg(ts: Seq<TableView>)
    ensures
        0 <= sum_selfsize(ts),
        0 <= sum_data_size(ts),
    decreases ts.len(),
{
    if ts.len() > 0 {
        lemma_sums_nonneg(ts.drop_first());
    }
}

/// The bytes of a data file with header `header`, entries `tables` and data
/// blocks `data` (see [`datafile_bytes`]).
pub fn encode_datafile(header: &PrmHeader, tables: &Vec<OneParamTable>, data: &Vec<Vec<u8>>) -> (bytes: Vec<u8>)
    requires
        header_len(header@) <= usize::MAX,
        sum_selfsize(table_views(tables@)) + 4 <= u32::MAX,
        (#[verifier::truncate] (header_len(header@) as u32)) + sum_selfsize(table_views(tables@))
            + 4 <= u32::MAX,
        (#[verifier::truncate] (header_len(header@) as u32)) + sum_selfsize(table_views(tables@))
            + 4 + sum_data_size(table_views(tables@)) <= u64::MAX,
    ensures
        bytes@ == datafile_bytes(header@, table_views(tables@), block_views(data@)),
{
    let ghost ts = table_views(tables@);
    let ghost ds = block_views(data@);
    let mut out = header_tag();
    let hs: u32 = #[verifier::truncate] (header.length() as u32);
    let h2 = PrmHeader { header_size: hs, meta: header.meta.clone(), description: header.description.clone() };
    h2.serialize(&mut out);
    let n = tables.len();
    let mut total: u32 = 0;
    let mut i: usize = 0;
    while i < n
        invariant
            n == tables@.len(),
            ts == table_views(tables@),
            i <= n,
            total == sum_selfsize(ts.take(i as int)),
            sum_selfsize(ts) + 4 <= u32::MAX,
        decreases n - i,
    {
        proof {
            assert(ts.take(i + 1) =~= ts.take(i as int) + seq![ts[i as int]]);
            lemma_sums_concat(ts.take(i as int), seq![ts[i as int]]);
            lemma_single_table(ts[i as int], 0);
            lemma_prefix_sums_le(ts, (i + 1) as int);
            assert(ts[i as int] == tables@[i as int]@);
        }
        total = total + tables[i].selfsize as u32;
        i = i + 1;
    }
    assert(ts.take(n as int) =~= ts);
    total = total + 4;
    push_le(&mut out, total as u64, 4);
    let mut data_point: u64 = (hs + total) as u64;
    let ghost start = hs + total;
    let ghost prefix = out@;
    let mut i: usize = 0;
    while i < n
        invariant
            n == tables@.len(),
            ts == table_views(tables@),
            i <= n,
            data_point == start + sum_data_size(ts.take(i as int)),
            start + sum_data_size(ts) <= u64::MAX,
            out@ == prefix + tables_bytes(placed_tables(ts.take(i as int), start)),
        decreases n - i,
    {
        let t = &tables[i];
        proof {
            assert(ts.take(i + 1) =~= ts.take(i as int) + seq![ts[i as int]]);
            lemma_sums_concat(ts.take(i as int), seq![ts[i as int]]);
            lemma_placed_concat(ts.take(i as int), seq![ts[i as int]], start);
            lemma_tables_bytes_concat(
                placed_tables(ts.take(i as int), start),
                placed_tables(seq![ts[i as int]], start + sum_data_size(ts.take(i as int))),
            );
            lemma_single_table(ts[i as int], start + sum_data_size(ts.take(i as int)));
            lemma_prefix_sums_le(ts, (i + 1) as int);
            assert(ts[i as int] == t@);
        }
        let placed = OneParamTable {
            selfsize: t.selfsize,
            data_point,
            data_size: t.data_size,
            val_size: t.val_size,
            rate: t.rate,
            start_frameid: t.start_frameid,
            name: t.name.clone(),
            compress: t.compress.clone(),
            data_type: t.data_type.clone(),
            info: t.info.clone(),
        };
        assert(placed@ == with_data_point(ts[i as int], data_point));
        placed.serialize(&mut out);
        data_point = data_point + t.data_size as u64;
        proof {
            assert(out@ =~= prefix + tables_bytes(placed_tables(ts.take(i + 1), start)));
        }
        i = i + 1;
    }
    assert(ts.take(n as int) =~= ts);
    let ghost prefix2 = out@;
    let m = data.len();
    let mut j: usize = 0;
    while j < m
        invariant
            m == data@.len(),
            ds == block_views(data@),
            j <= m,
            out@ == prefix2 + blocks_bytes(ds.take(j as int)),
        decreases m - j,
    {
        proof {
            assert(ds.take(j + 1) =~= ds.take(j as int) + seq![ds[j as int]]);
            lemma_blocks_concat(ds.take(j as int), seq![ds[j as int]]);
            assert(seq![ds[j as int]].drop_first() =~= Seq::<Seq<u8>>::empty());
            assert(seq![ds[j as int]][0] == ds[j as int]);
            assert(blocks_bytes(Seq::<Seq<u8>>::empty()) =~= Seq::<u8>::empty());
            assert(blocks_bytes(seq![ds[j as int]]) =~= ds[j as int]);
            assert(ds[j as int] == data@[j as int]@);
        }
        push_bytes(&mut out, data[j].as_slice());
        proof {
            assert(out@ =~= prefix2 + blocks_bytes(ds.take(j + 1)));
        }
        j = j + 1;
    }
    assert(ds.take(m as int) =~= ds);
    out
}

/// `sofar` followed by what a table read gives.
pub open spec fn tables_after(
    sofar: Seq<TableView>,
    r: Result<(Seq<TableView>, int), DataFileError>,
) -> Result<(Seq<TableView>, int), DataFileError> {
    match r {
        Ok((rest, e)) => Ok((sofar + rest, e)),
        Err(e) => Err(e),
    }
}

/// `sofar` followed by what a block read gives.
pub open spec fn blocks_after(sofar: Seq<Seq<u8>>, r: Result<Seq<Seq<u8>>, DataFileError>) -> Result<
    Seq<Seq<u8>>,
    DataFileError,
> {
    match r {
        Ok(rest) => Ok(sofar + rest),
        Err(e) => Err(e),
    }
}

/// What reading a data file gives once the header is read and the table
/// entries are read with result `tr`.
pub open spec fn finish_parse(
    s: Seq<u8>,
    h: HeaderView,
    tr: Result<(Seq<TableView>, int), DataFileError>,
) -> Result<(HeaderView, Seq<TableView>, Seq<Seq<u8>>), DataFileError> {
    match tr {
        Err(e) => Err(e),
        Ok((ts, p2)) => match blocks_parse(s, p2, ts, 0) {
            Err(e) => Err(e),
            Ok(ds) => Ok((h, ts, ds)),
        },
    }
}

proof fn lemma_tables_step(
    s: Seq<u8>,
    pos: int,
    read_len: int,
    limit: int,
    idx: int,
    t: TableView,
    end: int,
    sofar: Seq<TableView>,
)
    requires
        read_len < limit,
        table_parse(s, pos) == Ok::<(TableView, int), DataFileError>((t, end)),
        read_len + t.selfsize <= u32::MAX,
        end > pos,
    ensures
        tables_after(sofar, tables_parse(s, pos, read_len, limit, idx)) == tables_after(
            sofar.push(with_data_point(t, idx as u64)),
            tables_parse(s, end, read_len + t.selfsize, limit, idx + 1),
        ),
{
    match tables_parse(s, end, read_len + t.selfsize, limit, idx + 1) {
        Ok((rest, e2)) => {
            assert(sofar + (seq![with_data_point(t, idx as u64)] + rest) =~= sofar.push(
                with_data_point(t, idx as u64),
            ) + rest);
        },
        Err(_) => {},
    }
}

proof fn lemma_blocks_step(s: Seq<u8>, pos: int, ts: Seq<TableView>, k: int, sofar: Seq<Seq<u8>>)
    requires
        0 <= k < ts.len(),
        pos + ts[k].data_size <= s.len(),
    ensures
        blocks_after(sofar, blocks_parse(s, pos, ts, k)) == blocks_after(
            sofar.push(s.subrange(pos, pos + ts[k].data_size)),
            blocks_parse(s, pos + ts[k].data_size, ts, k + 1),
        ),
{
    match blocks_parse(s, pos + ts[k].data_size, ts, k + 1) {
        Ok(rest) => {
            assert(sofar + (seq![s.subrange(pos, pos + ts[k].data_size)] + rest) =~= sofar.push(
                s.subrange(pos, pos + ts[k].data_size),
            ) + rest);
        },
        Err(_) => {},
    }
}

/// Reads a data file (see [`datafile_parse`]): its header, its table entries
/// (each with its data position replaced by its index) and its data blocks.
pub fn parse_datafile(bytes: &[u8]) -> (r: Result<
    (PrmHeader, Vec<OneParamTable>, Vec<Vec<u8>>),
    DataFileError,
>)
    ensures
        match r {
            Ok((h, ts, ds)) => datafile_parse(bytes@) == Ok::<
                (HeaderView, Seq<TableView>, Seq<Seq<u8>>),
                DataFileError,
            >((h@, table_views(ts@), block_views(ds@))),
            Err(e) => datafile_parse(bytes@) == Err::<
                (HeaderView, Seq<TableView>, Seq<Seq<u8>>),
                DataFileError,
            >(e),
        },
{
    let n = bytes.len();
    if n < 22 {
        return Err(DataFileError::UnexpectedEof);
    }
    let tag = header_tag();
    let mut k: usize = 0;
    while k < 22
        invariant
            n == bytes@.len(),
            n >= 22,
            tag@ == data_tag(),
            k <= 22,
            forall|j: int| 0 <= j < k ==> bytes@[j] == tag@[j],
        decreases 22 - k,
    {
        if bytes[k] != tag[k] {
            proof {
                assert(bytes@.subrange(0, 22)[k as int] != data_tag()[k as int]);
            }
            return Err(DataFileError::BadTag);
        }
        k = k + 1;
    }
    assert(bytes@.subrange(0, 22) =~= data_tag());
    let (header, p1) = match PrmHeader::deserialize(bytes, 22) {
        Ok(x) => x,
        Err(e) => {
            return Err(e);
        },
    };
    if n - p1 < 4 {
        return Err(DataFileError::UnexpectedEof);
    }
    proof {
        lemma_le_value_bound(bytes@.subrange(p1 as int, p1 + 4));
        reveal_with_fuel(pow256, 5);
    }
    let total = read_le(bytes, p1, 4) as u32;
    if total < 4 || total - 4 < 22 {
        return Err(DataFileError::SizeUnderflow);
    }
    let limit: u32 = total - 4 - 22;
    let ghost p0 = p1 + 4;
    let mut pos: usize = p1 + 4;
    let mut read_len: u32 = 0;
    let mut idx: u64 = 0;
    let mut tables: Vec<OneParamTable> = Vec::new();
    assert(datafile_parse(bytes@) == finish_parse(bytes@, header@, tables_parse(bytes@, p0, 0, limit as int, 0)));
    assert(tables_after(Seq::<TableView>::empty(), tables_parse(bytes@, p0, 0, limit as int, 0)) == tables_parse(bytes@, p0, 0, limit as int, 0)) by {
        match tables_parse(bytes@, p0, 0, limit as int, 0) {
            Ok((rest, e)) => { assert(Seq::<TableView>::empty() + rest =~= rest); },
            Err(_) => {},
        }
    }
    assert(table_views(tables@) =~= Seq::<TableView>::empty());
    while read_len < limit
        invariant_except_break
            n == bytes@.len(),
            pos <= n,
            idx == tables@.len(),
            idx <= pos,
            datafile_parse(bytes@) == finish_parse(bytes@, header@, tables_parse(bytes@, p0, 0, limit as int, 0)),
            tables_parse(bytes@, p0, 0, limit as int, 0) == tables_after(
                table_views(tables@),
                tables_parse(bytes@, pos as int, read_len as int, limit as int, idx as int),
            ),
        ensures
            n == bytes@.len(),
            pos <= n,
            datafile_parse(bytes@) == finish_parse(bytes@, header@, tables_parse(bytes@, p0, 0, limit as int, 0)),
            tables_parse(bytes@, p0, 0, limit as int, 0) == Ok::<(Seq<TableView>, int), DataFileError>(
                (table_views(tables@), pos as int),
            ),
        decreases n - pos,
    {
        let (mut t, end) = match OneParamTable::deserialize(bytes, pos) {
            Ok(x) => x,
            Err(e) => {
                return Err(e);
            },
        };
        if read_len as u64 + t.selfsize as u64 > 0xffff_ffff {
            return Err(DataFileError::SizeOverflow);
        }
        if end <= pos {
            return Err(DataFileError::SizeUnderflow);
        }
        let ghost tv = t@;
        proof {
            lemma_tables_step(bytes@, pos as int, read_len as int, limit as int, idx as int, tv, end as int, table_views(tables@));
        }
        t.data_point = idx;
        read_len = read_len + t.selfsize as u32;
        let ghost before = table_views(tables@);
        tables.push(t);
        proof {
            assert(table_views(tables@) =~= before.push(with_data_point(tv, idx as u64)));
        }
        idx = idx + 1;
        pos = end;
    }
    proof {
        assert(table_views(tables@) + Seq::<TableView>::empty() =~= table_views(tables@));
    }
    let ghost p2 = pos as int;
    let ghost ts = table_views(tables@);
    let m = tables.len();
    let mut data: Vec<Vec<u8>> = Vec::new();
    let mut j: usize = 0;
    assert(block_views(data@) =~= Seq::<Seq<u8>>::empty());
    assert(blocks_after(Seq::<Seq<u8>>::empty(), blocks_parse(bytes@, p2, ts, 0)) == blocks_parse(bytes@, p2, ts, 0)) by {
        match blocks_parse(bytes@, p2, ts, 0) {
            Ok(rest) => { assert(Seq::<Seq<u8>>::empty() + rest =~= rest); },
            Err(_) => {},
        }
    }
    while j < m
        invariant
            n == bytes@.len(),
            m == tables@.len(),
            ts == table_views(tables@),
            j <= m,
            j == data@.len(),
            pos <= n,
            datafile_parse(bytes@) == finish_parse(bytes@, header@, Ok::<(Seq<TableView>, int), DataFileError>((ts, p2))),
            blocks_parse(bytes@, p2, ts, 0) == blocks_after(
                block_views(data@),
                blocks_parse(bytes@, pos as int, ts, j as int),
            ),
        decreases m - j,
    {
        let size = tables[j].data_size as usize;
        assert(ts[j as int].data_size == size);
        if n - pos < size {
            return Err(DataFileError::UnexpectedEof);
        }
        let block = vstd::slice::slice_to_vec(vstd::slice::slice_subrange(bytes, pos, pos + size));
        let ghost before = block_views(data@);
        proof {
            lemma_blocks_step(bytes@, pos as int, ts, j as int, before);
        }
        data.push(block);
        proof {
            assert(block_views(data@) =~= before.push(bytes@.subrange(pos as int, pos + size)));
        }
        pos = pos + size;
        j = j + 1;
    }
    proof {
        assert(block_views(data@) + Seq::<Seq<u8>>::empty() =~= block_views(data@));
    }
    Ok((header, tables, data))
}

/// The serialized bytes of a table entry are as many as [`table_len`] says:
/// 22 bytes of numbers and the four texts, each with its zero byte.
pub proof fn lemma_table_bytes_len(t: TableView)
    ensures
        table_bytes(t).len() == table_len(t),
{
    lemma_le_len(t.selfsize as nat, 2);
    lemma_le_len(t.data_point as nat, 8);
    lemma_le_len(t.data_size as nat, 4);
    lemma_le_len(t.val_size as nat, 2);
    lemma_le_len((t.rate as u16) as nat, 2);
    lemma_le_len(t.start_frameid as nat, 4);
}

/// Whether every entry is well formed (see [`table_wf`]).
pub open spec fn tables_wf(ts: Seq<TableView>) -> bool {
    forall|i: int| 0 <= i < ts.len() ==> table_wf(#[trigger] ts[i])
}

proof fn lemma_tables_wf_rest(ts: Seq<TableView>)
    requires
        tables_wf(ts),
        ts.len() >= 1,
    ensures
        tables_wf(ts.drop_first()),
        table_wf(ts[0]),
        ts[0].selfsize >= 26,
        sum_selfsize(ts) >= 26,
{
    assert(table_wf(ts[0]));
    assert forall|i: int| 0 <= i < ts.drop_first().len() implies table_wf(#[trigger] ts.drop_first()[i]) by {
        assert(ts.drop_first()[i] == ts[i + 1]);
        assert(table_wf(ts[i + 1]));
    }
    lemma_sums_nonneg(ts.drop_first());
}

#[verifier::spinoff_prover]
#[verifier::rlimit(40)]
proof fn lemma_tables_roundtrip(pre: Seq<u8>, ts: Seq<TableView>, post: Seq<u8>, r: int, idx: int)
    requires
        tables_wf(ts),
        ts.len() >= 1,
        r >= 0,
        r + sum_selfsize(ts) <= u32::MAX,
    ensures
        tables_parse(pre + tables_bytes(ts) + post, pre.len() as int, r, r + sum_selfsize(ts) - 22, idx)
            == Ok::<(Seq<TableView>, int), DataFileError>(
            (numbered_tables(ts, idx), (pre.len() + tables_bytes(ts).len()) as int),
        ),
    decreases ts.len(),
{
    let t = ts[0];
    let rest = ts.drop_first();
    lemma_tables_wf_rest(ts);
    let s = pre + tables_bytes(ts) + post;
    let p = pre.len() as int;
    let limit = r + sum_selfsize(ts) - 22;
    assert(tables_bytes(ts) == table_bytes(t) + tables_bytes(rest));
    assert(s =~= pre + table_bytes(t) + (tables_bytes(rest) + post));
    lemma_table_roundtrip(pre, t, tables_bytes(rest) + post);
    lemma_table_bytes_len(t);
    let end = p + table_len(t);
    assert(table_parse(s, p) == Ok::<(TableView, int), DataFileError>((t, end)));
    if rest.len() == 0 {
        assert(sum_selfsize(rest) == 0);
        assert(tables_parse(s, end, r + t.selfsize, limit, idx + 1) == Ok::<(Seq<TableView>, int), DataFileError>((seq![], end)));
        assert(numbered_tables(rest, idx + 1) =~= Seq::<TableView>::empty());
        assert(numbered_tables(ts, idx) =~= seq![with_data_point(t, idx as u64)]);
        assert(tables_bytes(rest) =~= Seq::<u8>::empty());
        assert(seq![with_data_point(t, idx as u64)] + Seq::<TableView>::empty() =~= seq![with_data_point(t, idx as u64)]);
    } else {
        lemma_sums_nonneg(rest);
        lemma_tables_wf_rest(rest);
        let pre2 = pre + table_bytes(t);
        assert(s =~= pre2 + tables_bytes(rest) + post);
        lemma_tables_roundtrip(pre2, rest, post, r + t.selfsize, idx + 1);
        assert(r + t.selfsize + sum_selfsize(rest) - 22 == limit);
        assert(numbered_tables(ts, idx) == seq![with_data_point(t, idx as u64)] + numbered_tables(rest, idx + 1));
    }
}

proof fn lemma_numbered_placed(ts: Seq<TableView>, start: int, idx: int)
    ensures
        numbered_tables(placed_tables(ts, start), idx) == numbered_tables(ts, idx),
        sum_selfsize(placed_tables(ts, start)) == sum_selfsize(ts),
        tables_wf(ts) ==> tables_wf(placed_tables(ts, start)),
        placed_tables(ts, start).len() == ts.len(),
        forall|i: int| 0 <= i < ts.len() ==> (#[trigger] placed_tables(ts, start)[i]).data_size == ts[i].data_size,
    decreases ts.len(),
{
    if ts.len() > 0 {
        lemma_numbered_placed(ts.drop_first(), start + ts[0].data_size, idx + 1);
        let pt = placed_tables(ts, start);
        assert(pt.drop_first() == placed_tables(ts.drop_first(), start + ts[0].data_size));
        assert(numbered_tables(pt, idx) =~= numbered_tables(ts, idx));
        assert forall|i: int| 0 <= i < ts.len() implies (#[trigger] pt[i]).data_size == ts[i].data_size by {
            if i > 0 {
                assert(pt[i] == pt.drop_first()[i - 1]);
                assert(ts[i] == ts.drop_first()[i - 1]);
            }
        }
        if tables_wf(ts) {
            lemma_tables_wf_rest(ts);
            assert forall|i: int| 0 <= i < pt.len() implies table_wf(#[trigger] pt[i]) by {
                if i > 0 {
                    assert(pt[i] == pt.drop_first()[i - 1]);
                } else {
                    assert(table_wf(ts[0]));
                }
            }
        }
    } else {
        assert(placed_tables(ts, start) =~= Seq::<TableView>::empty());
    }
}

proof fn lemma_numbered_sizes(ts: Seq<TableView>, idx: int)
    ensures
        numbered_tables(ts, idx).len() == ts.len(),
        forall|i: int| 0 <= i < ts.len() ==> (#[trigger] numbered_tables(ts, idx)[i]).data_size == ts[i].data_size,
    decreases ts.len(),
{
    if ts.len() > 0 {
        lemma_numbered_sizes(ts.drop_first(), idx + 1);
        let nt = numbered_tables(ts, idx);
        assert(nt.drop_first() == numbered_tables(ts.drop_first(), idx + 1));
        assert forall|i: int| 0 <= i < ts.len() implies (#[trigger] nt[i]).data_size == ts[i].data_size by {
            if i > 0 {
                assert(nt[i] == nt.drop_first()[i - 1]);
                assert(ts[i] == ts.drop_first()[i - 1]);
            }
        }
    }
}

proof fn lemma_blocks_roundtrip(pre: Seq<u8>, ts: Seq<TableView>, ds: Seq<Seq<u8>>, k: int)
    requires
        ts.len() == ds.len(),
        0 <= k <= ds.len(),
        forall|i: int| 0 <= i < ds.len() ==> (#[trigger] ds[i]).len() == ts[i].data_size,
    ensures
        blocks_parse(pre + blocks_bytes(ds.skip(k)), pre.len() as int, ts, k) == Ok::<Seq<Seq<u8>>, DataFileError>(ds.skip(k)),
    decreases ds.len() - k,
{
    let s = pre + blocks_bytes(ds.skip(k));
    if k < ds.len() {
        let d = ds[k];
        assert(ds.skip(k)[0] == d);
        assert(ds.skip(k).drop_first() =~= ds.skip(k + 1));
        assert(blocks_bytes(ds.skip(k)) == d + blocks_bytes(ds.skip(k + 1)));
        assert(s =~= (pre + d) + blocks_bytes(ds.skip(k + 1)));
        lemma_blocks_roundtrip(pre + d, ts, ds, k + 1);
        assert(s.subrange(pre.len() as int, (pre.len() + d.len()) as int) =~= d);
        assert(seq![d] + ds.skip(k + 1) =~= ds.skip(k));
    } else {
        assert(ds.skip(k) =~= Seq::<Seq<u8>>::empty());
    }
}

/// Reading back a data file gives what was written: the header with its size
/// field set to its size, the entries with their data positions replaced by
/// their indices, and the data blocks.
#[verifier::rlimit(60)]
pub proof fn lemma_datafile_roundtrip(h: HeaderView, ts: Seq<TableView>, ds: Seq<Seq<u8>>)
    requires
        header_wf(h),
        header_len(h) <= u32::MAX,
        ts.len() >= 1,
        tables_wf(ts),
        sum_selfsize(ts) + 4 <= u32::MAX,
        ds.len() == ts.len(),
        forall|i: int| 0 <= i < ds.len() ==> (#[trigger] ds[i]).len() == ts[i].data_size,
    ensures
        datafile_parse(datafile_bytes(h, ts, ds)) == Ok::<
            (HeaderView, Seq<TableView>, Seq<Seq<u8>>),
            DataFileError,
        >((HeaderView { header_size: header_len(h) as u32, ..h }, numbered_tables(ts, 0), ds)),
{
    let hs = header_len(h) as u32;
    let h2 = HeaderView { header_size: hs, ..h };
    let total = sum_selfsize(ts) + 4;
    let start = hs + total;
    let pt = placed_tables(ts, start);
    let s = datafile_bytes(h, ts, ds);
    lemma_numbered_placed(ts, start, 0);
    lemma_tables_wf_rest(ts);
    lemma_le_len(total as nat, 4);
    assert(data_tag().len() == 22);
    let hb = header_bytes(h2);
    let rest1 = le_bytes(total as nat, 4) + tables_bytes(pt) + blocks_bytes(ds);
    assert(s =~= data_tag() + hb + rest1);
    assert(s.subrange(0, 22) =~= data_tag());
    lemma_header_roundtrip(data_tag(), h2, rest1);
    let p1 = header_len(h);
    assert(header_len(h2) == header_len(h));
    let hb_len = hb.len();
    assert(hb_len == header_len(h) - 22) by {
        lemma_le_len(hs as nat, 4);
    }
    reveal_with_fuel(pow256, 5);
    lemma_le_roundtrip(total as nat, 4);
    assert(s.subrange(p1, p1 + 4) =~= le_bytes(total as nat, 4));
    let pre = data_tag() + hb + le_bytes(total as nat, 4);
    assert(s =~= pre + tables_bytes(pt) + blocks_bytes(ds));
    assert(pre.len() == p1 + 4);
    lemma_tables_roundtrip(pre, pt, blocks_bytes(ds), 0, 0);
    let p2 = pre.len() + tables_bytes(pt).len();
    let nts = numbered_tables(ts, 0);
    lemma_numbered_sizes(ts, 0);
    assert(ds.skip(0) =~= ds);
    let pre2 = pre + tables_bytes(pt);
    assert(s =~= pre2 + blocks_bytes(ds.skip(0)));
    lemma_blocks_roundtrip(pre2, nts, ds, 0);
}

proof fn lemma_same_placed(ts1: Seq<TableView>, ts2: Seq<TableView>, start: int)
    requires
        ts1.len() == ts2.len(),
        forall|i: int| 0 <= i < ts1.len() ==> #[trigger] with_data_point(ts1[i], 0) == with_data_point(ts2[i], 0),
    ensures
        placed_tables(ts1, start) == placed_tables(ts2, start),
        sum_selfsize(ts1) == sum_selfsize(ts2),
    decreases ts1.len(),
{
    if ts1.len() > 0 {
        assert(with_data_point(ts1[0], 0) == with_data_point(ts2[0], 0));
        assert(ts1[0].selfsize == ts2[0].selfsize && ts1[0].data_size == ts2[0].data_size);
        assert(with_data_point(ts1[0], start as u64) == with_data_point(ts2[0], start as u64));
        assert forall|i: int| 0 <= i < ts1.drop_first().len() implies #[trigger] with_data_point(
            ts1.drop_first()[i],
            0,
        ) == with_data_point(ts2.drop_first()[i], 0) by {
            assert(ts1.drop_first()[i] == ts1[i + 1]);
            assert(ts2.drop_first()[i] == ts2[i + 1]);
            assert(with_data_point(ts1[i + 1], 0) == with_data_point(ts2[i + 1], 0));
        }
        lemma_same_placed(ts1.drop_first(), ts2.drop_first(), start + ts1[0].data_size);
    }
}

/// The writer ignores the header's size field and the entries' data
/// positions and computes them anew: headers that differ only in their size
/// field, with entries that differ only in their data positions, give the
/// same file bytes.
pub proof fn lemma_datafile_ignores_positions(
    h1: HeaderView,
    h2: HeaderView,
    ts1: Seq<TableView>,
    ts2: Seq<TableView>,
    ds: Seq<Seq<u8>>,
)
    requires
        h1.meta == h2.meta,
        h1.description == h2.description,
        ts1.len() == ts2.len(),
        forall|i: int| 0 <= i < ts1.len() ==> #[trigger] with_data_point(ts1[i], 0) == with_data_point(ts2[i], 0),
    ensures
        datafile_bytes(h1, ts1, ds) == datafile_bytes(h2, ts2, ds),
{
    lemma_same_placed(ts1, ts2, 0);
    let hs = header_len(h1) as u32;
    assert(header_len(h1) == header_len(h2));
    assert(HeaderView { header_size: hs, ..h1 } == HeaderView { header_size: hs, ..h2 });
    let total = sum_selfsize(ts1) + 4;
    lemma_same_placed(ts1, ts2, hs + total);
}

/// Layout of a serialized table entry: `selfsize` at bytes 0..2,
/// `data_point` at 2..10, `data_size` at 10..14, `val_size` at 14..16, `rate`
/// (its two's-complement bits) at 16..18 and `start_frameid` at 18..22, each
/// little-endian (least significant byte first); the texts follow from byte 22.
pub proof fn law_table_layout(t: TableView)
    ensures
        table_bytes(t).len() == table_len(t),
        table_len(t) >= 26,
        le_value(table_bytes(t).subrange(0, 2)) == t.selfsize,
        le_value(table_bytes(t).subrange(2, 10)) == t.data_point,
        le_value(table_bytes(t).subrange(10, 14)) == t.data_size,
        le_value(table_bytes(t).subrange(14, 16)) == t.val_size,
        le_value(table_bytes(t).subrange(16, 18)) == t.rate as u16,
        le_value(table_bytes(t).subrange(18, 22)) == t.start_frameid,
        table_bytes(t)[0] == (t.selfsize % 256) as u8,
        table_bytes(t)[1] == (t.selfsize / 256) as u8,
        table_bytes(t)[14] == (t.val_size % 256) as u8,
        table_bytes(t)[15] == (t.val_size / 256) as u8,
        table_bytes(t)[16] == ((t.rate as u16) % 256) as u8,
        table_bytes(t)[17] == ((t.rate as u16) / 256) as u8,
        table_bytes(t).subrange(22, table_len(t)) == text_field(t.name) + text_field(t.compress)
            + text_field(t.data_type) + text_field(t.info),
{
    reveal_with_fuel(pow256, 9);
    reveal_with_fuel(le_bytes, 3);
    lemma_table_bytes_len(t);
    lemma_le_roundtrip(t.selfsize as nat, 2);
    lemma_le_roundtrip(t.data_point as nat, 8);
    lemma_le_roundtrip(t.data_size as nat, 4);
    lemma_le_roundtrip(t.val_size as nat, 2);
    lemma_le_roundtrip((t.rate as u16) as nat, 2);
    lemma_le_roundtrip(t.start_frameid as nat, 4);
    let b = table_bytes(t);
    assert(b.subrange(0, 2) =~= le_bytes(t.selfsize as nat, 2));
    assert(b.subrange(2, 10) =~= le_bytes(t.data_point as nat, 8));
    assert(b.subrange(10, 14) =~= le_bytes(t.data_size as nat, 4));
    assert(b.subrange(14, 16) =~= le_bytes(t.val_size as nat, 2));
    assert(b.subrange(16, 18) =~= le_bytes((t.rate as u16) as nat, 2));
    assert(b.subrange(18, 22) =~= le_bytes(t.start_frameid as nat, 4));
    assert(b.subrange(22, table_len(t)) =~= text_field(t.name) + text_field(t.compress)
        + text_field(t.data_type) + text_field(t.info));
    assert(b[0] == b.subrange(0, 2)[0] && b[1] == b.subrange(0, 2)[1]);
    assert(b[14] == b.subrange(14, 16)[0] && b[15] == b.subrange(14, 16)[1]);
    assert(b[16] == b.subrange(16, 18)[0] && b[17] == b.subrange(16, 18)[1]);
}

/// Reading a table entry takes each number from its fixed offset, least
/// significant byte first: `selfsize` from bytes 0..2, `data_point` 2..10,
/// `data_size` 10..14, `val_size` 14..16, `rate` 16..18 (as two's complement)
/// and `start_frameid` 18..22 after `pos`; the entry ends `selfsize` bytes
/// after `pos`.
pub proof fn law_table_read_offsets(s: Seq<u8>, pos: int)
    requires
        table_parse(s, pos) is Ok,
    ensures
        ({
            let (t, end) = table_parse(s, pos)->Ok_0;
            &&& 0 <= pos && pos + 22 <= end <= s.len()
            &&& end == pos + t.selfsize
            &&& t.selfsize == s[pos] + 256 * s[pos + 1]
            &&& t.data_point == le_value(s.subrange(pos + 2, pos + 10))
            &&& t.data_size == le_value(s.subrange(pos + 10, pos + 14))
            &&& t.val_size == s[pos + 14] + 256 * s[pos + 15]
            &&& t.rate as u16 == s[pos + 16] + 256 * s[pos + 17]
            &&& t.start_frameid == le_value(s.subrange(pos + 18, pos + 22))
        }),
{
    let (t, end) = table_parse(s, pos)->Ok_0;
    lemma_two_bytes(s, pos);
    lemma_two_bytes(s, pos + 14);
    lemma_two_bytes(s, pos + 16);
    reveal_with_fuel(pow256, 9);
    lemma_le_value_bound(s.subrange(pos + 2, pos + 10));
    lemma_le_value_bound(s.subrange(pos + 10, pos + 14));
    lemma_le_value_bound(s.subrange(pos + 18, pos + 22));
    let x: u16 = (s[pos + 16] + 256 * s[pos + 17]) as u16;
    assert((x as i16) as u16 == x) by (bit_vector);
}

/// Two bytes read least significant first.
proof fn lemma_two_bytes(s: Seq<u8>, p: int)
    requires
        0 <= p && p + 2 <= s.len(),
    ensures
        le_value(s.subrange(p, p + 2)) == s[p] + 256 * s[p + 1],
        s[p] + 256 * s[p + 1] < 0x10000,
{
    reveal_with_fuel(le_value, 3);
    let a = s.subrange(p, p + 2);
    assert(a.drop_first().drop_first() =~= Seq::<u8>::empty());
    assert(a[0] == s[p] && a.drop_first()[0] == s[p + 1]);
}

} // verus!
