//! A decoded data file held in memory: its header, table entries and
//! compressed data blocks, with the operations that scripts apply to it
//! (read, replace, add and remove parameters).

use crate::bytes::{le_bytes, le_value, lemma_le_len, lemma_le_roundtrip, pow256, push_bytes, push_le, read_le, text_bytes};
use crate::compress::{bzip2_compress, bzip2_compressed, bzip2_decompress, bzip2_decompressed};
use crate::datafile::{
    block_views, datafile_bytes, datafile_parse, header_len, header_wf, lemma_datafile_roundtrip,
    numbered_tables, sum_selfsize, table_len, table_views, tables_wf, with_data_point, DataFileError,
    HeaderView, OneParamTable, PrmHeader, TableView,
};
use vstd::prelude::*;
use vstd::string::*;

verus! {

/// The values of a parameter as stored: `f32` bits, `i32` numbers, or text bytes.
pub enum ParamValues {
    Float(Vec<u32>),
    Int(Vec<i32>),
    Text(Vec<u8>),
}

/// The abstract value of [`ParamValues`].
pub enum ValuesView {
    Float(Seq<u32>),
    Int(Seq<i32>),
    Text(Seq<u8>),
}

impl View for ParamValues {
    type V = ValuesView;

    open spec fn view(&self) -> ValuesView {
        match self {
            ParamValues::Float(v) => ValuesView::Float(v@),
            ParamValues::Int(v) => ValuesView::Int(v@),
            ParamValues::Text(v) => ValuesView::Text(v@),
        }
    }
}

/// A parameter read from a [`Qar`]: the fields of its table entry and its
/// decompressed values.
pub struct ParamData {
    pub rate: i16,
    pub start_frameid: u32,
    pub data_type: String,
    pub info: String,
    pub values: ParamValues,
}

/// Why an operation on a [`Qar`] failed.
#[derive(Debug, PartialEq, Eq, Structural)]
pub enum QarError {
    /// A data block is not a valid bzip2 stream.
    Decompress,
    /// Numeric data whose length is not a multiple of 4 bytes.
    BadLength,
    /// The compressor reported an error.
    Compress,
}

/// New values for a parameter: text, or numbers with the rate and the time of
/// the first value (`f32` bits) that the caller computed from their times.
pub enum SetValues {
    Text(String),
    Int { vals: Vec<i32>, rate: i16, start_frameid: u32 },
    Float { bits: Vec<u32>, rate: i16, start_frameid: u32 },
}

/// A data file in memory.
pub struct Qar {
    pub PrmHeader: PrmHeader,
    pub PrmTable: Vec<OneParamTable>,
    pub PrmData: Vec<Vec<u8>>,
}

/// Text sizes that keep every size computation within machine words.
pub open spec fn text_small(t: Seq<char>) -> bool {
    text_bytes(t).len() <= usize::MAX / 8
}

/// An entry whose texts are of bounded size.
pub open spec fn entry_small(t: TableView) -> bool {
    &&& text_small(t.name)
    &&& text_small(t.compress)
    &&& text_small(t.data_type)
    &&& text_small(t.info)
}

impl Qar {
    /// One data block per table entry, and entries of bounded size.
    pub open spec fn wf(&self) -> bool {
        &&& self.PrmTable@.len() == self.PrmData@.len()
        &&& forall|i: int| 0 <= i < self.PrmTable@.len() ==> entry_small(#[trigger] self.PrmTable@[i]@)
    }

    pub fn new(PrmHeader: PrmHeader, PrmTable: Vec<OneParamTable>, PrmData: Vec<Vec<u8>>) -> (q: Self)
        ensures
            q.PrmHeader == PrmHeader,
            q.PrmTable == PrmTable,
            q.PrmData == PrmData,
    {
        Qar { PrmHeader, PrmTable, PrmData }
    }
}

/// The first index at or after `k` of an entry named `name`.
pub open spec fn name_index(ts: Seq<OneParamTable>, name: Seq<char>, k: int) -> Option<int>
    decreases ts.len() - k,
{
    if k >= ts.len() || k < 0 {
        None
    } else if ts[k].name@ == name {
        Some(k)
    } else {
        name_index(ts, name, k + 1)
    }
}

/// The little-endian 32-bit words of `s` (whole words only).
pub open spec fn le_words(s: Seq<u8>) -> Seq<u32>
    decreases s.len(),
{
    if s.len() < 4 {
        seq![]
    } else {
        seq![le_value(s.subrange(0, 4)) as u32] + le_words(s.subrange(4, s.len() as int))
    }
}

/// The little-endian bytes of 32-bit words.
pub open spec fn words_bytes(ws: Seq<u32>) -> Seq<u8>
    decreases ws.len(),
{
    if ws.len() == 0 {
        seq![]
    } else {
        le_bytes(ws[0] as nat, 4) + words_bytes(ws.drop_first())
    }
}

/// The text "float".
pub open spec fn float_text() -> Seq<char> {
    seq!['f', 'l', 'o', 'a', 't']
}

/// The text "int".
pub open spec fn int_text() -> Seq<char> {
    seq!['i', 'n', 't']
}

/// The text "str".
pub open spec fn str_text() -> Seq<char> {
    seq!['s', 't', 'r']
}

/// The text "bzip2".
pub open spec fn bzip2_text() -> Seq<char> {
    seq!['b', 'z', 'i', 'p', '2']
}

/// The text "none".
pub open spec fn none_text() -> Seq<char> {
    seq!['n', 'o', 'n', 'e']
}

/// The text "{}".
pub open spec fn empty_json_text() -> Seq<char> {
    seq!['{', '}']
}

/// The values that decompressed bytes hold under a data type: "float" and
/// "int" hold little-endian 32-bit words (an error unless the length is a
/// multiple of 4); any other type holds text bytes.
pub open spec fn decode_values(data_type: Seq<char>, b: Seq<u8>) -> Result<ValuesView, QarError> {
    if data_type == float_text() {
        if b.len() % 4 != 0 {
            Err(QarError::BadLength)
        } else {
            Ok(ValuesView::Float(le_words(b)))
        }
    } else if data_type == int_text() {
        if b.len() % 4 != 0 {
            Err(QarError::BadLength)
        } else {
            Ok(ValuesView::Int(le_words(b).map_values(|w: u32| w as i32)))
        }
    } else {
        Ok(ValuesView::Text(b))
    }
}

/// What reading parameter `name` from `q` gives: `None` when no entry has
/// that name, else the decoded values of the first such entry.
pub open spec fn stored_values(q: Qar, name: Seq<char>) -> Result<Option<ValuesView>, QarError> {
    match name_index(q.PrmTable@, name, 0) {
        None => Ok(None),
        Some(i) => match bzip2_decompressed(q.PrmData@[i]@) {
            None => Err(QarError::Decompress),
            Some(b) => match decode_values(q.PrmTable@[i].data_type@, b) {
                Ok(v) => Ok(Some(v)),
                Err(e) => Err(e),
            },
        },
    }
}

/// The bytes that values of a [`SetValues`] are stored as, before compression.
pub open spec fn set_payload(v: SetValues) -> Seq<u8> {
    match v {
        SetValues::Text(s) => text_bytes(s@),
        SetValues::Int { vals, .. } => words_bytes(vals@.map_values(|x: i32| x as u32)),
        SetValues::Float { bits, .. } => words_bytes(bits@),
    }
}

/// The values that a [`SetValues`] is read back as.
pub open spec fn set_view(v: SetValues) -> ValuesView {
    match v {
        SetValues::Text(s) => ValuesView::Text(text_bytes(s@)),
        SetValues::Int { vals, .. } => ValuesView::Int(vals@),
        SetValues::Float { bits, .. } => ValuesView::Float(bits@),
    }
}

/// Whether `s` is the text `t`.
pub(crate) fn str_is(s: &String, t: &str) -> (b: bool)
    ensures
        b == (s@ == t@),
{
    let a = s.as_str();
    let n = a.unicode_len();
    let m = t.unicode_len();
    if n != m {
        return false;
    }
    let mut i: usize = 0;
    while i < n
        invariant
            n == a@.len(),
            m == t@.len(),
            n == m,
            i <= n,
            a@ == s@,
            forall|j: int| 0 <= j < i ==> a@[j] == t@[j],
        decreases n - i,
    {
        if a.get_char(i) != t.get_char(i) {
            return false;
        }
        i = i + 1;
    }
    assert(a@ =~= t@);
    true
}

/// A `String` holding the text `t`.
fn string_of(t: &str) -> (s: String)
    ensures
        s@ == t@,
{
    String::from_str(t)
}

proof fn lemma_le_words_roundtrip(ws: Seq<u32>)
    ensures
        le_words(words_bytes(ws)) == ws,
        words_bytes(ws).len() == 4 * ws.len(),
    decreases ws.len(),
{
    if ws.len() > 0 {
        lemma_le_words_roundtrip(ws.drop_first());
        reveal_with_fuel(pow256, 5);
        lemma_le_roundtrip(ws[0] as nat, 4);
        let b = words_bytes(ws);
        assert(b.subrange(0, 4) =~= le_bytes(ws[0] as nat, 4));
        assert(b.subrange(4, b.len() as int) =~= words_bytes(ws.drop_first()));
        assert(le_words(b) =~= ws);
    } else {
        assert(le_words(words_bytes(ws)) =~= ws);
    }
}

/// Reads the 32-bit little-endian words of `b`.
fn read_words(b: &Vec<u8>) -> (ws: Vec<u32>)
    requires
        b@.len() % 4 == 0,
    ensures
        ws@ == le_words(b@),
{
    let n = b.len();
    let mut ws: Vec<u32> = Vec::new();
    let mut i: usize = 0;
    proof {
        reveal_with_fuel(pow256, 5);
        assert(b@.subrange(0, n as int) =~= b@);
        assert(Seq::<u32>::empty() + le_words(b@) =~= le_words(b@));
    }
    while i < n
        invariant
            n == b@.len(),
            n % 4 == 0,
            i <= n,
            i % 4 == 0,
            ws@ + le_words(b@.subrange(i as int, n as int)) == le_words(b@),
        decreases n - i,
    {
        let ghost rest = b@.subrange(i as int, n as int);
        proof {
            crate::bytes::lemma_le_value_bound(b@.subrange(i as int, i + 4));
        }
        let w = read_le(b.as_slice(), i, 4) as u32;
        let ghost before = ws@;
        ws.push(w);
        proof {
            assert(rest.subrange(0, 4) =~= b@.subrange(i as int, i + 4));
            assert(rest.subrange(4, rest.len() as int) =~= b@.subrange(i + 4, n as int));
            assert(ws@ + le_words(b@.subrange(i + 4, n as int)) =~= before + le_words(rest));
        }
        i = i + 4;
    }
    proof {
        assert(le_words(b@.subrange(n as int, n as int)) =~= Seq::<u32>::empty());
        assert(ws@ + Seq::<u32>::empty() =~= ws@);
    }
    ws
}

impl Qar {
    /// The metadata text of the header.
    pub fn get_meta(&self) -> (m: String)
        ensures
            m@ == self.PrmHeader.meta@,
    {
        self.PrmHeader.meta.clone()
    }

    /// Replaces the metadata text of the header.
    pub fn set_meta(&mut self, meta: String)
        ensures
            final(self).PrmHeader.meta@ == meta@,
            final(self).PrmHeader.header_size == old(self).PrmHeader.header_size,
            final(self).PrmHeader.description@ == old(self).PrmHeader.description@,
            final(self).PrmTable == old(self).PrmTable,
            final(self).PrmData == old(self).PrmData,
    {
        self.PrmHeader.meta = meta;
    }

    /// Number of parameters.
    pub fn get_param_num(&self) -> (n: usize)
        ensures
            n == self.PrmTable@.len(),
    {
        self.PrmTable.len()
    }

    /// The name and info of every parameter, in table order.
    pub fn get_param_list(&self) -> (l: Vec<(String, String)>)
        ensures
            l@.len() == self.PrmTable@.len(),
            forall|i: int|
                0 <= i < l@.len() ==> (#[trigger] l@[i]).0@ == self.PrmTable@[i].name@ && l@[i].1@
                    == self.PrmTable@[i].info@,
    {
        let mut l: Vec<(String, String)> = Vec::new();
        let n = self.PrmTable.len();
        let mut i: usize = 0;
        while i < n
            invariant
                n == self.PrmTable@.len(),
                i <= n,
                l@.len() == i,
                forall|j: int|
                    0 <= j < i ==> (#[trigger] l@[j]).0@ == self.PrmTable@[j].name@ && l@[j].1@
                        == self.PrmTable@[j].info@,
            decreases n - i,
        {
            l.push((self.PrmTable[i].name.clone(), self.PrmTable[i].info.clone()));
            i = i + 1;
        }
        l
    }

    /// The index of the first parameter named `name`.
    pub fn find_param(&self, name: &String) -> (r: Option<usize>)
        ensures
            r matches Some(i) ==> name_index(self.PrmTable@, name@, 0) == Some(i as int) && i
                < self.PrmTable@.len(),
            r is None ==> name_index(self.PrmTable@, name@, 0) is None,
    {
        let n = self.PrmTable.len();
        let mut i: usize = 0;
        while i < n
            invariant
                n == self.PrmTable@.len(),
                i <= n,
                name_index(self.PrmTable@, name@, 0) == name_index(self.PrmTable@, name@, i as int),
            decreases n - i,
        {
            if self.PrmTable[i].name == *name {
                return Some(i);
            }
            i = i + 1;
        }
        None
    }

    /// Reads parameter `name`: `None` when there is none, else the fields of
    /// its (first) entry and its decompressed values (see [`stored_values`]).
    pub fn get_param(&self, name: &String) -> (r: Result<Option<ParamData>, QarError>)
        requires
            self.wf(),
        ensures
            match r {
                Ok(None) => stored_values(*self, name@) == Ok::<Option<ValuesView>, QarError>(None),
                Ok(Some(d)) => {
                    &&& stored_values(*self, name@) == Ok::<Option<ValuesView>, QarError>(Some(d.values@))
                    &&& name_index(self.PrmTable@, name@, 0) matches Some(i) && {
                        let t = self.PrmTable@[i];
                        &&& d.rate == t.rate
                        &&& d.start_frameid == t.start_frameid
                        &&& d.data_type@ == t.data_type@
                        &&& d.info@ == t.info@
                    }
                },
                Err(e) => stored_values(*self, name@) == Err::<Option<ValuesView>, QarError>(e),
            },
    {
        let idx = match self.find_param(name) {
            None => {
                return Ok(None);
            },
            Some(i) => i,
        };
        let t = &self.PrmTable[idx];
        let buf = match bzip2_decompress(self.PrmData[idx].as_slice()) {
            Some(b) => b,
            None => {
                return Err(QarError::Decompress);
            },
        };
        let is_float = str_is(&t.data_type, "float");
        let is_int = str_is(&t.data_type, "int");
        proof {
            reveal_strlit("float");
            reveal_strlit("int");
            assert("float"@ =~= float_text());
            assert("int"@ =~= int_text());
        }
        let values = if is_float || is_int {
            if buf.len() % 4 != 0 {
                return Err(QarError::BadLength);
            }
            let ws = read_words(&buf);
            if is_float {
                ParamValues::Float(ws)
            } else {
                let mut vals: Vec<i32> = Vec::new();
                let mut i: usize = 0;
                while i < ws.len()
                    invariant
                        i <= ws@.len(),
                        vals@ =~= ws@.take(i as int).map_values(|w: u32| w as i32),
                    decreases ws@.len() - i,
                {
                    vals.push(#[verifier::truncate] (ws[i] as i32));
                    proof {
                        assert(ws@.take(i + 1) =~= ws@.take(i as int).push(ws@[i as int]));
                    }
                    i = i + 1;
                }
                assert(ws@.take(ws@.len() as int) =~= ws@);
                ParamValues::Int(vals)
            }
        } else {
            ParamValues::Text(buf)
        };
        Ok(
            Some(
                ParamData {
                    rate: t.rate,
                    start_frameid: t.start_frameid,
                    data_type: t.data_type.clone(),
                    info: t.info.clone(),
                    values,
                },
            ),
        )
    }
}

/// The entry index at which [`Qar::set_param`] stores parameter `name`: its
/// first entry, or a new entry at the end.
pub open spec fn set_index(ts: Seq<OneParamTable>, name: Seq<char>) -> int {
    match name_index(ts, name, 0) {
        Some(i) => i,
        None => ts.len() as int,
    }
}

/// The code that [`Qar::set_param`] returns for stored values.
pub open spec fn set_code(v: SetValues) -> i32 {
    match v {
        SetValues::Int { .. } => 1,
        SetValues::Float { .. } => 2,
        SetValues::Text(_) => 3,
    }
}

/// The data type text that [`Qar::set_param`] records.
pub open spec fn set_type(v: SetValues) -> Seq<char> {
    match v {
        SetValues::Int { .. } => int_text(),
        SetValues::Float { .. } => float_text(),
        SetValues::Text(_) => str_text(),
    }
}

proof fn lemma_name_index_bounds(ts: Seq<OneParamTable>, name: Seq<char>, k: int)
    requires
        0 <= k,
    ensures
        name_index(ts, name, k) matches Some(i) ==> k <= i < ts.len() && ts[i].name@ == name && forall|j: int| k <= j < i ==> ts[j].name@ != name,
        name_index(ts, name, k) is None ==> forall|j: int| k <= j < ts.len() ==> ts[j].name@ != name,
    decreases ts.len() - k,
{
    if k < ts.len() && ts[k].name@ != name {
        lemma_name_index_bounds(ts, name, k + 1);
    }
}

proof fn lemma_name_index_same(a: Seq<OneParamTable>, b: Seq<OneParamTable>, name: Seq<char>, k: int, i: int)
    requires
        0 <= k <= i,
        i < a.len(),
        i < b.len(),
        a[i].name@ == name,
        b[i].name@ == name,
        forall|j: int| k <= j < i ==> a[j].name@ != name && b[j].name@ == a[j].name@,
    ensures
        name_index(b, name, k) == Some(i),
    decreases i - k,
{
    if k < i {
        lemma_name_index_same(a, b, name, k + 1, i);
    }
}

proof fn lemma_int_words(vals: Seq<i32>)
    ensures
        vals.map_values(|x: i32| x as u32).map_values(|w: u32| w as i32) == vals,
{
    assert forall|i: int| 0 <= i < vals.len() implies vals.map_values(|x: i32| x as u32).map_values(
        |w: u32| w as i32,
    )[i] == vals[i] by {
        let x = vals[i];
        assert(((x as u32) as i32) == x) by (bit_vector);
    }
    assert(vals.map_values(|x: i32| x as u32).map_values(|w: u32| w as i32) =~= vals);
}

/// Appends the little-endian bytes of each word.
fn push_words(out: &mut Vec<u8>, ws: &Vec<u32>)
    ensures
        final(out)@ == old(out)@ + words_bytes(ws@),
{
    let n = ws.len();
    let mut i: usize = 0;
    let ghost start = out@;
    assert(ws@.subrange(0, n as int) =~= ws@);
    while i < n
        invariant
            n == ws@.len(),
            i <= n,
            out@ + words_bytes(ws@.subrange(i as int, n as int)) == start + words_bytes(ws@),
        decreases n - i,
    {
        let ghost rest = ws@.subrange(i as int, n as int);
        let ghost before = out@;
        push_le(out, ws[i] as u64, 4);
        proof {
            assert(rest.drop_first() =~= ws@.subrange(i + 1, n as int));
            assert(rest[0] == ws@[i as int]);
            assert(out@ + words_bytes(ws@.subrange(i + 1, n as int)) =~= before + words_bytes(rest));
        }
        i = i + 1;
    }
    proof {
        assert(ws@.subrange(n as int, n as int) =~= Seq::<u32>::empty());
        assert(out@ + Seq::<u8>::empty() =~= out@);
    }
}

/// The two's-complement bits of each number.
fn int_words(vals: &Vec<i32>) -> (ws: Vec<u32>)
    ensures
        ws@ == vals@.map_values(|x: i32| x as u32),
{
    let mut ws: Vec<u32> = Vec::new();
    let mut i: usize = 0;
    while i < vals.len()
        invariant
            i <= vals@.len(),
            ws@ =~= vals@.take(i as int).map_values(|x: i32| x as u32),
        decreases vals@.len() - i,
    {
        ws.push(#[verifier::truncate] (vals[i] as u32));
        proof {
            assert(vals@.take(i + 1) =~= vals@.take(i as int).push(vals@[i as int]));
        }
        i = i + 1;
    }
    assert(vals@.take(vals@.len() as int) =~= vals@);
    ws
}

/// The bytes that `values` are stored as, before compression.
fn payload_of(values: &SetValues) -> (b: Vec<u8>)
    ensures
        b@ == set_payload(*values),
{
    let mut b: Vec<u8> = Vec::new();
    match values {
        SetValues::Text(s) => {
            push_bytes(&mut b, s.as_str().as_bytes());
        },
        SetValues::Int { vals, .. } => {
            let ws = int_words(vals);
            push_words(&mut b, &ws);
        },
        SetValues::Float { bits, .. } => {
            push_words(&mut b, bits);
        },
    }
    assert(b@ =~= set_payload(*values));
    b
}

impl Qar {
    /// Stores `values` as parameter `name` (see the contract): the first entry of
    /// that name is replaced, or a new entry is added at the end.  The values
    /// are stored bzip2-compressed; the entry's compression becomes "bzip2",
    /// its data type "int", "float" or "str", its info `info` when given, and
    /// its size and data size are recomputed (to 16 and 32 bits).  For numbers
    /// the rate and first-value time are recorded and the value size is 4.
    /// Returns -1 for an empty name (nothing changes), else 1 (int), 2 (float)
    /// or 3 (text).  Afterwards reading `name` gives the values back.
    pub fn set_param(&mut self, name: String, info: Option<String>, values: SetValues) -> (r: Result<i32, QarError>)
        requires
            old(self).wf(),
            text_small(name@),
            info matches Some(i) ==> text_small(i@),
        ensures
            name@.len() == 0 ==> r == Ok::<i32, QarError>(-1i32) && *final(self) == *old(self),
            name@.len() > 0 ==> r is Ok,
            name@.len() > 0 ==> match r {
                Err(e) => e == QarError::Compress && *final(self) == *old(self),
                Ok(code) => {
                    let idx = set_index(old(self).PrmTable@, name@);
                    let found = name_index(old(self).PrmTable@, name@, 0) is Some;
                    let t = final(self).PrmTable@[idx]@;
                    &&& code == set_code(values)
                    &&& final(self).wf()
                    &&& final(self).PrmHeader == old(self).PrmHeader
                    &&& final(self).PrmTable@.len() == if found {
                        old(self).PrmTable@.len() as int
                    } else {
                        (old(self).PrmTable@.len() + 1) as int
                    }
                    &&& forall|j: int| 0 <= j < old(self).PrmTable@.len() && j != idx ==> #[trigger] final(self).PrmTable@[j] == old(self).PrmTable@[j] && final(self).PrmData@[j] == old(self).PrmData@[j]
                    &&& t.name == name@
                    &&& t.compress == bzip2_text()
                    &&& t.data_type == set_type(values)
                    &&& t.info == match info {
                        Some(i) => i@,
                        None => if found {
                            old(self).PrmTable@[idx].info@
                        } else {
                            empty_json_text()
                        },
                    }
                    &&& t.data_point == if found {
                        old(self).PrmTable@[idx].data_point
                    } else {
                        0
                    }
                    &&& match values {
                        SetValues::Text(_) => {
                            &&& t.rate == if found { old(self).PrmTable@[idx].rate } else { 0 }
                            &&& t.start_frameid == if found { old(self).PrmTable@[idx].start_frameid } else { 0 }
                            &&& t.val_size == if found { old(self).PrmTable@[idx].val_size } else { 0 }
                        },
                        SetValues::Int { rate, start_frameid, .. } => t.rate == rate && t.start_frameid == start_frameid && t.val_size == 4,
                        SetValues::Float { rate, start_frameid, .. } => t.rate == rate && t.start_frameid == start_frameid && t.val_size == 4,
                    }
                    &&& final(self).PrmData@[idx]@ == bzip2_compressed(set_payload(values))
                    &&& t.data_size == bzip2_compressed(set_payload(values)).len() as u32
                    &&& t.selfsize == table_len(t) as u16
                    &&& stored_values(*final(self), name@) == Ok::<Option<ValuesView>, QarError>(Some(set_view(values)))
                },
            },
    {
        if name.as_str().is_empty() {
            return Ok(-1);
        }
        assert(name@.len() > 0);
        let payload = payload_of(&values);
        let compressed = match bzip2_compress(payload.as_slice()) {
            Some(c) => c,
            None => {
                return Err(QarError::Compress);
            },
        };
        let ghost old_t = self.PrmTable@;
        let ghost old_d = self.PrmData@;
        let found = self.find_param(&name);
        proof {
            lemma_name_index_bounds(old_t, name@, 0);
        }
        let (dp, rate0, start0, vs0, info0) = match found {
            Some(i) => {
                let t = &self.PrmTable[i];
                (t.data_point, t.rate, t.start_frameid, t.val_size, t.info.clone())
            },
            None => (0u64, 0i16, 0u32, 0u16, string_of("{}")),
        };
        let (code, data_type, rate, start_frameid, val_size) = match &values {
            SetValues::Text(_) => (3i32, string_of("str"), rate0, start0, vs0),
            SetValues::Int { rate, start_frameid, .. } => (1i32, string_of("int"), *rate, *start_frameid, 4u16),
            SetValues::Float { rate, start_frameid, .. } => (2i32, string_of("float"), *rate, *start_frameid, 4u16),
        };
        let new_info = match info {
            Some(i) => i,
            None => info0,
        };
        let mut entry = OneParamTable {
            selfsize: 0,
            data_point: dp,
            data_size: #[verifier::truncate] (compressed.len() as u32),
            val_size,
            rate,
            start_frameid,
            name,
            compress: string_of("bzip2"),
            data_type,
            info: new_info,
        };
        proof {
            reveal_strlit("{}");
            reveal_strlit("str");
            reveal_strlit("int");
            reveal_strlit("float");
            reveal_strlit("bzip2");
            assert("{}"@ =~= empty_json_text());
            assert("str"@ =~= str_text());
            assert("int"@ =~= int_text());
            assert("float"@ =~= float_text());
            assert("bzip2"@ =~= bzip2_text());
            if found is Some {
                assert(entry_small(old_t[found.unwrap() as int]@));
            }
            assert(text_bytes(empty_json_text()).len() <= 8) by {
                reveal_with_fuel(vstd::utf8::encode_utf8, 3);
            }
            assert(text_bytes(str_text()).len() <= 12) by {
                reveal_with_fuel(vstd::utf8::encode_utf8, 4);
            }
            assert(text_bytes(int_text()).len() <= 12) by {
                reveal_with_fuel(vstd::utf8::encode_utf8, 4);
            }
            assert(text_bytes(float_text()).len() <= 20) by {
                reveal_with_fuel(vstd::utf8::encode_utf8, 6);
            }
            assert(text_bytes(bzip2_text()).len() <= 20) by {
                reveal_with_fuel(vstd::utf8::encode_utf8, 6);
            }
        }
        let size = entry.length();
        entry.selfsize = #[verifier::truncate] (size as u16);
        let idx: usize = match found {
            Some(i) => {
                self.PrmTable.set(i, entry);
                self.PrmData.set(i, compressed);
                i
            },
            None => {
                self.PrmTable.push(entry);
                self.PrmData.push(compressed);
                self.PrmTable.len() - 1
            },
        };
        proof {
            let nt = self.PrmTable@;
            assert(nt[idx as int].name@ == name@);
            if found is Some {
                lemma_name_index_same(old_t, nt, name@, 0, idx as int);
            } else {
                lemma_name_index_same(old_t.push(nt[idx as int]), nt, name@, 0, idx as int);
            }
            let payload_v = set_payload(values);
            match values {
                SetValues::Text(s) => {
                    assert(str_text() != float_text());
                    assert(str_text() != int_text());
                },
                SetValues::Int { vals, .. } => {
                    lemma_le_words_roundtrip(vals@.map_values(|x: i32| x as u32));
                    lemma_int_words(vals@);
                    assert(int_text() != float_text());
                },
                SetValues::Float { bits, .. } => {
                    lemma_le_words_roundtrip(bits@);
                },
            }
            assert forall|i: int| 0 <= i < nt.len() implies entry_small(#[trigger] nt[i]@) by {
                if i != idx {
                    assert(nt[i] == old_t[i]);
                }
            }
        }
        Ok(code)
    }

    /// Removes the first parameter named `name`: returns 1 when removed, -2 when
    /// there is none, -1 for an empty name (nothing changes in those cases).
    pub fn del_param(&mut self, name: &String) -> (r: i32)
        requires
            old(self).wf(),
        ensures
            final(self).wf(),
            final(self).PrmHeader == old(self).PrmHeader,
            name@.len() == 0 ==> r == -1 && *final(self) == *old(self),
            name@.len() > 0 ==> match name_index(old(self).PrmTable@, name@, 0) {
                None => r == -2 && *final(self) == *old(self),
                Some(i) => r == 1 && final(self).PrmTable@ == old(self).PrmTable@.remove(i)
                    && final(self).PrmData@ == old(self).PrmData@.remove(i),
            },
    {
        if name.as_str().is_empty() {
            return -1;
        }
        match self.find_param(name) {
            Some(i) => {
                let ghost t0 = self.PrmTable@;
                self.PrmTable.remove(i);
                self.PrmData.remove(i);
                proof {
                    assert forall|j: int| 0 <= j < self.PrmTable@.len() implies entry_small(#[trigger] self.PrmTable@[j]@) by {
                        if j < i {
                            assert(self.PrmTable@[j] == t0[j]);
                        } else {
                            assert(self.PrmTable@[j] == t0[j + 1]);
                        }
                    }
                }
                1
            },
            None => -2,
        }
    }
}

/// The bytes that values are stored as, before compression.
pub open spec fn values_payload(v: ValuesView) -> Seq<u8> {
    match v {
        ValuesView::Float(ws) => words_bytes(ws),
        ValuesView::Int(vs) => words_bytes(vs.map_values(|x: i32| x as u32)),
        ValuesView::Text(b) => b,
    }
}

/// The data type text recorded for values.
pub open spec fn values_type(v: ValuesView) -> Seq<char> {
    match v {
        ValuesView::Float(_) => float_text(),
        ValuesView::Int(_) => int_text(),
        ValuesView::Text(_) => str_text(),
    }
}

/// The bytes that `values` are stored as, before compression.
fn values_bytes(values: &ParamValues) -> (b: Vec<u8>)
    ensures
        b@ == values_payload(values@),
{
    let mut b: Vec<u8> = Vec::new();
    match values {
        ParamValues::Float(ws) => push_words(&mut b, ws),
        ParamValues::Int(vals) => {
            let ws = int_words(vals);
            push_words(&mut b, &ws);
        },
        ParamValues::Text(t) => push_bytes(&mut b, t.as_slice()),
    }
    assert(b@ =~= values_payload(values@));
    b
}

/// Makes a decoded parameter ready for a data file: its table entry and its
/// bzip2-compressed data block.  The entry records the name, info, rate and
/// time of the first value given, the compression "bzip2", the data type
/// ("float", "int" or "str") and value size (4, or 0 for text) of the values,
/// the block's size and its own serialized size; its data position is left 0
/// for the file writer to fill.  Decompressing the block and reading it under
/// the entry's data type gives the values back.  The compressor reports no
/// error on in-memory data, so the result is always `Some`.
pub fn pack_param(name: String, info: String, values: &ParamValues, rate: i16, start_frameid: u32) -> (r: Option<(OneParamTable, Vec<u8>)>)
    requires
        text_small(name@),
        text_small(info@),
    ensures
        r is Some,
        r matches Some(p) ==> {
            let t = p.0@;
            let payload = values_payload(values@);
            &&& p.1@ == bzip2_compressed(payload)
            &&& bzip2_decompressed(p.1@) == Some(payload)
            &&& decode_values(t.data_type, payload) == Ok::<ValuesView, QarError>(values@)
            &&& entry_small(t)
            &&& t == TableView {
                selfsize: table_len(t) as u16,
                data_point: 0,
                data_size: p.1@.len() as u32,
                val_size: if values@ is Text { 0 } else { 4 },
                rate,
                start_frameid,
                name: name@,
                compress: bzip2_text(),
                data_type: values_type(values@),
                info: info@,
            }
        },
{
    let payload = values_bytes(values);
    let compressed = match bzip2_compress(payload.as_slice()) {
        Some(c) => c,
        None => {
            return None;
        },
    };
    let (data_type, val_size) = match values {
        ParamValues::Float(_) => (string_of("float"), 4u16),
        ParamValues::Int(_) => (string_of("int"), 4u16),
        ParamValues::Text(_) => (string_of("str"), 0u16),
    };
    let mut entry = OneParamTable {
        selfsize: 0,
        data_point: 0,
        data_size: #[verifier::truncate] (compressed.len() as u32),
        val_size,
        rate,
        start_frameid,
        name,
        compress: string_of("bzip2"),
        data_type,
        info,
    };
    proof {
        reveal_strlit("str");
        reveal_strlit("int");
        reveal_strlit("float");
        reveal_strlit("bzip2");
        assert("str"@ =~= str_text());
        assert("int"@ =~= int_text());
        assert("float"@ =~= float_text());
        assert("bzip2"@ =~= bzip2_text());
        assert(text_bytes(str_text()).len() <= 12) by {
            reveal_with_fuel(vstd::utf8::encode_utf8, 4);
        }
        assert(text_bytes(int_text()).len() <= 12) by {
            reveal_with_fuel(vstd::utf8::encode_utf8, 4);
        }
        assert(text_bytes(float_text()).len() <= 20) by {
            reveal_with_fuel(vstd::utf8::encode_utf8, 6);
        }
        assert(text_bytes(bzip2_text()).len() <= 20) by {
            reveal_with_fuel(vstd::utf8::encode_utf8, 6);
        }
    }
    let size = entry.length();
    entry.selfsize = #[verifier::truncate] (size as u16);
    proof {
        match values@ {
            ValuesView::Text(_) => {
                assert(str_text() != float_text());
                assert(str_text() != int_text());
            },
            ValuesView::Int(vals) => {
                lemma_le_words_roundtrip(vals.map_values(|x: i32| x as u32));
                lemma_int_words(vals);
                assert(int_text() != float_text());
            },
            ValuesView::Float(bits) => {
                lemma_le_words_roundtrip(bits);
            },
        }
    }
    Some((entry, compressed))
}

proof fn lemma_numbered_index(ts: Seq<TableView>, idx: int)
    ensures
        numbered_tables(ts, idx).len() == ts.len(),
        forall|i: int|
            0 <= i < ts.len() ==> #[trigger] numbered_tables(ts, idx)[i] == with_data_point(
                ts[i],
                (idx + i) as u64,
            ),
    decreases ts.len(),
{
    if ts.len() > 0 {
        lemma_numbered_index(ts.drop_first(), idx + 1);
        let nt = numbered_tables(ts, idx);
        assert(nt.drop_first() =~= numbered_tables(ts.drop_first(), idx + 1));
        assert forall|i: int| 0 <= i < ts.len() implies #[trigger] nt[i] == with_data_point(
            ts[i],
            (idx + i) as u64,
        ) by {
            if i > 0 {
                assert(nt[i] == nt.drop_first()[i - 1]);
                assert(ts[i] == ts.drop_first()[i - 1]);
            }
        }
    }
}

proof fn lemma_name_index_same_names(a: Seq<OneParamTable>, b: Seq<OneParamTable>, name: Seq<char>, k: int)
    requires
        a.len() == b.len(),
        forall|i: int| 0 <= i < a.len() ==> (#[trigger] a[i]).name@ == b[i].name@,
    ensures
        name_index(a, name, k) == name_index(b, name, k),
    decreases a.len() - k,
{
    if 0 <= k < a.len() {
        assert(a[k].name@ == b[k].name@);
        lemma_name_index_same_names(a, b, name, k + 1);
    }
}

/// The views of a data file read back after it was written (see
/// [`lemma_datafile_roundtrip`]).
#[verifier::rlimit(40)]
proof fn lemma_read_back_views(q: Qar, r: Qar)
    requires
        header_wf(q.PrmHeader@),
        header_len(q.PrmHeader@) <= u32::MAX,
        q.PrmTable@.len() >= 1,
        tables_wf(table_views(q.PrmTable@)),
        sum_selfsize(table_views(q.PrmTable@)) + 4 <= u32::MAX,
        q.PrmData@.len() == q.PrmTable@.len(),
        forall|i: int| 0 <= i < q.PrmData@.len() ==> (#[trigger] q.PrmData@[i])@.len() == q.PrmTable@[i].data_size,
        datafile_parse(datafile_bytes(q.PrmHeader@, table_views(q.PrmTable@), block_views(q.PrmData@)))
            == Ok::<(HeaderView, Seq<TableView>, Seq<Seq<u8>>), DataFileError>(
            (r.PrmHeader@, table_views(r.PrmTable@), block_views(r.PrmData@)),
        ),
    ensures
        table_views(r.PrmTable@) == numbered_tables(table_views(q.PrmTable@), 0),
        block_views(r.PrmData@) == block_views(q.PrmData@),
        r.PrmHeader.meta@ == q.PrmHeader.meta@,
        r.PrmHeader.description@ == q.PrmHeader.description@,
{
    let ts = table_views(q.PrmTable@);
    let ds = block_views(q.PrmData@);
    assert forall|i: int| 0 <= i < ds.len() implies (#[trigger] ds[i]).len() == ts[i].data_size by {
        assert(ds[i] == q.PrmData@[i]@);
        assert(ts[i] == q.PrmTable@[i]@);
    }
    lemma_datafile_roundtrip(q.PrmHeader@, ts, ds);
}

/// Writing a data file and reading it back changes nothing that a parameter
/// reads as: for every name, [`stored_values`] of the file read back equals
/// that of the file written (and the header texts are kept).
pub proof fn lemma_file_keeps_values(q: Qar, r: Qar, name: Seq<char>)
    requires
        header_wf(q.PrmHeader@),
        header_len(q.PrmHeader@) <= u32::MAX,
        q.PrmTable@.len() >= 1,
        tables_wf(table_views(q.PrmTable@)),
        sum_selfsize(table_views(q.PrmTable@)) + 4 <= u32::MAX,
        q.PrmData@.len() == q.PrmTable@.len(),
        forall|i: int| 0 <= i < q.PrmData@.len() ==> (#[trigger] q.PrmData@[i])@.len() == q.PrmTable@[i].data_size,
        datafile_parse(datafile_bytes(q.PrmHeader@, table_views(q.PrmTable@), block_views(q.PrmData@)))
            == Ok::<(HeaderView, Seq<TableView>, Seq<Seq<u8>>), DataFileError>(
            (r.PrmHeader@, table_views(r.PrmTable@), block_views(r.PrmData@)),
        ),
    ensures
        stored_values(r, name) == stored_values(q, name),
        r.PrmHeader.meta@ == q.PrmHeader.meta@,
        r.PrmHeader.description@ == q.PrmHeader.description@,
        r.PrmTable@.len() == q.PrmTable@.len(),
{
    lemma_read_back_views(q, r);
    same_reads(q, r, name);
}

/// Two data files whose entries agree in name and data type and whose data
/// blocks agree read the same.
proof fn same_reads(q: Qar, r: Qar, name: Seq<char>)
    requires
        table_views(r.PrmTable@) == numbered_tables(table_views(q.PrmTable@), 0),
        block_views(r.PrmData@) == block_views(q.PrmData@),
        q.PrmData@.len() == q.PrmTable@.len(),
    ensures
        stored_values(r, name) == stored_values(q, name),
        r.PrmTable@.len() == q.PrmTable@.len(),
{
    let ts = table_views(q.PrmTable@);
    lemma_numbered_index(ts, 0);
    let rt = r.PrmTable@;
    let qt = q.PrmTable@;
    assert(rt.len() == table_views(rt).len());
    assert(r.PrmData@.len() == block_views(r.PrmData@).len());
    assert(q.PrmData@.len() == block_views(q.PrmData@).len());
    assert forall|i: int| 0 <= i < qt.len() implies (#[trigger] qt[i]).name@ == rt[i].name@ && qt[i].data_type@
        == rt[i].data_type@ by {
        assert(table_views(rt)[i] == rt[i]@);
        assert(numbered_tables(ts, 0)[i] == with_data_point(ts[i], #[verifier::truncate] ((0 + i) as u64)));
        assert(ts[i] == qt[i]@);
    }
    assert forall|i: int| 0 <= i < q.PrmData@.len() implies (#[trigger] q.PrmData@[i])@ == r.PrmData@[i]@ by {
        assert(block_views(r.PrmData@)[i] == r.PrmData@[i]@);
        assert(block_views(q.PrmData@)[i] == q.PrmData@[i]@);
    }
    lemma_name_index_same_names(qt, rt, name, 0);
    lemma_name_index_bounds(qt, name, 0);
    if let Some(i) = name_index(qt, name, 0) {
        assert(q.PrmData@[i]@ == r.PrmData@[i]@);
        assert(qt[i].data_type@ == rt[i].data_type@);
    }
}

/// The kind of a value handed over by a script, as storing values looks at it.
#[derive(Clone, Copy, PartialEq, Eq, Structural)]
pub enum ScriptKind {
    Integer,
    Number,
    Boolean,
    Text,
    Table,
    Other,
}

/// One item of a list of values handed over by a script: whether it is a
/// table, and the kinds of its first entry (the time) and second entry (the
/// value).
#[derive(Clone, Copy, PartialEq, Eq, Structural)]
pub struct ScriptItem {
    pub is_table: bool,
    pub first: ScriptKind,
    pub second: ScriptKind,
}

/// What a script hands over as the values of a parameter: a text, a list of
/// items, or something else.
pub enum ScriptValues {
    Text,
    Items(Vec<ScriptItem>),
    Other,
}

/// How handed-over values are stored.
#[derive(Clone, Copy, PartialEq, Eq, Structural, Debug)]
pub enum StoreKind {
    Text,
    Int,
    Float,
}

/// The storage kind of the items from `k` on, given the kind `acc` of those
/// before: any number value makes them floats, integers and booleans make
/// them integers; an error code and the (1-based) item number for an item
/// that is not a table (-4), whose time is not a number (-5) or whose value
/// is not a number, integer or boolean (-6).
pub open spec fn items_kind(items: Seq<ScriptItem>, k: int, acc: StoreKind) -> Result<StoreKind, (i32, usize)>
    decreases items.len() - k,
{
    if k < 0 || k >= items.len() {
        Ok(acc)
    } else {
        let it = items[k];
        if !it.is_table {
            Err((-4i32, (k + 1) as usize))
        } else if !(it.first == ScriptKind::Number || it.first == ScriptKind::Integer) {
            Err((-5i32, (k + 1) as usize))
        } else if it.second == ScriptKind::Number {
            items_kind(items, k + 1, StoreKind::Float)
        } else if it.second == ScriptKind::Integer || it.second == ScriptKind::Boolean {
            items_kind(
                items,
                k + 1,
                if acc == StoreKind::Float {
                    StoreKind::Float
                } else {
                    StoreKind::Int
                },
            )
        } else {
            Err((-6i32, (k + 1) as usize))
        }
    }
}

/// How the values that a script hands over are stored: -2 when the data is
/// not a table, -3 when its values are neither a text nor a table, text for a
/// text, else as [`items_kind`] decides (text for an empty list).
pub open spec fn values_kind(is_table: bool, val: ScriptValues) -> Result<StoreKind, (i32, usize)> {
    if !is_table {
        Err((-2i32, 0usize))
    } else {
        match val {
            ScriptValues::Text => Ok(StoreKind::Text),
            ScriptValues::Other => Err((-3i32, 0usize)),
            ScriptValues::Items(v) => items_kind(v@, 0, StoreKind::Text),
        }
    }
}

/// Decides how the values that a script hands over are stored (see
/// [`values_kind`]).
pub fn classify_values(is_table: bool, val: &ScriptValues) -> (r: Result<StoreKind, (i32, usize)>)
    ensures
        r == values_kind(is_table, *val),
{
    if !is_table {
        return Err((-2, 0));
    }
    let items = match val {
        ScriptValues::Text => {
            return Ok(StoreKind::Text);
        },
        ScriptValues::Other => {
            return Err((-3, 0));
        },
        ScriptValues::Items(v) => v,
    };
    let n = items.len();
    let mut acc = StoreKind::Text;
    let mut k: usize = 0;
    while k < n
        invariant
            n == items@.len(),
            k <= n,
            items_kind(items@, k as int, acc) == items_kind(items@, 0, StoreKind::Text),
            values_kind(is_table, *val) == items_kind(items@, 0, StoreKind::Text),
        decreases n - k,
    {
        let it = items[k];
        if !it.is_table {
            return Err((-4, k + 1));
        }
        if !(it.first == ScriptKind::Number || it.first == ScriptKind::Integer) {
            return Err((-5, k + 1));
        }
        if it.second == ScriptKind::Number {
            acc = StoreKind::Float;
        } else if it.second == ScriptKind::Integer || it.second == ScriptKind::Boolean {
            if acc != StoreKind::Float {
                acc = StoreKind::Int;
            }
        } else {
            return Err((-6, k + 1));
        }
        k = k + 1;
    }
    Ok(acc)
}

/// Removing a parameter undoes storing it under a new name: when `name` names
/// no entry of `q0` and `q1` is `q0` with one entry named `name` added at the
/// end (what [`Qar::set_param`] makes of a new name), the first entry named
/// `name` in `q1` is that last one, and removing it (what [`Qar::del_param`]
/// does) gives back the entries and data blocks of `q0`.
pub proof fn lemma_delete_undoes_new(q0: Qar, q1: Qar, name: Seq<char>)
    requires
        name_index(q0.PrmTable@, name, 0) is None,
        q1.PrmTable@.len() == q0.PrmTable@.len() + 1,
        q1.PrmData@.len() == q0.PrmData@.len() + 1,
        q0.PrmData@.len() == q0.PrmTable@.len(),
        forall|j: int|
            0 <= j < q0.PrmTable@.len() ==> #[trigger] q1.PrmTable@[j] == q0.PrmTable@[j]
                && q1.PrmData@[j] == q0.PrmData@[j],
        q1.PrmTable@[q0.PrmTable@.len() as int].name@ == name,
    ensures
        name_index(q1.PrmTable@, name, 0) == Some(q0.PrmTable@.len() as int),
        q1.PrmTable@.remove(q0.PrmTable@.len() as int) == q0.PrmTable@,
        q1.PrmData@.remove(q0.PrmData@.len() as int) == q0.PrmData@,
{
    let n = q0.PrmTable@.len() as int;
    lemma_name_index_bounds(q0.PrmTable@, name, 0);
    assert forall|j: int| 0 <= j < n implies q0.PrmTable@[j].name@ != name && q1.PrmTable@[j].name@
        == q0.PrmTable@[j].name@ by {
        assert(q1.PrmTable@[j] == q0.PrmTable@[j]);
    }
    lemma_name_index_same(q0.PrmTable@.push(q1.PrmTable@[n]), q1.PrmTable@, name, 0, n);
    assert(q1.PrmTable@.remove(n) =~= q0.PrmTable@);
    assert forall|j: int| 0 <= j < n implies q1.PrmData@.remove(n)[j] == q0.PrmData@[j] by {
        assert(q1.PrmTable@[j] == q0.PrmTable@[j]);
    }
    assert(q1.PrmData@.remove(n) =~= q0.PrmData@);
}

} // verus!
