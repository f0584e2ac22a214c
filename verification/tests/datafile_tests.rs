use qar_decode::datafile::{encode_datafile, header_tag, parse_datafile, DataFileError, OneParamTable, PrmHeader};

fn entry(name: &str, data_size: u32) -> OneParamTable {
    let mut t = OneParamTable {
        selfsize: 0,
        data_point: 77,
        data_size,
        val_size: 4,
        rate: -2,
        start_frameid: 1.0f32.to_bits(),
        name: name.to_string(),
        compress: "bzip2".to_string(),
        data_type: "float".to_string(),
        info: "{}".to_string(),
    };
    t.selfsize = t.length() as u16;
    t
}

fn header() -> PrmHeader {
    PrmHeader { header_size: 0, meta: "{\"a\":1}".to_string(), description: "desc".to_string() }
}

#[test]
fn tag_bytes() {
    assert_eq!(header_tag(), b"QAR_Decoded_DATA_V1.0\0".to_vec());
}

#[test]
fn table_entry_roundtrip() {
    let t = entry("VRTG", 9);
    let mut out = vec![0xAAu8];
    t.serialize(&mut out);
    assert_eq!(out.len(), 1 + t.length());
    assert_eq!(t.length(), 22 + 5 + 6 + 6 + 3);
    assert_eq!(&out[1..3], &(t.selfsize).to_le_bytes());
    let (r, end) = OneParamTable::deserialize(&out, 1).unwrap();
    assert_eq!(end, out.len());
    assert_eq!(r.selfsize, t.selfsize);
    assert_eq!(r.data_point, 77);
    assert_eq!(r.data_size, 9);
    assert_eq!(r.val_size, 4);
    assert_eq!(r.rate, -2);
    assert_eq!(f32::from_bits(r.start_frameid), 1.0);
    assert_eq!(r.name, "VRTG");
    assert_eq!(r.compress, "bzip2");
    assert_eq!(r.data_type, "float");
    assert_eq!(r.info, "{}");
}

#[test]
fn table_entry_lossy_text_and_missing_fields() {
    // numbers, then the name bytes FF 41 and a zero, then nothing more
    let mut out = Vec::new();
    out.extend_from_slice(&25u16.to_le_bytes());
    out.extend_from_slice(&[0u8; 20]);
    out.extend_from_slice(&[0xFF, 0x41, 0x00]);
    let (r, end) = OneParamTable::deserialize(&out, 0).unwrap();
    assert_eq!(end, 25);
    assert_eq!(r.name, "\u{FFFD}A");
    assert_eq!(r.compress, "");
    assert_eq!(r.data_type, "");
    assert_eq!(r.info, "");
}

#[test]
fn table_entry_errors() {
    let mut out = Vec::new();
    out.extend_from_slice(&10u16.to_le_bytes());
    out.extend_from_slice(&[0u8; 20]);
    assert_eq!(OneParamTable::deserialize(&out, 0).err(), Some(DataFileError::SizeUnderflow));
    assert_eq!(OneParamTable::deserialize(&out[..21], 0).err(), Some(DataFileError::UnexpectedEof));
    let mut long = Vec::new();
    long.extend_from_slice(&40u16.to_le_bytes());
    long.extend_from_slice(&[0u8; 20]);
    assert_eq!(OneParamTable::deserialize(&long, 0).err(), Some(DataFileError::UnexpectedEof));
}

#[test]
fn header_roundtrip() {
    let mut h = header();
    h.header_size = h.length() as u32;
    assert_eq!(h.length(), 22 + 4 + 8 + 5);
    let mut out = Vec::new();
    h.serialize(&mut out);
    let (r, end) = PrmHeader::deserialize(&out, 0).unwrap();
    assert_eq!(end, out.len());
    assert_eq!(r.header_size, h.header_size);
    assert_eq!(r.meta, h.meta);
    assert_eq!(r.description, h.description);
}

#[test]
fn datafile_roundtrip() {
    let tables = vec![entry("A", 3), entry("BB", 0), entry("C", 2)];
    let data = vec![vec![1u8, 2, 3], vec![], vec![9u8, 8]];
    let bytes = encode_datafile(&header(), &tables, &data);
    let hlen = 22 + 4 + 8 + 5;
    assert_eq!(&bytes[..22], b"QAR_Decoded_DATA_V1.0\0");
    assert_eq!(&bytes[22..26], &(hlen as u32).to_le_bytes());
    let total: usize = 4 + tables.iter().map(|t| t.length()).sum::<usize>();
    assert_eq!(&bytes[hlen..hlen + 4], &(total as u32).to_le_bytes());
    // the first entry points at the first data block
    let first = &bytes[hlen + 4..];
    assert_eq!(&first[2..10], &((hlen + total) as u64).to_le_bytes());
    assert_eq!(bytes.len(), hlen + total + 5);
    let (h, ts, ds) = parse_datafile(&bytes).unwrap();
    assert_eq!(h.header_size as usize, hlen);
    assert_eq!(h.meta, "{\"a\":1}");
    assert_eq!(h.description, "desc");
    assert_eq!(ts.len(), 3);
    for (i, t) in ts.iter().enumerate() {
        assert_eq!(t.data_point, i as u64);
        assert_eq!(t.name, tables[i].name);
        assert_eq!(t.data_size, tables[i].data_size);
    }
    assert_eq!(ds, data);
}

#[test]
fn datafile_without_parameters_fails() {
    let bytes = encode_datafile(&header(), &vec![], &vec![]);
    assert_eq!(parse_datafile(&bytes).err(), Some(DataFileError::SizeUnderflow));
}

#[test]
fn datafile_errors() {
    assert_eq!(parse_datafile(&[0u8; 10]).err(), Some(DataFileError::UnexpectedEof));
    assert_eq!(parse_datafile(&[0u8; 30]).err(), Some(DataFileError::BadTag));
    let mut b = b"QAR_Decoded_DATA_V1.0\0".to_vec();
    b.extend_from_slice(&10u32.to_le_bytes());
    assert_eq!(parse_datafile(&b).err(), Some(DataFileError::SizeUnderflow));
    let mut b = b"QAR_Decoded_DATA_V1.0\0".to_vec();
    b.extend_from_slice(&100u32.to_le_bytes());
    assert_eq!(parse_datafile(&b).err(), Some(DataFileError::UnexpectedEof));
    // a data block that runs past the end
    let tables = vec![entry("A", 3)];
    let bytes = encode_datafile(&header(), &tables, &vec![vec![1u8, 2, 3]]);
    assert_eq!(parse_datafile(&bytes[..bytes.len() - 1]).err(), Some(DataFileError::UnexpectedEof));
}

#[test]
fn writer_ignores_sizes_and_positions() {
    let t1 = vec![entry("A", 3), entry("B", 1)];
    let mut t2 = t1.iter().map(|t| {
        let mut c = entry(&t.name, t.data_size);
        c.data_point = 12345;
        c
    }).collect::<Vec<_>>();
    t2[1].data_point = 7;
    let data = vec![vec![1u8, 2, 3], vec![4u8]];
    let mut h2 = header();
    h2.header_size = 999;
    assert_eq!(encode_datafile(&header(), &t1, &data), encode_datafile(&h2, &t2, &data));
}

#[test]
fn entry_size_matches_bytes() {
    let t = entry("some name", 0);
    let mut out = Vec::new();
    t.serialize(&mut out);
    assert_eq!(t.length(), 22 + t.name.len() + t.compress.len() + t.data_type.len() + t.info.len() + 4);
    assert_eq!(t.length(), out.len());
}
