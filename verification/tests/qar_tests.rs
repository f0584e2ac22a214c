use qar_decode::datafile::{encode_datafile, parse_datafile, OneParamTable, PrmHeader};
use qar_decode::qar::{
    classify_values, pack_param, ParamValues, Qar, QarError, ScriptItem, ScriptKind, ScriptValues, SetValues, StoreKind,
};

fn empty_qar() -> Qar {
    Qar::new(PrmHeader { header_size: 0, meta: "{}".to_string(), description: "d".to_string() }, vec![], vec![])
}

#[test]
fn meta_get_and_set() {
    let mut q = empty_qar();
    assert_eq!(q.get_meta(), "{}");
    q.set_meta("{\"x\":2}".to_string());
    assert_eq!(q.get_meta(), "{\"x\":2}");
    assert_eq!(q.PrmHeader.description, "d");
}

#[test]
fn set_then_get_int_values() {
    let mut q = empty_qar();
    let r = q.set_param("ALT".to_string(), None, SetValues::Int { vals: vec![1, -2, 300000], rate: 4, start_frameid: 2.0f32.to_bits() });
    assert_eq!(r, Ok(1));
    assert_eq!(q.get_param_num(), 1);
    let t = &q.PrmTable[0];
    assert_eq!(t.compress, "bzip2");
    assert_eq!(t.data_type, "int");
    assert_eq!(t.info, "{}");
    assert_eq!(t.val_size, 4);
    assert_eq!(t.rate, 4);
    assert_eq!(t.selfsize as usize, t.length());
    assert_eq!(t.data_size as usize, q.PrmData[0].len());
    let d = q.get_param(&"ALT".to_string()).unwrap().unwrap();
    assert_eq!(d.rate, 4);
    assert_eq!(f32::from_bits(d.start_frameid), 2.0);
    assert_eq!(d.data_type, "int");
    match d.values {
        ParamValues::Int(v) => assert_eq!(v, vec![1, -2, 300000]),
        _ => panic!("expected int values"),
    }
}

#[test]
fn set_then_get_float_and_text_values() {
    let mut q = empty_qar();
    let bits: Vec<u32> = vec![1.5f32.to_bits(), (-0.25f32).to_bits()];
    assert_eq!(q.set_param("P".to_string(), Some("{\"u\":1}".to_string()), SetValues::Float { bits: bits.clone(), rate: -2, start_frameid: 0 }), Ok(2));
    assert_eq!(q.set_param("S".to_string(), None, SetValues::Text("hello".to_string())), Ok(3));
    match q.get_param(&"P".to_string()).unwrap().unwrap().values {
        ParamValues::Float(v) => assert_eq!(v, bits),
        _ => panic!("expected float values"),
    }
    let s = q.get_param(&"S".to_string()).unwrap().unwrap();
    assert_eq!(s.data_type, "str");
    assert_eq!(s.rate, 0);
    assert_eq!(q.PrmTable[1].val_size, 0);
    match s.values {
        ParamValues::Text(v) => assert_eq!(v, b"hello".to_vec()),
        _ => panic!("expected text"),
    }
    assert_eq!(
        q.get_param_list(),
        vec![("P".to_string(), "{\"u\":1}".to_string()), ("S".to_string(), "{}".to_string())]
    );
}

#[test]
fn set_replaces_first_entry_of_a_name() {
    let mut q = empty_qar();
    q.set_param("A".to_string(), Some("i".to_string()), SetValues::Int { vals: vec![7], rate: 1, start_frameid: 0 }).unwrap();
    q.set_param("B".to_string(), None, SetValues::Int { vals: vec![8], rate: 1, start_frameid: 0 }).unwrap();
    assert_eq!(q.set_param("A".to_string(), None, SetValues::Text("t".to_string())), Ok(3));
    assert_eq!(q.get_param_num(), 2);
    let a = q.get_param(&"A".to_string()).unwrap().unwrap();
    assert_eq!(a.info, "i");
    assert_eq!(a.rate, 1);
    match a.values {
        ParamValues::Text(v) => assert_eq!(v, b"t".to_vec()),
        _ => panic!("expected text"),
    }
    assert_eq!(q.PrmTable[1].name, "B");
}

#[test]
fn empty_name_changes_nothing() {
    let mut q = empty_qar();
    assert_eq!(q.set_param(String::new(), None, SetValues::Text("x".to_string())), Ok(-1));
    assert_eq!(q.get_param_num(), 0);
    assert_eq!(q.del_param(&String::new()), -1);
}

#[test]
fn delete_parameters() {
    let mut q = empty_qar();
    q.set_param("A".to_string(), None, SetValues::Text("a".to_string())).unwrap();
    q.set_param("B".to_string(), None, SetValues::Text("b".to_string())).unwrap();
    assert_eq!(q.del_param(&"A".to_string()), 1);
    assert_eq!(q.del_param(&"A".to_string()), -2);
    assert_eq!(q.get_param_num(), 1);
    assert_eq!(q.PrmData.len(), 1);
    assert!(q.get_param(&"A".to_string()).unwrap().is_none());
    assert!(q.get_param(&"B".to_string()).unwrap().is_some());
}

#[test]
fn read_errors() {
    let mut q = empty_qar();
    q.set_param("A".to_string(), None, SetValues::Text("abc".to_string())).unwrap();
    q.PrmTable[0].data_type = "float".to_string();
    assert_eq!(q.get_param(&"A".to_string()).err(), Some(QarError::BadLength));
    q.PrmData[0] = b"not a bzip2 stream".to_vec();
    assert_eq!(q.get_param(&"A".to_string()).err(), Some(QarError::Decompress));
    assert!(q.find_param(&"A".to_string()) == Some(0));
    assert!(q.find_param(&"Z".to_string()).is_none());
}

#[test]
fn packed_parameter_reads_back() {
    let (t, block) = pack_param("N1".to_string(), "{}".to_string(), &ParamValues::Int(vec![5, -6]), -4, 3.0f32.to_bits()).unwrap();
    assert_eq!(t.name, "N1");
    assert_eq!(t.data_type, "int");
    assert_eq!(t.compress, "bzip2");
    assert_eq!(t.val_size, 4);
    assert_eq!(t.rate, -4);
    assert_eq!(t.data_point, 0);
    assert_eq!(t.data_size as usize, block.len());
    assert_eq!(t.selfsize as usize, t.length());
    assert_ne!(block, vec![5u8, 0, 0, 0, 0xFA, 0xFF, 0xFF, 0xFF]);
    let (t2, block2) = pack_param("S".to_string(), "{}".to_string(), &ParamValues::Text(b"[[0.0,\"x\"]]".to_vec()), 1, 0).unwrap();
    assert_eq!(t2.val_size, 0);
    assert_eq!(t2.data_type, "str");
    let q = Qar::new(PrmHeader { header_size: 0, meta: "{}".to_string(), description: String::new() }, vec![t, t2], vec![block, block2]);
    match q.get_param(&"N1".to_string()).unwrap().unwrap().values {
        ParamValues::Int(v) => assert_eq!(v, vec![5, -6]),
        _ => panic!("expected int values"),
    }
    match q.get_param(&"S".to_string()).unwrap().unwrap().values {
        ParamValues::Text(v) => assert_eq!(v, b"[[0.0,\"x\"]]".to_vec()),
        _ => panic!("expected text"),
    }
}

#[test]
fn file_roundtrip_keeps_values() {
    let mut q = empty_qar();
    q.set_param("V".to_string(), None, SetValues::Float { bits: vec![0x3f80_0000, 0x4000_0000], rate: 8, start_frameid: 0 }).unwrap();
    let bytes = encode_datafile(&q.PrmHeader, &q.PrmTable, &q.PrmData);
    let (h, ts, ds) = parse_datafile(&bytes).unwrap();
    let back: Vec<OneParamTable> = ts;
    let q2 = Qar::new(h, back, ds);
    match q2.get_param(&"V".to_string()).unwrap().unwrap().values {
        ParamValues::Float(v) => assert_eq!(v, vec![0x3f80_0000, 0x4000_0000]),
        _ => panic!("expected float values"),
    }
}

#[test]
fn set_then_delete_new_name_restores_file() {
    let mut q = empty_qar();
    q.set_param("A".to_string(), None, SetValues::Int { vals: vec![1], rate: 1, start_frameid: 0 }).unwrap();
    let names_before: Vec<String> = q.PrmTable.iter().map(|t| t.name.clone()).collect();
    let data_before = q.PrmData.clone();
    q.set_param("NEW".to_string(), None, SetValues::Text("x".to_string())).unwrap();
    assert_eq!(q.get_param_num(), 2);
    assert_eq!(q.del_param(&"NEW".to_string()), 1);
    let names_after: Vec<String> = q.PrmTable.iter().map(|t| t.name.clone()).collect();
    assert_eq!(names_after, names_before);
    assert_eq!(q.PrmData, data_before);
}

#[test]
fn classify_script_values() {
    let item = |first, second| ScriptItem { is_table: true, first, second };
    assert_eq!(classify_values(false, &ScriptValues::Text), Err((-2, 0)));
    assert_eq!(classify_values(true, &ScriptValues::Other), Err((-3, 0)));
    assert_eq!(classify_values(true, &ScriptValues::Text), Ok(StoreKind::Text));
    assert_eq!(classify_values(true, &ScriptValues::Items(vec![])), Ok(StoreKind::Text));
    let ints = vec![item(ScriptKind::Integer, ScriptKind::Integer), item(ScriptKind::Number, ScriptKind::Boolean)];
    assert_eq!(classify_values(true, &ScriptValues::Items(ints)), Ok(StoreKind::Int));
    let mixed = vec![item(ScriptKind::Integer, ScriptKind::Number), item(ScriptKind::Integer, ScriptKind::Integer)];
    assert_eq!(classify_values(true, &ScriptValues::Items(mixed)), Ok(StoreKind::Float));
    let not_table = vec![item(ScriptKind::Integer, ScriptKind::Integer), ScriptItem { is_table: false, first: ScriptKind::Other, second: ScriptKind::Other }];
    assert_eq!(classify_values(true, &ScriptValues::Items(not_table)), Err((-4, 2)));
    let bad_time = vec![item(ScriptKind::Text, ScriptKind::Integer)];
    assert_eq!(classify_values(true, &ScriptValues::Items(bad_time)), Err((-5, 1)));
    let bad_value = vec![item(ScriptKind::Integer, ScriptKind::Number), item(ScriptKind::Integer, ScriptKind::Text)];
    assert_eq!(classify_values(true, &ScriptValues::Items(bad_value)), Err((-6, 2)));
}
