use qar_decode::values::{bcd_decode, char_decode, conversion_fits, convert_value, rec_format_class, FormatClass, SampleValue};

#[test]
fn record_format_classes() {
    assert!(matches!(rec_format_class(&"BCD".to_string()), FormatClass::Bcd));
    assert!(matches!(rec_format_class(&"ISO5".to_string()), FormatClass::Chars));
    assert!(matches!(rec_format_class(&"ISO".to_string()), FormatClass::Chars));
    assert!(matches!(rec_format_class(&"CHAR8".to_string()), FormatClass::Chars));
    assert!(matches!(rec_format_class(&"UTC".to_string()), FormatClass::Utc));
    assert!(matches!(rec_format_class(&"BNR".to_string()), FormatClass::Numeric));
    assert!(matches!(rec_format_class(&"DIS".to_string()), FormatClass::Numeric));
    assert!(matches!(rec_format_class(&"BCDX".to_string()), FormatClass::Numeric));
    assert!(matches!(rec_format_class(&"CHA".to_string()), FormatClass::Numeric));
}

#[test]
fn bcd_digits_least_significant_last() {
    assert_eq!(bcd_decode(&vec![4, 4], 0x25), 25);
    assert_eq!(bcd_decode(&vec![2, 4, 4], 0x3_59), 359);
    assert_eq!(bcd_decode(&vec![], 0x7fff), 0);
    // a digit wider than its decimal range keeps its binary value
    assert_eq!(bcd_decode(&vec![4, 4], 0x1F), 25);
}

#[test]
fn char_codes_first_character_lowest() {
    let d = ((b'B' as i32) << 7) | (b'A' as i32);
    assert_eq!(char_decode(&vec![7, 7], d), vec![b'A', b'B']);
    assert_eq!(char_decode(&vec![], d), Vec::<u8>::new());
}

#[test]
fn convert_each_class() {
    assert!(matches!(convert_value(&FormatClass::Numeric, &vec![], -7), SampleValue::Number(-7)));
    assert!(matches!(convert_value(&FormatClass::Bcd, &vec![4, 4], 0x42), SampleValue::Number(42)));
    let v = (1 << 12) | (2 << 6) | 3;
    assert!(matches!(convert_value(&FormatClass::Utc, &vec![], v), SampleValue::Utc { hh: 1, mm: 2, ss: 3 }));
    match convert_value(&FormatClass::Chars, &vec![8], 0x41) {
        SampleValue::Text(t) => assert_eq!(t, vec![0x41]),
        _ => panic!("expected text"),
    }
}

#[test]
fn conversion_checks() {
    assert!(conversion_fits(&FormatClass::Bcd, &vec![4; 9]));
    // ten 4-bit digits may reach 16666666665, past i32::MAX
    assert!(!conversion_fits(&FormatClass::Bcd, &vec![4; 10]));
    assert!(!conversion_fits(&FormatClass::Bcd, &vec![4; 11]));
    assert!(!conversion_fits(&FormatClass::Bcd, &vec![31]));
    assert!(conversion_fits(&FormatClass::Chars, &vec![30, 7]));
    assert!(!conversion_fits(&FormatClass::Chars, &vec![31]));
    assert!(conversion_fits(&FormatClass::Numeric, &vec![99]));
    assert!(conversion_fits(&FormatClass::Utc, &vec![]));
}
