use qar_decode::cli::args_bitstream::Args;
use qar_decode::prm_conf320::RecFormat;

#[test]
fn bitstream_options_hold_their_values() {
    let a = Args {
        bin_name: "scan".to_string(),
        help: false,
        help2: false,
        rawfile: "raw.dat".to_string(),
        rawlen: 50000,
        move_left: false,
        high_first: true,
        no_align: false,
        cmd: String::new(),
    };
    assert_eq!(a.rawlen, 50000);
    assert!(a.high_first);
}

#[test]
fn record_formats_compare() {
    assert!(RecFormat::BNR == RecFormat::BNR);
    assert!(RecFormat::BCD != RecFormat::_DIS);
}
