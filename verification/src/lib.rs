#![allow(non_snake_case)]
//! Decoding of ARINC 717 flight-data recordings: frame synchronisation,
//! bit-field extraction, parameter decoding and the binary data-file format
//! that holds decoded parameters.

pub mod aligned;
pub mod bitstream;
pub mod bytes;
pub mod cli;
pub mod compress;
pub mod config;
pub mod datafile;
pub mod decode;
pub mod prm_conf320;
pub mod prm_conf6;
pub mod qar;
pub mod dword;
pub mod info;
pub mod sync;
pub mod values;
