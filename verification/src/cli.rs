//! The command-line options of the programs built on this library.

pub mod args_aligned;
pub mod args_bitstream;
pub mod args_datafile;
pub mod args_decode4;
pub mod args_decode8;
