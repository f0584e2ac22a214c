//! Options of the bitstream-recording scanner.

use vstd::prelude::*;

verus! {

/// Options of the bitstream-recording scanner.
pub struct Args {
    /// Name of the running program.
    pub bin_name: String,
    /// `-h`: short help.
    pub help: bool,
    /// `--help`: detailed help.
    pub help2: bool,
    /// `-f`: the raw recording (default "").
    pub rawfile: String,
    /// `-c`: number of 12-bit words to scan, 0 for all (default 50000).
    pub rawlen: usize,
    /// `--left`: shift bits into a word from the right.
    pub move_left: bool,
    /// `--high`: read the bits of a byte from bit 7 down.
    pub high_first: bool,
    /// `--noalign`: report synchronisation words at every bit position.
    pub no_align: bool,
    /// The first free argument (default "").
    pub cmd: String,
}

} // verus!
