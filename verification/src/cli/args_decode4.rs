//! Options of the single-parameter decoders.

use vstd::prelude::*;

verus! {

/// Options of the single-parameter decoders.
pub struct Args {
    /// Name of the running program.
    pub bin_name: String,
    /// `-h`: short help.
    pub help: bool,
    /// `--help`: detailed help.
    pub help2: bool,
    /// `--mem`: show the memory used.
    pub mem: bool,
    /// `-r`: the raw recording (default "data/raw.dat").
    pub rawfile: String,
    /// `-w`: the CSV file to write (default "data/output_data.csv").
    pub csvfile: String,
    /// The first free argument: which parameter (default "").
    pub cmd: String,
}

} // verus!
