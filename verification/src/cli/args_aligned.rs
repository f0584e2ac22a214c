//! Options of the aligned-recording scanner.

use vstd::prelude::*;

verus! {

/// Options of the aligned-recording scanner.
pub struct Args {
    /// `-h`: short help.
    pub help: bool,
    /// `--help`: detailed help.
    pub help2: bool,
    /// `-f`: the raw recording (default "data/raw.dat").
    pub rawfile: String,
    /// The first free argument (default "").
    pub cmd: String,
}

} // verus!
