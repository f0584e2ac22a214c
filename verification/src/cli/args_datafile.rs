//! Options of the data-file scripting program.

use vstd::prelude::*;

verus! {

/// Options of the data-file scripting program.
pub struct Args {
    /// Name of the running program.
    pub bin_name: String,
    /// `-h`: short help.
    pub help: bool,
    /// `--help`: detailed help.
    pub help2: bool,
    /// `--mem`: show the memory used.
    pub mem: bool,
    /// `--luahelp`: show the functions that scripts can call.
    pub luahelp: bool,
    /// `-f`: the data file to read (default "").
    pub infile: String,
    /// `-w`: the data file to write (default "").
    pub outfile: String,
    /// `-l`, `--lua`: the script to run (default "").
    pub luafile: String,
    /// The first free argument (default "").
    pub cmd: String,
}

} // verus!
