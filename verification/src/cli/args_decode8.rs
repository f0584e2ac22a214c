//! Options of the configuration-driven decoder.

use vstd::prelude::*;

verus! {

/// Options of the configuration-driven decoder.
pub struct Args {
    /// Name of the running program.
    pub bin_name: String,
    /// `-h`: short help.
    pub help: bool,
    /// `--help`: detailed help.
    pub help2: bool,
    /// `--mem`: show the memory used.
    pub mem: bool,
    /// `-j`, `--json`: the configuration file (default "prm_conf320.json").
    pub json: String,
    /// `-p`, `--param`: the parameter to decode (default "").
    pub param: String,
    /// `-l`, `--paramlist`: list the configured parameters.
    pub paramlist: bool,
    /// `-a`, `--all`: decode every parameter into a data file.
    pub allparam: bool,
    /// `-r`: the raw recording (default "").
    pub rawfile: String,
    /// `-w`: the output file (default "data/output_data.csv").
    pub outfile: String,
    /// `--show`: show the description of the data-file format.
    pub custom_detail: bool,
    /// The first free argument (default "").
    pub cmd: String,
}

} // verus!
