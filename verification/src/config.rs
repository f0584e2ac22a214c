//! Decoding configuration of a recorded parameter.

use vstd::prelude::*;

verus! {

/// Where and how one recorded parameter is stored in the frames.
///
/// `words` holds one location list per sample of a subframe; each list is a
/// sequence of six-number bit groups
/// `[superframe, subframe, word, lsb, msb, targetBit]` (superframe 0: not a
/// superframe parameter; subframe 0: every subframe; targetBit 0: the default
/// concatenation).  The linear conversion coefficients of the configuration
/// are floating-point numbers and are applied outside this library.
pub struct Param {
    pub words: Vec<Vec<usize>>,
    pub superframe: usize,
    /// Whether the highest bit of the concatenated groups is a sign bit.
    pub signed: bool,
    /// The record format: "BNR", "BCD", "DIS", "UTC", "ISO...", "CHAR...", ...
    pub RecFormat: String,
    /// Bit widths of the digits (BCD) or characters (ISO, CHAR), most
    /// significant first.
    pub ConvConfig: Vec<u8>,
    pub Unit: String,
    pub LongName: String,
    /// The enumerated values of a discrete (DIS) parameter.
    pub Options: Vec<(i16, String)>,
}

/// The value that a configuration without `Options` gets: no options.
pub fn default_options() -> (r: Vec<(i16, String)>)
    ensures
        r@.len() == 0,
{
    Vec::new()
}

} // verus!
