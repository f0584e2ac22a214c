//! Record formats of the built-in parameter configuration of the scripting
//! program.

use vstd::prelude::*;

verus! {

/// Record format of a parameter.
#[allow(non_camel_case_types)]
pub enum RecFormat {
    BNR,
    BCD,
    DIS,
    _ISO,
    _BINGMT,
}

} // verus!
