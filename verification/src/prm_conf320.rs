//! Record formats of the built-in A320 parameter configuration.

use vstd::prelude::*;

verus! {

/// Record format of a parameter.
#[allow(non_camel_case_types)]
#[derive(PartialEq, Eq, Structural)]
pub enum RecFormat {
    BNR,
    BCD,
    _DIS,
    _ISO,
    _BINGMT,
}

} // verus!
