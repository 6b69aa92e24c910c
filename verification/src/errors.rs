use vstd::prelude::*;

verus! {

/// The two failure kinds the store distinguishes: a host file-system
/// failure, and a file name whose stem is not a decimal number.
#[derive(Clone, Copy, Debug, PartialEq, Eq, Structural)]
pub enum BitCaskError {
    IoError,
    ParseError,
}

} // verus!
