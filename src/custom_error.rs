use vstd::prelude::*;

verus! {

/// The error type of the analysis, under the name its callers use.
pub type CustomError = crate::error::Error;

} // verus!
