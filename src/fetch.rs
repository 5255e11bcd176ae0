use vstd::prelude::*;

verus! {

/// A request for data from the service failed, in transport or in decoding.
#[derive(PartialEq, Eq, Structural, Clone, Copy, Debug)]
pub struct FetchError;

} // verus!
