//! Construction failure reporting.

use vstd::prelude::*;

verus! {

/// The bounded randomized retries of a builder were exhausted without
/// placing every key.  This is not expected for deduplicated key sets at
/// reasonable parameters; duplicate keys, which collide at every level and
/// under every pilot, eventually surface as this error.
#[derive(Clone, Copy, Debug, PartialEq, Eq, Structural)]
pub enum MphfError {
    ConstructionExhausted,
}

impl MphfError {
    /// Short description, in place of a `Display` implementation.
    pub fn describe(&self) -> (r: &'static str) {
        "construction exhausted its retry budget"
    }
}

} // verus!
