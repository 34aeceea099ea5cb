//! Failures the core reports loudly rather than swallowing.
use vstd::prelude::*;
use vstd::string::*;

verus! {

/// Why a crossing was refused.
#[derive(Debug, Clone, Copy, PartialEq, Eq, Structural)]
pub enum CrossError {
    /// The crossing has not been made passable yet — there is nothing safe to
    /// cross. In Zone A, Donna has not steadied it.
    BridgeUnstable,
}

impl CrossError {
    /// The human-readable description of this refusal.
    pub fn message(&self) -> (s: String)
        ensures
            s@ == "the crossing has not been made passable"@,
    {
        match self {
            CrossError::BridgeUnstable => String::from_str("the crossing has not been made passable"),
        }
    }
}

} // verus!
