//! The registry's single failure.

use vstd::prelude::*;

verus! {

/// Why a registry operation was refused.
#[derive(Debug, Clone, Copy, PartialEq, Eq, Structural)]
pub enum SubListError {
    /// A queue subscription was to be removed, but its subject has no queue
    /// groups or no group of that name.
    SubscriptionNotFound,
}

} // verus!
