//! The integers by which setup keys and host callables are told apart.

use vstd::prelude::*;

verus! {

/// Identity of one setup key: two keys are the same milestone iff their ids
/// are equal.
pub type KeyId = u64;

/// Handle of a registered provider body, as the host hands it out.
pub type ProviderId = u64;

/// Handle of a registered progress checker, as the host hands it out.
pub type ProgressCheckerId = u64;

/// Handle of the completion callback, as the host hands it out.
pub type CallbackId = u64;

} // verus!
