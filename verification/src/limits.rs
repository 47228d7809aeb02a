//! Shared size ceilings.

use vstd::prelude::*;

verus! {

/// The largest serialized document, in bytes, that the editor loads or
/// produces: 64 MiB.
pub const MAX_DOCUMENT_BYTES: usize = 67_108_864;

} // verus!
