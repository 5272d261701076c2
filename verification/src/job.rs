//! Identifiers of stored payloads.

use vstd::prelude::*;

verus! {

/// The number under which a body is stored.
#[derive(Debug, Clone, Copy, PartialEq, Eq, Structural, Hash)]
pub struct BodyId(pub u64);

} // verus!
