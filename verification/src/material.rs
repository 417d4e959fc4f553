//! Material handles.  Materials themselves (their stochastic scatter
//! rules) are collaborators outside the geometric core: a hit record
//! carries only an opaque numeric handle that the shading code maps to
//! whatever material implementation it keeps.

use vstd::prelude::*;

verus! {

/// The handle reserved for "no material": freshly made hit records
/// carry it until a surface overwrites it.
pub const EMPTY_MAT: u64 = 0;

/// The placeholder material every record starts out with.
#[derive(Clone, Copy, PartialEq, Eq, Structural, Debug)]
pub struct EmptyMaterial {}

impl EmptyMaterial {
    /// The handle this material answers to.
    pub fn handle(&self) -> (h: u64)
        ensures
            h == EMPTY_MAT,
    {
        EMPTY_MAT
    }
}

} // verus!
