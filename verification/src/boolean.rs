//! Boolean operations on the areas paths cover.
use vstd::prelude::*;

verus! {

/// Which boolean operation combines two areas.
#[derive(Clone, Copy, Debug, PartialEq, Eq, Structural)]
pub enum BooleanOp {
    /// Everything either path covers.
    Union,
    /// What both paths cover.
    Intersect,
    /// What the first path covers and the second does not.
    Difference,
    /// What exactly one of the paths covers.
    Xor,
}

} // verus!
