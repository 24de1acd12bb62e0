//! How a path is stroked: the shapes of its ends and corners.
use vstd::prelude::*;

verus! {

/// How the ends of open subpaths are drawn, as SVG's `stroke-linecap`.
#[derive(Clone, Copy, Debug, PartialEq, Eq, Structural)]
pub enum LineCap {
    /// The stroke stops square at the end. SVG's default.
    Butt,
    /// A half circle beyond the end.
    Round,
    /// Half a square beyond the end.
    Square,
}

impl Default for LineCap {
    /// SVG's default, butt caps.
    fn default() -> (cap: Self)
        ensures
            cap == LineCap::Butt,
    {
        LineCap::Butt
    }
}

/// How the corners where segments meet are drawn, as SVG's
/// `stroke-linejoin`.
#[derive(Clone, Copy, Debug, PartialEq, Eq, Structural)]
pub enum LineJoin {
    /// The outer edges run on until they meet, unless that is further than
    /// the miter limit allows, when the corner is beveled. SVG's default.
    Miter,
    /// A circular arc round the corner.
    Round,
    /// A straight line across the corner.
    Bevel,
}

impl Default for LineJoin {
    /// SVG's default, miter joins.
    fn default() -> (join: Self)
        ensures
            join == LineJoin::Miter,
    {
        LineJoin::Miter
    }
}

} // verus!
