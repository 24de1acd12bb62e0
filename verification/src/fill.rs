//! Fill rules: which points a path covers, from how it winds round them.
use vstd::prelude::*;

verus! {

/// How a path's inside is decided, as SVG's `fill-rule` does.
#[derive(Clone, Copy, Debug, PartialEq, Eq, Structural)]
pub enum FillRule {
    /// Inside when the path winds around the point in total, counting
    /// clockwise and counterclockwise turns against each other. SVG's
    /// default.
    NonZero,
    /// Inside when a ray from the point crosses the path an odd number of
    /// times.
    EvenOdd,
}

impl Default for FillRule {
    /// SVG's default, nonzero.
    fn default() -> (rule: Self)
        ensures
            rule == FillRule::NonZero,
    {
        FillRule::NonZero
    }
}

impl FillRule {
    /// Whether a point the path winds round `winding` times is inside.
    pub open spec fn spec_fills(self, winding: int) -> bool {
        match self {
            FillRule::NonZero => winding != 0,
            FillRule::EvenOdd => winding % 2 != 0,
        }
    }

    /// Whether a point the path winds round `winding` times, counting
    /// clockwise turns against counterclockwise ones, is inside under this
    /// rule.
    pub fn fills(self, winding: i32) -> (inside: bool)
        ensures
            inside == self.spec_fills(winding as int),
    {
        match self {
            FillRule::NonZero => winding != 0,
            FillRule::EvenOdd => {
                let odd = winding % 2 != 0;
                proof {
                    // Rust's remainder keeps the sign of the winding; its
                    // parity is that of the Euclidean one.
                    assert((winding % 2 != 0) == ((winding as int) % 2 != 0)) by (bit_vector);
                }
                odd
            },
        }
    }
}

/// Whatever the rule, a point the path does not wind round is outside, and
/// one it winds round once is inside; the rules differ only on points it
/// winds round an even number of times.
pub proof fn fill_rules_agree_on_odd_windings(winding: int)
    ensures
        !FillRule::NonZero.spec_fills(0) && !FillRule::EvenOdd.spec_fills(0),
        winding % 2 != 0 ==> FillRule::NonZero.spec_fills(winding) && FillRule::EvenOdd.spec_fills(
            winding,
        ),
        winding != 0 && winding % 2 == 0 ==> FillRule::NonZero.spec_fills(winding)
            && !FillRule::EvenOdd.spec_fills(winding),
{
}

} // verus!
