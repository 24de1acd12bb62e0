//! Turning subpaths so that outlines run one way and their holes the other.
use vstd::prelude::*;

use crate::fill::FillRule;

verus! {

/// Which way a subpath runs, by the sign of the area it encloses.
#[derive(Clone, Copy, Debug, PartialEq, Eq, Structural)]
pub enum Direction {
    /// Clockwise on screen: a positive area.
    Clockwise,
    /// Counterclockwise on screen: a negative area.
    Counterclockwise,
    /// A subpath that encloses no area, as a line.
    Flat,
}

/// What [`reorient`] needs to know of a subpath.
#[derive(Clone, Debug)]
pub struct SubpathShape {
    /// Which way it runs.
    pub direction: Direction,
    /// For each other subpath, whether it encloses this one: has a larger
    /// area and a point inside this one, away from its outline, lies inside
    /// it.
    pub enclosed_by: Vec<bool>,
}

/// How many of `flags` are set.
pub open spec fn count_true(flags: Seq<bool>) -> nat
    decreases flags.len(),
{
    if flags.len() == 0 {
        0
    } else {
        count_true(flags.drop_last()) + if flags.last() {
            1nat
        } else {
            0nat
        }
    }
}

/// How many subpaths enclose a subpath, as the even-odd fill rule counts
/// them: even for an outline, odd for a hole.
pub open spec fn depth(shape: SubpathShape) -> nat {
    count_true(shape.enclosed_by@)
}

/// Which way a subpath should run: outlines clockwise when `clockwise`,
/// the holes in them the other way, and so on.
pub open spec fn wants_clockwise(shape: SubpathShape, clockwise: bool) -> bool {
    clockwise == (depth(shape) % 2 == 0)
}

/// Which way a subpath runs once it is reversed or not.
pub open spec fn runs_clockwise(direction: Direction, reversed: bool) -> bool {
    (direction == Direction::Clockwise) != reversed
}

fn count_enclosing(enclosed_by: &Vec<bool>) -> (count: usize)
    ensures
        count == count_true(enclosed_by@),
{
    let mut count: usize = 0;
    let mut j: usize = 0;
    while j < enclosed_by.len()
        invariant
            j <= enclosed_by.len(),
            count == count_true(enclosed_by@.subrange(0, j as int)),
            count <= j,
        decreases enclosed_by.len() - j,
    {
        assert(enclosed_by@.subrange(0, j + 1).drop_last() =~= enclosed_by@.subrange(0, j as int));
        if enclosed_by[j] {
            count += 1;
        }
        j += 1;
    }
    assert(enclosed_by@.subrange(0, enclosed_by.len() as int) =~= enclosed_by@);
    count
}

/// Decides which subpaths to reverse so that outlines run clockwise on
/// screen when `clockwise` is true, counterclockwise otherwise, the holes
/// in them the other way, the outlines inside those holes the way of the
/// outlines, and so on.
///
/// Whether a subpath is an outline or a hole depends on how many others
/// enclose it, as the even-odd fill rule counts them. So the result fills
/// with SVG's default nonzero rule what the path filled with the even-odd
/// rule, and fills the same with both. A subpath that encloses no area is
/// kept as it is. Returns, for each subpath, whether to reverse it.
pub fn reorient(shapes: &Vec<SubpathShape>, clockwise: bool) -> (reverse: Vec<bool>)
    ensures
        reverse@.len() == shapes@.len(),
        forall|i: int|
            0 <= i < shapes@.len() ==> {
                &&& shapes@[i].direction == Direction::Flat ==> !#[trigger] reverse@[i]
                &&& shapes@[i].direction != Direction::Flat ==> runs_clockwise(
                    shapes@[i].direction,
                    reverse@[i],
                ) == wants_clockwise(shapes@[i], clockwise)
            },
{
    let mut reverse: Vec<bool> = Vec::new();
    let mut i: usize = 0;
    while i < shapes.len()
        invariant
            i <= shapes.len(),
            reverse@.len() == i,
            forall|k: int|
                0 <= k < i ==> {
                    &&& shapes@[k].direction == Direction::Flat ==> !#[trigger] reverse@[k]
                    &&& shapes@[k].direction != Direction::Flat ==> runs_clockwise(
                        shapes@[k].direction,
                        reverse@[k],
                    ) == wants_clockwise(shapes@[k], clockwise)
                },
        decreases shapes.len() - i,
    {
        let shape = &shapes[i];
        let flip = match shape.direction {
            Direction::Flat => false,
            direction => {
                let depth = count_enclosing(&shape.enclosed_by);
                let wanted = clockwise != (depth % 2 == 1);
                let is_clockwise = matches!(direction, Direction::Clockwise);
                is_clockwise != wanted
            },
        };
        reverse.push(flip);
        i += 1;
    }
    reverse
}

/// How many times `depth` nested subpaths, turned as [`reorient`] turns
/// them, wind round a point inside all of them: each runs the way its depth
/// wants, clockwise counting one way and counterclockwise the other.
pub open spec fn nested_winding(depth: nat, clockwise: bool) -> int
    decreases depth,
{
    if depth == 0 {
        0
    } else {
        nested_winding((depth - 1) as nat, clockwise) + if clockwise == ((depth - 1) as int % 2
            == 0) {
            1int
        } else {
            -1int
        }
    }
}

proof fn lemma_nested_winding(depth: nat, clockwise: bool)
    ensures
        nested_winding(depth, clockwise) == if depth % 2 == 1 {
            if clockwise {
                1int
            } else {
                -1int
            }
        } else {
            0int
        },
    decreases depth,
{
    if depth > 0 {
        lemma_nested_winding((depth - 1) as nat, clockwise);
    }
}

/// Once outlines and holes run opposite ways, a point inside `depth`
/// nested subpaths is filled under the nonzero rule exactly when it is
/// filled under the even-odd rule, whichever way outlines run.
pub proof fn reoriented_fill_rules_agree(depth: nat, clockwise: bool)
    ensures
        FillRule::NonZero.spec_fills(nested_winding(depth, clockwise)) == FillRule::EvenOdd.spec_fills(
            depth as int,
        ),
        FillRule::EvenOdd.spec_fills(nested_winding(depth, clockwise)) == FillRule::EvenOdd.spec_fills(
            depth as int,
        ),
{
    lemma_nested_winding(depth, clockwise);
}

} // verus!
