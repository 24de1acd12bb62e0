//! What a segment depends on besides its own numbers.
use vstd::prelude::*;

use crate::command::{Command, Segment};

verus! {

/// Where the first control point of a smooth curve (`S`/`T`) comes from.
#[derive(Clone, Copy, Debug, PartialEq, Eq, Structural)]
pub enum ImpliedControl {
    /// The previous segment's control point, reflected about the start.
    Reflected,
    /// The start itself, since the previous segment is not a curve of the
    /// same kind.
    Start,
}

/// Where a segment's implied control point comes from, after `previous`:
/// `None` for every segment but a smooth curve or smooth quadratic.
pub open spec fn spec_implied_control(previous: Option<Segment>, segment: Segment) -> Option<
    ImpliedControl,
> {
    match segment.command {
        Command::SmoothCurveTo => Some(
            match previous {
                Some(p) => if p.command == Command::CurveTo || p.command == Command::SmoothCurveTo {
                    ImpliedControl::Reflected
                } else {
                    ImpliedControl::Start
                },
                None => ImpliedControl::Start,
            },
        ),
        Command::SmoothQuadratic => Some(
            match previous {
                Some(p) => if p.command == Command::Quadratic || p.command
                    == Command::SmoothQuadratic {
                    ImpliedControl::Reflected
                } else {
                    ImpliedControl::Start
                },
                None => ImpliedControl::Start,
            },
        ),
        _ => None,
    }
}

/// For a smooth curve (`S`/`s`) or smooth quadratic (`T`/`t`), where the
/// absolute first control point it implies comes from: the previous
/// segment's control point reflected about its start when the previous
/// segment is a curve of the same kind, or the start itself otherwise.
/// `None` for every other segment.
pub fn implied_control(previous: Option<Segment>, segment: Segment) -> (implied: Option<
    ImpliedControl,
>)
    ensures
        implied == spec_implied_control(previous, segment),
{
    match segment.command {
        Command::SmoothCurveTo => Some(
            match previous {
                Some(p) => if matches!(p.command, Command::CurveTo | Command::SmoothCurveTo) {
                    ImpliedControl::Reflected
                } else {
                    ImpliedControl::Start
                },
                None => ImpliedControl::Start,
            },
        ),
        Command::SmoothQuadratic => Some(
            match previous {
                Some(p) => if matches!(p.command, Command::Quadratic | Command::SmoothQuadratic) {
                    ImpliedControl::Reflected
                } else {
                    ImpliedControl::Start
                },
                None => ImpliedControl::Start,
            },
        ),
        _ => None,
    }
}


/// The control a smooth curve implies depends on the commands alone, not on
/// whether either segment is relative or absolute: a relative curve before
/// it is reflected as an absolute one is.
pub proof fn implied_control_ignores_case(previous: Segment, segment: Segment)
    ensures
        spec_implied_control(Some(previous), segment) == spec_implied_control(
            Some(Segment { command: previous.command, abs: !previous.abs }),
            segment,
        ),
        spec_implied_control(Some(previous), segment) == spec_implied_control(
            Some(previous),
            Segment { command: segment.command, abs: !segment.abs },
        ),
{
}

/// A smooth curve reflects the previous control exactly when the segment
/// before it is a curve of its kind, cubic (`C`/`S`, either case) before a
/// smooth cubic and quadratic (`Q`/`T`) before a smooth quadratic; it starts
/// from its start point otherwise. Other segments imply no control.
pub proof fn smooth_curves_reflect_curves_of_their_kind(previous: Option<Segment>, segment: Segment)
    ensures
        segment.command == Command::SmoothCurveTo ==> (spec_implied_control(previous, segment)
            == Some(ImpliedControl::Reflected) <==> (previous is Some && (previous->0.command
            == Command::CurveTo || previous->0.command == Command::SmoothCurveTo))),
        segment.command == Command::SmoothQuadratic ==> (spec_implied_control(previous, segment)
            == Some(ImpliedControl::Reflected) <==> (previous is Some && (previous->0.command
            == Command::Quadratic || previous->0.command == Command::SmoothQuadratic))),
        (segment.command == Command::SmoothCurveTo || segment.command == Command::SmoothQuadratic)
            ==> spec_implied_control(previous, segment) is Some,
        !(segment.command == Command::SmoothCurveTo || segment.command == Command::SmoothQuadratic)
            ==> spec_implied_control(previous, segment) is None,
{
}

} // verus!
