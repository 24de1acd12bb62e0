//! Joining two open paths where their ends meet.
use vstd::prelude::*;

use crate::command::{Command, Segment};
use crate::context::spec_implied_control;

verus! {

/// Where the last subpath of one path and the first of another are joined.
#[derive(Clone, Copy, Debug, PartialEq, Eq, Structural)]
pub enum Joint {
    /// The end of the first meets the start of the second, which follows on.
    EndToStart,
    /// The end of the first meets the end of the second, which follows on
    /// reversed.
    EndToEnd,
    /// The start of the first meets the end of the second: the second comes
    /// first and the first follows on.
    StartToEnd,
    /// The start of the first meets the start of the second: the second
    /// comes first, reversed, and the first follows on.
    StartToStart,
    /// No ends meet: a line joins the end of the first to the start of the
    /// second.
    Line,
}

/// Where two subpaths are joined, given which of their ends meet, tried in
/// turn: the end of the first with the start of the second, the end of the
/// first with the end of the second, the start of the first with the end of
/// the second, and the start of the first with the start of the second.
pub open spec fn spec_joint(
    end_start: bool,
    end_end: bool,
    start_end: bool,
    start_start: bool,
) -> Joint {
    if end_start {
        Joint::EndToStart
    } else if end_end {
        Joint::EndToEnd
    } else if start_end {
        Joint::StartToEnd
    } else if start_start {
        Joint::StartToStart
    } else {
        Joint::Line
    }
}

/// Where two subpaths are joined, given which of their ends meet within the
/// tolerance.
pub fn joint(end_start: bool, end_end: bool, start_end: bool, start_start: bool) -> (joint: Joint)
    ensures
        joint == spec_joint(end_start, end_end, start_end, start_start),
{
    if end_start {
        Joint::EndToStart
    } else if end_end {
        Joint::EndToEnd
    } else if start_end {
        Joint::StartToEnd
    } else if start_start {
        Joint::StartToStart
    } else {
        Joint::Line
    }
}

/// The form of `segment` that does not depend on where it starts or what
/// comes before it: absolute, a line for `H` and `V`, and a full curve for
/// `S` and `T`.
pub open spec fn spec_standalone(segment: Segment) -> Segment {
    Segment {
        command: match segment.command {
            Command::HorizontalLineTo | Command::VerticalLineTo => Command::LineTo,
            Command::SmoothCurveTo => Command::CurveTo,
            Command::SmoothQuadratic => Command::Quadratic,
            command => command,
        },
        abs: true,
    }
}

/// The command a drawing segment is rewritten with when it is the first to
/// follow a joint: one that does not depend on where it starts or what comes
/// before it.
pub fn standalone(segment: Segment) -> (standalone: Segment)
    ensures
        standalone == spec_standalone(segment),
{
    Segment {
        command: match segment.command {
            Command::HorizontalLineTo | Command::VerticalLineTo => Command::LineTo,
            Command::SmoothCurveTo => Command::CurveTo,
            Command::SmoothQuadratic => Command::Quadratic,
            command => command,
        },
        abs: true,
    }
}

/// A segment in its standalone form takes no control point from the segment
/// before it, whatever that is, and stays as it is when made standalone
/// again.
pub proof fn standalone_needs_nothing_before(segment: Segment, previous: Option<Segment>)
    ensures
        spec_implied_control(previous, spec_standalone(segment)) is None,
        spec_standalone(spec_standalone(segment)) == spec_standalone(segment),
{
}


/// Two subpaths are joined at the first of the four meetings that holds,
/// tried in turn: the end of the first with the start of the second, then
/// with its end, then the start of the first with the end of the second,
/// then with its start; a line joins them only where no ends meet.
pub proof fn joint_is_the_first_meeting(
    end_start: bool,
    end_end: bool,
    start_end: bool,
    start_start: bool,
)
    ensures
        end_start ==> spec_joint(end_start, end_end, start_end, start_start) == Joint::EndToStart,
        !end_start && end_end ==> spec_joint(end_start, end_end, start_end, start_start)
            == Joint::EndToEnd,
        !end_start && !end_end && start_end ==> spec_joint(end_start, end_end, start_end, start_start)
            == Joint::StartToEnd,
        !end_start && !end_end && !start_end && start_start ==> spec_joint(
            end_start,
            end_end,
            start_end,
            start_start,
        ) == Joint::StartToStart,
        spec_joint(end_start, end_end, start_end, start_start) == Joint::Line <==> (!end_start
            && !end_end && !start_end && !start_start),
{
}

} // verus!
