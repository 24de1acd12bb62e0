//! The commands of a normalized path: moves, lines, cubic curves and close
//! paths only.
use vstd::prelude::*;

use crate::command::Command;

verus! {

/// The command a segment becomes in a normalized path: horizontal and
/// vertical lines become lines, quadratic and smooth curves and arcs become
/// cubic curves, and moves, lines, cubic curves and close paths stay.
pub open spec fn spec_normal_command(command: Command) -> Command {
    match command {
        Command::MoveTo => Command::MoveTo,
        Command::LineTo | Command::HorizontalLineTo | Command::VerticalLineTo => Command::LineTo,
        Command::CurveTo | Command::SmoothCurveTo | Command::Quadratic | Command::SmoothQuadratic
        | Command::EllipticalArc => Command::CurveTo,
        Command::ClosePath => Command::ClosePath,
    }
}

/// The command a segment with `command` becomes in a normalized path.
pub fn normal_command(command: Command) -> (normal: Command)
    ensures
        normal == spec_normal_command(command),
{
    match command {
        Command::MoveTo => Command::MoveTo,
        Command::LineTo | Command::HorizontalLineTo | Command::VerticalLineTo => Command::LineTo,
        Command::CurveTo | Command::SmoothCurveTo | Command::Quadratic | Command::SmoothQuadratic
        | Command::EllipticalArc => Command::CurveTo,
        Command::ClosePath => Command::ClosePath,
    }
}

/// A normalized path has only moves, lines, cubic curves and close paths,
/// those four stay as they are, and normalizing again changes nothing.
pub proof fn normal_commands_are_basic(command: Command)
    ensures
        ({
            let normal = spec_normal_command(command);
            normal == Command::MoveTo || normal == Command::LineTo || normal == Command::CurveTo
                || normal == Command::ClosePath
        }),
        (command == Command::MoveTo || command == Command::LineTo || command == Command::CurveTo
            || command == Command::ClosePath) ==> spec_normal_command(command) == command,
        spec_normal_command(spec_normal_command(command)) == spec_normal_command(command),
{
}

} // verus!
