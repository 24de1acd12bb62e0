//! The commands of SVG path data, as the letters that write them.
use vstd::prelude::*;

verus! {

/// The ten kinds of SVG path command.
#[derive(Clone, Copy, Debug, PartialEq, Eq, Structural)]
pub enum Command {
    MoveTo,
    LineTo,
    HorizontalLineTo,
    VerticalLineTo,
    CurveTo,
    SmoothCurveTo,
    Quadratic,
    SmoothQuadratic,
    EllipticalArc,
    ClosePath,
}

/// A path segment as far as its command goes: what it draws, and whether
/// its coordinates are absolute (upper-case letter) or relative
/// (lower-case letter).
#[derive(Clone, Copy, Debug, PartialEq, Eq, Structural)]
pub struct Segment {
    pub command: Command,
    pub abs: bool,
}

/// Difference between a lower-case ASCII letter and its upper-case one.
pub const CASE_OFFSET: u8 = 32;

impl Command {
    /// The upper-case letter of the command.
    pub open spec fn spec_upper_letter(self) -> u8 {
        match self {
            Command::MoveTo => 77,
            Command::LineTo => 76,
            Command::HorizontalLineTo => 72,
            Command::VerticalLineTo => 86,
            Command::CurveTo => 67,
            Command::SmoothCurveTo => 83,
            Command::Quadratic => 81,
            Command::SmoothQuadratic => 84,
            Command::EllipticalArc => 65,
            Command::ClosePath => 90,
        }
    }

    /// How many numbers follow the command in path data. An arc's two flags
    /// are not counted: they are written between its third and fourth number.
    pub open spec fn spec_arity(self) -> nat {
        match self {
            Command::MoveTo | Command::LineTo | Command::SmoothQuadratic => 2,
            Command::HorizontalLineTo | Command::VerticalLineTo => 1,
            Command::CurveTo => 6,
            Command::SmoothCurveTo | Command::Quadratic => 4,
            Command::EllipticalArc => 5,
            Command::ClosePath => 0,
        }
    }

    pub fn upper_letter(self) -> (letter: u8)
        ensures
            letter == self.spec_upper_letter(),
    {
        match self {
            Command::MoveTo => 77,
            Command::LineTo => 76,
            Command::HorizontalLineTo => 72,
            Command::VerticalLineTo => 86,
            Command::CurveTo => 67,
            Command::SmoothCurveTo => 83,
            Command::Quadratic => 81,
            Command::SmoothQuadratic => 84,
            Command::EllipticalArc => 65,
            Command::ClosePath => 90,
        }
    }

    pub fn arity(self) -> (n: usize)
        ensures
            n == self.spec_arity(),
    {
        match self {
            Command::MoveTo | Command::LineTo | Command::SmoothQuadratic => 2,
            Command::HorizontalLineTo | Command::VerticalLineTo => 1,
            Command::CurveTo => 6,
            Command::SmoothCurveTo | Command::Quadratic => 4,
            Command::EllipticalArc => 5,
            Command::ClosePath => 0,
        }
    }

    /// The command written with the upper-case `letter`, if any.
    pub open spec fn spec_from_upper(letter: u8) -> Option<Command> {
        if letter == 77 {
            Some(Command::MoveTo)
        } else if letter == 76 {
            Some(Command::LineTo)
        } else if letter == 72 {
            Some(Command::HorizontalLineTo)
        } else if letter == 86 {
            Some(Command::VerticalLineTo)
        } else if letter == 67 {
            Some(Command::CurveTo)
        } else if letter == 83 {
            Some(Command::SmoothCurveTo)
        } else if letter == 81 {
            Some(Command::Quadratic)
        } else if letter == 84 {
            Some(Command::SmoothQuadratic)
        } else if letter == 65 {
            Some(Command::EllipticalArc)
        } else if letter == 90 {
            Some(Command::ClosePath)
        } else {
            None
        }
    }

    pub fn from_upper(letter: u8) -> (command: Option<Command>)
        ensures
            command == Self::spec_from_upper(letter),
    {
        if letter == 77 {
            Some(Command::MoveTo)
        } else if letter == 76 {
            Some(Command::LineTo)
        } else if letter == 72 {
            Some(Command::HorizontalLineTo)
        } else if letter == 86 {
            Some(Command::VerticalLineTo)
        } else if letter == 67 {
            Some(Command::CurveTo)
        } else if letter == 83 {
            Some(Command::SmoothCurveTo)
        } else if letter == 81 {
            Some(Command::Quadratic)
        } else if letter == 84 {
            Some(Command::SmoothQuadratic)
        } else if letter == 65 {
            Some(Command::EllipticalArc)
        } else if letter == 90 {
            Some(Command::ClosePath)
        } else {
            None
        }
    }
}

impl Segment {
    /// The letter that writes the segment's command: upper-case when
    /// absolute, lower-case when relative.
    pub open spec fn spec_letter(self) -> u8 {
        if self.abs {
            self.command.spec_upper_letter()
        } else {
            (self.command.spec_upper_letter() + CASE_OFFSET) as u8
        }
    }

    pub open spec fn is_move(self) -> bool {
        self.command == Command::MoveTo
    }

    pub open spec fn is_close(self) -> bool {
        self.command == Command::ClosePath
    }

    /// Segments that draw: everything but moves and close paths.
    pub open spec fn is_drawing(self) -> bool {
        !self.is_move() && !self.is_close()
    }

    /// The segment written with `letter`, if any.
    pub open spec fn spec_from_letter(letter: u8) -> Option<Segment> {
        match Command::spec_from_upper(letter) {
            Some(command) => Some(Segment { command, abs: true }),
            None => if letter >= CASE_OFFSET {
                match Command::spec_from_upper((letter - CASE_OFFSET) as u8) {
                    Some(command) => Some(Segment { command, abs: false }),
                    None => None,
                }
            } else {
                None
            },
        }
    }

    /// The letter of the segment's command, as svgtypes' `command()` gives it.
    pub fn letter(self) -> (letter: u8)
        ensures
            letter == self.spec_letter(),
    {
        let upper = self.command.upper_letter();
        if self.abs {
            upper
        } else {
            upper + CASE_OFFSET
        }
    }

    /// The segment whose command `letter` writes, if it is one of the
    /// twenty command letters.
    pub fn from_letter(letter: u8) -> (segment: Option<Segment>)
        ensures
            segment == Self::spec_from_letter(letter),
    {
        match Command::from_upper(letter) {
            Some(command) => Some(Segment { command, abs: true }),
            None => if letter >= CASE_OFFSET {
                match Command::from_upper(letter - CASE_OFFSET) {
                    Some(command) => Some(Segment { command, abs: false }),
                    None => None,
                }
            } else {
                None
            },
        }
    }

    pub fn is_move_to(self) -> (b: bool)
        ensures
            b == self.is_move(),
    {
        matches!(self.command, Command::MoveTo)
    }

    pub fn is_close_path(self) -> (b: bool)
        ensures
            b == self.is_close(),
    {
        matches!(self.command, Command::ClosePath)
    }
}

/// Reading a segment's letter back gives the segment, and each letter writes
/// at most one segment: letters and segments correspond one to one.
pub proof fn letter_round_trip(segment: Segment, letter: u8)
    ensures
        Segment::spec_from_letter(segment.spec_letter()) == Some(segment),
        Segment::spec_from_letter(letter) == Some(segment) ==> segment.spec_letter() == letter,
{
}

} // verus!
