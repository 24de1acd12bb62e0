use svg_path_ops::command::{Command, Segment};
use svg_path_ops::optimize::{
    candidate_commands, close_is_absolute, emit, plan_segment, Action, GeometryKind, SegmentFacts,
    Shorthands,
};
use svg_path_ops::write::{SegmentText, WriteOptions};
use GeometryKind::{Close, Cubic, Line, Move};

fn facts(kind: GeometryKind, next: Option<GeometryKind>) -> SegmentFacts {
    SegmentFacts { kind, next, zero_length: false, subpath_draws: true, returns_to_start: false }
}

fn seg(letter: u8, numbers: &[&str]) -> SegmentText {
    SegmentText {
        segment: Segment::from_letter(letter).unwrap(),
        numbers: numbers.iter().map(|n| n.as_bytes().to_vec()).collect(),
        large_arc: false,
        sweep: false,
    }
}

fn compact() -> WriteOptions {
    WriteOptions { precision: None, compact: true }
}

#[test]
fn drops_moves_that_draw_nothing() {
    assert_eq!(plan_segment(false, &facts(Move, Some(Move))), (Action::Skip, false));
    assert_eq!(plan_segment(true, &facts(Move, None)), (Action::Skip, false));
    assert_eq!(plan_segment(true, &facts(Move, Some(Line))), (Action::Write, false));
}

#[test]
fn keeps_a_lone_zero_length_segment_as_a_dot() {
    let dot = SegmentFacts { zero_length: true, subpath_draws: false, ..facts(Line, Some(Line)) };
    assert_eq!(plan_segment(false, &dot), (Action::Write, true));
    // Only the first one
    assert_eq!(plan_segment(true, &dot), (Action::Skip, true));
    // Not when the subpath draws something else
    let drawn = SegmentFacts { subpath_draws: true, ..dot };
    assert_eq!(plan_segment(false, &drawn), (Action::Skip, false));
}

#[test]
fn the_close_path_draws_the_line_back() {
    let back = SegmentFacts { returns_to_start: true, ..facts(Line, Some(Close)) };
    assert_eq!(plan_segment(false, &back), (Action::Skip, false));
    let curve_back = SegmentFacts { returns_to_start: true, ..facts(Cubic, Some(Close)) };
    assert_eq!(plan_segment(false, &curve_back), (Action::Write, false));
    assert_eq!(plan_segment(true, &facts(Close, None)), (Action::Write, true));
}

#[test]
fn candidates_try_shorthands_first() {
    let letters = |kind, shorthands| -> String {
        candidate_commands(kind, shorthands).iter().map(|s| s.letter() as char).collect()
    };
    let none = Shorthands { horizontal: false, vertical: false, mirrors: false };
    assert_eq!(letters(GeometryKind::Move, none), "Mm");
    assert_eq!(letters(GeometryKind::Line, none), "lL");
    assert_eq!(letters(GeometryKind::Line, Shorthands { horizontal: true, ..none }), "hHlL");
    assert_eq!(
        letters(GeometryKind::Line, Shorthands { horizontal: true, vertical: true, ..none }),
        "hHvVlL"
    );
    assert_eq!(letters(GeometryKind::Cubic, Shorthands { mirrors: true, ..none }), "sScC");
    assert_eq!(letters(GeometryKind::Quadratic, none), "qQ");
    assert_eq!(letters(GeometryKind::Arc, none), "aA");
    assert_eq!(letters(GeometryKind::Close, none), "");
    assert_eq!(
        candidate_commands(GeometryKind::Arc, none)[1],
        Segment { command: Command::EllipticalArc, abs: true }
    );
}

#[test]
fn close_keeps_the_case_of_the_last_command() {
    assert!(close_is_absolute(Some(b'L')));
    assert!(!close_is_absolute(Some(b'l')));
    assert!(!close_is_absolute(None));
}

#[test]
fn picks_the_shorter_of_absolute_and_relative() {
    // After M100 100, a line to 101 101: l1 1 is shorter than L101 101
    let last = seg(b'M', &["100", "100"]);
    let candidates = vec![seg(b'l', &["1", "1"]), seg(b'L', &["101", "101"])];
    assert_eq!(emit(&compact(), Some(&last), &candidates), 0);
    // A line right after a move needs no letter, so the absolute one wins
    let candidates = vec![seg(b'l', &["-95", "-95"]), seg(b'L', &["5", "5"])];
    assert_eq!(emit(&compact(), Some(&seg(b'M', &["100", "100"])), &candidates), 1);
}

#[test]
fn a_tie_keeps_the_first_candidate() {
    let candidates = vec![seg(b'M', &["5", "5"]), seg(b'm', &["5", "5"])];
    assert_eq!(emit(&compact(), None, &candidates), 0);
}
