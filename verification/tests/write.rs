use svg_path_ops::command::Segment;
use svg_path_ops::write::{compact_number, letter_implied, write_path, PathWriter, SegmentText, WriteOptions};
use svgtypes::{PathParser, PathSegment};

/// A segment written with `letter` and the numbers `numbers`, as text.
fn seg(letter: char, numbers: &[&str]) -> SegmentText {
    SegmentText {
        segment: Segment::from_letter(letter as u8).unwrap(),
        numbers: numbers.iter().map(|n| n.as_bytes().to_vec()).collect(),
        large_arc: false,
        sweep: false,
    }
}

fn arc(letter: char, numbers: &[&str], large_arc: bool, sweep: bool) -> SegmentText {
    SegmentText { large_arc, sweep, ..seg(letter, numbers) }
}

/// Segments as svgtypes parses them, with each number written as Rust
/// writes an `f64`.
fn parse(path: &str) -> Vec<SegmentText> {
    PathParser::from(path).map(|s| text_of(s.unwrap())).collect()
}

fn text_of(segment: PathSegment) -> SegmentText {
    let numbers: Vec<f64> = match segment {
        PathSegment::MoveTo { x, y, .. }
        | PathSegment::LineTo { x, y, .. }
        | PathSegment::SmoothQuadratic { x, y, .. } => vec![x, y],
        PathSegment::HorizontalLineTo { x, .. } => vec![x],
        PathSegment::VerticalLineTo { y, .. } => vec![y],
        PathSegment::CurveTo { x1, y1, x2, y2, x, y, .. } => vec![x1, y1, x2, y2, x, y],
        PathSegment::SmoothCurveTo { x2, y2, x, y, .. } => vec![x2, y2, x, y],
        PathSegment::Quadratic { x1, y1, x, y, .. } => vec![x1, y1, x, y],
        PathSegment::EllipticalArc { rx, ry, x_axis_rotation, x, y, .. } => {
            vec![rx, ry, x_axis_rotation, x, y]
        }
        PathSegment::ClosePath { .. } => vec![],
    };
    let (large_arc, sweep) = match segment {
        PathSegment::EllipticalArc { large_arc, sweep, .. } => (large_arc, sweep),
        _ => (false, false),
    };
    SegmentText {
        segment: Segment::from_letter(segment.command()).unwrap(),
        numbers: numbers.iter().map(|n| n.to_string().into_bytes()).collect(),
        large_arc,
        sweep,
    }
}

fn write(segments: &[SegmentText], options: &WriteOptions) -> String {
    String::from_utf8(write_path(&segments.to_vec(), options)).unwrap()
}

fn compact() -> WriteOptions {
    WriteOptions { compact: true, ..WriteOptions::default() }
}

#[test]
fn default_writes_spaced_commands() {
    let segments = parse("M10 10 H20 v-5 C1 2 3 4 5 6 a5 5 30 1 0 10 10 z");
    assert_eq!(
        write(&segments, &WriteOptions::default()),
        "M 10 10 H 20 v -5 C 1 2 3 4 5 6 a 5 5 30 1 0 10 10 z"
    );
}

#[test]
fn empty_path_writes_empty_string() {
    let segments: Vec<SegmentText> = Vec::new();
    assert_eq!(write(&segments, &WriteOptions::default()), "");
    assert_eq!(write(&segments, &compact()), "");
}

#[test]
fn compact_drops_redundant_separators() {
    let segments = parse("M 10 10 L 0.5 -0.5 L 0.25 0.75 Z");
    assert_eq!(write(&segments, &compact()), "M10 10 .5-.5.25.75Z");
}

#[test]
fn compact_keeps_repeated_move_commands() {
    let segments = parse("M1 1 M2 2 m3 3 m4 4");
    assert_eq!(write(&segments, &compact()), "M1 1M2 2m3 3m4 4");
}

#[test]
fn compact_keeps_letter_when_case_changes() {
    let segments = parse("M0 0 L1 1 l2 2 l3 3");
    assert_eq!(write(&segments, &compact()), "M0 0 1 1l2 2 3 3");
}

#[test]
fn compact_leaves_out_a_line_letter_after_a_move() {
    let segments = parse("M0 0 L1 1 m2 2 l3 3 M4 4 l5 5");
    assert_eq!(write(&segments, &compact()), "M0 0 1 1m2 2 3 3M4 4l5 5");
}

#[test]
fn compact_writes_arc_flags_without_separators() {
    let segments = parse("M0 0 a5 5 0 0 1 10 0 a5 5 30.5 1 0 -10 -10");
    assert_eq!(write(&segments, &compact()), "M0 0a5 5 0 0110 0 5 5 30.5 10-10-10");
    // Default output keeps a space between the flags
    assert_eq!(
        write(&segments, &WriteOptions::default()),
        "M 0 0 a 5 5 0 0 1 10 0 a 5 5 30.5 1 0 -10 -10"
    );
}

#[test]
fn compact_output_parses_back_to_same_segments() {
    let path = "M10 10 L0.5 -0.5 l.25 .75 C1 2 3 4 5 6 S-1-2-3-4 a5 5 30 1 0 10 10 h-3 z";
    let segments: Vec<PathSegment> = PathParser::from(path).map(Result::unwrap).collect();
    let texts: Vec<SegmentText> = segments.iter().map(|s| text_of(*s)).collect();
    let written = write(&texts, &compact());
    let back: Vec<PathSegment> = PathParser::from(written.as_str()).map(Result::unwrap).collect();
    assert_eq!(back, segments);
}

#[test]
fn writes_relative_lines_by_default_and_compactly() {
    let segments = [seg('M', &["10", "10"]), seg('l', &["0.5", "-5"]), seg('l', &["2", "0"])];
    assert_eq!(write(&segments, &WriteOptions::default()), "M 10 10 l 0.5 -5 l 2 0");
    assert_eq!(write(&segments, &compact()), "M10 10l.5-5 2 0");
}

#[test]
fn moves_and_close_paths_keep_their_letters() {
    for letter in [b'M', b'm', b'Z', b'z'] {
        assert!(!letter_implied(Some(letter), letter));
    }
    assert!(letter_implied(Some(b'M'), b'L'));
    assert!(letter_implied(Some(b'm'), b'l'));
    assert!(!letter_implied(Some(b'M'), b'l'));
    assert!(letter_implied(Some(b'c'), b'c'));
    assert!(!letter_implied(Some(b'c'), b'C'));
    assert!(!letter_implied(None, b'L'));
}

#[test]
fn compact_numbers_lose_their_leading_zero() {
    assert_eq!(compact_number(&b"0.5".to_vec()), b".5".to_vec());
    assert_eq!(compact_number(&b"-0.25".to_vec()), b"-.25".to_vec());
    assert_eq!(compact_number(&b"10.5".to_vec()), b"10.5".to_vec());
    assert_eq!(compact_number(&b"0".to_vec()), b"0".to_vec());
    assert_eq!(compact_number(&b"-0".to_vec()), b"-0".to_vec());
}

#[test]
fn flags_are_single_digits() {
    let mut writer = PathWriter::new(WriteOptions::default());
    writer.flags(true, false);
    assert_eq!(writer.out, b" 1 0".to_vec());
    let mut writer = PathWriter::new(compact());
    writer.flags(false, true);
    assert_eq!(writer.out, b" 01".to_vec());
}

#[test]
fn second_decimal_point_separates_numbers() {
    let segments = [seg('M', &["0.5", "0.5"]), seg('L', &["1.5", "0.25"])];
    assert_eq!(write(&segments, &compact()), "M.5.5 1.5.25");
}

#[test]
fn compact_is_never_longer_than_default() {
    let path = "M10 10 L0.5 -0.5 l.25 .75 C1 2 3 4 5 6 S-1-2-3-4 a5 5 30 1 0 10 10 h-3 v0.5 z m 1 1 l 2 2";
    let segments = parse(path);
    assert!(write(&segments, &compact()).len() <= write(&segments, &WriteOptions::default()).len());
}

#[test]
fn arc_flags_follow_the_rotation() {
    let segments = [seg('M', &["0", "0"]), arc('A', &["5", "5", "0", "10", "0"], true, true)];
    assert_eq!(write(&segments, &WriteOptions::default()), "M 0 0 A 5 5 0 1 1 10 0");
    assert_eq!(write(&segments, &compact()), "M0 0A5 5 0 1110 0");
}
