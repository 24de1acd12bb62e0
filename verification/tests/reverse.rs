use svg_path_ops::command::Segment;
use svg_path_ops::reverse::{reverse, PointOf, Step};
use svg_path_ops::subpaths::is_closed;
use svgtypes::PathParser;

fn parse(path: &str) -> Vec<Segment> {
    PathParser::from(path)
        .map(|s| Segment::from_letter(s.unwrap().command()).unwrap())
        .collect()
}

fn letter(step: &Step) -> char {
    let segment = match *step {
        Step::Move { abs, .. } => Segment::from_letter(if abs { b'M' } else { b'm' }).unwrap(),
        Step::Draw { segment, .. } => segment,
        Step::Close { abs } => Segment::from_letter(if abs { b'Z' } else { b'z' }).unwrap(),
    };
    segment.letter() as char
}

/// The command letters of the reversed path.
fn reversed(path: &str) -> String {
    reverse(&parse(path)).iter().map(letter).collect()
}

/// Segments with the letters of `letters`.
fn commands(letters: &str) -> Vec<Segment> {
    letters.bytes().map(|b| Segment::from_letter(b).unwrap()).collect()
}

#[test]
fn reverses_open_lines() {
    let steps = reverse(&parse("M0 0 L10 0 L10 10"));
    assert_eq!(
        steps,
        [
            Step::Move { abs: true, at: PointOf::EndOf(2) },
            Step::Draw { source: 2, segment: Segment::from_letter(b'L').unwrap() },
            Step::Draw { source: 1, segment: Segment::from_letter(b'L').unwrap() },
        ]
    );
}

#[test]
fn keeps_relative_segments_relative() {
    assert_eq!(reversed("M0 0 l10 0 l0 10"), "Mll");
}

#[test]
fn keeps_horizontal_and_vertical_lines() {
    assert_eq!(reversed("M0 0 H10 V10"), "MVH");
    assert_eq!(reversed("M0 0 h10 v10"), "Mvh");
}

#[test]
fn closed_subpath_starts_from_its_last_point() {
    assert_eq!(reversed("M0 0 L10 0 L10 10 Z"), "MLLZ");
    assert_eq!(reversed("M0 0 L10 0 L10 10 z"), "MLLz");
    assert_eq!(
        reverse(&parse("M0 0 L10 0 L10 10 Z"))[0],
        Step::Move { abs: true, at: PointOf::EndOf(2) }
    );
}

#[test]
fn swaps_cubic_controls() {
    assert_eq!(reversed("M0 0 C1 2 3 4 5 6"), "MC");
    assert_eq!(reversed("M0 0 c1 2 3 4 5 6"), "Mc");
}

#[test]
fn keeps_smooth_cubic_when_its_neighbour_allows() {
    // The S becomes a C, and the C before it becomes the S
    assert_eq!(reversed("M0 0 C0 10 10 10 10 0 S20 -10 20 0"), "MCS");
}

#[test]
fn keeps_smooth_quadratic_when_its_neighbour_allows() {
    assert_eq!(reversed("M0 0 Q10 10 20 0 T40 0"), "MQT");
}

#[test]
fn flips_arc_sweep() {
    // Arcs stay arcs; the sweep flag is flipped where the coordinates are written
    assert_eq!(reversed("M0 0 A5 5 0 0 1 10 0"), "MA");
    assert_eq!(reversed("M0 0 a5 5 30 1 0 10 0"), "Ma");
}

#[test]
fn keeps_subpath_order() {
    let steps = reverse(&parse("M0 0 L10 0 M20 0 L30 0"));
    assert_eq!(steps.iter().map(letter).collect::<String>(), "MLML");
    assert_eq!(steps[0], Step::Move { abs: true, at: PointOf::EndOf(1) });
    assert_eq!(steps[2], Step::Move { abs: true, at: PointOf::EndOf(3) });
}

#[test]
fn relative_moves_follow_the_reversed_path() {
    assert_eq!(reversed("m5 5 l1 0"), "ml");
    assert_eq!(reversed("M0 0 L10 0 m5 5 l1 0"), "MLml");
}

#[test]
fn drawing_after_close_path_starts_a_new_subpath() {
    let steps = reverse(&parse("M0 0 L10 0 Z L0 10"));
    assert_eq!(steps.iter().map(letter).collect::<String>(), "MLZML");
    // The new subpath starts from where the close path left off
    assert_eq!(steps[3], Step::Move { abs: true, at: PointOf::EndOf(3) });
}

#[test]
fn lone_moves_are_kept() {
    let steps = reverse(&parse("M1 1 M0 0 L5 0"));
    assert_eq!(steps.iter().map(letter).collect::<String>(), "MML");
    assert_eq!(steps[0], Step::Move { abs: true, at: PointOf::EndOf(0) });
}

#[test]
fn empty_path_stays_empty() {
    assert!(reverse(&Vec::new()).is_empty());
}

#[test]
fn reversing_twice_restores_the_path() {
    let path = "M0 0 C0 10 10 10 10 0 S20 -10 20 0 q5 5 10 0 t10 0 \
                a5 5 0 0 1 10 0 h5 v5 l-5 5 Z m 50 0 l 10 10";
    let once: String = reversed(path);
    let twice: String = reverse(&commands(&once)).iter().map(letter).collect();
    let given: String = parse(path).iter().map(|s| s.letter() as char).collect();
    assert_eq!(twice, given);
}

#[test]
fn smooth_curve_after_a_line_is_written_in_full() {
    // An S after a line takes its start as first control; reversed, it
    // cannot mirror anything and becomes a C
    assert_eq!(reversed("M0 0 L5 0 S10 10 20 0"), "MCL");
}

#[test]
fn a_lone_close_path_reverses_to_a_move_and_a_close() {
    let steps = reverse(&parse("M0 0 L1 0 Z Z"));
    assert_eq!(steps.iter().map(letter).collect::<String>(), "MLZMZ");
    assert_eq!(steps[3], Step::Move { abs: true, at: PointOf::StartOf(3) });
}

#[test]
fn reversing_keeps_a_path_closed_or_open() {
    for path in [
        "M0 0 L10 0 L10 10 Z",
        "M0 0 L1 0 Z m5 5 l1 0 z",
        "M0 0 L10 0 Z M20 0 L30 0",
        "M0 0 L10 0 L10 10 L0 0",
        "M0 0 L10 0 L0 10 Z M5 5",
        "M0 0 L10 0 Z L5 5 Z",
        "M0 0 M5 5",
    ] {
        let reversed_path = commands(&reversed(path));
        assert_eq!(is_closed(&reversed_path), is_closed(&parse(path)), "{path}");
    }
}
