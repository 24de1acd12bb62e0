use svg_path_ops::command::{Command, Segment};
use svg_path_ops::context::{implied_control, ImpliedControl};
use svg_path_ops::fill::FillRule;
use svg_path_ops::normal::normal_command;
use svg_path_ops::optimize::{cheapest, decimal_places, subpath_draws, Rounder};
use svg_path_ops::stroke::{LineCap, LineJoin};
use svg_path_ops::transform::splice_replacements;
use svg_path_ops::write::WriteOptions;

fn s(letter: u8) -> Segment {
    Segment::from_letter(letter).unwrap()
}

fn texts(numbers: &[&str]) -> Vec<Vec<u8>> {
    numbers.iter().map(|n| n.as_bytes().to_vec()).collect()
}

#[test]
fn letters_round_trip() {
    for letter in b"MmLlHhVvCcSsQqTtAaZz" {
        assert_eq!(s(*letter).letter(), *letter);
    }
    assert_eq!(Segment::from_letter(b'x'), None);
    assert_eq!(Segment::from_letter(b' '), None);
    assert_eq!(s(b'c'), Segment { command: Command::CurveTo, abs: false });
    assert_eq!(Command::EllipticalArc.arity(), 5);
}

#[test]
fn smooth_curve_reflects_previous_cubic_control() {
    assert_eq!(implied_control(Some(s(b'C')), s(b'C')), None);
    assert_eq!(implied_control(Some(s(b'C')), s(b's')), Some(ImpliedControl::Reflected));
    assert_eq!(implied_control(Some(s(b's')), s(b'S')), Some(ImpliedControl::Reflected));
}

#[test]
fn smooth_curve_after_non_cubic_uses_start() {
    assert_eq!(implied_control(Some(s(b'Q')), s(b'S')), Some(ImpliedControl::Start));
    assert_eq!(implied_control(None, s(b'S')), Some(ImpliedControl::Start));
}

#[test]
fn smooth_quadratic_chains_reflections() {
    assert_eq!(implied_control(Some(s(b'Q')), s(b'T')), Some(ImpliedControl::Reflected));
    assert_eq!(implied_control(Some(s(b'T')), s(b't')), Some(ImpliedControl::Reflected));
}

#[test]
fn smooth_quadratic_after_non_quadratic_uses_start() {
    assert_eq!(implied_control(Some(s(b'C')), s(b'T')), Some(ImpliedControl::Start));
}

#[test]
fn fill_rules_decide_from_the_winding() {
    assert!(!FillRule::NonZero.fills(0));
    assert!(FillRule::NonZero.fills(2));
    assert!(FillRule::NonZero.fills(-1));
    assert!(!FillRule::EvenOdd.fills(2));
    assert!(FillRule::EvenOdd.fills(-1));
    assert!(!FillRule::EvenOdd.fills(-2));
    assert!(FillRule::EvenOdd.fills(3));
    assert_eq!(FillRule::default(), FillRule::NonZero);
}

#[test]
fn stroke_defaults_are_svgs() {
    assert_eq!(LineCap::default(), LineCap::Butt);
    assert_eq!(LineJoin::default(), LineJoin::Miter);
}

#[test]
fn decimal_places_count_the_longest_fraction() {
    assert_eq!(decimal_places(&texts(&["201.7208", "78.236", "-4.2472", "-19.102", "10"])), 4);
    assert_eq!(decimal_places(&texts(&["1", "-2"])), 0);
    assert_eq!(decimal_places(&Vec::new()), 0);
    let long = format!("0.{}", "1".repeat(300));
    assert_eq!(decimal_places(&texts(&[&long])), 255);
}

#[test]
fn rounder_takes_the_precision_asked_for() {
    let numbers = texts(&["1.25", "3"]);
    assert_eq!(Rounder::new(Some(1), &numbers), Rounder { places: 1, requested: true });
    assert_eq!(Rounder::new(None, &numbers), Rounder { places: 2, requested: false });
    assert_eq!(
        Rounder::new(None, &numbers).write_options(),
        WriteOptions { precision: Some(2), compact: true }
    );
}

#[test]
fn cheapest_prefers_the_first_of_equal_costs() {
    assert_eq!(cheapest(&vec![5, 3, 4, 3]), 1);
    assert_eq!(cheapest(&vec![2, 2]), 0);
    assert_eq!(cheapest(&vec![7]), 0);
}

#[test]
fn subpaths_that_draw_only_zero_lengths_do_not_draw() {
    // M 5 5 L 5 5 L 5 5 M 9 9 L 10 9
    let segments = vec![s(b'M'), s(b'L'), s(b'L'), s(b'M'), s(b'L')];
    let zero = vec![false, true, true, false, false];
    assert_eq!(subpath_draws(&segments, &zero), [false, false, false, true, true]);
    assert!(subpath_draws(&Vec::new(), &Vec::new()).is_empty());
}

#[test]
fn replacements_take_the_place_of_their_items() {
    let items = vec![1, 2, 3];
    assert_eq!(splice_replacements(&items, &vec![vec![], vec![7, 8], vec![]]), [1, 7, 8, 3]);
    assert_eq!(splice_replacements(&items, &vec![vec![], vec![], vec![]]), [1, 2, 3]);
    assert!(splice_replacements::<u8>(&Vec::new(), &Vec::new()).is_empty());
}

#[test]
fn normalized_paths_keep_four_commands() {
    assert_eq!(normal_command(Command::MoveTo), Command::MoveTo);
    assert_eq!(normal_command(Command::HorizontalLineTo), Command::LineTo);
    assert_eq!(normal_command(Command::VerticalLineTo), Command::LineTo);
    assert_eq!(normal_command(Command::SmoothCurveTo), Command::CurveTo);
    assert_eq!(normal_command(Command::Quadratic), Command::CurveTo);
    assert_eq!(normal_command(Command::SmoothQuadratic), Command::CurveTo);
    assert_eq!(normal_command(Command::EllipticalArc), Command::CurveTo);
    assert_eq!(normal_command(Command::ClosePath), Command::ClosePath);
}
