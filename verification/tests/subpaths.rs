use svg_path_ops::command::Segment;
use svg_path_ops::subpaths::{is_closed, split_subpaths, subpath_ranges, Lead, Subpath};
use svgtypes::PathParser;

/// The commands of path data, as svgtypes parses it.
fn parse(path: &str) -> Vec<Segment> {
    PathParser::from(path)
        .map(|s| Segment::from_letter(s.unwrap().command()).unwrap())
        .collect()
}

fn parts(path: &str) -> Vec<(usize, usize, Lead)> {
    split_subpaths(&parse(path))
        .into_iter()
        .map(|Subpath { start, end, lead }| (start, end, lead))
        .collect()
}

#[test]
fn splits_at_moves() {
    assert_eq!(
        parts("M0 0 L10 0 M20 0 L30 0"),
        [(0, 2, Lead::Keep), (2, 4, Lead::Keep)]
    );
}

#[test]
fn relative_move_becomes_absolute() {
    assert_eq!(
        parts("M0 0 l10 0 m5 5 l1 0"),
        [(0, 2, Lead::Keep), (2, 4, Lead::AbsoluteMove)]
    );
    // After a close path, a relative move still depended on the subpath before
    assert_eq!(
        parts("m0 0 l10 0 z m5 5 l1 0"),
        [(0, 3, Lead::Keep), (3, 5, Lead::AbsoluteMove)]
    );
}

#[test]
fn first_relative_move_is_kept() {
    assert_eq!(parts("m5 5 l1 0"), [(0, 2, Lead::Keep)]);
}

#[test]
fn subpath_after_close_without_move_gets_one() {
    assert_eq!(
        parts("M0 0 L10 0 Z L0 10"),
        [(0, 3, Lead::Keep), (3, 4, Lead::AddMove)]
    );
    assert_eq!(
        parts("M5 5 l10 0 z l0 10"),
        [(0, 3, Lead::Keep), (3, 4, Lead::AddMove)]
    );
}

#[test]
fn lone_moves_are_their_own_subpaths() {
    assert_eq!(
        parts("M1 1 M0 0 L5 0"),
        [(0, 1, Lead::Keep), (1, 3, Lead::Keep)]
    );
}

#[test]
fn empty_path_has_no_subpaths() {
    assert!(split_subpaths(&Vec::new()).is_empty());
    assert!(subpath_ranges(&Vec::new()).is_empty());
}

#[test]
fn closed_when_every_subpath_is_closed() {
    assert!(is_closed(&parse("M0 0 L10 0 L10 10 Z")));
    assert!(is_closed(&parse("M0 0 L1 0 Z m5 5 l1 0 z")));
}

#[test]
fn open_when_any_subpath_is_open() {
    assert!(!is_closed(&parse("M0 0 L10 0 Z M20 0 L30 0")));
    // Returning to the start is not closing
    assert!(!is_closed(&parse("M0 0 L10 0 L10 10 L0 0")));
}

#[test]
fn moves_alone_do_not_count() {
    assert!(is_closed(&parse("M0 0 L10 0 L0 10 Z M5 5")));
    assert!(!is_closed(&parse("M1 1")));
    assert!(!is_closed(&Vec::new()));
}

#[test]
fn ranges_cover_the_path_in_order() {
    let path = "M0 0 c5 5 10 5 15 0 s10 -5 15 0 z m20 20 q5 5 10 0 t10 0 \
                L50 50 Z h5 a5 5 0 0 1 5 5 M 80 80 v5";
    assert_eq!(
        subpath_ranges(&parse(path)),
        [(0, 4), (4, 9), (9, 11), (11, 13)]
    );
}

#[test]
fn a_close_path_after_a_close_path_is_a_subpath() {
    assert_eq!(
        parts("M0 0 L1 0 Z Z"),
        [(0, 3, Lead::Keep), (3, 4, Lead::AddMove)]
    );
    assert!(is_closed(&parse("M0 0 L1 0 Z Z")));
}

#[test]
fn closed_exactly_when_every_drawing_segment_goes_on() {
    // A line that ends its subpath, before a move or at the end, leaves it open
    assert!(!is_closed(&parse("M0 0 L10 0 M5 5 L6 6 Z")));
    assert!(!is_closed(&parse("M0 0 L10 0 Z L5 5")));
    // Every line followed by another line or a close path
    assert!(is_closed(&parse("M0 0 L10 0 L5 5 Z M7 7")));
}
