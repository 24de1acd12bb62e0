use svg_path_ops::orient::{reorient, Direction, SubpathShape};

fn shape(direction: Direction, enclosed_by: &[bool]) -> SubpathShape {
    SubpathShape { direction, enclosed_by: enclosed_by.to_vec() }
}

/// Which way each subpath runs once reoriented.
fn directions(shapes: &[SubpathShape], clockwise: bool) -> Vec<bool> {
    let reverse = reorient(&shapes.to_vec(), clockwise);
    shapes
        .iter()
        .zip(reverse)
        .map(|(shape, flip)| (shape.direction == Direction::Clockwise) != flip)
        .collect()
}

/// An outline, a hole in it and an island in the hole, all clockwise, and
/// a separate outline counterclockwise.
fn nested() -> Vec<SubpathShape> {
    vec![
        shape(Direction::Clockwise, &[false, false, false, false]),
        shape(Direction::Clockwise, &[true, false, false, false]),
        shape(Direction::Clockwise, &[true, true, false, false]),
        shape(Direction::Counterclockwise, &[false, false, false, false]),
    ]
}

#[test]
fn outlines_and_holes_alternate() {
    assert_eq!(directions(&nested(), true), [true, false, true, true]);
    assert_eq!(directions(&nested(), false), [false, true, false, false]);
}

#[test]
fn a_hole_touching_its_outline_is_a_hole() {
    let shapes = [
        shape(Direction::Clockwise, &[false, false]),
        shape(Direction::Clockwise, &[true, false]),
    ];
    assert_eq!(directions(&shapes, true), [true, false]);
}

#[test]
fn keeps_subpaths_that_enclose_nothing() {
    let shapes = [
        shape(Direction::Flat, &[false, false]),
        shape(Direction::Counterclockwise, &[false, false]),
    ];
    assert_eq!(reorient(&shapes.to_vec(), true), [false, true]);
}
