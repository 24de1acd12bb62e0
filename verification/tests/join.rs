use svg_path_ops::command::Segment;
use svg_path_ops::join::{joint, standalone, Joint};

fn s(letter: u8) -> Segment {
    Segment::from_letter(letter).unwrap()
}

#[test]
fn joins_whichever_ends_meet() {
    // Tried in turn: end to start, end to end, start to end, start to start
    assert_eq!(joint(true, true, true, true), Joint::EndToStart);
    assert_eq!(joint(false, true, true, true), Joint::EndToEnd);
    assert_eq!(joint(false, false, true, true), Joint::StartToEnd);
    assert_eq!(joint(false, false, false, true), Joint::StartToStart);
    assert_eq!(joint(false, false, false, false), Joint::Line);
}

#[test]
fn the_segment_after_a_joint_stands_alone() {
    assert_eq!(standalone(s(b'h')), s(b'L'));
    assert_eq!(standalone(s(b'V')), s(b'L'));
    assert_eq!(standalone(s(b's')), s(b'C'));
    assert_eq!(standalone(s(b't')), s(b'Q'));
    assert_eq!(standalone(s(b'a')), s(b'A'));
    assert_eq!(standalone(s(b'c')), s(b'C'));
    assert_eq!(standalone(s(b'z')), s(b'Z'));
}
