use kricon::input::{
    box_step, brush_step, circle_segments, command, ending, grab_step, BoxStep, BrushStep, Command, Ending, GrabStep,
    Key,
};

#[test]
fn keys_start_the_commands_of_the_key_table() {
    assert_eq!(command(&[Key::Z], true, false, false), Some(Command::Undo));
    assert_eq!(command(&[Key::R], true, false, false), Some(Command::Redo));
    assert_eq!(command(&[Key::R], false, false, false), Some(Command::Rotate));
    assert_eq!(command(&[Key::G], false, false, false), Some(Command::Translate));
    assert_eq!(command(&[Key::S], false, false, false), Some(Command::Scale));
    assert_eq!(command(&[Key::S], false, true, false), Some(Command::Subdivide));
    assert_eq!(command(&[Key::S], true, false, false), Some(Command::SmoothSubdivide));
    assert_eq!(command(&[Key::S], true, true, true), Some(Command::Decimate));
    assert_eq!(command(&[Key::H], false, false, false), Some(Command::Space));
    assert_eq!(command(&[Key::D], false, true, false), Some(Command::Duplicate));
    assert_eq!(command(&[Key::D], false, false, false), None);
    assert_eq!(command(&[Key::Y], true, false, false), Some(Command::CopyColor));
    assert_eq!(command(&[Key::Y], false, true, false), Some(Command::PasteColor));
    assert_eq!(command(&[Key::Y], false, false, false), Some(Command::Palette));
    assert_eq!(command(&[Key::Delete], false, false, false), Some(Command::Delete));
    assert_eq!(command(&[], true, true, true), None);
}

#[test]
fn the_first_rule_wins_when_keys_come_together() {
    assert_eq!(command(&[Key::R, Key::G], false, false, false), Some(Command::Translate));
    assert_eq!(command(&[Key::X, Key::E], false, false, false), Some(Command::Extrude));
}

#[test]
fn transforms_end_by_their_own_rules() {
    assert_eq!(ending(true, true, false, false, false, false), Ending::Confirm);
    assert_eq!(ending(true, false, false, true, false, false), Ending::Continue);
    assert_eq!(ending(false, false, true, false, false, false), Ending::Confirm);
    assert_eq!(ending(false, false, false, true, false, false), Ending::Cancel);
    assert_eq!(ending(false, false, false, false, true, true), Ending::Cancel);
}

#[test]
fn brush_box_and_grab_steps() {
    assert_eq!(brush_step(false, false, false, true, true), BrushStep::Add);
    assert_eq!(brush_step(false, false, false, false, true), BrushStep::Remove);
    assert_eq!(brush_step(true, false, false, true, false), BrushStep::Leave);
    assert_eq!(box_step(false, false, false, false, false, true), BoxStep::Start);
    assert_eq!(box_step(false, false, false, true, true, false), BoxStep::Wait);
    assert_eq!(box_step(false, false, false, true, false, false), BoxStep::Finish);
    assert_eq!(box_step(false, true, false, true, false, false), BoxStep::Leave);
    assert_eq!(grab_step(false, true), GrabStep::Release);
    assert_eq!(grab_step(true, true), GrabStep::Drag);
    assert_eq!(grab_step(true, false), GrabStep::Hold);
}

#[test]
fn circle_segments_stay_within_bounds() {
    assert_eq!(circle_segments(16, 1), 17);
    assert_eq!(circle_segments(16, -2), 14);
    assert_eq!(circle_segments(4, -5), 3);
    assert_eq!(circle_segments(127, 10), 128);
    assert_eq!(circle_segments(16, isize::MIN), 3);
    assert_eq!(circle_segments(16, isize::MAX), 128);
    assert_eq!(circle_segments(200, 0), 128);
}
