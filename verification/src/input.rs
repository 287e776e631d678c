use vstd::prelude::*;

verus! {

/// The keys the editor reacts to.
#[derive(Clone, Copy, PartialEq, Eq, Structural, Debug)]
pub enum Key {
    B,
    C,
    D,
    E,
    F,
    G,
    H,
    I,
    L,
    M,
    P,
    R,
    S,
    V,
    W,
    X,
    Y,
    Z,
    Delete,
}

/// What an idle editor starts from the keyboard.
#[derive(Clone, Copy, PartialEq, Eq, Structural, Debug)]
pub enum Command {
    Undo,
    Redo,
    Translate,
    Rotate,
    Scale,
    Decimate,
    Subdivide,
    SmoothSubdivide,
    Space,
    Connect,
    Duplicate,
    Extrude,
    Inset,
    AddVertex,
    Link,
    CreateMenu,
    MergeMenu,
    Dissolve,
    ToggleHole,
    CopyColor,
    PasteColor,
    Palette,
    Brush,
    BoxSelect,
    Delete,
}

/// The command that the keys pressed in a frame start, with the modifiers held: the
/// first of these rules that applies.
pub open spec fn command_for(pressed: Seq<Key>, ctrl: bool, shift: bool, alt: bool) -> Option<Command> {
    if pressed.contains(Key::Z) && ctrl {
        Some(Command::Undo)
    } else if pressed.contains(Key::R) && ctrl {
        Some(Command::Redo)
    } else if pressed.contains(Key::G) {
        Some(Command::Translate)
    } else if pressed.contains(Key::R) {
        Some(Command::Rotate)
    } else if pressed.contains(Key::S) && alt {
        Some(Command::Decimate)
    } else if pressed.contains(Key::S) && ctrl {
        Some(Command::SmoothSubdivide)
    } else if pressed.contains(Key::S) && shift {
        Some(Command::Subdivide)
    } else if pressed.contains(Key::S) {
        Some(Command::Scale)
    } else if pressed.contains(Key::H) {
        Some(Command::Space)
    } else if pressed.contains(Key::F) {
        Some(Command::Connect)
    } else if pressed.contains(Key::D) && shift {
        Some(Command::Duplicate)
    } else if pressed.contains(Key::E) {
        Some(Command::Extrude)
    } else if pressed.contains(Key::I) {
        Some(Command::Inset)
    } else if pressed.contains(Key::V) {
        Some(Command::AddVertex)
    } else if pressed.contains(Key::L) {
        Some(Command::Link)
    } else if pressed.contains(Key::W) {
        Some(Command::CreateMenu)
    } else if pressed.contains(Key::M) {
        Some(Command::MergeMenu)
    } else if pressed.contains(Key::X) {
        Some(Command::Dissolve)
    } else if pressed.contains(Key::P) {
        Some(Command::ToggleHole)
    } else if pressed.contains(Key::Y) && ctrl {
        Some(Command::CopyColor)
    } else if pressed.contains(Key::Y) && shift {
        Some(Command::PasteColor)
    } else if pressed.contains(Key::Y) {
        Some(Command::Palette)
    } else if pressed.contains(Key::C) {
        Some(Command::Brush)
    } else if pressed.contains(Key::B) {
        Some(Command::BoxSelect)
    } else if pressed.contains(Key::Delete) {
        Some(Command::Delete)
    } else {
        None
    }
}

/// Whether `key` is among `pressed`.
fn held(pressed: &[Key], key: Key) -> (found: bool)
    ensures
        found == pressed@.contains(key),
{
    let mut i: usize = 0;
    while i < pressed.len()
        invariant
            i <= pressed@.len(),
            forall|j: int| 0 <= j < i ==> pressed@[j] != key,
        decreases pressed@.len() - i,
    {
        if pressed[i] == key {
            return true;
        }
        i = i + 1;
    }
    false
}

/// The command that the keys pressed in a frame start (see `command_for`).
pub fn command(pressed: &[Key], ctrl: bool, shift: bool, alt: bool) -> (found: Option<Command>)
    ensures
        found == command_for(pressed@, ctrl, shift, alt),
{
    if held(pressed, Key::Z) && ctrl {
        Some(Command::Undo)
    } else if held(pressed, Key::R) && ctrl {
        Some(Command::Redo)
    } else if held(pressed, Key::G) {
        Some(Command::Translate)
    } else if held(pressed, Key::R) {
        Some(Command::Rotate)
    } else if held(pressed, Key::S) && alt {
        Some(Command::Decimate)
    } else if held(pressed, Key::S) && ctrl {
        Some(Command::SmoothSubdivide)
    } else if held(pressed, Key::S) && shift {
        Some(Command::Subdivide)
    } else if held(pressed, Key::S) {
        Some(Command::Scale)
    } else if held(pressed, Key::H) {
        Some(Command::Space)
    } else if held(pressed, Key::F) {
        Some(Command::Connect)
    } else if held(pressed, Key::D) && shift {
        Some(Command::Duplicate)
    } else if held(pressed, Key::E) {
        Some(Command::Extrude)
    } else if held(pressed, Key::I) {
        Some(Command::Inset)
    } else if held(pressed, Key::V) {
        Some(Command::AddVertex)
    } else if held(pressed, Key::L) {
        Some(Command::Link)
    } else if held(pressed, Key::W) {
        Some(Command::CreateMenu)
    } else if held(pressed, Key::M) {
        Some(Command::MergeMenu)
    } else if held(pressed, Key::X) {
        Some(Command::Dissolve)
    } else if held(pressed, Key::P) {
        Some(Command::ToggleHole)
    } else if held(pressed, Key::Y) && ctrl {
        Some(Command::CopyColor)
    } else if held(pressed, Key::Y) && shift {
        Some(Command::PasteColor)
    } else if held(pressed, Key::Y) {
        Some(Command::Palette)
    } else if held(pressed, Key::C) {
        Some(Command::Brush)
    } else if held(pressed, Key::B) {
        Some(Command::BoxSelect)
    } else if held(pressed, Key::Delete) {
        Some(Command::Delete)
    } else {
        None
    }
}

/// How a transform goes on in a frame.
#[derive(Clone, Copy, PartialEq, Eq, Structural, Debug)]
pub enum Ending {
    Continue,
    Confirm,
    Cancel,
}

/// How a transform goes on: one started by dragging is confirmed when the secondary
/// button is released or Enter pressed, and cancelled by Escape; one started from the
/// keyboard is confirmed by a primary click or Enter, and cancelled by Escape or a
/// secondary click. Cancelling wins.
pub open spec fn spec_ending(drag: bool, released_secondary: bool, pressed_primary: bool, pressed_secondary: bool,
    enter: bool, escape: bool) -> Ending
{
    let (confirm, cancel) = if drag {
        (released_secondary || enter, escape)
    } else {
        (pressed_primary || enter, escape || pressed_secondary)
    };
    if cancel { Ending::Cancel } else if confirm { Ending::Confirm } else { Ending::Continue }
}

/// How a transform goes on in a frame (see `spec_ending`).
pub fn ending(drag: bool, released_secondary: bool, pressed_primary: bool, pressed_secondary: bool, enter: bool,
    escape: bool) -> (result: Ending)
    ensures
        result == spec_ending(drag, released_secondary, pressed_primary, pressed_secondary, enter, escape),
{
    let (confirm, cancel) = if drag {
        (released_secondary || enter, escape)
    } else {
        (pressed_primary || enter, escape || pressed_secondary)
    };
    if cancel {
        Ending::Cancel
    } else if confirm {
        Ending::Confirm
    } else {
        Ending::Continue
    }
}

/// What a grab with the secondary button does in a frame.
#[derive(Clone, Copy, PartialEq, Eq, Structural, Debug)]
pub enum GrabStep {
    Release,
    Drag,
    Hold,
}

/// What a grab does: releasing the secondary button ends it, and a drag with it held
/// starts moving the selection.
pub open spec fn spec_grab_step(secondary_down: bool, dragging: bool) -> GrabStep {
    if !secondary_down {
        GrabStep::Release
    } else if dragging {
        GrabStep::Drag
    } else {
        GrabStep::Hold
    }
}

/// What a grab does in a frame (see `spec_grab_step`).
pub fn grab_step(secondary_down: bool, dragging: bool) -> (step: GrabStep)
    ensures
        step == spec_grab_step(secondary_down, dragging),
{
    if !secondary_down {
        GrabStep::Release
    } else if dragging {
        GrabStep::Drag
    } else {
        GrabStep::Hold
    }
}

/// What the brush does in a frame.
#[derive(Clone, Copy, PartialEq, Eq, Structural, Debug)]
pub enum BrushStep {
    Leave,
    Add,
    Remove,
    Hover,
}

/// What the brush does: its key, Escape or a secondary click over the view leaves it;
/// else the primary button held over the view adds what it covers to the selection, and
/// the middle button held takes it away.
pub open spec fn spec_brush_step(leave_key: bool, escape: bool, secondary_click: bool, primary_down: bool,
    middle_down: bool) -> BrushStep
{
    if leave_key || escape || secondary_click {
        BrushStep::Leave
    } else if primary_down {
        BrushStep::Add
    } else if middle_down {
        BrushStep::Remove
    } else {
        BrushStep::Hover
    }
}

/// What the brush does in a frame (see `spec_brush_step`).
pub fn brush_step(leave_key: bool, escape: bool, secondary_click: bool, primary_down: bool, middle_down: bool)
    -> (step: BrushStep)
    ensures
        step == spec_brush_step(leave_key, escape, secondary_click, primary_down, middle_down),
{
    if leave_key || escape || secondary_click {
        BrushStep::Leave
    } else if primary_down {
        BrushStep::Add
    } else if middle_down {
        BrushStep::Remove
    } else {
        BrushStep::Hover
    }
}

/// What box selection does in a frame.
#[derive(Clone, Copy, PartialEq, Eq, Structural, Debug)]
pub enum BoxStep {
    Leave,
    Finish,
    Start,
    Wait,
}

/// What box selection does: its key, Escape or a secondary click over the view leaves
/// it; once a box is started, releasing the primary button selects what it covers; before,
/// a primary press over the view starts the box.
pub open spec fn spec_box_step(leave_key: bool, escape: bool, secondary_click: bool, started: bool,
    primary_down: bool, primary_press: bool) -> BoxStep
{
    if leave_key || escape || secondary_click {
        BoxStep::Leave
    } else if started {
        if !primary_down { BoxStep::Finish } else { BoxStep::Wait }
    } else if primary_press {
        BoxStep::Start
    } else {
        BoxStep::Wait
    }
}

/// What box selection does in a frame (see `spec_box_step`).
pub fn box_step(leave_key: bool, escape: bool, secondary_click: bool, started: bool, primary_down: bool,
    primary_press: bool) -> (step: BoxStep)
    ensures
        step == spec_box_step(leave_key, escape, secondary_click, started, primary_down, primary_press),
{
    if leave_key || escape || secondary_click {
        BoxStep::Leave
    } else if started {
        if !primary_down {
            BoxStep::Finish
        } else {
            BoxStep::Wait
        }
    } else if primary_press {
        BoxStep::Start
    } else {
        BoxStep::Wait
    }
}

/// The fewest and the most segments a new circle can have.
pub const MIN_CIRCLE_SEGMENTS: usize = 3;
pub const MAX_CIRCLE_SEGMENTS: usize = 128;

/// The segments of a new circle after `steps` turns of the wheel: one more or fewer per
/// step, within the bounds.
pub fn circle_segments(current: usize, steps: isize) -> (segments: usize)
    ensures
        segments == if current + steps < MIN_CIRCLE_SEGMENTS {
            MIN_CIRCLE_SEGMENTS as int
        } else if current + steps > MAX_CIRCLE_SEGMENTS {
            MAX_CIRCLE_SEGMENTS as int
        } else {
            current + steps
        },
{
    if steps < 0 {
        let down = if steps == isize::MIN { isize::MAX as usize + 1 } else { (-steps) as usize };
        if current < MIN_CIRCLE_SEGMENTS + down {
            MIN_CIRCLE_SEGMENTS
        } else if current - down > MAX_CIRCLE_SEGMENTS {
            MAX_CIRCLE_SEGMENTS
        } else {
            current - down
        }
    } else {
        let up = steps as usize;
        if current > MAX_CIRCLE_SEGMENTS || up > MAX_CIRCLE_SEGMENTS - current {
            MAX_CIRCLE_SEGMENTS
        } else if current + up < MIN_CIRCLE_SEGMENTS {
            MIN_CIRCLE_SEGMENTS
        } else {
            current + up
        }
    }
}

} // verus!
