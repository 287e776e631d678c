use vstd::prelude::*;

verus! {

/// An axis a transform can be locked to.
#[derive(Clone, Copy, PartialEq, Eq, Structural, Debug)]
pub enum Axis {
    X,
    Y,
}

/// The axis lock once the key of `axis` is pressed: unlocked when locked to that axis
/// already, else locked to it.
pub open spec fn toggled_axis(current: Option<Axis>, axis: Axis) -> Option<Axis> {
    if current == Some(axis) { None } else { Some(axis) }
}

/// Locks a transform to `axis`, or unlocks it when it is locked to that axis already.
pub fn toggle_axis(current: Option<Axis>, axis: Axis) -> (next: Option<Axis>)
    ensures
        next == toggled_axis(current, axis),
{
    match (current, axis) {
        (Some(Axis::X), Axis::X) | (Some(Axis::Y), Axis::Y) => None,
        _ => Some(axis),
    }
}

/// Which coordinates a transform may change, as (x, y): both when no axis is locked;
/// otherwise the locked one, or, for a rotation, the other one.
pub fn free_axes(rotate: bool, axis: Option<Axis>) -> (free: (bool, bool))
    ensures
        free == match axis {
            None => (true, true),
            Some(a) => if (a == Axis::X) != rotate { (true, false) } else { (false, true) },
        },
{
    match axis {
        None => (true, true),
        Some(Axis::X) => if rotate { (false, true) } else { (true, false) },
        Some(Axis::Y) => if rotate { (true, false) } else { (false, true) },
    }
}

/// The typed angle once the character `c` is typed: `-` flips the sign in front, a
/// digit is added, and so is a `.` when there is none yet; other characters change
/// nothing.
pub open spec fn typed_after(typed: Seq<u8>, c: char) -> Seq<u8> {
    if c == '-' {
        if typed.len() > 0 && typed[0] == 0x2Du8 { typed.drop_first() } else { seq![0x2Du8] + typed }
    } else if ('0' <= c && c <= '9') || (c == '.' && !typed.contains(0x2Eu8)) {
        typed.push(c as u8)
    } else {
        typed
    }
}

/// Typing `-` twice leaves the typed angle as it was, unless it starts with two of them.
pub proof fn lemma_minus_twice(typed: Seq<u8>)
    requires
        !(typed.len() >= 2 && typed[0] == 0x2Du8 && typed[1] == 0x2Du8),
    ensures
        typed_after(typed_after(typed, '-'), '-') == typed,
{
    if typed.len() > 0 && typed[0] == 0x2Du8 {
        let once = typed.drop_first();
        assert(seq![0x2Du8] + once =~= typed);
    } else {
        let once = seq![0x2Du8] + typed;
        assert(once.drop_first() =~= typed);
    }
}

/// Pressing the key of the same axis twice on an unlocked transform leaves it unlocked.
pub proof fn lemma_axis_twice(axis: Axis)
    ensures
        toggled_axis(toggled_axis(None, axis), axis) is None,
{
}

/// Types the character `c` into the angle typed so far (see `typed_after`).
pub fn type_char(typed: &mut Vec<u8>, c: char)
    ensures
        final(typed)@ == typed_after(old(typed)@, c),
{
    if c == '-' {
        if typed.len() > 0 && typed[0] == 0x2D {
            typed.remove(0);
            assert(typed@ =~= old(typed)@.drop_first());
        } else {
            typed.insert(0, 0x2D);
            assert(typed@ =~= seq![0x2Du8] + old(typed)@);
        }
        return;
    }
    let digit = '0' <= c && c <= '9';
    if digit || (c == '.' && !has_dot(typed)) {
        let byte = c as u8;
        typed.push(byte);
    }
}

fn has_dot(typed: &Vec<u8>) -> (found: bool)
    ensures
        found == typed@.contains(0x2Eu8),
{
    let mut i: usize = 0;
    while i < typed.len()
        invariant
            i <= typed@.len(),
            forall|j: int| 0 <= j < i ==> typed@[j] != 0x2Eu8,
        decreases typed@.len() - i,
    {
        if typed[i] == 0x2E {
            return true;
        }
        i = i + 1;
    }
    false
}

} // verus!
