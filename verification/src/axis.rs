use vstd::prelude::*;

verus! {

/// A coordinate axis of model space.
#[derive(Debug, Clone, Copy, PartialEq, Eq, Structural)]
pub enum Axis {
    X,
    Y,
    Z,
}

/// The axis that is neither `a` nor `b`; when both are the same axis, that axis itself.
pub open spec fn spec_remaining_axis(a: Axis, b: Axis) -> Axis {
    if a == b {
        a
    } else if a != Axis::X && b != Axis::X {
        Axis::X
    } else if a != Axis::Y && b != Axis::Y {
        Axis::Y
    } else {
        Axis::Z
    }
}

/// Returns the third axis for two distinct axes, and `a` when both are equal.
pub fn remaining_axis(a: Axis, b: Axis) -> (r: Axis)
    ensures
        r == spec_remaining_axis(a, b),
        a != b ==> r != a && r != b,
        a == b ==> r == a,
{
    match (a, b) {
        (Axis::X, Axis::Y) | (Axis::Y, Axis::X) => Axis::Z,
        (Axis::X, Axis::Z) | (Axis::Z, Axis::X) => Axis::Y,
        (Axis::Y, Axis::Z) | (Axis::Z, Axis::Y) => Axis::X,
        _ => a,
    }
}

} // verus!
