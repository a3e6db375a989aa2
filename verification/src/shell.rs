//! Discrete planning of sectioned shell molds: axis bookkeeping, segmentation
//! settings and count order, and the zigzag layout of structural ribs.
use crate::axis::Axis;
use vstd::prelude::*;

verus! {

/// The leading or trailing flange of a wing-shaped shell.
#[derive(Debug, Clone, Copy, PartialEq, Eq, Structural)]
pub enum FlangeEdge {
    Leading,
    Trailing,
}

/// Why no segmentation could be planned.
#[derive(Debug, Clone, PartialEq, Eq)]
pub enum SegmentationError {
    InvalidSettings(&'static str),
    NoPrintablePartition,
}

impl SegmentationError {
    /// The human-readable description of the error.
    pub fn describe(&self) -> (text: String)
        ensures
            match self {
                SegmentationError::InvalidSettings(m) => text@ == "invalid segmentation settings: "@
                    + m@,
                SegmentationError::NoPrintablePartition => text@
                    == "no partition fits the configured print volume"@,
            },
    {
        match self {
            SegmentationError::InvalidSettings(message) => {
                let mut text = String::from_str("invalid segmentation settings: ");
                text.append(message);
                text
            },
            SegmentationError::NoPrintablePartition => String::from_str(
                "no partition fits the configured print volume",
            ),
        }
    }
}

/// Explicit geometry used to divide a shell into its two mold halves.
/// Registration sockets are cut from the final printable pieces so later
/// clipping or construction steps cannot refill or remove them.
pub struct PartingRegions<'a, S> {
    pub negative: &'a S,
    pub positive: &'a S,
    pub negative_flange: Option<&'a S>,
    pub positive_flange: Option<&'a S>,
    pub negative_sockets: &'a [&'a S],
    pub positive_sockets: &'a [&'a S],
    /// Reserved volumes that structural webbing must not enter. Registration
    /// socket cutters are automatically treated as exclusions too.
    pub negative_webbing_exclusions: &'a [&'a S],
    pub positive_webbing_exclusions: &'a [&'a S],
}

/// The position of an axis in a coordinate triple: 0 for X, 1 for Y, 2 for Z.
pub open spec fn spec_axis_index(axis: Axis) -> nat {
    match axis {
        Axis::X => 0,
        Axis::Y => 1,
        Axis::Z => 2,
    }
}

/// The position of `axis` in a coordinate triple or a transform row.
pub fn axis_index(axis: Axis) -> (index: usize)
    ensures
        index == spec_axis_index(axis),
        index < 3,
{
    match axis {
        Axis::X => 0,
        Axis::Y => 1,
        Axis::Z => 2,
    }
}

/// The first of X, Y, Z that is neither `a` nor `b`.
pub open spec fn first_other_axis(a: Axis, b: Axis) -> Axis {
    if a != Axis::X && b != Axis::X {
        Axis::X
    } else if a != Axis::Y && b != Axis::Y {
        Axis::Y
    } else {
        Axis::Z
    }
}

/// The first axis in X, Y, Z order that differs from both `a` and `b`; for two
/// distinct axes this is the third axis.
pub fn remaining_axis(a: Axis, b: Axis) -> (r: Axis)
    ensures
        r == first_other_axis(a, b),
        r != a && r != b,
{
    if a != Axis::X && b != Axis::X {
        Axis::X
    } else if a != Axis::Y && b != Axis::Y {
        Axis::Y
    } else {
        Axis::Z
    }
}

/// The first segment count tried: the preferred count (one when none is preferred),
/// at most the maximum.
pub open spec fn first_segment_count(preferred: Option<usize>, max_segment_count: nat) -> nat {
    let p: nat = match preferred {
        Some(c) => if c >= 1 { c as nat } else { 1 },
        None => 1,
    };
    if p <= max_segment_count { p } else { max_segment_count }
}

/// The order in which segment counts are tried: from the first count up to the maximum,
/// then the smaller counts from one upwards.
pub open spec fn segment_count_order_of(preferred: Option<usize>, max_segment_count: nat) -> Seq<nat> {
    let first = first_segment_count(preferred, max_segment_count);
    Seq::new((max_segment_count + 1 - first) as nat, |k: int| (first + k) as nat) + Seq::new(
        (first - 1) as nat,
        |k: int| (1 + k) as nat,
    )
}

/// The segment counts to try, in order; see [`segment_count_order_of`].
pub fn segment_count_order(preferred: Option<usize>, max_segment_count: usize) -> (order: Vec<usize>)
    requires
        max_segment_count >= 1,
    ensures
        order@.len() == segment_count_order_of(preferred, max_segment_count as nat).len(),
        forall|k: int|
            0 <= k < order@.len() ==> order@[k] as nat == #[trigger] segment_count_order_of(
                preferred,
                max_segment_count as nat,
            )[k],
{
    let preferred_count = match preferred {
        Some(c) => if c >= 1 { c } else { 1 },
        None => 1,
    };
    let first = if preferred_count <= max_segment_count { preferred_count } else { max_segment_count };
    let ghost spec_order = segment_count_order_of(preferred, max_segment_count as nat);
    let mut order: Vec<usize> = Vec::new();
    let mut count = first;
    while count < max_segment_count
        invariant
            1 <= first <= max_segment_count,
            first == first_segment_count(preferred, max_segment_count as nat),
            spec_order == segment_count_order_of(preferred, max_segment_count as nat),
            first <= count <= max_segment_count,
            order@.len() == count - first,
            forall|k: int| 0 <= k < order@.len() ==> order@[k] as nat == spec_order[k],
        decreases max_segment_count - count,
    {
        order.push(count);
        count = count + 1;
    }
    order.push(max_segment_count);
    let mut small: usize = 1;
    while small < first
        invariant
            1 <= first <= max_segment_count,
            first == first_segment_count(preferred, max_segment_count as nat),
            spec_order == segment_count_order_of(preferred, max_segment_count as nat),
            1 <= small <= first,
            order@.len() == max_segment_count + 1 - first + small - 1,
            forall|k: int| 0 <= k < order@.len() ==> order@[k] as nat == spec_order[k],
        decreases first - small,
    {
        order.push(small);
        small = small + 1;
    }
    order
}

/// Every segment count from one to the maximum is tried exactly once, the first
/// count before all others.
pub proof fn lemma_segment_count_order_permutation(preferred: Option<usize>, max_segment_count: nat)
    requires
        max_segment_count >= 1,
    ensures
        segment_count_order_of(preferred, max_segment_count).len() == max_segment_count,
        segment_count_order_of(preferred, max_segment_count)[0] == first_segment_count(
            preferred,
            max_segment_count,
        ),
        forall|c: nat|
            1 <= c <= max_segment_count ==> #[trigger] segment_count_order_of(
                preferred,
                max_segment_count,
            ).contains(c),
        forall|i: int, j: int|
            0 <= i < j < max_segment_count ==> segment_count_order_of(preferred, max_segment_count)[i]
                != segment_count_order_of(preferred, max_segment_count)[j],
{
    let order = segment_count_order_of(preferred, max_segment_count);
    let first = first_segment_count(preferred, max_segment_count);
    let high = (max_segment_count + 1 - first) as nat;
    assert forall|c: nat| 1 <= c <= max_segment_count implies #[trigger] order.contains(c) by {
        if c >= first {
            assert(order[c - first] == c);
        } else {
            assert(order[high + c - 1] == c);
        }
    }
}

/// Checks the settings of a segmentation before any partition is searched, in this
/// order: at least two boundaries; a positive maximum count and a usable print
/// volume; a preferred count within the maximum; strictly increasing boundaries.
pub fn check_segmentation_settings(
    boundary_count: usize,
    max_segment_count: usize,
    print_volume_usable: bool,
    preferred_segment_count: Option<usize>,
    boundaries_increasing: bool,
) -> (result: Result<(), SegmentationError>)
    ensures
        boundary_count < 2 ==> result == Err::<(), SegmentationError>(
            SegmentationError::InvalidSettings("at least two boundaries are required"),
        ),
        boundary_count >= 2 && (max_segment_count == 0 || !print_volume_usable) ==> result == Err::<
            (),
            SegmentationError,
        >(
            SegmentationError::InvalidSettings(
                "print volume and maximum segment count must be positive",
            ),
        ),
        boundary_count >= 2 && max_segment_count > 0 && print_volume_usable && (
        preferred_segment_count matches Some(c) && (c == 0 || c > max_segment_count)) ==> result
            == Err::<(), SegmentationError>(
            SegmentationError::InvalidSettings(
                "preferred segment count must be within the configured maximum",
            ),
        ),
        boundary_count >= 2 && max_segment_count > 0 && print_volume_usable && !(
        preferred_segment_count matches Some(c) && (c == 0 || c > max_segment_count))
            && !boundaries_increasing ==> result == Err::<(), SegmentationError>(
            SegmentationError::InvalidSettings("boundaries must be strictly increasing"),
        ),
        result is Ok <==> (boundary_count >= 2 && max_segment_count > 0 && print_volume_usable
            && !(preferred_segment_count matches Some(c) && (c == 0 || c > max_segment_count))
            && boundaries_increasing),
{
    if boundary_count < 2 {
        return Err(SegmentationError::InvalidSettings("at least two boundaries are required"));
    }
    if max_segment_count == 0 || !print_volume_usable {
        return Err(
            SegmentationError::InvalidSettings(
                "print volume and maximum segment count must be positive",
            ),
        );
    }
    let preferred_out_of_range = match preferred_segment_count {
        Some(count) => count == 0 || count > max_segment_count,
        None => false,
    };
    if preferred_out_of_range {
        return Err(
            SegmentationError::InvalidSettings(
                "preferred segment count must be within the configured maximum",
            ),
        );
    }
    if !boundaries_increasing {
        return Err(SegmentationError::InvalidSettings("boundaries must be strictly increasing"));
    }
    Ok(())
}

/// One rib of a zigzag layout: it runs from a midpoint between two fixtures on one
/// flange to a midpoint on the other flange. Midpoint `k` of a flange lies between
/// its fixtures `k` and `k + 1`.
#[derive(Debug, Clone, Copy, PartialEq, Eq, Structural)]
pub struct RibPlan {
    pub start_edge: FlangeEdge,
    pub start_midpoint: usize,
    pub end_edge: FlangeEdge,
    pub end_midpoint: usize,
}

/// The number of ribs laid out between flanges with the given fixture counts.
pub open spec fn rib_count(leading_fixtures: nat, trailing_fixtures: nat) -> nat {
    let leading: nat = if leading_fixtures >= 1 { (leading_fixtures - 1) as nat } else { 0 };
    let trailing: nat = if trailing_fixtures >= 1 { (trailing_fixtures - 1) as nat } else { 0 };
    let midpoints = if leading <= trailing { leading } else { trailing };
    if midpoints >= 1 { (midpoints - 1) as nat } else { 0 }
}

/// Rib `index` of a zigzag: even ribs run from leading midpoint `index` to trailing
/// midpoint `index + 1`, odd ribs from trailing midpoint `index` to leading midpoint
/// `index + 1`.
pub open spec fn rib_at(index: nat) -> RibPlan {
    if index % 2 == 0 {
        RibPlan {
            start_edge: FlangeEdge::Leading,
            start_midpoint: index as usize,
            end_edge: FlangeEdge::Trailing,
            end_midpoint: (index + 1) as usize,
        }
    } else {
        RibPlan {
            start_edge: FlangeEdge::Trailing,
            start_midpoint: index as usize,
            end_edge: FlangeEdge::Leading,
            end_midpoint: (index + 1) as usize,
        }
    }
}

/// Lays out structural ribs that alternate between the leading and trailing
/// flanges, given how many fixtures each flange carries.
pub fn alternating_rib_plan(leading_fixtures: usize, trailing_fixtures: usize) -> (ribs: Vec<RibPlan>)
    ensures
        ribs@.len() == rib_count(leading_fixtures as nat, trailing_fixtures as nat),
        forall|k: int| 0 <= k < ribs@.len() ==> #[trigger] ribs@[k] == rib_at(k as nat),
{
    let leading = if leading_fixtures >= 1 { leading_fixtures - 1 } else { 0 };
    let trailing = if trailing_fixtures >= 1 { trailing_fixtures - 1 } else { 0 };
    let midpoints = if leading <= trailing { leading } else { trailing };
    let count = if midpoints >= 1 { midpoints - 1 } else { 0 };
    let mut ribs: Vec<RibPlan> = Vec::new();
    let mut index: usize = 0;
    while index < count
        invariant
            count == rib_count(leading_fixtures as nat, trailing_fixtures as nat),
            count < usize::MAX,
            index <= count,
            ribs@.len() == index,
            forall|k: int| 0 <= k < ribs@.len() ==> #[trigger] ribs@[k] == rib_at(k as nat),
        decreases count - index,
    {
        let rib = if index % 2 == 0 {
            RibPlan {
                start_edge: FlangeEdge::Leading,
                start_midpoint: index,
                end_edge: FlangeEdge::Trailing,
                end_midpoint: index + 1,
            }
        } else {
            RibPlan {
                start_edge: FlangeEdge::Trailing,
                start_midpoint: index,
                end_edge: FlangeEdge::Leading,
                end_midpoint: index + 1,
            }
        };
        ribs.push(rib);
        index = index + 1;
    }
    ribs
}

/// The ribs of a zigzag refer only to existing midpoints, alternate their starting
/// flange, and each rib starts where the previous one ended, so the ribs form one
/// continuous path between the flanges.
pub proof fn lemma_rib_zigzag(leading_fixtures: nat, trailing_fixtures: nat, k: nat)
    requires
        k < rib_count(leading_fixtures, trailing_fixtures),
    ensures
        rib_at(k).start_midpoint < leading_fixtures - 1,
        rib_at(k).start_midpoint < trailing_fixtures - 1,
        rib_at(k).end_midpoint < leading_fixtures - 1,
        rib_at(k).end_midpoint < trailing_fixtures - 1,
        rib_at(k).start_edge != rib_at(k).end_edge,
        k + 1 < rib_count(leading_fixtures, trailing_fixtures) ==> rib_at(k + 1).start_edge
            == rib_at(k).end_edge && rib_at(k + 1).start_midpoint == rib_at(k).end_midpoint,
{
}

} // verus!
