//! How many positions an end-anchored distribution places, and why it may place none.
use vstd::prelude::*;

verus! {

/// The largest number of positions a distribution may return.
pub const MAX_POSITIONS: usize = 1024;

/// Why an end-anchored distribution cannot be placed.
#[derive(Debug, Clone, Copy, PartialEq, Eq, Structural)]
pub enum EndAnchoredDistributionError {
    InvalidSettings,
    InsufficientLength,
    TooManyPositions,
}

impl EndAnchoredDistributionError {
    /// The human-readable description of the error.
    pub fn describe(&self) -> (text: String)
        ensures
            match self {
                EndAnchoredDistributionError::InvalidSettings => text@
                    == "invalid end-anchored distribution settings"@,
                EndAnchoredDistributionError::InsufficientLength => text@
                    == "range is too short for the requested end setbacks"@,
                EndAnchoredDistributionError::TooManyPositions => text@
                    == "distribution produces too many positions"@,
            },
    {
        match self {
            EndAnchoredDistributionError::InvalidSettings => String::from_str(
                "invalid end-anchored distribution settings",
            ),
            EndAnchoredDistributionError::InsufficientLength => String::from_str(
                "range is too short for the requested end setbacks",
            ),
            EndAnchoredDistributionError::TooManyPositions => String::from_str(
                "distribution produces too many positions",
            ),
        }
    }
}

/// The number of positions of a distribution: one more than the spacing intervals
/// needed (saturating), but at least `minimum_positions`.
pub open spec fn spec_position_count(minimum_positions: nat, spacing_intervals: nat) -> nat {
    let spaced: nat = if spacing_intervals < usize::MAX { spacing_intervals + 1 } else {
        usize::MAX as nat
    };
    if minimum_positions >= spaced {
        minimum_positions
    } else {
        spaced
    }
}

/// Decides how many positions a distribution places over a usable length that needs
/// `spacing_intervals` intervals at the maximum spacing, refusing more than
/// [`MAX_POSITIONS`].
pub fn position_count(minimum_positions: usize, spacing_intervals: usize) -> (result: Result<
    usize,
    EndAnchoredDistributionError,
>)
    ensures
        spec_position_count(minimum_positions as nat, spacing_intervals as nat) <= MAX_POSITIONS
            ==> result == Ok::<usize, EndAnchoredDistributionError>(
            spec_position_count(minimum_positions as nat, spacing_intervals as nat) as usize,
        ),
        spec_position_count(minimum_positions as nat, spacing_intervals as nat) > MAX_POSITIONS
            ==> result == Err::<usize, EndAnchoredDistributionError>(
            EndAnchoredDistributionError::TooManyPositions,
        ),
        result matches Ok(count) ==> count >= minimum_positions && (spacing_intervals < usize::MAX
            ==> count >= spacing_intervals + 1) && count <= MAX_POSITIONS,
{
    let spaced = spacing_intervals.saturating_add(1);
    let count = if minimum_positions >= spaced { minimum_positions } else { spaced };
    if count > MAX_POSITIONS {
        return Err(EndAnchoredDistributionError::TooManyPositions);
    }
    Ok(count)
}

/// A distribution places enough positions that no gap exceeds the maximum spacing:
/// at least one more than the spacing intervals (as far as that count is
/// representable), at least the minimum, and no more than the larger of the two.
pub proof fn lemma_position_count_covers_spacing(minimum_positions: nat, spacing_intervals: nat)
    ensures
        spec_position_count(minimum_positions, spacing_intervals) >= minimum_positions,
        spacing_intervals < usize::MAX ==> spec_position_count(minimum_positions, spacing_intervals)
            >= spacing_intervals + 1,
        spacing_intervals >= usize::MAX ==> spec_position_count(minimum_positions, spacing_intervals)
            >= usize::MAX,
        spec_position_count(minimum_positions, spacing_intervals) == minimum_positions
            || spec_position_count(minimum_positions, spacing_intervals) == spacing_intervals + 1
            || (spacing_intervals >= usize::MAX && spec_position_count(
            minimum_positions,
            spacing_intervals,
        ) == usize::MAX),
{
}

/// The number of fixtures placed along a flange: one more than the spacing intervals
/// needed, but at least the minimum per segment.
pub fn flange_division_count(minimum_per_segment: usize, spacing_count: usize) -> (count: usize)
    requires
        spacing_count < usize::MAX,
    ensures
        count == if minimum_per_segment >= spacing_count + 1 { minimum_per_segment } else {
            (spacing_count + 1) as usize
        },
{
    let spaced = spacing_count + 1;
    if minimum_per_segment >= spaced {
        minimum_per_segment
    } else {
        spaced
    }
}

} // verus!
