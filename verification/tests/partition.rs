use mold_generator::partition::{best_partition, plan_partition};
use mold_generator::shell::SegmentationError;

/// The fit table of boundaries at `positions` when a segment fits exactly when it is
/// at most `limit` long.
fn fits_within(positions: &[f64], limit: f64) -> Vec<Vec<bool>> {
    let n = positions.len();
    (0..n)
        .map(|i| (0..n).map(|j| i < j && positions[j] - positions[i] <= limit).collect())
        .collect()
}

fn preference_order(preferences: &[f64]) -> impl Fn(&Vec<usize>, &Vec<usize>) -> bool + '_ {
    let end = preferences.len() - 1;
    move |candidate: &Vec<usize>, existing: &Vec<usize>| {
        let score = |cuts: &Vec<usize>| {
            cuts.iter()
                .fold(0.0, |s, &c| s + if c == end { 0.0 } else { preferences[c] })
        };
        score(candidate) > score(existing)
    }
}

#[test]
fn partitioner_adds_sections_to_satisfy_printer_height() {
    // Boundaries at 0, 100, 200, 300 with preferences 0, 10, 1, 0; the printer holds
    // 210 units of height, so one segment is too tall and the bend at 100 wins.
    let fits = fits_within(&[0.0, 100.0, 200.0, 300.0], 210.0);
    let prefer = preference_order(&[0.0, 10.0, 1.0, 0.0]);
    assert_eq!(plan_partition(&fits, None, 3, &prefer), Ok(vec![0, 1, 3]));
}

#[test]
fn partitioner_reports_when_even_smallest_sections_do_not_fit() {
    let fits = fits_within(&[0.0, 100.0], 50.0);
    let prefer = preference_order(&[0.0, 0.0]);
    assert_eq!(
        plan_partition(&fits, None, 1, &prefer),
        Err(SegmentationError::NoPrintablePartition)
    );
}

#[test]
fn best_partition_uses_exactly_the_requested_segments() {
    let fits = fits_within(&[0.0, 100.0, 200.0, 300.0], 210.0);
    let prefer = preference_order(&[0.0, 10.0, 1.0, 0.0]);
    assert_eq!(best_partition(&fits, 1, &prefer), None);
    assert_eq!(best_partition(&fits, 2, &prefer), Some(vec![0, 1, 3]));
    assert_eq!(best_partition(&fits, 3, &prefer), Some(vec![0, 1, 2, 3]));
    assert_eq!(best_partition(&fits, 4, &prefer), None);
}

#[test]
fn best_partition_keeps_the_preferred_cut() {
    // Both two-segment partitions fit; the cut at boundary 2 is preferred here.
    let fits = fits_within(&[0.0, 100.0, 200.0, 300.0], 210.0);
    let prefer = preference_order(&[0.0, 1.0, 10.0, 0.0]);
    assert_eq!(best_partition(&fits, 2, &prefer), Some(vec![0, 2, 3]));
}

#[test]
fn preferred_count_is_tried_first_then_larger_then_smaller() {
    let fits = fits_within(&[0.0, 100.0, 200.0, 300.0], 310.0);
    let prefer = preference_order(&[0.0, 0.0, 0.0, 0.0]);
    // Everything fits: the preferred count of two wins over one segment.
    assert_eq!(plan_partition(&fits, Some(2), 3, &prefer), Ok(vec![0, 1, 3]));
    assert_eq!(plan_partition(&fits, None, 3, &prefer), Ok(vec![0, 3]));
    // Nothing longer than 100 fits: only three segments work.
    let tight = fits_within(&[0.0, 100.0, 200.0, 300.0], 100.0);
    assert_eq!(plan_partition(&tight, Some(1), 3, &prefer), Ok(vec![0, 1, 2, 3]));
}
