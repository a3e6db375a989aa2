use mold_generator::axis::{remaining_axis, Axis};
use mold_generator::distribution::{flange_division_count, position_count, EndAnchoredDistributionError};
use mold_generator::mesh::{closed_loft_triangles, diamond_triangles, surface_loop};
use mold_generator::mold::section_registration_roles;
use mold_generator::wing::{check_wing_spec, preset_shape, PresetShape};
use mold_generator::shell::{
    self, alternating_rib_plan, axis_index, check_segmentation_settings, segment_count_order,
    FlangeEdge, SegmentationError,
};

#[test]
fn core_remaining_axis_is_the_third_axis_or_the_repeated_one() {
    assert_eq!(remaining_axis(Axis::X, Axis::Y), Axis::Z);
    assert_eq!(remaining_axis(Axis::Z, Axis::X), Axis::Y);
    assert_eq!(remaining_axis(Axis::Y, Axis::Z), Axis::X);
    assert_eq!(remaining_axis(Axis::Y, Axis::Y), Axis::Y);
}

#[test]
fn shell_remaining_axis_skips_both_axes() {
    assert_eq!(shell::remaining_axis(Axis::Y, Axis::Z), Axis::X);
    assert_eq!(shell::remaining_axis(Axis::Z, Axis::Y), Axis::X);
    assert_eq!(shell::remaining_axis(Axis::X, Axis::X), Axis::Y);
    assert_eq!(shell::remaining_axis(Axis::Z, Axis::Z), Axis::X);
}

#[test]
fn axis_index_orders_x_y_z() {
    assert_eq!(axis_index(Axis::X), 0);
    assert_eq!(axis_index(Axis::Y), 1);
    assert_eq!(axis_index(Axis::Z), 2);
}

#[test]
fn loft_of_two_square_rings_is_a_closed_box() {
    let triangles = closed_loft_triangles(2, 4);
    assert_eq!(
        triangles,
        vec![
            0, 4, 5, 0, 5, 1, 1, 5, 6, 1, 6, 2, 2, 6, 7, 2, 7, 3, 3, 7, 4, 3, 4, 0, 0, 1, 2, 0, 2,
            3, 4, 6, 5, 4, 7, 6,
        ]
    );
}

#[test]
fn loft_triangles_refer_only_to_existing_vertices() {
    let triangles = closed_loft_triangles(3, 14);
    assert_eq!(triangles.len(), 6 * 14 * 2 + 6 * 12);
    assert!(triangles.iter().all(|&index| index < 3 * 14));
}

#[test]
fn diamond_has_twelve_triangles_over_eight_vertices() {
    let triangles = diamond_triangles();
    assert_eq!(triangles.len(), 36);
    assert_eq!(&triangles[..6], &[0, 5, 4, 0, 1, 5]);
    assert_eq!(&triangles[24..], &[0, 2, 1, 0, 3, 2, 4, 5, 6, 4, 6, 7]);
    assert!(triangles.iter().all(|&index| index < 8));
}

#[test]
fn surface_loop_shares_the_edge_points() {
    let upper = vec![(0.0, 0.0), (0.5, 0.1), (1.0, 0.0)];
    let lower = vec![(0.0, 0.0), (0.5, -0.05), (1.0, 0.0)];
    let outline = surface_loop(&upper, &lower);
    assert_eq!(outline, vec![(1.0, 0.0), (0.5, 0.1), (0.0, 0.0), (0.5, -0.05)]);
    let eight: Vec<u32> = (0..8).collect();
    assert_eq!(surface_loop(&eight, &eight).len(), 14);
}

#[test]
fn registration_keys_mate_between_neighbouring_sections() {
    let roles: Vec<_> = (0..3)
        .map(|index| section_registration_roles(index, 3, true, Axis::Z, Axis::X))
        .collect();
    assert!(roles[0].male_keys && !roles[0].female_sockets);
    assert!(roles[1].male_keys && roles[1].female_sockets);
    assert!(!roles[2].male_keys && roles[2].female_sockets);
    let along = section_registration_roles(1, 3, true, Axis::X, Axis::X);
    assert!(!along.male_keys && !along.female_sockets);
    let unregistered = section_registration_roles(1, 3, false, Axis::Z, Axis::X);
    assert!(!unregistered.male_keys && !unregistered.female_sockets);
}

#[test]
fn segment_counts_start_at_the_preference_then_wrap() {
    assert_eq!(segment_count_order(Some(3), 5), vec![3, 4, 5, 1, 2]);
    assert_eq!(segment_count_order(None, 4), vec![1, 2, 3, 4]);
    assert_eq!(segment_count_order(Some(9), 2), vec![2, 1]);
}

#[test]
fn segmentation_settings_are_checked_in_order() {
    assert_eq!(
        check_segmentation_settings(1, 0, false, None, false),
        Err(SegmentationError::InvalidSettings("at least two boundaries are required"))
    );
    assert_eq!(
        check_segmentation_settings(3, 0, true, None, true),
        Err(SegmentationError::InvalidSettings(
            "print volume and maximum segment count must be positive"
        ))
    );
    assert_eq!(
        check_segmentation_settings(3, 2, true, Some(3), true),
        Err(SegmentationError::InvalidSettings(
            "preferred segment count must be within the configured maximum"
        ))
    );
    assert_eq!(
        check_segmentation_settings(3, 2, true, Some(2), false),
        Err(SegmentationError::InvalidSettings("boundaries must be strictly increasing"))
    );
    assert_eq!(check_segmentation_settings(3, 2, true, Some(2), true), Ok(()));
}

#[test]
fn segmentation_errors_describe_themselves() {
    assert_eq!(
        SegmentationError::NoPrintablePartition.describe(),
        "no partition fits the configured print volume"
    );
    assert_eq!(
        SegmentationError::InvalidSettings("x").describe(),
        "invalid segmentation settings: x"
    );
}

#[test]
fn rib_layouts_alternate_between_flange_edges() {
    let ribs = alternating_rib_plan(4, 4);
    assert_eq!(ribs.len(), 2);
    assert_eq!(ribs[0].start_edge, FlangeEdge::Leading);
    assert_eq!((ribs[0].start_midpoint, ribs[0].end_midpoint), (0, 1));
    assert_eq!(ribs[0].end_edge, FlangeEdge::Trailing);
    assert_eq!(ribs[1].start_edge, FlangeEdge::Trailing);
    assert_eq!((ribs[1].start_midpoint, ribs[1].end_midpoint), (1, 2));
    assert_eq!(ribs[1].end_edge, FlangeEdge::Leading);
    assert!(alternating_rib_plan(2, 9).is_empty());
    assert!(alternating_rib_plan(0, 0).is_empty());
}

#[test]
fn distribution_counts_respect_minimum_and_limit() {
    assert_eq!(position_count(2, 5), Ok(6));
    assert_eq!(position_count(8, 5), Ok(8));
    assert_eq!(position_count(1, 1023), Ok(1024));
    assert_eq!(position_count(1, 1024), Err(EndAnchoredDistributionError::TooManyPositions));
    assert_eq!(position_count(1, usize::MAX), Err(EndAnchoredDistributionError::TooManyPositions));
    assert_eq!(
        EndAnchoredDistributionError::InsufficientLength.describe(),
        "range is too short for the requested end setbacks"
    );
}

#[test]
fn flange_divisions_keep_the_minimum_per_segment() {
    assert_eq!(flange_division_count(2, 2), 3);
    assert_eq!(flange_division_count(5, 2), 5);
}

fn every_edge_is_paired(triangles: &[u64]) -> bool {
    let mut edges = Vec::new();
    for t in triangles.chunks(3) {
        edges.push((t[0], t[1]));
        edges.push((t[1], t[2]));
        edges.push((t[2], t[0]));
    }
    edges.iter().all(|&(u, v)| edges.contains(&(v, u)))
}

#[test]
fn closed_lofts_pair_every_edge() {
    for (rings, len) in [(1, 3), (1, 6), (2, 3), (3, 4), (5, 8)] {
        let triangles = closed_loft_triangles(rings, len);
        assert!(every_edge_is_paired(&triangles), "{rings} rings of {len}");
    }
}

#[test]
fn diamond_pairs_every_edge() {
    assert!(every_edge_is_paired(&diamond_triangles()));
}

#[test]
fn preset_station_lofts_pair_every_edge() {
    // A 48-point profile gives a 94-vertex outline; each preset has two stations,
    // the gull three. The loft through them pairs every edge.
    for name in ["rectangular", "tapered", "swept", "dihedral", "twisted", "gull"] {
        let shape = preset_shape(name).unwrap();
        let stations = if shape == PresetShape::Gull { 3 } else { 2 };
        assert!(check_wing_spec(stations, 48, true).is_ok(), "{name}");
        let triangles = closed_loft_triangles(stations, 94);
        assert!(!triangles.is_empty(), "{name}");
        assert!(every_edge_is_paired(&triangles), "{name}");
    }
}

#[test]
fn three_ring_quad_loft_pairs_every_edge() {
    // A four-corner rectangle lofted through three rings.
    let triangles = closed_loft_triangles(3, 4);
    assert_eq!(triangles.len(), 6 * 4 * 2 + 6 * 2);
    assert!(every_edge_is_paired(&triangles));
}

#[test]
fn two_ring_profile_loft_pairs_every_edge() {
    // Two rings of a 94-point outline: two side triangles per outline vertex and
    // two fans of 92 triangles.
    let triangles = closed_loft_triangles(2, 94);
    assert_eq!(triangles.len(), 3 * (2 * 94 + 2 * 92));
    assert!(every_edge_is_paired(&triangles));
    assert!(triangles.iter().all(|&index| index < 2 * 94));
}

#[test]
fn four_sections_key_all_but_the_last() {
    // Four sections cut along Y with the halves split along Z: every section but the
    // last carries keys into the next, which carries the matching sockets.
    for index in 0..4 {
        let roles = section_registration_roles(index, 4, true, Axis::Z, Axis::Y);
        assert_eq!(roles.male_keys, index + 1 < 4);
        assert_eq!(roles.female_sockets, index > 0);
    }
}

#[test]
fn five_spacing_intervals_give_six_positions() {
    // A 500-unit range with 12-unit setbacks leaves 476 units; at most 100 between
    // positions needs five intervals, so six positions.
    assert_eq!(position_count(2, 5), Ok(6));
}

#[test]
fn two_spacing_intervals_give_three_fixtures() {
    // A 200-unit flange with 21-unit margins leaves 158 units; at most 140 between
    // fixtures needs two intervals, so three fixtures (21, 100, 179).
    assert_eq!(flange_division_count(2, 2), 3);
}
