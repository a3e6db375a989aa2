use mold_generator::artifacts::{
    assembly_file_name, assembly_object_names, base_insert_name, check_mating, edge_insert_name, longitudinal_insert_name,
    mold_piece_name, socket_label, stl_file_name, transverse_insert_name, RegistrationMating,
};
use mold_generator::shell::FlangeEdge;
use mold_generator::wing::{
    check_wing_spec, edge_name, invalid_mesh_error, preset_shape, wing_edge, wing_surface_name, Naca4, PresetShape,
    WingEdge, WingError, WingSurface,
};

#[test]
fn naca_0012_is_symmetric() {
    let n = Naca4::parse("0012").unwrap();
    assert_eq!(n.max_camber_percent as f64 / 100.0, 0.0);
    assert_eq!(n.thickness_percent as f64 / 100.0, 0.12);
}

#[test]
fn naca_2412_digits_are_read_in_place() {
    assert_eq!(
        Naca4::parse("2412").unwrap(),
        Naca4 { max_camber_percent: 2, camber_position_tenths: 4, thickness_percent: 12 }
    );
}

#[test]
fn naca_codes_must_be_four_digits() {
    for code in ["241", "24120", "24a2", "", "２４１２"] {
        match Naca4::parse(code) {
            Err(WingError::InvalidAirfoil(found)) => assert_eq!(found, code),
            other => panic!("unexpected result for {code}: {other:?}"),
        }
    }
}

#[test]
fn presets_are_found_by_name() {
    assert_eq!(preset_shape("gull").unwrap(), PresetShape::Gull);
    assert_eq!(preset_shape("rectangular").unwrap(), PresetShape::Rectangular);
    assert_eq!(preset_shape("twisted").unwrap(), PresetShape::Twisted);
    assert!(matches!(preset_shape("delta"), Err(WingError::InvalidSpec("unknown preset"))));
}

#[test]
fn wing_errors_describe_themselves() {
    assert_eq!(
        WingError::InvalidAirfoil("99".to_string()).describe(),
        "invalid NACA 4-digit airfoil: 99"
    );
    assert_eq!(WingError::InvalidSpec("bad").describe(), "invalid wing specification: bad");
    match invalid_mesh_error("chord region", "Not Manifold") {
        WingError::Geometry(message) => assert_eq!(message, "invalid chord region: Not Manifold"),
        other => panic!("unexpected error {other:?}"),
    }
}

#[test]
fn edges_and_surfaces_have_artifact_names() {
    assert_eq!(wing_edge(FlangeEdge::Leading), WingEdge::Leading);
    assert_eq!(wing_edge(FlangeEdge::Trailing), WingEdge::Trailing);
    assert_eq!(edge_name(FlangeEdge::Leading), "leading");
    assert_eq!(edge_name(FlangeEdge::Trailing), "trailing");
    assert_eq!(wing_surface_name(WingSurface::Lower), "lower");
    assert_eq!(wing_surface_name(WingSurface::Upper), "upper");
}

#[test]
fn insert_names_number_their_parts_from_one() {
    assert_eq!(edge_insert_name(0, FlangeEdge::Trailing, 2), "registration-insert-s01-trailing-03");
    assert_eq!(
        transverse_insert_name(1, WingSurface::Lower, 0, 1),
        "registration-insert-transverse-s02-lower-c01-02"
    );
    assert_eq!(
        longitudinal_insert_name(2, WingSurface::Upper, 1, 0),
        "registration-insert-longitudinal-s03-upper-c02-01"
    );
    assert_eq!(base_insert_name(WingSurface::Upper, 0, 1), "registration-insert-base-upper-c01-02");
    assert_eq!(edge_insert_name(99, FlangeEdge::Leading, 0), "registration-insert-s100-leading-01");
}

#[test]
fn artifact_files_are_named_after_their_parts() {
    assert_eq!(mold_piece_name(WingSurface::Lower, 0), "mold-lower-01");
    assert_eq!(mold_piece_name(WingSurface::Upper, 11), "mold-upper-12");
    assert_eq!(stl_file_name("mold-lower-01"), "mold-lower-01.stl");
    assert_eq!(assembly_file_name("gull"), "gull-mold-assembly.3mf");
    assert_eq!(socket_label("registration-insert-s01-leading-01"), "registration-insert-s01-leading-01 socket");
}

#[test]
fn mating_checks_reject_missing_or_repeated_tiles() {
    let mating = |a, b| Some(RegistrationMating { surface: WingSurface::Lower, tile_indices: [a, b] });
    assert_eq!(
        check_mating(None, 3).unwrap_err(),
        "segment registration fixture is missing its mating tiles"
    );
    assert_eq!(
        check_mating(mating(1, 1), 3).unwrap_err(),
        "segment registration fixture targets the same tile twice"
    );
    assert_eq!(
        check_mating(mating(1, 3), 3).unwrap_err(),
        "segment registration fixture targets a missing tile"
    );
    assert_eq!(check_mating(mating(0, 2), 3).unwrap().tile_indices, [0, 2]);
}

#[test]
fn assembly_lists_wing_base_pieces_then_inserts() {
    let inserts = vec!["registration-insert-s01-leading-01".to_string()];
    let names = assembly_object_names(2, 1, &inserts);
    assert_eq!(
        names,
        vec![
            "wing",
            "base-sealing-profile",
            "mold-lower-01",
            "mold-lower-02",
            "mold-upper-01",
            "registration-insert-s01-leading-01",
        ]
    );
}

#[test]
fn wing_specs_are_checked_in_order() {
    let spec_error = |result: Result<(), WingError>| match result {
        Err(WingError::InvalidSpec(message)) => message,
        other => panic!("unexpected {other:?}"),
    };
    assert_eq!(spec_error(check_wing_spec(1, 4, false)), "at least two stations are required");
    assert_eq!(spec_error(check_wing_spec(2, 7, false)), "profile_points must be at least 8");
    assert_eq!(spec_error(check_wing_spec(2, 8, false)), "station spans must strictly increase");
    assert!(check_wing_spec(3, 96, true).is_ok());
}
