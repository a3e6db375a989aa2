use mold_generator::axis::Axis;
use mold_generator::cli::{
    export_sections, invalid_input, parse_arguments, parse_axis, parse_registration,
    parse_section_count, section_output_path, USAGE,
};

#[test]
fn single_section_preserves_requested_output_path() {
    assert_eq!(section_output_path("left.stl", 0, 1), "left.stl");
}

#[test]
fn multiple_sections_get_numbered_output_paths() {
    assert_eq!(section_output_path("out/left.stl", 1, 12), "out/left-02.stl");
}

#[test]
fn section_numbers_widen_for_large_counts() {
    assert_eq!(section_output_path("out/left.stl", 6, 120), "out/left-007.stl");
    assert_eq!(section_output_path("left", 0, 3), "left-01");
}

#[test]
fn section_paths_without_a_file_name_use_the_mold_stem() {
    assert_eq!(section_output_path("/", 0, 2), "/mold-01");
}

#[test]
fn axis_arguments_accept_either_case() {
    assert_eq!(parse_axis("x", "split axis").unwrap(), Axis::X);
    assert_eq!(parse_axis("Y", "split axis").unwrap(), Axis::Y);
    assert_eq!(parse_axis("z", "split axis").unwrap(), Axis::Z);
}

#[test]
fn unknown_axis_names_the_argument_and_shows_usage() {
    let error = parse_axis("w", "section axis").unwrap_err();
    assert_eq!(error.message, format!("section axis must be x, y, or z{USAGE}"));
    assert!(parse_axis("xy", "split axis").is_err());
    assert!(parse_axis("", "split axis").is_err());
}

#[test]
fn invalid_input_appends_the_usage_text() {
    let error = invalid_input("missing input STL");
    assert!(error.message.starts_with("missing input STL\nusage: mold-generator"));
    assert!(error.message.ends_with("output names are suffixed with -01, -02, etc."));
}

#[test]
fn section_counts_are_positive_integers() {
    assert_eq!(parse_section_count("3").unwrap(), 3);
    assert_eq!(parse_section_count("+12").unwrap(), 12);
    assert_eq!(parse_section_count("007").unwrap(), 7);
    assert!(parse_section_count("0").is_err());
    assert!(parse_section_count("").is_err());
    assert!(parse_section_count("+").is_err());
    assert!(parse_section_count("-3").is_err());
    assert!(parse_section_count("3.5").is_err());
    assert!(parse_section_count("99999999999999999999999").is_err());
    let error = parse_section_count("two").unwrap_err();
    assert!(error.message.starts_with("section count must be a positive integer\n"));
}

#[test]
fn registration_argument_is_none_or_default() {
    assert!(!parse_registration("none").unwrap());
    assert!(parse_registration("default").unwrap());
    assert!(parse_registration("Default").is_err());
}

#[test]
fn export_sections_writes_each_section_to_its_own_path() {
    let written = std::cell::RefCell::new(Vec::new());
    let result: Result<(), String> = export_sections("out/left.stl", 3, |index, path| {
        written.borrow_mut().push((index, path));
        Ok(())
    });
    assert!(result.is_ok());
    assert_eq!(
        written.into_inner(),
        vec![
            (0, "out/left-01.stl".to_string()),
            (1, "out/left-02.stl".to_string()),
            (2, "out/left-03.stl".to_string()),
        ]
    );
}

#[test]
fn export_sections_stops_at_the_first_failure() {
    let calls = std::cell::Cell::new(0);
    let result = export_sections("left.stl", 4, |index, _path| {
        calls.set(calls.get() + 1);
        if index == 1 { Err(index) } else { Ok(()) }
    });
    assert_eq!(result, Err(1));
    assert_eq!(calls.get(), 2);
}

fn strings(values: &[&str]) -> Vec<String> {
    values.iter().map(|v| v.to_string()).collect()
}

#[test]
fn three_arguments_take_the_defaults() {
    let parsed = parse_arguments(&strings(&["in.stl", "neg.stl", "pos.stl"]), true).unwrap();
    assert_eq!(parsed.input, "in.stl");
    assert_eq!(parsed.negative_output, "neg.stl");
    assert_eq!(parsed.positive_output, "pos.stl");
    assert_eq!(parsed.margin, None);
    assert_eq!(parsed.split_axis, Axis::Z);
    assert_eq!(parsed.section_count, 1);
    assert_eq!(parsed.section_axis, Axis::X);
    assert!(!parsed.registration);
}

#[test]
fn all_arguments_are_read_in_place() {
    let args = strings(&["a", "b", "c", "2.5", "Y", "3", "z", "default"]);
    let parsed = parse_arguments(&args, true).unwrap();
    assert_eq!(parsed.margin.as_deref(), Some("2.5"));
    assert_eq!(parsed.split_axis, Axis::Y);
    assert_eq!(parsed.section_count, 3);
    assert_eq!(parsed.section_axis, Axis::Z);
    assert!(parsed.registration);
}

#[test]
fn missing_and_bad_arguments_are_reported_in_order() {
    let message = |args: &[&str], number: bool| {
        parse_arguments(&strings(args), number).unwrap_err().message
    };
    assert_eq!(message(&[], true), format!("missing input STL{USAGE}"));
    assert_eq!(message(&["a"], true), format!("missing negative-side output STL{USAGE}"));
    assert_eq!(message(&["a", "b"], true), format!("missing positive-side output STL{USAGE}"));
    assert_eq!(message(&["a", "b", "c", "wide"], false), format!("margin must be a number{USAGE}"));
    assert_eq!(
        message(&["a", "b", "c", "1", "w"], true),
        format!("split axis must be x, y, or z{USAGE}")
    );
    assert_eq!(
        message(&["a", "b", "c", "1", "x", "0"], true),
        format!("section count must be a positive integer{USAGE}")
    );
    assert_eq!(
        message(&["a", "b", "c", "1", "x", "2", "q"], true),
        format!("section axis must be x, y, or z{USAGE}")
    );
    assert_eq!(
        message(&["a", "b", "c", "1", "x", "2", "y", "maybe"], true),
        format!("registration must be none or default{USAGE}")
    );
    assert_eq!(
        message(&["a", "b", "c", "1", "x", "2", "y", "none", "extra"], true),
        format!("too many arguments{USAGE}")
    );
}

#[test]
fn section_paths_share_the_directory_and_differ() {
    let paths: Vec<String> = (0..4).map(|i| section_output_path("out/left.stl", i, 4)).collect();
    assert_eq!(paths, vec!["out/left-01.stl", "out/left-02.stl", "out/left-03.stl", "out/left-04.stl"]);
    for path in &paths {
        assert_eq!(std::path::Path::new(path).parent(), Some(std::path::Path::new("out")));
    }
}
