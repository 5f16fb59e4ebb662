use makegraph::parser::{parse_make_p, ParseError};

fn as_lines(v: &[&str]) -> Vec<String> {
    v.iter().map(|s| s.to_string()).collect()
}

#[test]
fn missing_header_fails() {
    let input = as_lines(&["nothing here", "a: b"]);
    let res = parse_make_p(&input);
    assert!(matches!(res, Err(ParseError::NotMakeDatabase)));
}

#[test]
fn empty_input_fails_with_not_make_database() {
    let input: Vec<String> = Vec::new();
    let res = parse_make_p(&input);
    assert!(matches!(res, Err(ParseError::NotMakeDatabase)));
}

#[test]
fn header_without_files_section_fails() {
    let input = as_lines(&["# Make data base, printed on Mon", "a: b"]);
    let res = parse_make_p(&input);
    assert!(matches!(res, Err(ParseError::NoFilesSection)));
}

#[test]
fn files_line_before_header_does_not_count() {
    let input = as_lines(&["# Files", "# Make data base, printed on Mon"]);
    let res = parse_make_p(&input);
    assert!(matches!(res, Err(ParseError::NoFilesSection)));
}

#[test]
fn error_messages() {
    assert_eq!(
        ParseError::NotMakeDatabase.message(),
        "Input seems not compatible with `LANG=C make -p`."
    );
    assert_eq!(ParseError::NoFilesSection.message(), "No files defined in Makefile.");
}

#[test]
fn simple_records_are_collected_in_order() {
    let input = as_lines(&[
        "# Make data base, printed on Mon",
        "# Files",
        "a: b c",
        "d: e",
        "# files hash-table stats:",
        "ignored: line",
    ]);
    let recs = parse_make_p(&input).unwrap();
    assert_eq!(recs.len(), 2);
    assert_eq!(recs[0].target, "a");
    assert_eq!(recs[0].prereqs, vec!["b".to_string(), "c".to_string()]);
    assert_eq!(recs[1].target, "d");
    assert_eq!(recs[1].prereqs, vec!["e".to_string()]);
}

#[test]
fn target_without_prerequisites_is_recorded() {
    let input = as_lines(&["# Make data base, printed on Mon", "# Files", "a:"]);
    let recs = parse_make_p(&input).unwrap();
    assert_eq!(recs.len(), 1);
    assert_eq!(recs[0].target, "a");
    assert!(recs[0].prereqs.is_empty());
}

#[test]
fn double_spaces_between_prerequisites_are_tolerated() {
    let input = as_lines(&["# Make data base, printed on Mon", "# Files", "a:  b   c"]);
    let recs = parse_make_p(&input).unwrap();
    assert_eq!(recs[0].prereqs, vec!["b".to_string(), "c".to_string()]);
}

#[test]
fn comment_lines_and_lines_without_colon_are_skipped() {
    let input = as_lines(&[
        "# Make data base, printed on Mon",
        "# Files",
        "# a comment: with colon",
        "no colon here",
        "a: b",
    ]);
    let recs = parse_make_p(&input).unwrap();
    assert_eq!(recs.len(), 1);
    assert_eq!(recs[0].target, "a");
}

#[test]
fn empty_target_name_is_passed_through() {
    let input = as_lines(&["# Make data base, printed on Mon", "# Files", ": b"]);
    let recs = parse_make_p(&input).unwrap();
    assert_eq!(recs.len(), 1);
    assert_eq!(recs[0].target, "");
    assert_eq!(recs[0].prereqs, vec!["b".to_string()]);
}

#[test]
fn not_a_target_block_is_excluded_and_parsing_resumes() {
    let input = as_lines(&[
        "# Make data base, printed on Mon",
        "# Files",
        "# Not a target:",
        "hidden: secret",
        "",
        "a: b",
        "# files hash-table stats:",
    ]);
    let recs = parse_make_p(&input).unwrap();
    assert_eq!(recs.len(), 1);
    assert_eq!(recs[0].target, "a");
    assert_eq!(recs[0].prereqs, vec!["b".to_string()]);
}

#[test]
fn unterminated_skip_block_just_stops() {
    let input = as_lines(&[
        "# Make data base, printed on Mon",
        "# Files",
        "# Not a target:",
        "hidden: secret",
        "also: hidden",
    ]);
    let recs = parse_make_p(&input).unwrap();
    assert!(recs.is_empty());
}

#[test]
fn stats_line_inside_skip_block_is_consumed() {
    let input = as_lines(&[
        "# Make data base, printed on Mon",
        "# Files",
        "# Not a target:",
        "# files hash-table stats:",
        "",
        "a: b",
    ]);
    let recs = parse_make_p(&input).unwrap();
    assert_eq!(recs.len(), 1);
    assert_eq!(recs[0].target, "a");
}

#[test]
fn duplicate_targets_stay_separate_records() {
    let input = as_lines(&["# Make data base, printed on Mon", "# Files", "a: b", "a: c"]);
    let recs = parse_make_p(&input).unwrap();
    assert_eq!(recs.len(), 2);
    assert_eq!(recs[0].target, "a");
    assert_eq!(recs[1].target, "a");
}
