use asciidork_parser::includes::include_directive_target;

#[test]
fn process_directive_valid_includes() {
    assert!(include_directive_target("include::valid.adoc[]").is_some());
}

#[test]
fn process_directive_invalid_includes() {
    assert!(!include_directive_target("include::invalid []").is_some());
}

#[test]
fn include_target_is_captured() {
    assert_eq!(
        include_directive_target("include::some file.adoc[lines=1..2]"),
        Some("some file.adoc".to_string())
    );
}

#[test]
fn process_includes_valid_includes() {
    assert!(include_directive_target("include::valid.adoc[]").is_some());
}

#[test]
fn process_includes_invalid_includes() {
    assert!(!include_directive_target("include::invalid []").is_some());
}
