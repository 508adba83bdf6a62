use depwave::location::{labels_by_path, parse_location_line, split_location_line, workspace_relative_path};

#[test]
fn split_location_line_keeps_path_as_written() {
    assert_eq!(
        split_location_line("  /repo/a/b.rs:3:1: source file //a:b.rs  "),
        Some(("/repo/a/b.rs".to_string(), "//a:b.rs".to_string()))
    );
}

#[test]
fn split_location_line_needs_line_and_column() {
    assert_eq!(split_location_line("/repo/a.rs:3: source file //a:a.rs"), None);
}

#[test]
fn split_location_line_needs_a_label() {
    assert_eq!(split_location_line("/repo/a.rs:3:1:    "), None);
    assert_eq!(split_location_line("/repo/a.rs:3:1: "), None);
}

#[test]
fn split_location_line_uses_last_colon_space() {
    assert_eq!(
        split_location_line("/r/x: y.rs:1:2: rule //p:t"),
        Some(("/r/x: y.rs".to_string(), "//p:t".to_string()))
    );
}

#[test]
fn workspace_relative_path_prefers_stripped_path() {
    assert_eq!(
        workspace_relative_path("/repo/a.rs", Some("a.rs".to_string())),
        "a.rs"
    );
    assert_eq!(workspace_relative_path("/other/a.rs", None), "/other/a.rs");
}

#[test]
fn workspace_relative_path_turns_backslashes_into_slashes() {
    assert_eq!(workspace_relative_path("a\\b\\c.rs", None), "a/b/c.rs");
    assert_eq!(
        workspace_relative_path("ignored", Some("x\\y.rs".to_string())),
        "x/y.rs"
    );
}

#[test]
fn parse_location_line_matches_whole_components_only() {
    assert_eq!(
        parse_location_line("/repository/a.rs:1:1: source file //:a.rs", "/repo"),
        Some(("/repository/a.rs".to_string(), "//:a.rs".to_string()))
    );
}

#[test]
fn parse_location_line_replaces_backslashes_outside_workspace() {
    assert_eq!(
        parse_location_line("C:\\other\\foo.rs:1:2: source file //src:foo.rs", "/repo"),
        Some(("C:/other/foo.rs".to_string(), "//src:foo.rs".to_string()))
    );
}

#[test]
fn labels_by_path_reads_every_line_and_later_lines_win() {
    let stdout = "/repo/a.rs:1:1: source file //:a.rs\r\n\
                  garbage\n\
                  /repo/b.rs:1:1: source file //:b.rs\n\
                  /repo/a.rs:2:2: source file //x:a.rs\n";
    let labels = labels_by_path(stdout, "/repo");

    assert_eq!(labels.len(), 2);
    assert_eq!(labels.get("a.rs"), Some(&"//x:a.rs".to_string()));
    assert_eq!(labels.get("b.rs"), Some(&"//:b.rs".to_string()));
}

#[test]
fn labels_by_path_of_empty_output_is_empty() {
    assert!(labels_by_path("", "/repo").is_empty());
}
