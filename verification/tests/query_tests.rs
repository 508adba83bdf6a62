use depwave::bazel::collect_unique_nonempty_strings;
use depwave::query::{location_query, rdeps_query, workspace_root_from_output};

fn strings(values: &[&str]) -> Vec<String> {
    values.iter().map(|s| s.to_string()).collect()
}

#[test]
fn collect_unique_nonempty_strings_trims_sorts_and_dedups() {
    assert_eq!(
        collect_unique_nonempty_strings(&strings(&[" b ", "a", "", "   ", "b", "a\t"])),
        strings(&["a", "b"])
    );
}

#[test]
fn location_query_lists_each_path_once_in_order() {
    assert_eq!(
        location_query(&strings(&["src/b.rs", " src/a.rs", "src/b.rs", ""])),
        Some("set(src/a.rs src/b.rs)".to_string())
    );
}

#[test]
fn location_query_is_none_without_paths() {
    assert_eq!(location_query(&strings(&["", "  "])), None);
    assert_eq!(location_query(&Vec::new()), None);
}

#[test]
fn rdeps_query_rejects_blank_universe() {
    let err = rdeps_query("  ", &strings(&["//a:a"])).unwrap_err();
    assert_eq!(err.message(), "`--universe` value should not be empty");
}

#[test]
fn rdeps_query_without_labels_is_empty() {
    assert_eq!(rdeps_query("//...", &strings(&[" ", ""])).unwrap(), None);
}

#[test]
fn rdeps_query_names_universe_and_labels() {
    assert_eq!(
        rdeps_query(" //... ", &strings(&["//b:b", "//a:a", "//b:b"])).unwrap(),
        Some("rdeps(//..., set(//a:a //b:b))".to_string())
    );
}

#[test]
fn workspace_root_from_output_trims() {
    assert_eq!(
        workspace_root_from_output("  /home/me/repo\n"),
        Some("/home/me/repo".to_string())
    );
    assert_eq!(workspace_root_from_output(" \n "), None);
}
