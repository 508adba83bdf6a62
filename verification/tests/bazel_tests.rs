use depwave::bazel::{strip_dot_quotes, BazelDependencyGraph};
use depwave::location::parse_location_line;

fn sorted(mut values: Vec<String>) -> Vec<String> {
    values.sort();
    values
}

fn strings(values: &[&str]) -> Vec<String> {
    values.iter().map(|s| s.to_string()).collect()
}

fn graph_of(lists: Vec<(&str, Vec<String>)>) -> BazelDependencyGraph {
    BazelDependencyGraph::from_predecessor_lists(
        lists.into_iter().map(|(to, froms)| (to.to_string(), froms)).collect(),
    )
}

#[test]
fn strip_dot_quotes_removes_surrounding_quotes() {
    assert_eq!(strip_dot_quotes(r#""//pkg:target""#), "//pkg:target");
}

#[test]
fn strip_dot_quotes_leaves_unquoted_string_unchanged() {
    assert_eq!(strip_dot_quotes("//pkg:target"), "//pkg:target");
}

#[test]
fn bazel_dependency_graph_from_dot_returns_empty_graph_for_empty_dot() {
    let graph = BazelDependencyGraph::from_dot("").unwrap();

    assert_eq!(graph.node_count(), 0);
    assert_eq!(graph.edge_count(), 0);
}

#[test]
fn bazel_dependency_graph_from_dot_returns_error_for_invalid_dot() {
    let err = BazelDependencyGraph::from_dot("not dot").unwrap_err();

    assert!(
        err.message().contains("failed to parse bazel --output=graph DOT"),
        "unexpected error: {}",
        err.message()
    );
}

#[test]
fn bazel_dependency_graph_from_dot_parses_unfactored_graph() {
    let dot = r#"
        digraph mygraph {
          "//app:bin" -> "//lib:core"
          "//test:unit" -> "//lib:core"
          "//lib:core" -> "//base:base"
        }
    "#;

    let graph = BazelDependencyGraph::from_dot(dot).unwrap();

    assert_eq!(
        sorted(graph.direct_predecessors("//lib:core").to_vec()),
        sorted(strings(&["//app:bin", "//test:unit"]))
    );

    assert_eq!(
        graph.direct_predecessors("//base:base"),
        strings(&["//lib:core"]).as_slice()
    );
}

#[test]
fn bazel_dependency_graph_from_dot_keeps_factored_source_node_as_single_node() {
    let dot = r#"
        digraph mygraph {
          "//app:bin\n//test:unit" -> "//lib:core"
        }
    "#;

    let graph = BazelDependencyGraph::from_dot(dot).unwrap();

    let froms = graph.direct_predecessors("//lib:core");

    assert_eq!(froms.len(), 1);

    assert!(
        froms[0].contains("//app:bin"),
        "factored source node should contain //app:bin, got {:?}",
        froms[0]
    );

    assert!(
        froms[0].contains("//test:unit"),
        "factored source node should contain //test:unit, got {:?}",
        froms[0]
    );
}

#[test]
fn bazel_dependency_graph_from_dot_keeps_factored_destination_node_as_single_node() {
    let dot = r#"
        digraph mygraph {
          "//app:bin" -> "//lib:core\n//lib:util"
        }
    "#;

    let graph = BazelDependencyGraph::from_dot(dot).unwrap();

    assert_eq!(graph.predecessors.len(), 1);

    let factored_destination = graph.predecessors.key_at(0);

    assert!(
        factored_destination.contains("//lib:core"),
        "factored destination node should contain //lib:core, got {factored_destination:?}"
    );

    assert!(
        factored_destination.contains("//lib:util"),
        "factored destination node should contain //lib:util, got {factored_destination:?}"
    );

    assert_eq!(
        graph.direct_predecessors(factored_destination),
        strings(&["//app:bin"]).as_slice()
    );
}

#[test]
fn transitive_dependent_count_walks_predecessors() {
    let graph = graph_of(vec![
        ("//lib:core", strings(&["//app:bin", "//test:unit"])),
        ("//base:base", strings(&["//lib:core"])),
    ]);

    assert_eq!(graph.transitive_dependent_count("//base:base"), 3);
    assert_eq!(graph.transitive_dependent_count("//lib:core"), 2);
    assert_eq!(graph.transitive_dependent_count("//app:bin"), 0);
}

#[test]
fn transitive_dependent_count_handles_cycles_without_infinite_loop() {
    let graph = graph_of(vec![
        ("//a:a", strings(&["//b:b"])),
        ("//b:b", strings(&["//a:a", "//c:c"])),
    ]);

    assert_eq!(graph.transitive_dependent_count("//a:a"), 2);
}

#[test]
fn graph_labels_include_sources_and_destinations() {
    let graph = graph_of(vec![
        ("//lib:core", strings(&["//app:bin", "//test:unit"])),
        ("//base:base", strings(&["//lib:core"])),
    ]);

    let graph_labels = graph.labels();

    assert!(graph_labels.contains("//app:bin"));
    assert!(graph_labels.contains("//test:unit"));
    assert!(graph_labels.contains("//lib:core"));
    assert!(graph_labels.contains("//base:base"));
}

#[test]
fn direct_predecessors_returns_empty_slice_for_absent_label() {
    let graph = BazelDependencyGraph::default();

    assert!(graph.direct_predecessors("//missing:target").is_empty());
}

#[test]
fn factored_graph_does_not_make_individual_labels_appear() {
    let dot = r#"
        digraph mygraph {
          "//app:bin\n//test:unit" -> "//lib:core"
          "//lib:core" -> "//base:base"
        }
    "#;

    let graph = BazelDependencyGraph::from_dot(dot).unwrap();
    let graph_labels = graph.labels();

    assert!(!graph_labels.contains("//app:bin"));
    assert!(!graph_labels.contains("//test:unit"));

    assert!(graph_labels.contains("//lib:core"));
    assert!(graph_labels.contains("//base:base"));

    assert_eq!(graph.transitive_dependent_count("//base:base"), 2);
    assert_eq!(graph.transitive_dependent_count("//lib:core"), 1);
    assert_eq!(graph.transitive_dependent_count("//app:bin"), 0);
    assert_eq!(graph.transitive_dependent_count("//test:unit"), 0);
}

#[test]
fn parse_location_line_returns_workspace_relative_path_and_label() {
    let workspace_root = "/repo";
    let line = "/repo/src/lib/foo.rs:12:34: source file //src/lib:foo.rs";

    assert_eq!(
        parse_location_line(line, workspace_root),
        Some(("src/lib/foo.rs".to_string(), "//src/lib:foo.rs".to_string()))
    );
}

#[test]
fn parse_location_line_keeps_path_when_outside_workspace() {
    let workspace_root = "/repo";
    let line = "/tmp/generated/foo.rs:12:34: source file @ext//pkg:foo.rs";

    assert_eq!(
        parse_location_line(line, workspace_root),
        Some((
            "/tmp/generated/foo.rs".to_string(),
            "@ext//pkg:foo.rs".to_string()
        ))
    );
}

#[test]
fn parse_location_line_handles_colons_inside_path() {
    let workspace_root = "C:/repo";
    let line = "C:/repo/src/lib/foo.rs:12:34: source file //src/lib:foo.rs";

    assert_eq!(
        parse_location_line(line, workspace_root),
        Some(("src/lib/foo.rs".to_string(), "//src/lib:foo.rs".to_string()))
    );
}

#[test]
fn parse_location_line_returns_none_for_malformed_line() {
    let workspace_root = "/repo";

    assert_eq!(
        parse_location_line("not a bazel location line", workspace_root),
        None
    );
}
