use depwave::bazel::BazelDependencyGraph;
use depwave::owner::{aggregate_owner_churn, build_owner_impacts, OwnerChurn};
use depwave::str_map::StrMap;

fn file_churn(entries: &[(&str, u64)]) -> StrMap<u64> {
    StrMap::from_pairs(
        entries
            .iter()
            .map(|(path, churn)| ((*path).to_string(), *churn))
            .collect(),
    )
}

fn labels_by_path(entries: &[(&str, &str)]) -> StrMap<String> {
    StrMap::from_pairs(
        entries
            .iter()
            .map(|(path, label)| ((*path).to_string(), (*label).to_string()))
            .collect(),
    )
}

fn graph(dot: &str) -> BazelDependencyGraph {
    BazelDependencyGraph::from_dot(dot).unwrap()
}

#[test]
fn aggregates_one_source_file_owned_by_one_rule() {
    let file_churn = file_churn(&[("pkg/foo.rs", 4)]);
    let labels_by_path = labels_by_path(&[("pkg/foo.rs", "//pkg:foo.rs")]);
    let graph = graph(
        r#"
        digraph mygraph {
          "//pkg:lib" -> "//pkg:foo.rs"
        }
    "#,
    );

    let (owners, unresolved_files, no_owner_files) =
        aggregate_owner_churn(&file_churn, &labels_by_path, &graph);

    assert_eq!(owners.len(), 1);
    assert_eq!(owners[0].label, "//pkg:lib");
    assert_eq!(owners[0].churn, 4);
    assert_eq!(owners[0].source_files.len(), 1);
    assert_eq!(owners[0].source_files[0].path, "pkg/foo.rs");
    assert!(unresolved_files.is_empty());
    assert!(no_owner_files.is_empty());
}

#[test]
fn aggregates_multiple_source_files_under_same_owner() {
    let file_churn = file_churn(&[("pkg/bar.rs", 3), ("pkg/foo.rs", 4)]);
    let labels_by_path = labels_by_path(&[
        ("pkg/bar.rs", "//pkg:bar.rs"),
        ("pkg/foo.rs", "//pkg:foo.rs"),
    ]);
    let graph = graph(
        r#"
        digraph mygraph {
          "//pkg:lib" -> "//pkg:foo.rs"
          "//pkg:lib" -> "//pkg:bar.rs"
        }
    "#,
    );

    let (owners, _, _) = aggregate_owner_churn(&file_churn, &labels_by_path, &graph);

    assert_eq!(owners.len(), 1);
    assert_eq!(owners[0].label, "//pkg:lib");
    assert_eq!(owners[0].churn, 7);
    assert_eq!(owners[0].source_files.len(), 2);
    assert_eq!(owners[0].source_files[0].path, "pkg/bar.rs");
    assert_eq!(owners[0].source_files[1].path, "pkg/foo.rs");
}

#[test]
fn assigns_full_file_churn_to_each_owner_for_multi_owner_file() {
    let file_churn = file_churn(&[("pkg/foo.rs", 4)]);
    let labels_by_path = labels_by_path(&[("pkg/foo.rs", "//pkg:foo.rs")]);
    let graph = graph(
        r#"
        digraph mygraph {
          "//pkg:lib" -> "//pkg:foo.rs"
          "//pkg:test" -> "//pkg:foo.rs"
        }
    "#,
    );

    let (owners, _, _) = aggregate_owner_churn(&file_churn, &labels_by_path, &graph);

    assert_eq!(owners.len(), 2);
    assert_eq!(owners[0].label, "//pkg:lib");
    assert_eq!(owners[0].churn, 4);
    assert_eq!(owners[1].label, "//pkg:test");
    assert_eq!(owners[1].churn, 4);
}

#[test]
fn records_file_with_no_owner() {
    let file_churn = file_churn(&[("pkg/foo.rs", 4)]);
    let labels_by_path = labels_by_path(&[("pkg/foo.rs", "//pkg:foo.rs")]);
    let graph = BazelDependencyGraph::default();

    let (owners, unresolved_files, no_owner_files) =
        aggregate_owner_churn(&file_churn, &labels_by_path, &graph);

    assert!(owners.is_empty());
    assert!(unresolved_files.is_empty());
    assert_eq!(no_owner_files.len(), 1);
    assert_eq!(no_owner_files[0].path, "pkg/foo.rs");
    assert_eq!(no_owner_files[0].file_label, "//pkg:foo.rs");
    assert_eq!(no_owner_files[0].churn, 4);
}

#[test]
fn records_unresolved_file_without_label() {
    let file_churn = file_churn(&[("pkg/foo.rs", 4)]);
    let labels_by_path = StrMap::new();
    let graph = BazelDependencyGraph::default();

    let (owners, unresolved_files, no_owner_files) =
        aggregate_owner_churn(&file_churn, &labels_by_path, &graph);

    assert!(owners.is_empty());
    assert_eq!(unresolved_files.len(), 1);
    assert_eq!(unresolved_files[0].path, "pkg/foo.rs");
    assert_eq!(unresolved_files[0].churn, 4);
    assert!(no_owner_files.is_empty());
}

#[test]
fn duplicate_graph_edges_do_not_double_count_owner() {
    let file_churn = file_churn(&[("pkg/foo.rs", 4)]);
    let labels_by_path = labels_by_path(&[("pkg/foo.rs", "//pkg:foo.rs")]);
    let graph = graph(
        r#"
        digraph mygraph {
          "//pkg:lib" -> "//pkg:foo.rs"
          "//pkg:lib" -> "//pkg:foo.rs"
        }
    "#,
    );

    let (owners, _, _) = aggregate_owner_churn(&file_churn, &labels_by_path, &graph);

    assert_eq!(owners.len(), 1);
    assert_eq!(owners[0].label, "//pkg:lib");
    assert_eq!(owners[0].churn, 4);
    assert_eq!(owners[0].source_files.len(), 1);
}

#[test]
fn build_owner_impacts_counts_transitive_dependents_and_scores_owner_churn() {
    let file_churn = file_churn(&[("pkg/foo.rs", 4), ("pkg/bar.rs", 3)]);
    let labels_by_path = labels_by_path(&[
        ("pkg/foo.rs", "//pkg:foo.rs"),
        ("pkg/bar.rs", "//pkg:bar.rs"),
    ]);
    let graph = graph(
        r#"
        digraph mygraph {
          "//pkg:lib" -> "//pkg:foo.rs"
          "//pkg:lib" -> "//pkg:bar.rs"
          "//app:bin" -> "//pkg:lib"
          "//pkg:test" -> "//pkg:lib"
        }
    "#,
    );
    let (owners, _, _) = aggregate_owner_churn(&file_churn, &labels_by_path, &graph);

    let impacts = build_owner_impacts(owners, &graph);

    assert_eq!(impacts.len(), 1);
    assert_eq!(impacts[0].label, "//pkg:lib");
    assert_eq!(impacts[0].churn, 7);
    assert_eq!(impacts[0].transitive_dependents, 2);
    assert_eq!(impacts[0].impact_score, 14);
    assert_eq!(impacts[0].source_files.len(), 2);
}

#[test]
fn build_owner_impacts_uses_zero_dependents_when_owner_has_no_dependents() {
    let owner_churn = vec![OwnerChurn {
        label: "//pkg:lib".to_string(),
        churn: 7,
        source_files: Vec::new(),
    }];
    let graph = graph(
        r#"
        digraph mygraph {
          "//pkg:lib" -> "//pkg:foo.rs"
        }
    "#,
    );

    let impacts = build_owner_impacts(owner_churn, &graph);

    assert_eq!(impacts.len(), 1);
    assert_eq!(impacts[0].transitive_dependents, 0);
    assert_eq!(impacts[0].impact_score, 0);
}
