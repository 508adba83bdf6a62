use depwave::bazel::{count_transitive_dependents_by_label, strip_dot_quotes, BazelDependencyGraph};
use depwave::file_churn::parse_name_status_stdout;
use depwave::files::{classify_file, source_file_churn, FileKind};
use depwave::owner::{aggregate_owner_churn, build_owner_impacts, OwnerChurn};
use depwave::str_map::StrMap;

fn strings(values: &[&str]) -> Vec<String> {
    values.iter().map(|s| s.to_string()).collect()
}

#[test]
fn strip_dot_quotes_strips_one_layer_only() {
    assert_eq!(strip_dot_quotes("\"\"x\"\""), "\"x\"");
    assert_eq!(strip_dot_quotes("\""), "\"");
    assert_eq!(strip_dot_quotes("\"\""), "");
}

#[test]
fn deleted_path_stays_out_unless_added_again() {
    let parsed = parse_name_status_stdout("A\tp.rs\nD\tp.rs\nM\tq.rs\n");
    assert_eq!(parsed.churn.get("p.rs"), None);
    assert_eq!(parsed.churn.get("q.rs"), Some(&1));

    let parsed = parse_name_status_stdout("A\tp.rs\nD\tp.rs\nA\tp.rs\n");
    assert_eq!(parsed.churn.get("p.rs"), Some(&1));
}

#[test]
fn parse_name_status_handles_crlf_and_missing_paths() {
    let parsed = parse_name_status_stdout("A\ta.rs\r\nR100\tonly_old.rs\nC\tx.rs\nD\n\tb.rs\n");
    assert_eq!(parsed.churn.get("a.rs"), Some(&1));
    assert_eq!(parsed.churn.len(), 1);
    assert_eq!(parsed.malformed_lines, 4);
}

#[test]
fn rename_onto_existing_path_adds_both_counts() {
    let parsed = parse_name_status_stdout("A\told.rs\nA\tnew.rs\nM\tnew.rs\nR090\told.rs\tnew.rs\n");
    assert_eq!(parsed.churn.get("old.rs"), None);
    assert_eq!(parsed.churn.get("new.rs"), Some(&4));
}

#[test]
fn source_file_churn_keeps_only_sources() {
    let churn = StrMap::from_pairs(vec![
        ("BUILD".to_string(), 1),
        ("a.rs".to_string(), 2),
        ("x.bzl".to_string(), 3),
    ]);
    let sources = source_file_churn(&churn);
    assert_eq!(sources.len(), 1);
    assert_eq!(sources.get("a.rs"), Some(&2));
    assert_eq!(classify_file("dir/BUILD/"), FileKind::BuildFile);
    assert_eq!(classify_file("BUILD.bzl"), FileKind::BzlFile);
}

#[test]
fn every_source_file_lands_in_one_bucket() {
    let file_churn = StrMap::from_pairs(vec![
        ("a.rs".to_string(), 1),
        ("b.rs".to_string(), 2),
        ("c.rs".to_string(), 3),
    ]);
    let labels = StrMap::from_pairs(vec![
        ("b.rs".to_string(), "//:b.rs".to_string()),
        ("c.rs".to_string(), "//:c.rs".to_string()),
    ]);
    let graph = BazelDependencyGraph::from_predecessor_lists(vec![(
        "//:c.rs".to_string(),
        strings(&["//:lib", "//:test"]),
    )]);
    let (owners, unresolved, no_owner) = aggregate_owner_churn(&file_churn, &labels, &graph);

    assert_eq!(unresolved.len(), 1);
    assert_eq!(unresolved[0].path, "a.rs");
    assert_eq!(no_owner.len(), 1);
    assert_eq!(no_owner[0].path, "b.rs");
    assert_eq!(owners.len(), 2);
    for owner in &owners {
        assert_eq!(owner.source_files.len(), 1);
        assert_eq!(owner.source_files[0].path, "c.rs");
        assert_eq!(owner.churn, 3);
    }
}

#[test]
fn impact_score_saturates() {
    let graph = BazelDependencyGraph::from_predecessor_lists(vec![(
        "//:lib".to_string(),
        strings(&["//:a", "//:b"]),
    )]);
    let impacts = build_owner_impacts(
        vec![OwnerChurn { label: "//:lib".to_string(), churn: u64::MAX, source_files: Vec::new() }],
        &graph,
    );
    assert_eq!(impacts[0].transitive_dependents, 2);
    assert_eq!(impacts[0].impact_score, u64::MAX);
}

#[test]
fn owner_churn_saturates() {
    let file_churn = StrMap::from_pairs(vec![
        ("a.rs".to_string(), u64::MAX),
        ("b.rs".to_string(), 5),
    ]);
    let labels = StrMap::from_pairs(vec![
        ("a.rs".to_string(), "//:a.rs".to_string()),
        ("b.rs".to_string(), "//:b.rs".to_string()),
    ]);
    let graph = BazelDependencyGraph::from_predecessor_lists(vec![
        ("//:a.rs".to_string(), strings(&["//:lib"])),
        ("//:b.rs".to_string(), strings(&["//:lib"])),
    ]);
    let (owners, _, _) = aggregate_owner_churn(&file_churn, &labels, &graph);
    assert_eq!(owners[0].churn, u64::MAX);
}

#[test]
fn dependents_of_a_predecessor_are_dependents() {
    let graph = BazelDependencyGraph::from_predecessor_lists(vec![
        ("//:base".to_string(), strings(&["//:mid", "//:base"])),
        ("//:mid".to_string(), strings(&["//:top", "//:other"])),
    ]);
    assert_eq!(graph.transitive_dependent_count("//:mid"), 2);
    assert_eq!(graph.transitive_dependent_count("//:base"), 3);
    assert_eq!(graph.node_count(), 4);
    assert_eq!(graph.edge_count(), 4);
}

#[test]
fn count_transitive_dependents_by_label_covers_each_distinct_label() {
    let graph = BazelDependencyGraph::from_predecessor_lists(vec![(
        "//:lib".to_string(),
        strings(&["//:app"]),
    )]);
    let counts =
        count_transitive_dependents_by_label(&graph, &strings(&[" //:lib", "//:lib", "//:gone", ""]));
    assert_eq!(counts.len(), 2);
    assert_eq!(counts.get("//:lib"), Some(&1));
    assert_eq!(counts.get("//:gone"), Some(&0));
}

#[test]
fn duplicate_edges_are_kept_in_edge_count() {
    let graph = BazelDependencyGraph::from_dot("digraph g { \"a\" -> \"b\"\n \"a\" -> \"b\" }").unwrap();
    assert_eq!(graph.edge_count(), 2);
    assert_eq!(graph.node_count(), 2);
    assert_eq!(graph.transitive_dependent_count("b"), 1);
}

#[test]
fn str_map_keeps_keys_sorted_and_replaces_values() {
    let mut m: StrMap<u64> = StrMap::new();
    m.insert("b".to_string(), 1);
    m.insert("a".to_string(), 2);
    m.insert("b".to_string(), 3);
    assert_eq!(m.keys(), strings(&["a", "b"]));
    assert_eq!(m.get("b"), Some(&3));
    assert_eq!(m.remove("a"), Some(2));
    assert_eq!(m.remove("a"), None);
    assert_eq!(m.len(), 1);
}

#[test]
fn malformed_lines_add_up_over_concatenated_logs() {
    let a = "M\nA\tx.rs\nX\ty.rs\n";
    let b = "\tz.rs\nD\nM\tw.rs\n";
    let whole = parse_name_status_stdout(&format!("{a}{b}"));
    assert_eq!(
        whole.malformed_lines,
        parse_name_status_stdout(a).malformed_lines + parse_name_status_stdout(b).malformed_lines
    );
    assert_eq!(whole.malformed_lines, 4);
}

#[test]
fn churn_counts_are_positive_and_bounded_by_lines() {
    let parsed = parse_name_status_stdout("A\ta\nM\ta\nR1\ta\tb\nC1\tb\tc\nbad\n");
    let mut total = parsed.malformed_lines;
    for key in parsed.churn.keys() {
        let count = *parsed.churn.get(&key).unwrap();
        assert!(count >= 1);
        total += count;
    }
    assert!(total <= 5);
    assert_eq!(parsed.churn.get("b"), Some(&3));
    assert_eq!(parsed.churn.get("c"), Some(&1));
}

#[test]
fn collecting_unique_strings_twice_changes_nothing() {
    let once = depwave::bazel::collect_unique_nonempty_strings(&strings(&[" b", "a ", "b", "", " "]));
    let twice = depwave::bazel::collect_unique_nonempty_strings(&once);
    assert_eq!(once, twice);
    assert_eq!(once, strings(&["a", "b"]));
}

#[test]
fn every_dot_edge_is_recorded_unquoted() {
    let graph =
        BazelDependencyGraph::from_dot("digraph g {\n \"x\" -> \"y\"\n \"z\" -> \"y\"\n \"y\" -> \"w\"\n}")
            .unwrap();
    let mut preds_y = graph.direct_predecessors("y").to_vec();
    preds_y.sort();
    assert_eq!(preds_y, strings(&["x", "z"]));
    assert_eq!(graph.direct_predecessors("w"), strings(&["y"]).as_slice());
    assert_eq!(graph.predecessors.len(), 2);
}

#[test]
fn churn_and_malformed_lines_add_up_to_non_blank_lines_without_deletions() {
    let parsed = parse_name_status_stdout("A\ta\n\nM\ta\n  \nR1\ta\tb\nC1\tb\tc\nbad\nM\n");
    let mut total = parsed.malformed_lines;
    for key in parsed.churn.keys() {
        total += *parsed.churn.get(&key).unwrap();
    }
    assert_eq!(total, 6);

    let with_delete = parse_name_status_stdout("A\ta\nM\ta\nD\ta\n");
    assert_eq!(with_delete.churn.len(), 0);
    assert_eq!(with_delete.malformed_lines, 0);
}
