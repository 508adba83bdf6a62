use depwave::file_churn::FileChurn;
use depwave::files::FileKind;
use depwave::owner::{OwnerImpact, SourceFile};
use depwave::report::{build_report, ReportConfig, TargetImpact};
use depwave::str_map::StrMap;
use std::cmp::Ordering;

fn impact(label: &str, churn: u64, deps: u64, score: u64) -> OwnerImpact {
    OwnerImpact {
        label: label.to_string(),
        churn,
        source_files: vec![SourceFile {
            path: format!("{label}.rs"),
            file_label: label.to_string(),
            churn,
        }],
        transitive_dependents: deps,
        impact_score: score,
    }
}

fn target(label: &str, churn: u64, deps: u64, score: u64) -> TargetImpact {
    TargetImpact {
        target_label: label.to_string(),
        churn,
        transitive_dependents: deps,
        impact_score: score,
        source_files: Vec::new(),
    }
}

fn config(limit: Option<usize>) -> ReportConfig {
    ReportConfig {
        workspace: "/w".to_string(),
        universe: "//...".to_string(),
        since: Some("2024-01-01".to_string()),
        limit,
    }
}

fn empty_churn() -> FileChurn {
    FileChurn { churn: StrMap::new(), malformed_lines: 0 }
}

#[test]
fn cmp_by_impact_orders_by_score_then_dependents_then_churn_then_label() {
    let a = target("//a:a", 1, 1, 9);
    let b = target("//b:b", 1, 1, 8);
    assert_eq!(TargetImpact::cmp_by_impact(&a, &b), Ordering::Less);
    assert_eq!(TargetImpact::cmp_by_impact(&b, &a), Ordering::Greater);

    let c = target("//c:c", 1, 5, 8);
    assert_eq!(TargetImpact::cmp_by_impact(&c, &b), Ordering::Less);

    let d = target("//d:d", 3, 1, 8);
    assert_eq!(TargetImpact::cmp_by_impact(&d, &b), Ordering::Less);

    let e = target("//a:z", 1, 1, 8);
    assert_eq!(TargetImpact::cmp_by_impact(&e, &b), Ordering::Less);
    assert_eq!(TargetImpact::cmp_by_impact(&b, &b), Ordering::Equal);
}

#[test]
fn report_ranks_entries_by_impact() {
    let report = build_report(
        config(None),
        &empty_churn(),
        vec![
            impact("//low:low", 1, 1, 1),
            impact("//b:tie", 2, 3, 6),
            impact("//high:high", 5, 4, 20),
            impact("//a:tie", 2, 3, 6),
            impact("//deps:deps", 1, 6, 6),
        ],
        Vec::new(),
        Vec::new(),
    );

    let labels: Vec<&str> = report.entries.iter().map(|e| e.target_label.as_str()).collect();
    assert_eq!(
        labels,
        vec!["//high:high", "//deps:deps", "//a:tie", "//b:tie", "//low:low"]
    );
    assert_eq!(report.entries[0].source_files[0].path, "//high:high.rs");
}

#[test]
fn report_limit_cuts_entries_but_not_the_count() {
    let report = build_report(
        config(Some(2)),
        &empty_churn(),
        vec![
            impact("//a:a", 1, 1, 1),
            impact("//b:b", 2, 2, 4),
            impact("//c:c", 3, 3, 9),
        ],
        Vec::new(),
        Vec::new(),
    );

    assert_eq!(report.analyzed_targets, 3);
    assert_eq!(report.entries.len(), 2);
    assert_eq!(report.entries[0].target_label, "//c:c");
    assert_eq!(report.entries[1].target_label, "//b:b");
    assert_eq!(report.since, Some("2024-01-01".to_string()));
}

#[test]
fn report_limit_larger_than_entries_keeps_all() {
    let report = build_report(
        config(Some(10)),
        &empty_churn(),
        vec![impact("//a:a", 1, 1, 1)],
        Vec::new(),
        Vec::new(),
    );
    assert_eq!(report.entries.len(), 1);

    let report = build_report(
        config(Some(0)),
        &empty_churn(),
        vec![impact("//a:a", 1, 1, 1)],
        Vec::new(),
        Vec::new(),
    );
    assert_eq!(report.entries.len(), 0);
    assert_eq!(report.analyzed_targets, 1);
}

#[test]
fn report_lists_unsupported_files_by_path_with_kinds() {
    let file_churn = FileChurn {
        churn: StrMap::from_pairs(vec![
            ("z/BUILD".to_string(), 2),
            ("a/defs.bzl".to_string(), 3),
            ("MODULE.bazel".to_string(), 4),
            ("src/lib.rs".to_string(), 9),
        ]),
        malformed_lines: 7,
    };
    let report = build_report(config(None), &file_churn, Vec::new(), Vec::new(), Vec::new());

    assert_eq!(report.total_churned_files, 4);
    assert_eq!(report.unsupported_files_count, 3);
    assert_eq!(report.malformed_git_lines, 7);
    let got: Vec<(&str, FileKind, u64)> = report
        .unsupported_files
        .iter()
        .map(|e| (e.path.as_str(), e.kind, e.churn))
        .collect();
    assert_eq!(
        got,
        vec![
            ("MODULE.bazel", FileKind::WorkspaceFile, 4),
            ("a/defs.bzl", FileKind::BzlFile, 3),
            ("z/BUILD", FileKind::BuildFile, 2),
        ]
    );
}

#[test]
fn report_does_not_depend_on_input_order_for_distinct_labels() {
    let order_a = vec![
        impact("//a:a", 2, 3, 6),
        impact("//b:b", 1, 6, 6),
        impact("//c:c", 5, 4, 20),
        impact("//d:d", 2, 3, 6),
    ];
    let order_b = vec![
        impact("//d:d", 2, 3, 6),
        impact("//c:c", 5, 4, 20),
        impact("//a:a", 2, 3, 6),
        impact("//b:b", 1, 6, 6),
    ];
    let ra = build_report(config(None), &empty_churn(), order_a, Vec::new(), Vec::new());
    let rb = build_report(config(None), &empty_churn(), order_b, Vec::new(), Vec::new());
    let la: Vec<&str> = ra.entries.iter().map(|e| e.target_label.as_str()).collect();
    let lb: Vec<&str> = rb.entries.iter().map(|e| e.target_label.as_str()).collect();
    assert_eq!(la, lb);
    assert_eq!(la, vec!["//c:c", "//b:b", "//a:a", "//d:d"]);
}

#[test]
fn build_target_entries_ranks_and_keeps_fields() {
    let entries = depwave::report::build_target_entries(vec![
        impact("//x:x", 1, 1, 1),
        impact("//y:y", 3, 2, 6),
    ]);
    assert_eq!(entries[0].target_label, "//y:y");
    assert_eq!(entries[0].churn, 3);
    assert_eq!(entries[0].transitive_dependents, 2);
    assert_eq!(entries[0].source_files[0].path, "//y:y.rs");
    assert_eq!(entries[1].target_label, "//x:x");
}

#[test]
fn build_unsupported_file_entries_lists_non_sources_by_path() {
    let file_churn = FileChurn {
        churn: StrMap::from_pairs(vec![
            ("b/BUILD.bazel".to_string(), 1),
            ("a.rs".to_string(), 2),
            ("WORKSPACE".to_string(), 3),
        ]),
        malformed_lines: 9,
    };
    let entries = depwave::report::build_unsupported_file_entries(&file_churn);
    let got: Vec<(&str, FileKind, u64)> =
        entries.iter().map(|e| (e.path.as_str(), e.kind, e.churn)).collect();
    assert_eq!(
        got,
        vec![("WORKSPACE", FileKind::WorkspaceFile, 3), ("b/BUILD.bazel", FileKind::BuildFile, 1)]
    );
}
