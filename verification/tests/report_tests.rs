use depwave::file_churn::FileChurn;
use depwave::owner::{OwnerImpact, SourceFile, UnresolvedSourceFile};
use depwave::report::{build_report, ReportConfig};
use depwave::str_map::StrMap;

#[test]
fn builds_owner_first_report_with_explicit_file_buckets() {
    let file_churn = FileChurn {
        churn: StrMap::from_pairs(vec![
            ("src/foo.rs".to_string(), 4),
            ("src/bar.rs".to_string(), 3),
            ("src/missing.rs".to_string(), 2),
            ("src/orphan.rs".to_string(), 1),
            ("src/BUILD.bazel".to_string(), 5),
        ]),
        malformed_lines: 1,
    };
    let owner_impacts = vec![OwnerImpact {
        label: "//src:lib".to_string(),
        churn: 7,
        source_files: vec![
            SourceFile {
                path: "src/foo.rs".to_string(),
                file_label: "//src:foo.rs".to_string(),
                churn: 4,
            },
            SourceFile {
                path: "src/bar.rs".to_string(),
                file_label: "//src:bar.rs".to_string(),
                churn: 3,
            },
        ],
        transitive_dependents: 10,
        impact_score: 70,
    }];
    let unresolved_source_files = vec![UnresolvedSourceFile {
        path: "src/missing.rs".to_string(),
        churn: 2,
    }];
    let no_owner_source_files = vec![SourceFile {
        path: "src/orphan.rs".to_string(),
        file_label: "//src:orphan.rs".to_string(),
        churn: 1,
    }];

    let report = build_report(
        ReportConfig {
            workspace: "/repo".to_string(),
            universe: "//...".to_string(),
            since: None,
            limit: None,
        },
        &file_churn,
        owner_impacts,
        unresolved_source_files,
        no_owner_source_files,
    );

    assert_eq!(report.total_churned_files, 5);
    assert_eq!(report.analyzed_targets, 1);
    assert_eq!(report.unresolved_source_files_count, 1);
    assert_eq!(report.no_owner_source_files_count, 1);
    assert_eq!(report.unsupported_files_count, 1);
    assert_eq!(report.malformed_git_lines, 1);
    assert_eq!(report.entries[0].target_label, "//src:lib");
    assert_eq!(report.entries[0].churn, 7);
    assert_eq!(report.entries[0].transitive_dependents, 10);
    assert_eq!(report.entries[0].impact_score, 70);
    assert_eq!(report.entries[0].source_files.len(), 2);
    assert_eq!(report.unresolved_source_files[0].path, "src/missing.rs");
    assert_eq!(report.no_owner_source_files[0].path, "src/orphan.rs");
    assert_eq!(report.unsupported_files[0].path, "src/BUILD.bazel");
}
