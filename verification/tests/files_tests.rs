use depwave::files::{classify_file, FileKind};

#[test]
fn classifies_build_files() {
    assert_eq!(classify_file("BUILD"), FileKind::BuildFile);
    assert_eq!(classify_file("BUILD.bazel"), FileKind::BuildFile);
    assert_eq!(classify_file("src/core/BUILD"), FileKind::BuildFile);
    assert_eq!(classify_file("src/core/BUILD.bazel"), FileKind::BuildFile);
}

#[test]
fn classifies_workspace_files() {
    assert_eq!(classify_file("WORKSPACE"), FileKind::WorkspaceFile);
    assert_eq!(classify_file("WORKSPACE.bazel"), FileKind::WorkspaceFile);
    assert_eq!(classify_file("MODULE.bazel"), FileKind::WorkspaceFile);
}

#[test]
fn classifies_bzl_files() {
    assert_eq!(classify_file("tools/rules/defs.bzl"), FileKind::BzlFile);
}

#[test]
fn classifies_regular_sources() {
    assert_eq!(classify_file("src/lib.rs"), FileKind::Source);
    assert_eq!(classify_file("src/main.cc"), FileKind::Source);
    assert_eq!(classify_file(".github/workflows/ci.yml"), FileKind::Source);
}
