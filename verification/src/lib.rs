//! Change-impact analysis for Bazel workspaces: file churn from version
//! history, ownership of source files by Bazel targets, transitive dependents
//! in the reverse dependency graph, and the ranked impact report.
pub mod text;
pub mod str_map;
pub mod files;
pub mod file_churn;
pub mod bazel;
pub mod owner;
pub mod report;
pub mod location;
pub mod query;
