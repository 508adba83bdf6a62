# depwave

Change-impact analysis for Bazel repositories. A target whose source files
change often and which many other targets depend on is a likely source of
wide rebuilds; depwave ranks owner targets by

```text
impact_score = sources_churn_sum * transitive_dependents
```

(capped at `u64::MAX`).

## Layout

- `src/` is the library, written in Verus and verified:
  - `text`: whitespace, trimming, searching and code-point order on
    characters;
  - `str_map`: a map keyed by strings, kept sorted;
  - `files`: classification of changed paths (sources, BUILD, `.bzl`,
    workspace files);
  - `file_churn`: churn per file from `git log --name-status` output;
  - `location`: reading `bazel query --output=location` output;
  - `query`: the text of the Bazel queries, and the workspace root;
  - `bazel`: the reverse dependency graph read from DOT, and transitive
    dependents;
  - `owner`: crediting changed source files to the targets that own them;
  - `report`: the ranked report.
- `app/` is the command-line program: argument handling, running `git` and
  `bazel`, logging, and writing the report as JSON.
- `tests/` holds the tests of the library.

## Usage

```bash
depwave --workspace . --universe //... --since 2024-01-01 --limit 20
```
