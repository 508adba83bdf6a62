//! Classification of changed files by their role in a Bazel workspace.
use vstd::prelude::*;
use crate::str_map::{keys_of, StrMap};
use crate::text::chars_of;

verus! {

/// What kind of file a changed path is.
#[derive(Debug, Clone, Copy, PartialEq, Eq, Structural)]
pub enum FileKind {
    Source,
    BuildFile,
    BzlFile,
    WorkspaceFile,
}

/// How far the analysis got for a file.
#[derive(Debug, Clone, Copy, PartialEq, Eq, Structural)]
pub enum AnalysisStatus {
    Analyzed,
    Unresolved,
    Unsupported,
}

/// The file name that `std::path::Path::file_name` gives for `path`, as
/// text, or empty when it gives none. Path syntax is that of the build
/// target: components are separated by `/` on Unix, and by `/` or `\\` on
/// Windows.
pub uninterp spec fn std_file_name(path: Seq<char>) -> Seq<char>;

/// The file name of `path`, through `std::path::Path::file_name`; empty when
/// it has none. The contract claims only that the result is the one that
/// `std_file_name` names for the text (on the build target; see there). The
/// name of a path given as `str` is itself valid text, so the lossy
/// conversion back to text keeps it whole.
#[verifier::external_body]
fn path_file_name(path: &str) -> (r: String)
    ensures
        r@ == std_file_name(path@),
{
    match std::path::Path::new(path).file_name() {
        Some(name) => name.to_string_lossy().into_owned(),
        None => String::new(),
    }
}

/// Whether `s` ends with `suffix`.
pub open spec fn ends_with(s: Seq<char>, suffix: Seq<char>) -> bool {
    s.len() >= suffix.len() && s.subrange(s.len() - suffix.len(), s.len() as int) == suffix
}

/// The kind of the file at `path`: by its file name for Bazel's own files,
/// by its `.bzl` suffix for Starlark files, and a source file otherwise.
pub open spec fn kind_of(path: Seq<char>) -> FileKind {
    let name = std_file_name(path);
    if name == "BUILD"@ || name == "BUILD.bazel"@ {
        FileKind::BuildFile
    } else if name == "WORKSPACE"@ || name == "WORKSPACE.bazel"@ || name == "MODULE.bazel"@ {
        FileKind::WorkspaceFile
    } else if ends_with(path, ".bzl"@) {
        FileKind::BzlFile
    } else {
        FileKind::Source
    }
}

/// Whether `p[a..b]` spells `lit`.
fn range_equals(p: &Vec<char>, a: usize, b: usize, lit: &str) -> (r: bool)
    requires
        a <= b <= p@.len(),
    ensures
        r == (p@.subrange(a as int, b as int) == lit@),
{
    let l = chars_of(lit);
    if b - a != l.len() {
        assert(p@.subrange(a as int, b as int).len() != l@.len());
        return false;
    }
    let mut i: usize = 0;
    while i < l.len()
        invariant
            a <= b <= p@.len(),
            b - a == l@.len(),
            l@ == lit@,
            i <= l@.len(),
            forall|j: int| 0 <= j < i ==> p@[a + j] == #[trigger] l@[j],
        decreases l@.len() - i,
    {
        if p[a + i] != l[i] {
            assert(p@.subrange(a as int, b as int) != l@) by {
                assert(p@.subrange(a as int, b as int)[i as int] == p@[a + i]);
            }
            return false;
        }
        i = i + 1;
    }
    assert(p@.subrange(a as int, b as int) =~= l@);
    true
}

/// A file's kind is decided by its file name, wherever it lies: the Bazel
/// names give their kinds, and otherwise only the `.bzl` suffix matters.
/// Two paths with the same file name and the same `.bzl` ending have the
/// same kind.
pub proof fn lemma_kind_by_file_name(path: Seq<char>, other: Seq<char>)
    ensures
        std_file_name(path) == "BUILD"@ ==> kind_of(path) == FileKind::BuildFile,
        std_file_name(path) == "BUILD.bazel"@ ==> kind_of(path) == FileKind::BuildFile,
        std_file_name(path) == "WORKSPACE"@ ==> kind_of(path) == FileKind::WorkspaceFile,
        std_file_name(path) == "WORKSPACE.bazel"@ ==> kind_of(path) == FileKind::WorkspaceFile,
        std_file_name(path) == "MODULE.bazel"@ ==> kind_of(path) == FileKind::WorkspaceFile,
        (kind_of(path) == FileKind::BuildFile) ==> (std_file_name(path) == "BUILD"@
            || std_file_name(path) == "BUILD.bazel"@),
        (kind_of(path) == FileKind::WorkspaceFile) ==> (std_file_name(path) == "WORKSPACE"@
            || std_file_name(path) == "WORKSPACE.bazel"@ || std_file_name(path) == "MODULE.bazel"@),
        (kind_of(path) == FileKind::BzlFile) ==> ends_with(path, ".bzl"@),
        (std_file_name(path) == std_file_name(other) && ends_with(path, ".bzl"@) == ends_with(
            other,
            ".bzl"@,
        )) ==> kind_of(path) == kind_of(other),
{
    reveal_strlit("BUILD");
    reveal_strlit("BUILD.bazel");
    reveal_strlit("WORKSPACE");
    reveal_strlit("WORKSPACE.bazel");
    reveal_strlit("MODULE.bazel");
    assert("WORKSPACE"@.len() != "BUILD"@.len() && "WORKSPACE"@.len() != "BUILD.bazel"@.len());
    assert("WORKSPACE.bazel"@.len() != "BUILD"@.len() && "WORKSPACE.bazel"@.len()
        != "BUILD.bazel"@.len());
    assert("MODULE.bazel"@.len() != "BUILD"@.len() && "MODULE.bazel"@.len() != "BUILD.bazel"@.len());
}

/// Classifies the file at `path` by its name.
pub fn classify_file(path: &str) -> (kind: FileKind)
    ensures
        kind == kind_of(path@),
        std_file_name(path@) == "BUILD"@ || std_file_name(path@) == "BUILD.bazel"@ ==> kind
            == FileKind::BuildFile,
        std_file_name(path@) == "WORKSPACE"@ || std_file_name(path@) == "WORKSPACE.bazel"@
            || std_file_name(path@) == "MODULE.bazel"@ ==> kind == FileKind::WorkspaceFile,
{
    proof {
        lemma_kind_by_file_name(path@, path@);
    }
    let p = chars_of(path);
    let name = path_file_name(path);
    let nc = chars_of(name.as_str());
    let k = nc.len();
    assert(nc@.subrange(0, k as int) =~= nc@);
    if range_equals(&nc, 0, k, "BUILD") || range_equals(&nc, 0, k, "BUILD.bazel") {
        FileKind::BuildFile
    } else if range_equals(&nc, 0, k, "WORKSPACE") || range_equals(&nc, 0, k, "WORKSPACE.bazel")
        || range_equals(&nc, 0, k, "MODULE.bazel") {
        FileKind::WorkspaceFile
    } else {
        let suffix = chars_of(".bzl");
        let n = p.len();
        let m = suffix.len();
        if n >= m && range_equals(&p, n - m, n, ".bzl") {
            FileKind::BzlFile
        } else {
            FileKind::Source
        }
    }
}

/// The entries of `churn` whose paths are source files.
pub fn source_file_churn(churn: &StrMap<u64>) -> (res: StrMap<u64>)
    requires
        churn.wf(),
    ensures
        res.wf(),
        res@ == churn@.restrict(Set::new(|p: Seq<char>| kind_of(p) == FileKind::Source)),
{
    let ghost keep = Set::new(|p: Seq<char>| kind_of(p) == FileKind::Source);
    let ghost es = churn.entry_seq();
    let mut res: StrMap<u64> = StrMap::new();
    let n = churn.len();
    proof {
        churn.lemma_view();
    }
    for i in 0..n
        invariant
            n == es.len(),
            es == churn.entry_seq(),
            keep == Set::new(|p: Seq<char>| kind_of(p) == FileKind::Source),
            churn.wf(),
            res.wf(),
            res@ == churn@.restrict(keep.intersect(keys_of(es.take(i as int)).to_set())),
    {
        let path = churn.key_at(i);
        let value = *churn.value_at(i);
        let ghost before = res@;
        if classify_file(path.as_str()) == FileKind::Source {
            res.insert(path.clone(), value);
        }
        proof {
            churn.lemma_view();
            keys_of(es.take(i as int)).lemma_push_to_set_commute(es[i as int].0);
            let old_set = keep.intersect(keys_of(es.take(i as int)).to_set());
            let new_set = keep.intersect(keys_of(es.take(i + 1)).to_set());
            assert(keys_of(es.take(i + 1)) =~= keys_of(es.take(i as int)).push(es[i as int].0));
            let k = es[i as int].0;
            assert(k == churn.entry_seq()[i as int].0);
            assert(churn@.dom().contains(k));
            assert(path@ == k);
            if kind_of(es[i as int].0) == FileKind::Source {
                assert(new_set =~= old_set.insert(k));
                assert(res@ =~= churn@.restrict(new_set));
            } else {
                assert(new_set =~= old_set);
            }
        }
    }
    proof {
        assert(es.take(n as int) =~= es);
        assert(keep.intersect(keys_of(es).to_set()) =~= keep.intersect(churn@.dom()));
        assert(churn@.restrict(keep.intersect(churn@.dom())) =~= churn@.restrict(keep));
    }
    res
}

} // verus!
