//! Reading `bazel query --output=location` output: each line names a file by
//! path, line and column, then describes the target whose label ends the
//! line. The path is made relative to the workspace root.
use vstd::prelude::*;
use crate::file_churn::{lines_of, strip_cr};
use crate::str_map::StrMap;
use crate::text::{
    chars_of, find_char_in, is_whitespace_char, is_ws, lemma_find_char_props,
    lemma_rfind_char_eq, lemma_trim_end_props, lemma_trim_end_take, lemma_trim_idempotent,
    lemma_trim_start_props, rfind_char, string_from_chars, trim, trim_bounds, trim_end,
    trim_start,
};

verus! {

// ---------------------------------------------------------------------------
// The model
// ---------------------------------------------------------------------------
/// Index of the last whitespace character of `s`, or -1.
pub open spec fn rfind_ws(s: Seq<char>) -> int
    decreases s.len(),
{
    if s.len() == 0 {
        -1
    } else if is_ws(s.last()) {
        s.len() - 1
    } else {
        rfind_ws(s.drop_last())
    }
}

/// Index of the last occurrence of `": "` in `s`, or -1.
pub open spec fn rfind_colon_space(s: Seq<char>) -> int
    decreases s.len(),
{
    if s.len() < 2 {
        -1
    } else if s[s.len() - 2] == ':' && s[s.len() - 1] == ' ' {
        s.len() - 2
    } else {
        rfind_colon_space(s.drop_last())
    }
}

/// The last whitespace-separated word of `s`, if it has one.
pub open spec fn last_word(s: Seq<char>) -> Option<Seq<char>> {
    let t = trim_end(s);
    if t.len() == 0 {
        None
    } else {
        Some(t.subrange(rfind_ws(t) + 1, t.len() as int))
    }
}

/// The path and the label of a location line.
///
/// The trimmed line is split at its last `": "`; the label is the last word
/// after it. What comes before it ends in `:line:column`; the path is the
/// rest, trimmed (it may hold colons of its own). `None` when a part is
/// missing.
pub open spec fn location_fields(line: Seq<char>) -> Option<(Seq<char>, Seq<char>)> {
    let t = trim(line);
    let k = rfind_colon_space(t);
    if k < 0 {
        None
    } else {
        let left = t.subrange(0, k);
        let desc = t.subrange(k + 2, t.len() as int);
        match last_word(desc) {
            None => None,
            Some(label) => {
                let j1 = rfind_char(left, ':');
                if j1 < 0 {
                    None
                } else {
                    let j2 = rfind_char(left.subrange(0, j1), ':');
                    if j2 < 0 {
                        None
                    } else {
                        Some((trim(left.subrange(0, j2)), label))
                    }
                }
            },
        }
    }
}

/// `s` with each backslash replaced by a slash.
pub open spec fn forward_slashes(s: Seq<char>) -> Seq<char> {
    s.map_values(|c: char| if c == '\\' { '/' } else { c })
}

/// What `std::path::Path::strip_prefix` gives for `path` and `base`, as
/// text: the rest of `path` after the components of `base`, or `None` when
/// `base` is not a component-wise prefix of `path`. Path syntax is that of the
/// build target: components are separated by `/` on Unix, and by `/` or `\\`
/// (with drive prefixes) on Windows.
pub uninterp spec fn path_strip_prefix(path: Seq<char>, base: Seq<char>) -> Option<Seq<char>>;

/// `path` relative to `root` where `root` is a prefix of it (else `path`
/// itself), with slashes for backslashes.
pub open spec fn relative_path(path: Seq<char>, root: Seq<char>) -> Seq<char> {
    forward_slashes(
        match path_strip_prefix(path, root) {
            Some(r) => r,
            None => path,
        },
    )
}

/// The workspace-relative path and the label of a location line.
pub open spec fn location_of(line: Seq<char>, root: Seq<char>) -> Option<(Seq<char>, Seq<char>)> {
    match location_fields(line) {
        None => None,
        Some((p, l)) => Some((relative_path(p, root), l)),
    }
}

/// The label of each path after reading the lines `ls` in order; a later
/// line for a path replaces an earlier one.
pub open spec fn location_map(ls: Seq<Seq<char>>, root: Seq<char>) -> Map<Seq<char>, Seq<char>>
    decreases ls.len(),
{
    if ls.len() == 0 {
        Map::empty()
    } else {
        let m = location_map(ls.drop_last(), root);
        match location_of(ls.last(), root) {
            Some((p, l)) => m.insert(p, l),
            None => m,
        }
    }
}

/// The characters of an optional pair of strings.
pub open spec fn pair_view(r: Option<(String, String)>) -> Option<(Seq<char>, Seq<char>)> {
    match r {
        Some((a, b)) => Some((a@, b@)),
        None => None,
    }
}

/// The characters of an optional string.
pub open spec fn opt_view(r: Option<String>) -> Option<Seq<char>> {
    match r {
        Some(a) => Some(a@),
        None => None,
    }
}

/// The characters of each value of a map of strings.
pub open spec fn label_views(m: Map<Seq<char>, String>) -> Map<Seq<char>, Seq<char>> {
    m.map_values(|v: String| v@)
}

pub proof fn lemma_rfind_ws_eq(s: Seq<char>, k: int)
    requires
        -1 <= k < s.len(),
        k >= 0 ==> is_ws(s[k]),
        forall|j: int| k < j < s.len() ==> !is_ws(#[trigger] s[j]),
    ensures
        rfind_ws(s) == k,
    decreases s.len(),
{
    if s.len() > 0 && k < s.len() - 1 {
        let t = s.drop_last();
        assert(!is_ws(s[s.len() - 1]));
        assert forall|j: int| k < j < t.len() implies !is_ws(#[trigger] t[j]) by {
            assert(t[j] == s[j]);
        }
        lemma_rfind_ws_eq(t, k);
    }
}

pub proof fn lemma_rfind_colon_space_eq(s: Seq<char>, k: int)
    requires
        -1 <= k,
        k + 1 < s.len() || k == -1,
        k >= 0 ==> s[k] == ':' && s[k + 1] == ' ',
        forall|j: int| k < j && j + 1 < s.len() ==> !(#[trigger] s[j] == ':' && s[j + 1] == ' '),
    ensures
        rfind_colon_space(s) == k,
    decreases s.len(),
{
    if s.len() >= 2 && k < s.len() - 2 {
        let t = s.drop_last();
        assert(!(s[s.len() - 2] == ':' && s[s.len() - 1] == ' '));
        assert forall|j: int| k < j && j + 1 < t.len() implies !(#[trigger] t[j] == ':' && t[j
            + 1] == ' ') by {
            assert(t[j] == s[j]);
            assert(t[j + 1] == s[j + 1]);
        }
        lemma_rfind_colon_space_eq(t, k);
    }
}

proof fn lemma_rfind_ws_props(s: Seq<char>)
    ensures
        -1 <= rfind_ws(s) < s.len(),
        rfind_ws(s) >= 0 ==> is_ws(s[rfind_ws(s)]),
        forall|j: int| rfind_ws(s) < j < s.len() ==> !is_ws(#[trigger] s[j]),
    decreases s.len(),
{
    if s.len() > 0 && !is_ws(s.last()) {
        let t = s.drop_last();
        lemma_rfind_ws_props(t);
        assert forall|j: int| rfind_ws(s) < j < s.len() implies !is_ws(#[trigger] s[j]) by {
            if j < s.len() - 1 {
                assert(s[j] == t[j]);
            }
        }
    }
}

proof fn lemma_rfind_colon_space_props(s: Seq<char>)
    ensures
        rfind_colon_space(s) >= -1,
        rfind_colon_space(s) >= 0 ==> rfind_colon_space(s) + 1 < s.len(),
    decreases s.len(),
{
    if s.len() >= 2 && !(s[s.len() - 2] == ':' && s[s.len() - 1] == ' ') {
        lemma_rfind_colon_space_props(s.drop_last());
    }
}

/// The label of a location line is its last word: non-empty, without
/// whitespace, and ending the trimmed line; the path is trimmed.
pub proof fn lemma_location_label(line: Seq<char>)
    ensures
        location_fields(line) matches Some((p, l)) ==> {
            let t = trim(line);
            &&& l.len() > 0
            &&& forall|i: int| 0 <= i < l.len() ==> !is_ws(#[trigger] l[i])
            &&& l.len() <= t.len()
            &&& t.subrange(t.len() - l.len(), t.len() as int) == l
            &&& trim(p) == p
        },
{
    let t = trim(line);
    let k = rfind_colon_space(t);
    lemma_rfind_colon_space_props(t);
    if k >= 0 {
        let left = t.subrange(0, k);
        let desc = t.subrange(k + 2, t.len() as int);
        if let Some(label) = last_word(desc) {
            lemma_trim_start_props(line);
            lemma_trim_end_props(trim_start(line));
            assert(desc.last() == t.last());
            assert(!is_ws(desc.last()));
            lemma_trim_end_take(desc, desc.len() as int);
            assert(desc.subrange(0, desc.len() as int) =~= desc);
            let r = rfind_ws(desc);
            lemma_rfind_ws_props(desc);
            assert(r < desc.len() - 1);
            assert(label == desc.subrange(r + 1, desc.len() as int));
            assert forall|i: int| 0 <= i < label.len() implies !is_ws(#[trigger] label[i]) by {
                assert(label[i] == desc[r + 1 + i]);
            }
            assert(t.subrange(t.len() - label.len(), t.len() as int) =~= label);
            let j1 = rfind_char(left, ':');
            if j1 >= 0 {
                let j2 = rfind_char(left.subrange(0, j1), ':');
                if j2 >= 0 {
                    lemma_trim_idempotent(left.subrange(0, j2));
                }
            }
        }
    }
}

// ---------------------------------------------------------------------------
// Reading one line
// ---------------------------------------------------------------------------
/// Last `k` in `lo..hi - 1` with `s[k..k + 2] == ": "`, or `None`.
fn rfind_colon_space_in(s: &Vec<char>, lo: usize, hi: usize) -> (r: Option<usize>)
    requires
        lo <= hi <= s@.len(),
    ensures
        match r {
            Some(k) => lo <= k && k + 2 <= hi && k - lo == rfind_colon_space(
                s@.subrange(lo as int, hi as int),
            ),
            None => rfind_colon_space(s@.subrange(lo as int, hi as int)) == -1,
        },
{
    let ghost t = s@.subrange(lo as int, hi as int);
    let mut e = hi;
    while e - lo >= 2 && !(s[e - 2] == ':' && s[e - 1] == ' ')
        invariant
            lo <= e <= hi <= s@.len(),
            t == s@.subrange(lo as int, hi as int),
            forall|j: int| e - 1 <= j && j + 1 < hi ==> !(#[trigger] s@[j] == ':' && s@[j + 1] == ' '),
        decreases e,
    {
        e = e - 1;
    }
    if e - lo >= 2 {
        proof {
            let k = e - 2 - lo;
            assert forall|j: int| k < j && j + 1 < t.len() implies !(#[trigger] t[j] == ':' && t[j
                + 1] == ' ') by {
                assert(t[j] == s@[lo + j]);
                assert(t[j + 1] == s@[lo + j + 1]);
            }
            lemma_rfind_colon_space_eq(t, k);
        }
        Some(e - 2)
    } else {
        proof {
            assert forall|j: int| -1 < j && j + 1 < t.len() implies !(#[trigger] t[j] == ':' && t[j
                + 1] == ' ') by {
                assert(t[j] == s@[lo + j]);
                assert(t[j + 1] == s@[lo + j + 1]);
            }
            lemma_rfind_colon_space_eq(t, -1);
        }
        None
    }
}

/// Last `k` in `lo..hi` with `s[k] == c`, or `None`.
fn rfind_char_in(s: &Vec<char>, lo: usize, hi: usize, c: char) -> (r: Option<usize>)
    requires
        lo <= hi <= s@.len(),
    ensures
        match r {
            Some(k) => lo <= k < hi && k - lo == rfind_char(s@.subrange(lo as int, hi as int), c),
            None => rfind_char(s@.subrange(lo as int, hi as int), c) == -1,
        },
{
    let ghost t = s@.subrange(lo as int, hi as int);
    let mut e = hi;
    while e > lo && s[e - 1] != c
        invariant
            lo <= e <= hi <= s@.len(),
            forall|j: int| e <= j < hi ==> #[trigger] s@[j] != c,
        decreases e,
    {
        e = e - 1;
    }
    proof {
        let k = e - 1 - lo;
        assert forall|j: int| k < j < t.len() implies #[trigger] t[j] != c by {
            assert(t[j] == s@[lo + j]);
        }
        lemma_rfind_char_eq(t, c, k);
    }
    if e > lo {
        Some(e - 1)
    } else {
        None
    }
}

/// Bounds `(a, b)` of the last word of `s[lo..hi]`, if it has one.
fn last_word_in(s: &Vec<char>, lo: usize, hi: usize) -> (r: Option<(usize, usize)>)
    requires
        lo <= hi <= s@.len(),
    ensures
        match r {
            Some((a, b)) => lo <= a <= b <= hi && last_word(s@.subrange(lo as int, hi as int))
                == Some(s@.subrange(a as int, b as int)),
            None => last_word(s@.subrange(lo as int, hi as int)) is None,
        },
{
    let ghost d = s@.subrange(lo as int, hi as int);
    let mut e = hi;
    while e > lo && is_whitespace_char(s[e - 1])
        invariant
            lo <= e <= hi <= s@.len(),
            forall|j: int| e <= j < hi ==> is_ws(#[trigger] s@[j]),
        decreases e,
    {
        e = e - 1;
    }
    proof {
        assert forall|j: int| e - lo <= j < d.len() implies is_ws(#[trigger] d[j]) by {
            assert(d[j] == s@[lo + j]);
        }
        if e > lo {
            assert(d[e - lo - 1] == s@[e - 1]);
        }
        lemma_trim_end_take(d, e - lo);
    }
    let ghost t = d.subrange(0, e - lo);
    if e == lo {
        return None;
    }
    let mut b = e;
    while b > lo && !is_whitespace_char(s[b - 1])
        invariant
            lo <= b <= e <= hi <= s@.len(),
            forall|j: int| b <= j < e ==> !is_ws(#[trigger] s@[j]),
        decreases b,
    {
        b = b - 1;
    }
    proof {
        let k = b - lo - 1;
        assert forall|j: int| k < j < t.len() implies !is_ws(#[trigger] t[j]) by {
            assert(t[j] == s@[lo + j]);
        }
        if b > lo {
            assert(t[k] == s@[b - 1]);
        }
        lemma_rfind_ws_eq(t, k);
        assert(t.subrange(k + 1, t.len() as int) =~= s@.subrange(b as int, e as int));
    }
    Some((b, e))
}

/// The path and label ranges of the location line `s[lo..hi]`, as
/// [`location_fields`] describes them.
fn location_bounds(s: &Vec<char>, lo: usize, hi: usize) -> (r: Option<((usize, usize), (usize, usize))>)
    requires
        lo <= hi <= s@.len(),
    ensures
        match r {
            Some(((pa, pb), (la, lb))) => pa <= pb <= s@.len() && la <= lb <= s@.len() && location_fields(
                s@.subrange(lo as int, hi as int),
            ) == Some((s@.subrange(pa as int, pb as int), s@.subrange(la as int, lb as int))),
            None => location_fields(s@.subrange(lo as int, hi as int)) is None,
        },
{
    let ghost line = s@.subrange(lo as int, hi as int);
    let (a, b) = trim_bounds(s, lo, hi);
    let ghost t = s@.subrange(a as int, b as int);
    assert(t == trim(line));
    let k = match rfind_colon_space_in(s, a, b) {
        Some(k) => k,
        None => {
            return None;
        },
    };
    let ghost left = t.subrange(0, k - a);
    assert(left =~= s@.subrange(a as int, k as int));
    let ghost desc = t.subrange(k - a + 2, t.len() as int);
    assert(desc =~= s@.subrange(k + 2, b as int));
    let (la, lb) = match last_word_in(s, k + 2, b) {
        Some(w) => w,
        None => {
            return None;
        },
    };
    let j1 = match rfind_char_in(s, a, k, ':') {
        Some(j) => j,
        None => {
            return None;
        },
    };
    assert(left.subrange(0, j1 - a) =~= s@.subrange(a as int, j1 as int));
    let j2 = match rfind_char_in(s, a, j1, ':') {
        Some(j) => j,
        None => {
            return None;
        },
    };
    assert(left.subrange(0, j2 - a) =~= s@.subrange(a as int, j2 as int));
    let (pa, pb) = trim_bounds(s, a, j2);
    Some(((pa, pb), (la, lb)))
}

/// Splits a `bazel query --output=location` line into its path, as written,
/// and its label, as [`location_fields`] describes them.
pub fn split_location_line(line: &str) -> (r: Option<(String, String)>)
    ensures
        pair_view(r) == location_fields(line@),
{
    let s = chars_of(line);
    assert(s@.subrange(0, s@.len() as int) =~= s@);
    match location_bounds(&s, 0, s.len()) {
        Some(((pa, pb), (la, lb))) => Some((string_from_chars(&s, pa, pb), string_from_chars(&s, la, lb))),
        None => None,
    }
}

// ---------------------------------------------------------------------------
// Relative paths
// ---------------------------------------------------------------------------
/// Strips `base` from `path` with `std::path::Path::strip_prefix`, which
/// matches whole path components only. The contract claims only that the
/// outcome is the one that `path_strip_prefix` names for the two texts, whose
/// path syntax is that of the build target; the stripped path, a part of
/// `path`, is handed out as text.
#[verifier::external_body]
fn strip_path_prefix(path: &str, base: &str) -> (r: Option<String>)
    ensures
        opt_view(r) == path_strip_prefix(path@, base@),
{
    match std::path::Path::new(path).strip_prefix(base) {
        Ok(rest) => Some(rest.to_string_lossy().into_owned()),
        Err(_) => None,
    }
}

/// The path to report for `path`: `stripped`, the rest of `path` after the
/// workspace root, when there is one, else `path` itself; backslashes become
/// slashes.
pub fn workspace_relative_path(path: &str, stripped: Option<String>) -> (r: String)
    ensures
        r@ == forward_slashes(
            match stripped {
                Some(x) => x@,
                None => path@,
            },
        ),
{
    let src = match stripped {
        Some(x) => chars_of(x.as_str()),
        None => chars_of(path),
    };
    let mut out: Vec<char> = Vec::new();
    let n = src.len();
    for i in 0..n
        invariant
            n == src@.len(),
            out@ == forward_slashes(src@.take(i as int)),
    {
        let c = src[i];
        out.push(if c == '\\' { '/' } else { c });
        assert(out@ =~= forward_slashes(src@.take(i + 1)));
    }
    assert(src@.take(n as int) =~= src@);
    string_from_chars(&out, 0, n)
}

/// Reads the location line `s[lo..hi]` as [`location_of`] describes it.
fn location_in(s: &Vec<char>, lo: usize, hi: usize, workspace_root: &str) -> (r: Option<(String, String)>)
    requires
        lo <= hi <= s@.len(),
    ensures
        pair_view(r) == location_of(s@.subrange(lo as int, hi as int), workspace_root@),
{
    match location_bounds(s, lo, hi) {
        Some(((pa, pb), (la, lb))) => {
            let path = string_from_chars(s, pa, pb);
            let label = string_from_chars(s, la, lb);
            let stripped = strip_path_prefix(path.as_str(), workspace_root);
            let rel = workspace_relative_path(path.as_str(), stripped);
            Some((rel, label))
        },
        None => None,
    }
}

/// Reads a line of `bazel query --output=location` output: the file's path,
/// relative to `workspace_root` where it lies under it, and the label that
/// ends the line. `None` for a line of another shape.
pub fn parse_location_line(line: &str, workspace_root: &str) -> (r: Option<(String, String)>)
    ensures
        pair_view(r) == location_of(line@, workspace_root@),
{
    let s = chars_of(line);
    assert(s@.subrange(0, s@.len() as int) =~= s@);
    location_in(&s, 0, s.len(), workspace_root)
}

/// Reads the whole output of `bazel query --output=location`: the label of
/// each path, by the last line that names the path; lines of another shape
/// are skipped.
pub fn labels_by_path(stdout: &str, workspace_root: &str) -> (r: StrMap<String>)
    ensures
        r.wf(),
        label_views(r@) == location_map(lines_of(stdout@), workspace_root@),
{
    let s = chars_of(stdout);
    let n = s.len();
    let mut labels: StrMap<String> = StrMap::new();
    let mut start: usize = 0;
    let ghost mut done: Seq<Seq<char>> = Seq::empty();
    proof {
        assert(s@.subrange(0, n as int) =~= s@);
        assert(label_views(labels@) =~= Map::<Seq<char>, Seq<char>>::empty());
    }
    while start < n
        invariant
            start <= n == s@.len(),
            s@ == stdout@,
            done + lines_of(s@.subrange(start as int, n as int)) == lines_of(s@),
            labels.wf(),
            label_views(labels@) == location_map(done, workspace_root@),
        decreases n - start,
    {
        let ghost rest = s@.subrange(start as int, n as int);
        let nl = find_char_in(&s, start, n, '\n');
        let mut end = nl;
        if nl < n && end > start && s[end - 1] == '\r' {
            end = end - 1;
        }
        let ghost line = s@.subrange(start as int, end as int);
        proof {
            lemma_find_char_props(rest, '\n');
            if nl < n {
                let piece = rest.subrange(0, nl - start);
                assert(piece =~= s@.subrange(start as int, nl as int));
                if end < nl {
                    assert(piece.last() == '\r');
                    assert(strip_cr(piece) =~= line);
                } else {
                    assert(strip_cr(piece) =~= line);
                }
                assert(rest.subrange(nl - start + 1, rest.len() as int) =~= s@.subrange(
                    nl + 1,
                    n as int,
                ));
                assert(lines_of(rest) == seq![line] + lines_of(s@.subrange(nl + 1, n as int)));
            } else {
                assert(line =~= rest);
                assert(lines_of(rest) == seq![line]);
            }
        }
        let found = location_in(&s, start, end, workspace_root);
        let ghost before = labels@;
        match found {
            Some((path, label)) => {
                labels.insert(path, label);
                proof {
                    assert(label_views(labels@) =~= label_views(before).insert(path@, label@));
                }
            },
            None => {},
        }
        proof {
            let nd = done.push(line);
            assert(nd.drop_last() =~= done);
            if nl < n {
                assert(nd + lines_of(s@.subrange(nl + 1, n as int)) =~= done + lines_of(rest));
            } else {
                assert(s@.subrange(n as int, n as int) =~= Seq::<char>::empty());
                assert(nd + lines_of(s@.subrange(n as int, n as int)) =~= done + lines_of(rest));
            }
            done = nd;
        }
        start = if nl < n {
            nl + 1
        } else {
            n
        };
    }
    proof {
        assert(s@.subrange(n as int, n as int) =~= Seq::<char>::empty());
        assert(done + Seq::<Seq<char>>::empty() =~= done);
    }
    labels
}

} // verus!
