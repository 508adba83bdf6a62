//! The impact report: owner targets ranked by impact, and the changed files
//! that no target accounts for.
use vstd::prelude::*;
use crate::file_churn::FileChurn;
use crate::files::{classify_file, kind_of, FileKind};
use crate::owner::{file_views, unresolved_views, OwnerImpact, SourceFile, UnresolvedSourceFile};
use crate::text::{
    compare_str, lemma_lex_asymmetric, lemma_lex_irreflexive, lemma_lex_total,
    lemma_lex_transitive, lex_lt, strictly_sorted, TextOrder,
};

verus! {

/// What the report records of the run that produced it.
pub struct ReportConfig {
    pub workspace: String,
    pub universe: String,
    pub since: Option<String>,
    pub limit: Option<usize>,
}

/// A source file listed under a target or among the files without owner.
#[derive(Debug)]
pub struct SourceFileEntry {
    pub path: String,
    pub file_label: String,
    pub churn: u64,
}

/// A source file that no label resolves.
#[derive(Debug)]
pub struct UnresolvedSourceFileEntry {
    pub path: String,
    pub churn: u64,
}

/// A changed Bazel file (BUILD, `.bzl`, workspace) that the analysis does not
/// follow.
#[derive(Debug)]
pub struct UnsupportedFileEntry {
    pub path: String,
    pub kind: FileKind,
    pub churn: u64,
}

/// One owner target of the report.
#[derive(Debug)]
pub struct TargetImpact {
    pub target_label: String,
    pub churn: u64,
    pub transitive_dependents: u64,
    pub impact_score: u64,
    pub source_files: Vec<SourceFileEntry>,
}

/// The impact report.
#[derive(Debug)]
pub struct Report {
    pub workspace: String,
    pub universe: String,
    pub since: Option<String>,
    pub total_churned_files: u64,
    pub analyzed_targets: u64,
    pub unresolved_source_files_count: u64,
    pub no_owner_source_files_count: u64,
    pub unsupported_files_count: u64,
    pub malformed_git_lines: u64,
    pub entries: Vec<TargetImpact>,
    pub unresolved_source_files: Vec<UnresolvedSourceFileEntry>,
    pub no_owner_source_files: Vec<SourceFileEntry>,
    pub unsupported_files: Vec<UnsupportedFileEntry>,
}

impl View for SourceFileEntry {
    type V = (Seq<char>, Seq<char>, u64);

    open spec fn view(&self) -> (Seq<char>, Seq<char>, u64) {
        (self.path@, self.file_label@, self.churn)
    }
}

impl View for UnresolvedSourceFileEntry {
    type V = (Seq<char>, u64);

    open spec fn view(&self) -> (Seq<char>, u64) {
        (self.path@, self.churn)
    }
}

impl View for UnsupportedFileEntry {
    type V = (Seq<char>, FileKind, u64);

    open spec fn view(&self) -> (Seq<char>, FileKind, u64) {
        (self.path@, self.kind, self.churn)
    }
}

/// The views of a list of source file entries.
pub open spec fn entry_views(v: Seq<SourceFileEntry>) -> Seq<(Seq<char>, Seq<char>, u64)> {
    v.map_values(|f: SourceFileEntry| f@)
}

/// The views of a list of unresolved file entries.
pub open spec fn unresolved_entry_views(v: Seq<UnresolvedSourceFileEntry>) -> Seq<(Seq<char>, u64)> {
    v.map_values(|f: UnresolvedSourceFileEntry| f@)
}

/// The views of a list of unsupported file entries.
pub open spec fn unsupported_views(v: Seq<UnsupportedFileEntry>) -> Seq<(Seq<char>, FileKind, u64)> {
    v.map_values(|f: UnsupportedFileEntry| f@)
}

/// A target entry as a plain value: label, churn, transitive dependents,
/// impact score, source files.
pub type TargetView = (Seq<char>, u64, u64, u64, Seq<(Seq<char>, Seq<char>, u64)>);

impl View for TargetImpact {
    type V = TargetView;

    open spec fn view(&self) -> TargetView {
        (
            self.target_label@,
            self.churn,
            self.transitive_dependents,
            self.impact_score,
            entry_views(self.source_files@),
        )
    }
}

/// The views of a list of target entries.
pub open spec fn target_views(v: Seq<TargetImpact>) -> Seq<TargetView> {
    v.map_values(|t: TargetImpact| t@)
}

/// The target entry that an owner impact becomes.
pub open spec fn target_of(o: OwnerImpact) -> TargetView {
    (o.label@, o.churn, o.transitive_dependents, o.impact_score, file_views(o.source_files@))
}

/// The target entries that a list of owner impacts becomes, in order.
pub open spec fn targets_of(v: Seq<OwnerImpact>) -> Seq<TargetView> {
    v.map_values(|o: OwnerImpact| target_of(o))
}

// ---------------------------------------------------------------------------
// Ranking
// ---------------------------------------------------------------------------
/// `a` ranks strictly before `b`: higher impact score, then more transitive
/// dependents, then more churn, then the smaller label.
pub open spec fn ranks_before(a: TargetView, b: TargetView) -> bool {
    ||| a.3 > b.3
    ||| a.3 == b.3 && a.2 > b.2
    ||| a.3 == b.3 && a.2 == b.2 && a.1 > b.1
    ||| a.3 == b.3 && a.2 == b.2 && a.1 == b.1 && lex_lt(a.0, b.0)
}

/// `a` and `b` tie in the ranking.
pub open spec fn same_rank(a: TargetView, b: TargetView) -> bool {
    a.3 == b.3 && a.2 == b.2 && a.1 == b.1 && a.0 == b.0
}

/// The ranking keys, in order: a higher impact score ranks first; on equal
/// scores, more transitive dependents; then more churn; then the label that
/// sorts first.
pub proof fn lemma_rank_keys(a: TargetView, b: TargetView)
    ensures
        a.3 > b.3 ==> ranks_before(a, b) && !ranks_before(b, a),
        a.3 == b.3 && a.2 > b.2 ==> ranks_before(a, b) && !ranks_before(b, a),
        a.3 == b.3 && a.2 == b.2 && a.1 > b.1 ==> ranks_before(a, b) && !ranks_before(b, a),
        a.3 == b.3 && a.2 == b.2 && a.1 == b.1 && lex_lt(a.0, b.0) ==> ranks_before(a, b)
            && !ranks_before(b, a),
        a.3 == b.3 && a.2 == b.2 && a.1 == b.1 && a.0 == b.0 ==> !ranks_before(a, b),
{
    lemma_lex_irreflexive(a.0);
    if lex_lt(a.0, b.0) {
        lemma_lex_asymmetric(a.0, b.0);
    }
}

pub proof fn lemma_rank_irreflexive(a: TargetView)
    ensures
        !ranks_before(a, a),
{
    lemma_lex_irreflexive(a.0);
}

pub proof fn lemma_rank_transitive(a: TargetView, b: TargetView, c: TargetView)
    requires
        ranks_before(a, b),
        ranks_before(b, c),
    ensures
        ranks_before(a, c),
{
    if a.3 == b.3 && b.3 == c.3 && a.2 == b.2 && b.2 == c.2 && a.1 == b.1 && b.1 == c.1 {
        lemma_lex_transitive(a.0, b.0, c.0);
    }
}

pub proof fn lemma_rank_total(a: TargetView, b: TargetView)
    ensures
        ranks_before(a, b) || ranks_before(b, a) || same_rank(a, b),
{
    lemma_lex_total(a.0, b.0);
}

pub proof fn lemma_rank_asymmetric(a: TargetView, b: TargetView)
    requires
        ranks_before(a, b),
    ensures
        !ranks_before(b, a),
        !same_rank(a, b),
{
    if a.3 == b.3 && a.2 == b.2 && a.1 == b.1 {
        lemma_lex_asymmetric(a.0, b.0);
        lemma_lex_irreflexive(a.0);
    }
}

/// Whether `perm` lists each index below `n` exactly once.
pub open spec fn is_permutation(perm: Seq<int>, n: int) -> bool {
    &&& perm.len() == n
    &&& forall|k: int| 0 <= k < n ==> 0 <= #[trigger] perm[k] < n
    &&& forall|a: int, b: int| 0 <= a < b < n ==> #[trigger] perm[a] != #[trigger] perm[b]
}

/// `output` holds the elements of `input` moved by `perm`, in ranking order,
/// with tied elements in their input order.
pub open spec fn stable_ranking_by(input: Seq<TargetView>, output: Seq<TargetView>, perm: Seq<int>) -> bool {
    &&& output.len() == input.len()
    &&& is_permutation(perm, input.len() as int)
    &&& forall|k: int| 0 <= k < output.len() ==> #[trigger] output[k] == input[perm[k]]
    &&& forall|a: int, b: int|
        0 <= a < b < output.len() ==> !ranks_before(#[trigger] output[b], #[trigger] output[a])
    &&& forall|a: int, b: int|
        0 <= a < b < output.len() && same_rank(#[trigger] output[a], #[trigger] output[b]) ==> perm[a]
            < perm[b]
}

/// `output` is `input` sorted by rank, stably.
pub open spec fn is_stable_ranking(input: Seq<TargetView>, output: Seq<TargetView>) -> bool {
    exists|perm: Seq<int>| stable_ranking_by(input, output, perm)
}

/// Input index `i` comes before input index `j` in a stable ranking: its
/// entry ranks strictly before, or ties and comes first in the input.
pub open spec fn index_before(input: Seq<TargetView>, i: int, j: int) -> bool {
    ranks_before(input[i], input[j]) || (same_rank(input[i], input[j]) && i < j)
}

proof fn lemma_index_order(input: Seq<TargetView>, i: int, j: int)
    ensures
        !index_before(input, i, i),
        index_before(input, i, j) ==> !index_before(input, j, i),
        i != j ==> index_before(input, i, j) || index_before(input, j, i),
{
    lemma_rank_irreflexive(input[i]);
    lemma_rank_total(input[i], input[j]);
    if ranks_before(input[i], input[j]) {
        lemma_rank_asymmetric(input[i], input[j]);
    }
    if ranks_before(input[j], input[i]) {
        lemma_rank_asymmetric(input[j], input[i]);
    }
}

proof fn lemma_ranking_increasing(input: Seq<TargetView>, output: Seq<TargetView>, perm: Seq<int>)
    requires
        stable_ranking_by(input, output, perm),
    ensures
        forall|a: int, b: int|
            0 <= a < b < perm.len() ==> index_before(input, #[trigger] perm[a], #[trigger] perm[b]),
{
    assert forall|a: int, b: int| 0 <= a < b < perm.len() implies index_before(
        input,
        #[trigger] perm[a],
        #[trigger] perm[b],
    ) by {
        assert(!ranks_before(output[b], output[a]));
        assert(output[a] == input[perm[a]] && output[b] == input[perm[b]]);
        lemma_rank_total(output[a], output[b]);
    }
}

proof fn lemma_permutation_onto(perm: Seq<int>, n: int)
    requires
        is_permutation(perm, n),
    ensures
        forall|j: int| 0 <= j < n ==> perm.contains(j),
{
    assert(perm.no_duplicates());
    perm.unique_seq_to_set();
    vstd::set_lib::lemma_int_range(0, n);
    let r = vstd::set_lib::set_int_range(0, n);
    assert(perm.to_set().subset_of(r));
    vstd::set_lib::lemma_subset_equality(perm.to_set(), r);
    assert forall|j: int| 0 <= j < n implies perm.contains(j) by {
        assert(r.contains(j));
        assert(perm.to_set().contains(j));
    }
}

proof fn lemma_rankings_agree_upto(
    input: Seq<TargetView>,
    o1: Seq<TargetView>,
    p1: Seq<int>,
    o2: Seq<TargetView>,
    p2: Seq<int>,
    k: int,
)
    requires
        stable_ranking_by(input, o1, p1),
        stable_ranking_by(input, o2, p2),
        0 <= k <= input.len(),
    ensures
        forall|i: int| 0 <= i < k ==> p1[i] == p2[i],
    decreases k,
{
    if k > 0 {
        let n = input.len() as int;
        lemma_rankings_agree_upto(input, o1, p1, o2, p2, k - 1);
        lemma_ranking_increasing(input, o1, p1);
        lemma_ranking_increasing(input, o2, p2);
        lemma_permutation_onto(p1, n);
        lemma_permutation_onto(p2, n);
        let c = k - 1;
        let x = p1[c];
        let y = p2[c];
        assert(p2.contains(x));
        let m = choose|m: int| 0 <= m < p2.len() && p2[m] == x;
        assert(p1.contains(y));
        let m1 = choose|m: int| 0 <= m < p1.len() && p1[m] == y;
        if m < c {
            assert(p1[m] == p2[m]);
            assert(p1[m] != p1[c]);
        }
        if m1 < c {
            assert(p1[m1] == p2[m1]);
            assert(p2[m1] != p2[c]);
        }
        if x != y {
            lemma_index_order(input, x, y);
            if m > c {
                assert(index_before(input, p2[c], p2[m]));
            }
            if m1 > c {
                assert(index_before(input, p1[c], p1[m1]));
            }
        }
    }
}

/// A list has one stable ranking: two stable rankings of the same entries
/// are equal.
pub proof fn lemma_stable_ranking_unique(input: Seq<TargetView>, o1: Seq<TargetView>, o2: Seq<TargetView>)
    requires
        is_stable_ranking(input, o1),
        is_stable_ranking(input, o2),
    ensures
        o1 == o2,
{
    let p1 = choose|p: Seq<int>| stable_ranking_by(input, o1, p);
    let p2 = choose|p: Seq<int>| stable_ranking_by(input, o2, p);
    lemma_rankings_agree_upto(input, o1, p1, o2, p2, input.len() as int);
    assert forall|k: int| 0 <= k < o1.len() implies o1[k] == o2[k] by {
        assert(p1[k] == p2[k]);
    }
    assert(o1 =~= o2);
}

/// Entries strictly increasing in rank, with the same elements, are equal.
proof fn lemma_strict_rankings_equal(a: Seq<TargetView>, b: Seq<TargetView>)
    requires
        forall|i: int, j: int| 0 <= i < j < a.len() ==> ranks_before(#[trigger] a[i], #[trigger] a[j]),
        forall|i: int, j: int| 0 <= i < j < b.len() ==> ranks_before(#[trigger] b[i], #[trigger] b[j]),
        a.to_set() == b.to_set(),
    ensures
        a == b,
    decreases a.len(),
{
    if a.len() == 0 {
        if b.len() > 0 {
            assert(b.to_set().contains(b[0]));
            assert(!a.to_set().contains(b[0]));
        }
        assert(a =~= b);
    } else {
        assert(a.to_set().contains(a[0]));
        assert(b.contains(a[0]));
        let j = choose|j: int| 0 <= j < b.len() && b[j] == a[0];
        assert(b.to_set().contains(b[0]));
        assert(a.contains(b[0]));
        let i = choose|i: int| 0 <= i < a.len() && a[i] == b[0];
        if j > 0 {
            assert(ranks_before(b[0], b[j]));
            if i > 0 {
                assert(ranks_before(a[0], a[i]));
                lemma_rank_asymmetric(a[0], b[0]);
            } else {
                lemma_rank_irreflexive(a[0]);
            }
        }
        assert(a[0] == b[0]);
        let ra = a.drop_first();
        let rb = b.drop_first();
        assert forall|x: TargetView| ra.to_set().contains(x) == rb.to_set().contains(x) by {
            if ra.to_set().contains(x) {
                assert(ra.contains(x));
                let k = choose|k: int| 0 <= k < ra.len() && ra[k] == x;
                assert(a[k + 1] == x);
                assert(ranks_before(a[0], a[k + 1]));
                lemma_rank_irreflexive(a[0]);
                assert(a.to_set().contains(x));
                assert(b.contains(x));
                let m = choose|m: int| 0 <= m < b.len() && b[m] == x;
                assert(m != 0);
                assert(rb[m - 1] == x);
                assert(rb.contains(x));
            }
            if rb.to_set().contains(x) {
                assert(rb.contains(x));
                let k = choose|k: int| 0 <= k < rb.len() && rb[k] == x;
                assert(b[k + 1] == x);
                assert(ranks_before(b[0], b[k + 1]));
                lemma_rank_irreflexive(b[0]);
                assert(b.to_set().contains(x));
                assert(a.contains(x));
                let m = choose|m: int| 0 <= m < a.len() && a[m] == x;
                assert(m != 0);
                assert(ra[m - 1] == x);
                assert(ra.contains(x));
            }
        }
        assert(ra.to_set() =~= rb.to_set());
        assert forall|p: int, q: int| 0 <= p < q < ra.len() implies ranks_before(#[trigger] ra[p], #[trigger] ra[q]) by {
            assert(ra[p] == a[p + 1] && ra[q] == a[q + 1]);
        }
        assert forall|p: int, q: int| 0 <= p < q < rb.len() implies ranks_before(#[trigger] rb[p], #[trigger] rb[q]) by {
            assert(rb[p] == b[p + 1] && rb[q] == b[q + 1]);
        }
        lemma_strict_rankings_equal(ra, rb);
        assert(a =~= seq![a[0]] + ra);
        assert(b =~= seq![b[0]] + rb);
    }
}

/// A stable ranking of entries with distinct labels is strictly increasing in
/// rank and holds the same entries.
proof fn lemma_ranking_strict(input: Seq<TargetView>, output: Seq<TargetView>)
    requires
        is_stable_ranking(input, output),
        forall|i: int, j: int| 0 <= i < j < input.len() ==> (#[trigger] input[i]).0 != (#[trigger] input[j]).0,
    ensures
        forall|i: int, j: int| 0 <= i < j < output.len() ==> ranks_before(#[trigger] output[i], #[trigger] output[j]),
        output.to_set() == input.to_set(),
{
    let p = choose|p: Seq<int>| stable_ranking_by(input, output, p);
    let n = input.len() as int;
    lemma_permutation_onto(p, n);
    assert forall|i: int, j: int| 0 <= i < j < output.len() implies ranks_before(#[trigger] output[i], #[trigger] output[j]) by {
        assert(output[i] == input[p[i]] && output[j] == input[p[j]]);
        assert(p[i] != p[j]);
        if p[i] < p[j] {
            assert(input[p[i]].0 != input[p[j]].0);
        } else {
            assert(input[p[j]].0 != input[p[i]].0);
        }
        assert(!ranks_before(output[j], output[i]));
        lemma_rank_total(output[i], output[j]);
    }
    assert forall|x: TargetView| output.to_set().contains(x) == input.to_set().contains(x) by {
        if output.to_set().contains(x) {
            assert(output.contains(x));
            let k = choose|k: int| 0 <= k < output.len() && output[k] == x;
            assert(input[p[k]] == x);
            assert(input.contains(x));
        }
        if input.to_set().contains(x) {
            assert(input.contains(x));
            let j = choose|j: int| 0 <= j < input.len() && input[j] == x;
            assert(p.contains(j));
            let k = choose|k: int| 0 <= k < p.len() && p[k] == j;
            assert(output[k] == x);
            assert(output.contains(x));
        }
    }
    assert(output.to_set() =~= input.to_set());
}

/// The ranking does not depend on the order in which entries with distinct
/// labels arrive: a reordering `b` of `a` (`b[k] == a[perm[k]]`) has the same
/// stable ranking.
pub proof fn lemma_ranking_ignores_input_order(
    a: Seq<TargetView>,
    b: Seq<TargetView>,
    perm: Seq<int>,
    oa: Seq<TargetView>,
    ob: Seq<TargetView>,
)
    requires
        is_permutation(perm, a.len() as int),
        b.len() == a.len(),
        forall|k: int| 0 <= k < b.len() ==> #[trigger] b[k] == a[perm[k]],
        forall|i: int, j: int| 0 <= i < j < a.len() ==> (#[trigger] a[i]).0 != (#[trigger] a[j]).0,
        is_stable_ranking(a, oa),
        is_stable_ranking(b, ob),
    ensures
        oa == ob,
{
    let n = a.len() as int;
    lemma_permutation_onto(perm, n);
    assert forall|i: int, j: int| 0 <= i < j < b.len() implies (#[trigger] b[i]).0 != (#[trigger] b[j]).0 by {
        assert(perm[i] != perm[j]);
        if perm[i] < perm[j] {
            assert(a[perm[i]].0 != a[perm[j]].0);
        } else {
            assert(a[perm[j]].0 != a[perm[i]].0);
        }
    }
    assert forall|x: TargetView| a.to_set().contains(x) == b.to_set().contains(x) by {
        if a.to_set().contains(x) {
            assert(a.contains(x));
            let j = choose|j: int| 0 <= j < a.len() && a[j] == x;
            assert(perm.contains(j));
            let k = choose|k: int| 0 <= k < perm.len() && perm[k] == j;
            assert(b[k] == x);
            assert(b.contains(x));
        }
        if b.to_set().contains(x) {
            assert(b.contains(x));
            let k = choose|k: int| 0 <= k < b.len() && b[k] == x;
            assert(a[perm[k]] == x);
            assert(a.contains(x));
        }
    }
    assert(a.to_set() =~= b.to_set());
    lemma_ranking_strict(a, oa);
    lemma_ranking_strict(b, ob);
    lemma_strict_rankings_equal(oa, ob);
}

/// Whether `a` ranks strictly before `b`.
fn outranks(a: &TargetImpact, b: &TargetImpact) -> (r: bool)
    ensures
        r == ranks_before(a@, b@),
{
    if a.impact_score != b.impact_score {
        b.impact_score < a.impact_score
    } else if a.transitive_dependents != b.transitive_dependents {
        b.transitive_dependents < a.transitive_dependents
    } else if a.churn != b.churn {
        b.churn < a.churn
    } else {
        match compare_str(a.target_label.as_str(), b.target_label.as_str()) {
            TextOrder::Less => true,
            _ => false,
        }
    }
}

impl TargetImpact {
    /// Compares two target entries by rank: `Less` when `a` ranks before `b`
    /// (higher impact score, then more dependents, then more churn, then the
    /// smaller label).
    pub fn cmp_by_impact(a: &Self, b: &Self) -> (r: std::cmp::Ordering)
        ensures
            (r == std::cmp::Ordering::Less) == ranks_before(a@, b@),
            (r == std::cmp::Ordering::Greater) == ranks_before(b@, a@),
            (r == std::cmp::Ordering::Equal) == same_rank(a@, b@),
    {
        proof {
            lemma_rank_total(a@, b@);
            if ranks_before(a@, b@) {
                lemma_rank_asymmetric(a@, b@);
            }
            if ranks_before(b@, a@) {
                lemma_rank_asymmetric(b@, a@);
            }
        }
        if outranks(a, b) {
            std::cmp::Ordering::Less
        } else if outranks(b, a) {
            std::cmp::Ordering::Greater
        } else {
            std::cmp::Ordering::Equal
        }
    }
}

/// Sorts `v` by rank, keeping tied entries in their order (insertion sort).
fn sort_by_impact(v: &mut Vec<TargetImpact>)
    ensures
        is_stable_ranking(target_views(old(v)@), target_views(final(v)@)),
{
    let ghost orig = target_views(v@);
    let n = v.len();
    let ghost mut perm: Seq<int> = Seq::empty();
    let mut i: usize = 0;
    while i < n
        invariant
            n == v@.len(),
            orig.len() == n,
            i <= n,
            perm.len() == i,
            forall|k: int| 0 <= k < i ==> 0 <= #[trigger] perm[k] < i,
            forall|a: int, b: int| 0 <= a < b < i ==> #[trigger] perm[a] != #[trigger] perm[b],
            forall|k: int| 0 <= k < i ==> #[trigger] target_views(v@)[k] == orig[perm[k]],
            forall|k: int| i <= k < n ==> #[trigger] target_views(v@)[k] == orig[k],
            forall|a: int, b: int|
                0 <= a < b < i ==> !ranks_before(
                    #[trigger] target_views(v@)[b],
                    #[trigger] target_views(v@)[a],
                ),
            forall|a: int, b: int|
                0 <= a < b < i && same_rank(
                    #[trigger] target_views(v@)[a],
                    #[trigger] target_views(v@)[b],
                ) ==> perm[a] < perm[b],
        decreases n - i,
    {
        let ghost before = target_views(v@);
        let ghost vb = v@;
        let x = v.remove(i);
        let ghost xv = x@;
        assert(xv == before[i as int]);
        let mut p: usize = 0;
        while p < i && !outranks(&x, &v[p])
            invariant
                p <= i < n,
                v@ == vb.remove(i as int),
                vb.len() == n,
                before == target_views(vb),
                xv == x@,
                forall|k: int| 0 <= k < p ==> !ranks_before(xv, #[trigger] before[k]),
            decreases i - p,
        {
            assert(v@[p as int] == vb[p as int]);
            p = p + 1;
        }
        proof {
            if p < i {
                assert(v@[p as int] == vb[p as int]);
                assert(ranks_before(xv, before[p as int]));
            }
        }
        let ghost mid = v@;
        v.insert(p, x);
        proof {
            let nv = target_views(v@);
            assert forall|k: int| 0 <= k < n implies #[trigger] nv[k] == (if k < p {
                before[k]
            } else if k == p {
                xv
            } else if k <= i {
                before[k - 1]
            } else {
                before[k]
            }) by {
                assert(nv[k] == v@[k]@);
                if k < p {
                    assert(v@[k] == mid[k]);
                    assert(mid[k] == vb[k]);
                } else if k > p {
                    assert(v@[k] == mid[k - 1]);
                    if k <= i {
                        assert(mid[k - 1] == vb[k - 1]);
                    } else {
                        assert(mid[k - 1] == vb[k]);
                    }
                }
            }
            let np = perm.insert(p as int, i as int);
            assert forall|a: int, b: int| 0 <= a < b < i + 1 implies !ranks_before(
                #[trigger] nv[b],
                #[trigger] nv[a],
            ) by {
                if a < p && b == p {
                    assert(!ranks_before(xv, before[a]));
                } else if a == p && b > p {
                    assert(ranks_before(xv, before[p as int]));
                    if b - 1 > p {
                        assert(!ranks_before(before[b - 1], before[p as int]));
                        lemma_rank_total(before[p as int], before[b - 1]);
                        if ranks_before(before[p as int], before[b - 1]) {
                            lemma_rank_transitive(xv, before[p as int], before[b - 1]);
                        }
                    }
                    lemma_rank_asymmetric(xv, nv[b]);
                } else if a < p && b > p {
                    assert(!ranks_before(before[b - 1], before[a]));
                } else if a > p {
                    assert(!ranks_before(before[b - 1], before[a - 1]));
                } else {
                    assert(!ranks_before(before[b], before[a]));
                }
            }
            assert forall|a: int, b: int|
                0 <= a < b < i + 1 && same_rank(#[trigger] nv[a], #[trigger] nv[b]) implies np[a]
                < np[b] by {
                if a == p && b > p {
                    assert(ranks_before(xv, before[p as int]));
                    if b - 1 > p {
                        assert(!ranks_before(before[b - 1], before[p as int]));
                        lemma_rank_total(before[p as int], before[b - 1]);
                        if ranks_before(before[p as int], before[b - 1]) {
                            lemma_rank_transitive(xv, before[p as int], before[b - 1]);
                        }
                    }
                    lemma_rank_asymmetric(xv, nv[b]);
                } else if a < p && b == p {
                    assert(np[b] == i);
                } else if a < p && b > p {
                    assert(np[a] == perm[a] && np[b] == perm[b - 1]);
                } else if a > p {
                    assert(np[a] == perm[a - 1] && np[b] == perm[b - 1]);
                } else {
                    assert(np[a] == perm[a] && np[b] == perm[b]);
                }
            }
            assert forall|k: int| 0 <= k < i + 1 implies 0 <= #[trigger] np[k] < i + 1 by {}
            assert forall|a: int, b: int| 0 <= a < b < i + 1 implies #[trigger] np[a] != #[trigger] np[b] by {
                if a != p && b != p {
                    let a0 = if a < p { a } else { a - 1 };
                    let b0 = if b < p { b } else { b - 1 };
                    assert(np[a] == perm[a0] && np[b] == perm[b0]);
                }
            }
            assert forall|k: int| 0 <= k < i + 1 implies #[trigger] nv[k] == orig[np[k]] by {
                if k < p {
                    assert(np[k] == perm[k]);
                } else if k > p {
                    assert(np[k] == perm[k - 1]);
                }
            }
            perm = np;
        }
        i = i + 1;
    }
    proof {
        assert(stable_ranking_by(orig, target_views(v@), perm));
    }
}

// ---------------------------------------------------------------------------
// Building the report
// ---------------------------------------------------------------------------
/// `out` lists the paths of `churn` that are not source files, in increasing
/// order, each with its kind and churn.
pub open spec fn lists_unsupported(
    churn: Map<Seq<char>, u64>,
    out: Seq<(Seq<char>, FileKind, u64)>,
) -> bool {
    &&& strictly_sorted(out.map_values(|e: (Seq<char>, FileKind, u64)| e.0))
    &&& forall|i: int|
        0 <= i < out.len() ==> {
            let e = #[trigger] out[i];
            &&& churn.dom().contains(e.0)
            &&& e.1 == kind_of(e.0)
            &&& e.1 != FileKind::Source
            &&& e.2 == churn[e.0]
        }
    &&& forall|p: Seq<char>|
        #[trigger] churn.dom().contains(p) && kind_of(p) != FileKind::Source ==> exists|i: int|
            0 <= i < out.len() && (#[trigger] out[i]).0 == p
}

/// The source file entries of `source_files`, in order.
pub fn build_source_file_entries(source_files: Vec<SourceFile>) -> (r: Vec<SourceFileEntry>)
    ensures
        entry_views(r@) == file_views(source_files@),
{
    let mut r: Vec<SourceFileEntry> = Vec::new();
    for f in it: source_files
        invariant
            it.seq() == source_files@,
            r@.len() == it.index(),
            forall|k: int| 0 <= k < r@.len() ==> (#[trigger] r@[k])@ == source_files@[k]@,
    {
        let SourceFile { path, file_label, churn } = f;
        r.push(SourceFileEntry { path, file_label, churn });
    }
    assert(entry_views(r@) =~= file_views(source_files@));
    r
}

/// The unresolved file entries of `source_files`, in order.
pub fn build_unresolved_source_file_entries(source_files: Vec<UnresolvedSourceFile>) -> (r: Vec<
    UnresolvedSourceFileEntry,
>)
    ensures
        unresolved_entry_views(r@) == unresolved_views(source_files@),
{
    let mut r: Vec<UnresolvedSourceFileEntry> = Vec::new();
    for f in it: source_files
        invariant
            it.seq() == source_files@,
            r@.len() == it.index(),
            forall|k: int| 0 <= k < r@.len() ==> (#[trigger] r@[k])@ == source_files@[k]@,
    {
        let UnresolvedSourceFile { path, churn } = f;
        r.push(UnresolvedSourceFileEntry { path, churn });
    }
    assert(unresolved_entry_views(r@) =~= unresolved_views(source_files@));
    r
}

/// The target entries of `owner_impacts`, ranked.
pub fn build_target_entries(owner_impacts: Vec<OwnerImpact>) -> (r: Vec<TargetImpact>)
    ensures
        is_stable_ranking(targets_of(owner_impacts@), target_views(r@)),
{
    let mut entries: Vec<TargetImpact> = Vec::new();
    for o in it: owner_impacts
        invariant
            it.seq() == owner_impacts@,
            entries@.len() == it.index(),
            forall|k: int| 0 <= k < entries@.len() ==> (#[trigger] entries@[k])@ == target_of(owner_impacts@[k]),
    {
        let OwnerImpact { label, churn, source_files, transitive_dependents, impact_score } = o;
        let source_files = build_source_file_entries(source_files);
        entries.push(TargetImpact {
            target_label: label,
            churn,
            transitive_dependents,
            impact_score,
            source_files,
        });
    }
    assert(target_views(entries@) =~= targets_of(owner_impacts@));
    sort_by_impact(&mut entries);
    entries
}

/// The changed files of `file_churn` that are not source files, by path.
pub fn build_unsupported_file_entries(file_churn: &FileChurn) -> (r: Vec<UnsupportedFileEntry>)
    requires
        file_churn.churn.wf(),
    ensures
        lists_unsupported(file_churn.churn@, unsupported_views(r@)),
{
    let m = &file_churn.churn;
    let ghost es = m.entry_seq();
    proof {
        m.lemma_view();
    }
    let n = m.len();
    let mut r: Vec<UnsupportedFileEntry> = Vec::new();
    let ghost mut idx: Seq<int> = Seq::empty();
    for i in 0..n
        invariant
            n == es.len(),
            es == m.entry_seq(),
            m.wf(),
            idx.len() == r@.len(),
            forall|a: int, b: int| 0 <= a < b < idx.len() ==> #[trigger] idx[a] < #[trigger] idx[b],
            forall|k: int| 0 <= k < idx.len() ==> 0 <= #[trigger] idx[k] < i,
            forall|k: int|
                0 <= k < r@.len() ==> {
                    let e = (#[trigger] r@[k])@;
                    &&& e.0 == es[idx[k]].0
                    &&& e.1 == kind_of(e.0)
                    &&& e.1 != FileKind::Source
                    &&& e.2 == es[idx[k]].1
                },
            forall|j: int|
                0 <= j < i && kind_of(#[trigger] es[j].0) != FileKind::Source ==> exists|k: int|
                    0 <= k < idx.len() && #[trigger] idx[k] == j,
    {
        let path = m.key_at(i);
        let kind = classify_file(path.as_str());
        if kind != FileKind::Source {
            let churn = *m.value_at(i);
            let ghost before = r@;
            r.push(UnsupportedFileEntry { path: path.clone(), kind, churn });
            proof {
                let ghost old_idx = idx;
                idx = idx.push(i as int);
                assert forall|k: int| 0 <= k < r@.len() implies {
                    let e = (#[trigger] r@[k])@;
                    &&& e.0 == es[idx[k]].0
                    &&& e.1 == kind_of(e.0)
                    &&& e.1 != FileKind::Source
                    &&& e.2 == es[idx[k]].1
                } by {
                    if k < before.len() {
                        assert(r@[k] == before[k]);
                        assert(idx[k] == old_idx[k]);
                    }
                }
                assert forall|j: int|
                    0 <= j < i + 1 && kind_of(#[trigger] es[j].0) != FileKind::Source implies exists|k: int|
                    0 <= k < idx.len() && #[trigger] idx[k] == j by {
                    if j < i {
                        let k = choose|k: int| 0 <= k < old_idx.len() && #[trigger] old_idx[k] == j;
                        assert(idx[k] == j);
                    } else {
                        assert(idx[idx.len() - 1] == j);
                    }
                }
            }
        }
    }
    proof {
        let out = unsupported_views(r@);
        let ks = out.map_values(|e: (Seq<char>, FileKind, u64)| e.0);
        assert forall|a: int, b: int| 0 <= a < b < ks.len() implies lex_lt(#[trigger] ks[a], #[trigger] ks[b]) by {
            assert(ks[a] == r@[a]@.0);
            assert(ks[b] == r@[b]@.0);
            assert(m.key_seq()[idx[a]] == es[idx[a]].0);
            assert(m.key_seq()[idx[b]] == es[idx[b]].0);
        }
        assert forall|i: int| 0 <= i < out.len() implies {
            let e = #[trigger] out[i];
            &&& m@.dom().contains(e.0)
            &&& e.1 == kind_of(e.0)
            &&& e.1 != FileKind::Source
            &&& e.2 == m@[e.0]
        } by {
            assert(out[i] == r@[i]@);
            assert(m@.dom().contains(es[idx[i]].0));
        }
        assert forall|p: Seq<char>|
            #[trigger] m@.dom().contains(p) && kind_of(p) != FileKind::Source implies exists|i: int|
            0 <= i < out.len() && (#[trigger] out[i]).0 == p by {
            let j = choose|j: int| 0 <= j < es.len() && #[trigger] es[j].0 == p;
            let k = choose|k: int| 0 <= k < idx.len() && #[trigger] idx[k] == j;
            assert(out[k] == r@[k]@);
        }
    }
    r
}

/// The report's ranked entries: the stable ranking of `targets`, cut to
/// `limit` entries when one is given.
pub open spec fn limited(full: Seq<TargetView>, limit: Option<usize>) -> Seq<TargetView> {
    match limit {
        Some(l) => if l < full.len() {
            full.take(l as int)
        } else {
            full
        },
        None => full,
    }
}

/// A limit `l` keeps the first `min(l, n)` of the `n` ranked entries, in
/// order; no limit keeps them all.
pub proof fn lemma_limit_keeps_top(full: Seq<TargetView>, limit: Option<usize>)
    ensures
        limit matches Some(l) ==> limited(full, limit).len() == (if l < full.len() {
            l as int
        } else {
            full.len() as int
        }),
        limit is None ==> limited(full, limit) == full,
        forall|i: int| 0 <= i < limited(full, limit).len() ==> #[trigger] limited(full, limit)[i] == full[i],
{
}

/// Builds the report: owner targets ranked by impact (at most `limit` of
/// them; the count of analyzed targets is taken before the cut), the source
/// files without label or without owner, and the changed Bazel files that the
/// analysis does not follow.
pub fn build_report(
    config: ReportConfig,
    file_churn: &FileChurn,
    owner_impacts: Vec<OwnerImpact>,
    unresolved_source_files: Vec<UnresolvedSourceFile>,
    no_owner_source_files: Vec<SourceFile>,
) -> (r: Report)
    requires
        file_churn.churn.wf(),
    ensures
        r.workspace@ == config.workspace@,
        r.universe@ == config.universe@,
        r.since == config.since,
        r.total_churned_files == file_churn.churn@.len(),
        r.analyzed_targets == owner_impacts@.len(),
        config.limit matches Some(l) ==> r.entries@.len() == (if l < owner_impacts@.len() {
            l as int
        } else {
            owner_impacts@.len() as int
        }),
        config.limit is None ==> r.entries@.len() == owner_impacts@.len(),
        r.unresolved_source_files_count == unresolved_source_files@.len(),
        r.no_owner_source_files_count == no_owner_source_files@.len(),
        r.unsupported_files_count == r.unsupported_files@.len(),
        r.malformed_git_lines == file_churn.malformed_lines,
        exists|full: Seq<TargetView>|
            is_stable_ranking(targets_of(owner_impacts@), full) && target_views(r.entries@)
                == limited(full, config.limit),
        unresolved_entry_views(r.unresolved_source_files@) == unresolved_views(
            unresolved_source_files@,
        ),
        entry_views(r.no_owner_source_files@) == file_views(no_owner_source_files@),
        lists_unsupported(file_churn.churn@, unsupported_views(r.unsupported_files@)),
{
    let ghost targets = targets_of(owner_impacts@);
    let analyzed_targets = owner_impacts.len() as u64;
    let mut entries = build_target_entries(owner_impacts);
    let ghost full = target_views(entries@);
    let unresolved_count = unresolved_source_files.len() as u64;
    let unresolved_source_files = build_unresolved_source_file_entries(unresolved_source_files);
    let no_owner_count = no_owner_source_files.len() as u64;
    let no_owner_source_files = build_source_file_entries(no_owner_source_files);
    let unsupported_files = build_unsupported_file_entries(file_churn);
    let total_churned_files = file_churn.churn.len() as u64;
    let unsupported_files_count = unsupported_files.len() as u64;
    match config.limit {
        Some(limit) => {
            if limit < entries.len() {
                entries.truncate(limit);
                assert(target_views(entries@) =~= full.take(limit as int));
            }
        },
        None => {},
    }
    assert(is_stable_ranking(targets, full) && target_views(entries@) == limited(full, config.limit));
    Report {
        workspace: config.workspace,
        universe: config.universe,
        since: config.since,
        total_churned_files,
        analyzed_targets,
        unresolved_source_files_count: unresolved_count,
        no_owner_source_files_count: no_owner_count,
        unsupported_files_count,
        malformed_git_lines: file_churn.malformed_lines,
        entries,
        unresolved_source_files,
        no_owner_source_files,
        unsupported_files,
    }
}

} // verus!
