//! The text of the Bazel queries that the analysis runs (one that locates
//! changed paths, one that asks for the reverse dependencies of their
//! labels), and the workspace root that Bazel reports.
use vstd::prelude::*;
use crate::bazel::{collect_unique_nonempty_strings, trimmed_nonempty};
use crate::text::{
    chars_of, lemma_lex_asymmetric, lemma_lex_irreflexive, lemma_trim_idempotent, lex_lt,
    string_from_chars,
    string_views, strictly_sorted, trim, trim_bounds,
};

verus! {

/// The words of `ws` joined by single spaces.
pub open spec fn joined_words(ws: Seq<Seq<char>>) -> Seq<char>
    decreases ws.len(),
{
    if ws.len() == 0 {
        Seq::empty()
    } else if ws.len() == 1 {
        ws[0]
    } else {
        joined_words(ws.drop_last()) + seq![' '] + ws.last()
    }
}

/// A single word is joined as itself, and joining two non-empty lists of
/// words puts exactly one space between their joined texts; so every pair
/// of neighbouring words is separated by one space.
pub proof fn lemma_joined_words_concat(a: Seq<Seq<char>>, b: Seq<Seq<char>>)
    requires
        a.len() > 0,
        b.len() > 0,
    ensures
        joined_words(seq![a[0]]) == a[0],
        joined_words(a + b) == joined_words(a) + seq![' '] + joined_words(b),
    decreases b.len(),
{
    let ab = a + b;
    if b.len() == 1 {
        assert(ab.drop_last() =~= a);
        assert(ab.last() == b[0]);
        assert(joined_words(b) == b[0]);
    } else {
        let b1 = b.drop_last();
        lemma_joined_words_concat(a, b1);
        assert(ab.drop_last() =~= a + b1);
        assert(ab.last() == b.last());
        assert(joined_words(b) == joined_words(b1) + seq![' '] + b.last());
        assert(joined_words(ab) =~= joined_words(a) + seq![' '] + joined_words(b));
    }
}

/// The joined text is as long as the words together plus one space between
/// each two of them.
pub proof fn lemma_joined_words_len(ws: Seq<Seq<char>>)
    requires
        ws.len() > 0,
    ensures
        joined_words(ws).len() == words_len(ws) + ws.len() - 1,
    decreases ws.len(),
{
    if ws.len() > 1 {
        lemma_joined_words_len(ws.drop_last());
    } else {
        assert(words_len(ws.drop_last()) == 0);
    }
}

/// The total length of the words of `ws`.
pub open spec fn words_len(ws: Seq<Seq<char>>) -> nat
    decreases ws.len(),
{
    if ws.len() == 0 {
        0
    } else {
        words_len(ws.drop_last()) + ws.last().len()
    }
}

/// `l` lists the set `s` once each, in increasing order.
pub open spec fn sorted_listing(l: Seq<Seq<char>>, s: Set<Seq<char>>) -> bool {
    strictly_sorted(l) && l.to_set() == s
}

/// The query that locates `paths`: `set(p1 p2 ...)`.
pub open spec fn location_query_text(paths: Seq<Seq<char>>) -> Seq<char> {
    "set("@ + joined_words(paths) + ")"@
}

/// The query for the reverse dependencies of `labels` within `universe`:
/// `rdeps(universe, set(l1 l2 ...))`.
pub open spec fn rdeps_query_text(universe: Seq<char>, labels: Seq<Seq<char>>) -> Seq<char> {
    "rdeps("@ + universe + ", set("@ + joined_words(labels) + "))"@
}

/// A set of strings has one sorted listing.
pub proof fn lemma_sorted_listing_unique(a: Seq<Seq<char>>, b: Seq<Seq<char>>, s: Set<Seq<char>>)
    requires
        sorted_listing(a, s),
        sorted_listing(b, s),
    ensures
        a == b,
    decreases a.len(),
{
    if a.len() == 0 {
        if b.len() > 0 {
            assert(b.to_set().contains(b[0]));
            assert(!a.to_set().contains(b[0]));
        }
        assert(a =~= b);
    } else {
        assert(a.to_set().contains(a[0]));
        assert(b.contains(a[0]));
        let j = choose|j: int| 0 <= j < b.len() && b[j] == a[0];
        assert(b.to_set().contains(b[0]));
        assert(a.contains(b[0]));
        let i = choose|i: int| 0 <= i < a.len() && a[i] == b[0];
        if j > 0 {
            assert(lex_lt(b[0], b[j]));
            if i > 0 {
                assert(lex_lt(a[0], a[i]));
                lemma_lex_asymmetric(a[0], b[0]);
            } else {
                lemma_lex_irreflexive(a[0]);
            }
        }
        assert(a[0] == b[0]);
        let ra = a.drop_first();
        let rb = b.drop_first();
        let rs = s.remove(a[0]);
        assert forall|x: Seq<char>| ra.to_set().contains(x) == rs.contains(x) by {
            if ra.to_set().contains(x) {
                assert(ra.contains(x));
                let k = choose|k: int| 0 <= k < ra.len() && ra[k] == x;
                assert(a[k + 1] == x);
                assert(a.contains(x));
                assert(lex_lt(a[0], a[k + 1]));
                lemma_lex_irreflexive(a[0]);
            }
            if rs.contains(x) {
                assert(a.to_set().contains(x));
                let k = choose|k: int| 0 <= k < a.len() && a[k] == x;
                assert(k != 0);
                assert(ra[k - 1] == x);
                assert(ra.contains(x));
            }
        }
        assert forall|x: Seq<char>| rb.to_set().contains(x) == rs.contains(x) by {
            if rb.to_set().contains(x) {
                assert(rb.contains(x));
                let k = choose|k: int| 0 <= k < rb.len() && rb[k] == x;
                assert(b[k + 1] == x);
                assert(b.contains(x));
                assert(lex_lt(b[0], b[k + 1]));
                lemma_lex_irreflexive(b[0]);
            }
            if rs.contains(x) {
                assert(b.to_set().contains(x));
                let k = choose|k: int| 0 <= k < b.len() && b[k] == x;
                assert(k != 0);
                assert(rb[k - 1] == x);
                assert(rb.contains(x));
            }
        }
        assert(ra.to_set() =~= rs);
        assert(rb.to_set() =~= rs);
        assert forall|p: int, q: int| 0 <= p < q < ra.len() implies lex_lt(#[trigger] ra[p], #[trigger] ra[q]) by {
            assert(ra[p] == a[p + 1] && ra[q] == a[q + 1]);
        }
        assert forall|p: int, q: int| 0 <= p < q < rb.len() implies lex_lt(#[trigger] rb[p], #[trigger] rb[q]) by {
            assert(rb[p] == b[p + 1] && rb[q] == b[q + 1]);
        }
        lemma_sorted_listing_unique(ra, rb, rs);
        assert(a =~= seq![a[0]] + ra);
        assert(b =~= seq![b[0]] + rb);
    }
}

/// Collecting the distinct non-empty trimmed values is idempotent: the
/// sorted listing of those of a sorted listing `l` is `l` itself. (By
/// `lemma_sorted_listing_unique`, the listing depends only on the set of
/// trimmed non-empty values, whatever their order, repetition or padding.)
pub proof fn lemma_unique_strings_idempotent(
    values: Seq<Seq<char>>,
    l: Seq<Seq<char>>,
    l2: Seq<Seq<char>>,
)
    requires
        sorted_listing(l, trimmed_nonempty(values)),
        sorted_listing(l2, trimmed_nonempty(l)),
    ensures
        l2 == l,
{
    assert forall|x: Seq<char>| trimmed_nonempty(l).contains(x) == l.to_set().contains(x) by {
        if l.to_set().contains(x) {
            assert(trimmed_nonempty(values).contains(x));
            let i = choose|i: int| 0 <= i < values.len() && trim(#[trigger] values[i]) == x;
            lemma_trim_idempotent(values[i]);
            assert(l.contains(x));
            let k = choose|k: int| 0 <= k < l.len() && l[k] == x;
            assert(trim(l[k]) == x);
        }
        if trimmed_nonempty(l).contains(x) {
            let k = choose|k: int| 0 <= k < l.len() && trim(#[trigger] l[k]) == x;
            assert(l.to_set().contains(l[k]));
            assert(trimmed_nonempty(values).contains(l[k]));
            let i = choose|i: int| 0 <= i < values.len() && trim(#[trigger] values[i]) == l[k];
            lemma_trim_idempotent(values[i]);
        }
    }
    assert(trimmed_nonempty(l) =~= l.to_set());
    lemma_sorted_listing_unique(l2, l, l.to_set());
}

/// The words of `words` joined by single spaces.
fn join_with_spaces(words: &Vec<String>) -> (r: String)
    ensures
        r@ == joined_words(string_views(words@)),
{
    let ghost ws = string_views(words@);
    let mut r = String::new();
    let n = words.len();
    for i in 0..n
        invariant
            n == words@.len(),
            ws == string_views(words@),
            r@ == joined_words(ws.take(i as int)),
    {
        let ghost before = r@;
        if i > 0 {
            r.append(" ");
        }
        r.append(words[i].as_str());
        proof {
            reveal_strlit(" ");
            let t = ws.take(i + 1);
            assert(t.drop_last() =~= ws.take(i as int));
            assert(t.last() == words@[i as int]@);
            if i == 0 {
                assert(before =~= Seq::<char>::empty());
                assert(r@ =~= t[0]);
            } else {
                assert(r@ =~= before + seq![' '] + t.last());
            }
        }
    }
    assert(ws.take(n as int) =~= ws);
    r
}

/// The query that locates the distinct non-empty trimmed `paths`, listed in
/// increasing order; `None` when there is none.
pub fn location_query(paths: &Vec<String>) -> (r: Option<String>)
    ensures
        r is None <==> trimmed_nonempty(string_views(paths@)) == Set::<Seq<char>>::empty(),
        r matches Some(q) ==> exists|l: Seq<Seq<char>>|
            sorted_listing(l, trimmed_nonempty(string_views(paths@))) && q@ == location_query_text(l),
{
    let unique = collect_unique_nonempty_strings(paths);
    let ghost l = string_views(unique@);
    if unique.len() == 0 {
        assert(l.to_set() =~= Set::<Seq<char>>::empty());
        return None;
    }
    proof {
        assert(l.to_set().contains(l[0]));
    }
    let joined = join_with_spaces(&unique);
    let mut q = String::from_str("set(");
    q.append(joined.as_str());
    q.append(")");
    assert(sorted_listing(l, trimmed_nonempty(string_views(paths@))) && q@ == location_query_text(l));
    Some(q)
}

/// Why a reverse dependency query cannot be formed.
#[derive(Debug)]
pub struct QueryError {
    pub message: String,
}

impl QueryError {
    /// The error's message.
    pub fn message(&self) -> (r: String)
        ensures
            r@ == self.message@,
    {
        self.message.clone()
    }
}

/// The message of the error for an empty universe.
pub open spec fn empty_universe_message() -> Seq<char> {
    "`--universe` value should not be empty"@
}

/// The query for the reverse dependencies, within the trimmed `universe`, of
/// the distinct non-empty trimmed `labels`, listed in increasing order.
/// `Ok(None)` when there is no label (the graph is then empty); an error when
/// the universe is blank.
pub fn rdeps_query(universe: &str, labels: &Vec<String>) -> (r: Result<Option<String>, QueryError>)
    ensures
        trim(universe@).len() == 0 <==> r is Err,
        r matches Err(e) ==> e.message@ == empty_universe_message(),
        r matches Ok(None) <==> trim(universe@).len() > 0 && trimmed_nonempty(string_views(labels@))
            == Set::<Seq<char>>::empty(),
        r matches Ok(Some(q)) ==> exists|l: Seq<Seq<char>>|
            sorted_listing(l, trimmed_nonempty(string_views(labels@))) && q@ == rdeps_query_text(
                trim(universe@),
                l,
            ),
{
    let u = chars_of(universe);
    let (a, b) = trim_bounds(&u, 0, u.len());
    assert(u@.subrange(0, u@.len() as int) =~= u@);
    if a == b {
        return Err(QueryError { message: String::from_str("`--universe` value should not be empty") });
    }
    let unique = collect_unique_nonempty_strings(labels);
    let ghost l = string_views(unique@);
    if unique.len() == 0 {
        assert(l.to_set() =~= Set::<Seq<char>>::empty());
        return Ok(None);
    }
    proof {
        assert(l.to_set().contains(l[0]));
    }
    let joined = join_with_spaces(&unique);
    let trimmed = string_from_chars(&u, a, b);
    let mut q = String::from_str("rdeps(");
    q.append(trimmed.as_str());
    q.append(", set(");
    q.append(joined.as_str());
    q.append("))");
    assert(sorted_listing(l, trimmed_nonempty(string_views(labels@))) && q@ == rdeps_query_text(
        trim(universe@),
        l,
    ));
    Ok(Some(q))
}

/// The workspace root that `bazel info workspace` printed: its output,
/// trimmed; `None` when that is empty.
pub fn workspace_root_from_output(stdout: &str) -> (r: Option<String>)
    ensures
        r is None <==> trim(stdout@).len() == 0,
        r matches Some(root) ==> root@ == trim(stdout@),
{
    let s = chars_of(stdout);
    let (a, b) = trim_bounds(&s, 0, s.len());
    assert(s@.subrange(0, s@.len() as int) =~= s@);
    if a == b {
        None
    } else {
        Some(string_from_chars(&s, a, b))
    }
}

} // verus!
