//! The Bazel reverse dependency graph: built from the DOT graph that
//! `bazel query --output=graph` prints, and walked to count the targets that
//! depend, directly or transitively, on a label.
use vstd::prelude::*;
use vstd::multiset::Multiset;
use crate::str_map::{
    lemma_total_insert, lemma_total_remove, total_weight, StrMap, StrSet,
};
use crate::text::{chars_of, string_views, strictly_sorted, trim, trim_bounds, string_from_chars};

verus! {

// ---------------------------------------------------------------------------
// DOT identifiers and edges
// ---------------------------------------------------------------------------
/// `s` without one layer of surrounding double quotes.
pub open spec fn strip_quotes(s: Seq<char>) -> Seq<char> {
    if s.len() >= 2 && s[0] == '"' && s.last() == '"' {
        s.subrange(1, s.len() - 1)
    } else {
        s
    }
}

/// Strips a single layer of surrounding double-quote characters from a DOT
/// node identifier.
pub fn strip_dot_quotes(s: &str) -> (r: &str)
    ensures
        r@ == strip_quotes(s@),
{
    let n = s.unicode_len();
    if n >= 2 && s.get_char(0) == '"' && s.get_char(n - 1) == '"' {
        s.substring_char(1, n - 1)
    } else {
        s
    }
}

/// The edges, as `(from, to)` identifiers counted with their multiplicity,
/// that `dot_parser` reads from the DOT text `dot` when it accepts it.
pub uninterp spec fn dot_edges(dot: Seq<char>) -> Multiset<(Seq<char>, Seq<char>)>;

/// The characters of each end of each edge.
pub open spec fn edge_views(es: Seq<(String, String)>) -> Seq<(Seq<char>, Seq<char>)> {
    es.map_values(|e: (String, String)| (e.0@, e.1@))
}

/// Parses `dot` with `dot_parser::ast::Graph::try_from`, flattens it with
/// `dot_parser::canonical::Graph::from`, and hands out the canonical graph's
/// edge list as `(from, to)` pairs; a parse error is handed out as its
/// `Debug` rendering. The contract claims only that, when the parse succeeds,
/// the edges, counted with their multiplicity, are the ones that `dot_edges`
/// names for the text. It says nothing of when the parse fails nor of the
/// error text: `pest`, which the crate parses with, also fails when the
/// calling thread runs low on stack, and its call limit and the detail its
/// errors carry are process-wide settings. It leaves the edges' order unsaid:
/// the crate lists edges in the order of the text, except that an edge
/// statement between subgraphs is expanded by walking `HashSet`s. The crate's
/// sources show a panic only where its own grammar and tree disagree, which
/// they describe as a bug of the crate; nothing here states when that happens.
#[verifier::external_body]
fn parse_dot_edges(dot: &str) -> (r: Result<Vec<(String, String)>, String>)
    ensures
        r matches Ok(es) ==> dot_edges(dot@) == edge_views(es@).to_multiset(),
{
    match dot_parser::ast::Graph::try_from(dot) {
        Ok(ast_graph) => {
            let graph = dot_parser::canonical::Graph::from(ast_graph);
            Ok(graph.edges.set.into_iter().map(|edge| (edge.from, edge.to)).collect())
        },
        Err(e) => Err(format!("{e:?}")),
    }
}

// ---------------------------------------------------------------------------
// The graph model
// ---------------------------------------------------------------------------
/// The predecessors recorded for `a` (none when `a` is absent).
pub open spec fn pred_list(g: Map<Seq<char>, Seq<Seq<char>>>, a: Seq<char>) -> Seq<Seq<char>> {
    if g.dom().contains(a) {
        g[a]
    } else {
        Seq::empty()
    }
}

/// The predecessor lists that reading the edges `es` in order records: each
/// edge, with its identifiers unquoted, adds its source to its destination's
/// list.
pub open spec fn preds_of_edges(es: Seq<(Seq<char>, Seq<char>)>) -> Map<
    Seq<char>,
    Seq<Seq<char>>,
>
    decreases es.len(),
{
    if es.len() == 0 {
        Map::empty()
    } else {
        let m = preds_of_edges(es.drop_last());
        let to = strip_quotes(es.last().1);
        let from = strip_quotes(es.last().0);
        m.insert(to, pred_list(m, to).push(from))
    }
}

/// `b` is listed as a direct predecessor (a dependent) of `a`.
pub open spec fn pred_edge(g: Map<Seq<char>, Seq<Seq<char>>>, a: Seq<char>, b: Seq<char>) -> bool {
    g.dom().contains(a) && g[a].contains(b)
}

/// A walk from dependency to dependent along predecessor edges.
pub open spec fn is_walk(g: Map<Seq<char>, Seq<Seq<char>>>, w: Seq<Seq<char>>) -> bool {
    &&& w.len() > 0
    &&& forall|i: int| 0 <= i < w.len() - 1 ==> #[trigger] pred_edge(g, w[i], w[i + 1])
}

/// `b` is `a` or depends on `a`, directly or transitively.
pub open spec fn reaches(g: Map<Seq<char>, Seq<Seq<char>>>, a: Seq<char>, b: Seq<char>) -> bool {
    exists|w: Seq<Seq<char>>| is_walk(g, w) && w[0] == a && w.last() == b
}

/// The labels other than `label` that depend on it, directly or transitively.
pub open spec fn dependents(g: Map<Seq<char>, Seq<Seq<char>>>, label: Seq<char>) -> Set<
    Seq<char>,
> {
    Set::new(|n: Seq<char>| n != label && reaches(g, label, n))
}

/// Every label that appears in the graph, as a destination or as a source.
pub open spec fn graph_labels(g: Map<Seq<char>, Seq<Seq<char>>>) -> Set<Seq<char>> {
    Set::new(
        |n: Seq<char>|
            g.dom().contains(n) || exists|k: Seq<char>| #[trigger]
                g.dom().contains(k) && g[k].contains(n),
    )
}

pub proof fn lemma_reaches_self(g: Map<Seq<char>, Seq<Seq<char>>>, a: Seq<char>)
    ensures
        reaches(g, a, a),
{
    let w = seq![a];
    assert(is_walk(g, w) && w[0] == a && w.last() == a);
}

pub proof fn lemma_reaches_step(
    g: Map<Seq<char>, Seq<Seq<char>>>,
    a: Seq<char>,
    b: Seq<char>,
    c: Seq<char>,
)
    requires
        reaches(g, a, b),
        pred_edge(g, b, c),
    ensures
        reaches(g, a, c),
{
    let w = choose|w: Seq<Seq<char>>| is_walk(g, w) && w[0] == a && w.last() == b;
    let w2 = w.push(c);
    assert forall|i: int| 0 <= i < w2.len() - 1 implies #[trigger] pred_edge(g, w2[i], w2[i + 1]) by {
        if i < w.len() - 1 {
            assert(w2[i] == w[i] && w2[i + 1] == w[i + 1]);
            assert(pred_edge(g, w[i], w[i + 1]));
        }
    }
    assert(is_walk(g, w2) && w2[0] == a && w2.last() == c);
}

/// A set that holds `a` and every dependent of each of its members holds
/// everything that reaches back to `a`.
pub proof fn lemma_closed_holds_reach(
    g: Map<Seq<char>, Seq<Seq<char>>>,
    s: Set<Seq<char>>,
    w: Seq<Seq<char>>,
)
    requires
        is_walk(g, w),
        s.contains(w[0]),
        forall|n: Seq<char>, p: Seq<char>| s.contains(n) && #[trigger] pred_edge(g, n, p) ==> s.contains(p),
    ensures
        s.contains(w.last()),
    decreases w.len(),
{
    if w.len() > 1 {
        let w1 = w.drop_last();
        assert forall|i: int| 0 <= i < w1.len() - 1 implies #[trigger] pred_edge(g, w1[i], w1[i + 1]) by {
            assert(pred_edge(g, w[i], w[i + 1]));
        }
        lemma_closed_holds_reach(g, s, w1);
        let i = w.len() - 2;
        assert(pred_edge(g, w[i], w[i + 1]));
        assert(w1.last() == w[i]);
    }
}

/// Reading edges records each edge, unquoted, as a predecessor of its
/// destination, and records nothing else: every label with predecessors and
/// every listed predecessor is an unquoted end of one of the edges.
pub proof fn lemma_edges_recorded(es: Seq<(Seq<char>, Seq<char>)>)
    ensures
        forall|k: int|
            0 <= k < es.len() ==> pred_list(preds_of_edges(es), strip_quotes(#[trigger] es[k].1)).contains(
                strip_quotes(es[k].0),
            ),
        forall|to: Seq<char>, from: Seq<char>|
            #[trigger] pred_edge(preds_of_edges(es), to, from) ==> exists|k: int|
                0 <= k < es.len() && strip_quotes(#[trigger] es[k].1) == to && strip_quotes(es[k].0)
                    == from,
    decreases es.len(),
{
    if es.len() > 0 {
        let prev = es.drop_last();
        lemma_edges_recorded(prev);
        let m = preds_of_edges(prev);
        let to = strip_quotes(es.last().1);
        let from = strip_quotes(es.last().0);
        let g = preds_of_edges(es);
        assert(g == m.insert(to, pred_list(m, to).push(from)));
        assert forall|k: int| 0 <= k < es.len() implies pred_list(g, strip_quotes(#[trigger] es[k].1)).contains(
            strip_quotes(es[k].0),
        ) by {
            let t = strip_quotes(es[k].1);
            let f = strip_quotes(es[k].0);
            if k == es.len() - 1 {
                assert(pred_list(g, to)[pred_list(m, to).len() as int] == from);
            } else {
                assert(prev[k] == es[k]);
                assert(pred_list(m, t).contains(f));
                let j = choose|j: int| 0 <= j < pred_list(m, t).len() && pred_list(m, t)[j] == f;
                if t == to {
                    assert(pred_list(g, t)[j] == f);
                } else {
                    assert(pred_list(g, t) == pred_list(m, t));
                }
            }
        }
        assert forall|t: Seq<char>, f: Seq<char>| #[trigger] pred_edge(g, t, f) implies exists|k: int|
            0 <= k < es.len() && strip_quotes(#[trigger] es[k].1) == t && strip_quotes(es[k].0) == f by {
            if t == to && f == from {
                assert(strip_quotes(es[es.len() - 1].1) == t);
            } else if t == to {
                let j = choose|j: int| 0 <= j < g[t].len() && g[t][j] == f;
                assert(j < pred_list(m, to).len());
                assert(pred_list(m, to)[j] == f);
                assert(m.dom().contains(t));
                assert(pred_edge(m, t, f));
                let k = choose|k: int|
                    0 <= k < prev.len() && strip_quotes(#[trigger] prev[k].1) == t && strip_quotes(prev[k].0) == f;
                assert(prev[k] == es[k]);
            } else {
                assert(pred_edge(m, t, f));
                let k = choose|k: int|
                    0 <= k < prev.len() && strip_quotes(#[trigger] prev[k].1) == t && strip_quotes(prev[k].0) == f;
                assert(prev[k] == es[k]);
            }
        }
    }
}

/// Stripping undoes one layer of quoting, and only one.
pub proof fn lemma_strip_quotes_undoes_quoting(s: Seq<char>)
    ensures
        strip_quotes(seq!['"'] + s + seq!['"']) == s,
{
    let q = seq!['"'] + s + seq!['"'];
    assert(q.subrange(1, q.len() - 1) =~= s);
}

/// Each direct predecessor of a label, other than the label itself, is one
/// of its dependents, and so is every dependent of that predecessor.
pub proof fn lemma_dependents_through_predecessor(
    g: Map<Seq<char>, Seq<Seq<char>>>,
    a: Seq<char>,
    q: Seq<char>,
)
    requires
        pred_edge(g, a, q),
    ensures
        !dependents(g, a).contains(a),
        q != a ==> dependents(g, a).contains(q),
        forall|x: Seq<char>| #[trigger] dependents(g, q).contains(x) && x != a ==> dependents(
            g,
            a,
        ).contains(x),
{
    lemma_reaches_self(g, a);
    lemma_reaches_step(g, a, a, q);
    assert forall|x: Seq<char>| #[trigger] dependents(g, q).contains(x) && x != a implies dependents(
        g,
        a,
    ).contains(x) by {
        let w = choose|w: Seq<Seq<char>>| is_walk(g, w) && w[0] == q && w.last() == x;
        let w2 = seq![a] + w;
        assert forall|i: int| 0 <= i < w2.len() - 1 implies #[trigger] pred_edge(g, w2[i], w2[i + 1]) by {
            if i > 0 {
                let k = i - 1;
                assert(w2[i] == w[k] && w2[i + 1] == w[k + 1]);
                assert(pred_edge(g, w[k], w[k + 1]));
            }
        }
        assert(is_walk(g, w2) && w2[0] == a && w2.last() == x);
    }
}

// ---------------------------------------------------------------------------
// The graph
// ---------------------------------------------------------------------------
/// Error for DOT text that `dot_parser` does not accept.
#[derive(Debug)]
pub struct DotGraphError {
    pub message: String,
}

impl DotGraphError {
    /// The error's message.
    pub fn message(&self) -> (r: String)
        ensures
            r@ == self.message@,
    {
        self.message.clone()
    }
}

/// The text that starts the message of a [`DotGraphError`].
pub open spec fn dot_error_prefix() -> Seq<char> {
    "failed to parse bazel --output=graph DOT: "@
}

/// A reverse dependency graph: for each label, the labels that depend on it
/// directly.
#[derive(Debug, Clone, PartialEq, Eq)]
pub struct BazelDependencyGraph {
    pub predecessors: StrMap<Vec<String>>,
}

/// The labels that the entries of a predecessor map mention.
pub open spec fn entry_labels(es: Seq<(Seq<char>, Vec<String>)>) -> Set<Seq<char>>
    decreases es.len(),
{
    if es.len() == 0 {
        Set::empty()
    } else {
        entry_labels(es.drop_last()).insert(es.last().0).union(
            string_views(es.last().1@).to_set(),
        )
    }
}

pub proof fn lemma_entry_labels(es: Seq<(Seq<char>, Vec<String>)>)
    ensures
        entry_labels(es).finite(),
        forall|k: int| 0 <= k < es.len() ==> entry_labels(es).contains(#[trigger] es[k].0),
        forall|k: int, j: int|
            0 <= k < es.len() && 0 <= j < es[k].1@.len() ==> entry_labels(es).contains(
                #[trigger] es[k].1@[j]@,
            ),
    decreases es.len(),
{
    if es.len() > 0 {
        let es1 = es.drop_last();
        lemma_entry_labels(es1);
        vstd::seq_lib::seq_to_set_is_finite(string_views(es.last().1@));
        assert forall|k: int, j: int|
            0 <= k < es.len() && 0 <= j < es[k].1@.len() implies entry_labels(es).contains(
            #[trigger] es[k].1@[j]@,
        ) by {
            if k < es.len() - 1 {
                assert(es[k] == es1[k]);
            } else {
                assert(string_views(es.last().1@)[j] == es[k].1@[j]@);
            }
        }
        assert forall|k: int| 0 <= k < es.len() implies entry_labels(es).contains(#[trigger] es[k].0) by {
            if k < es.len() - 1 {
                assert(es[k] == es1[k]);
            }
        }
    }
}

/// Whether the entry `e` names `x`, as its label or among its predecessors.
pub open spec fn entry_has_label(e: (Seq<char>, Vec<String>), x: Seq<char>) -> bool {
    e.0 == x || string_views(e.1@).contains(x)
}

/// The labels that the first `i` entries of `es` name.
pub open spec fn prefix_labels(es: Seq<(Seq<char>, Vec<String>)>, i: int) -> Set<Seq<char>> {
    Set::new(|x: Seq<char>| exists|k: int| 0 <= k < i && #[trigger] entry_has_label(es[k], x))
}

impl BazelDependencyGraph {
    /// The graph's invariant: its map is well formed.
    pub open spec fn wf(&self) -> bool {
        self.predecessors.wf()
    }

    /// For each label, the labels recorded as its direct predecessors.
    pub open spec fn preds(&self) -> Map<Seq<char>, Seq<Seq<char>>> {
        self.predecessors@.map_values(|v: Vec<String>| string_views(v@))
    }

    /// The labels of the graph form a finite set.
    pub proof fn lemma_labels_finite(&self)
        requires
            self.wf(),
        ensures
            graph_labels(self.preds()).finite(),
    {
        let es = self.predecessors.entry_seq();
        let g = self.preds();
        self.predecessors.lemma_view();
        lemma_entry_labels(es);
        assert forall|n: Seq<char>| graph_labels(g).contains(n) implies entry_labels(es).contains(n) by {
            if g.dom().contains(n) {
                let i = choose|i: int| 0 <= i < es.len() && #[trigger] es[i].0 == n;
            } else {
                let k = choose|k: Seq<char>| #[trigger] g.dom().contains(k) && g[k].contains(n);
                let i = choose|i: int| 0 <= i < es.len() && #[trigger] es[i].0 == k;
                assert(g[k] == string_views(es[i].1@));
                let j = choose|j: int| 0 <= j < g[k].len() && g[k][j] == n;
                assert(string_views(es[i].1@)[j] == es[i].1@[j]@);
            }
        }
        vstd::set_lib::lemma_len_subset(graph_labels(g), entry_labels(es));
    }

    /// Builds the graph from a list of `(from, to)` edges, unquoting each
    /// identifier.
    pub fn from_edges(edges: &Vec<(String, String)>) -> (g: Self)
        ensures
            g.wf(),
            g.preds() == preds_of_edges(edge_views(edges@)),
            total_weight(g.predecessors.entry_seq()) == edges@.len(),
    {
        let ghost ev = edge_views(edges@);
        let mut preds: StrMap<Vec<String>> = StrMap::new();
        proof {
            assert(preds@.map_values(|v: Vec<String>| string_views(v@)) =~= preds_of_edges(
                ev.take(0),
            ));
        }
        for i in 0..edges.len()
            invariant
                ev == edge_views(edges@),
                preds.wf(),
                preds@.map_values(|v: Vec<String>| string_views(v@)) == preds_of_edges(
                    ev.take(i as int),
                ),
                total_weight(preds.entry_seq()) == i,
        {
            let from = strip_dot_quotes(edges[i].0.as_str()).to_owned();
            let to = strip_dot_quotes(edges[i].1.as_str()).to_owned();
            let ghost before = preds@;
            let ghost es0 = preds.entry_seq();
            let ghost p0 = preds;
            let mut list = match preds.remove(to.as_str()) {
                Some(v) => v,
                None => Vec::new(),
            };
            let ghost es1 = preds.entry_seq();
            let ghost old_list = list@;
            list.push(from);
            let ghost new_list = list@;
            let ghost to_v = to@;
            let ghost new_entry = (to@, list);
            let idx = preds.insert(to, list);
            proof {
                let m0 = preds_of_edges(ev.take(i as int));
                assert(ev.take(i + 1).drop_last() =~= ev.take(i as int));
                assert(ev.take(i + 1).last() == ev[i as int]);
                assert(ev[i as int] == (edges@[i as int].0@, edges@[i as int].1@));
                if before.dom().contains(to_v) {
                    assert(m0.dom().contains(to_v));
                    assert(pred_list(m0, to_v) == string_views(old_list));
                    let k = choose|k: int|
                        0 <= k < es0.len() && #[trigger] es0[k].0 == to_v && es1 == es0.remove(k);
                    lemma_total_remove(es0, k);
                    p0.lemma_view();
                    crate::str_map::lemma_entries_map(es0);
                    assert(es0[k].1 == before[to_v]);
                } else {
                    assert(!m0.dom().contains(to_v));
                    assert(old_list =~= Seq::<String>::empty());
                    assert(pred_list(m0, to_v) =~= string_views(old_list));
                }
                assert(string_views(new_list) =~= string_views(old_list).push(from@));
                lemma_total_insert(es1, idx as int, new_entry);
                assert(preds@.map_values(|v: Vec<String>| string_views(v@)) =~= m0.insert(
                    to_v,
                    pred_list(m0, to_v).push(from@),
                ));
            }
        }
        proof {
            assert(ev.take(edges@.len() as int) =~= ev);
        }
        BazelDependencyGraph { predecessors: preds }
    }

    /// Builds the graph from DOT text: each edge adds its source, unquoted, to
    /// the predecessors of its destination. Whitespace-only text gives the
    /// empty graph; when `dot_parser` fails on the text, the error carries its
    /// description. The edges are those that `dot_parser` reads, in some
    /// order. Whether the parse succeeds depends, beyond the text, on the
    /// stack left to the calling thread and on process-wide parser settings.
    pub fn from_dot(dot: &str) -> (r: Result<Self, DotGraphError>)
        ensures
            trim(dot@).len() == 0 ==> (r matches Ok(g) && g.wf() && g.preds() == Map::<
                Seq<char>,
                Seq<Seq<char>>,
            >::empty()),
            r matches Ok(g) ==> g.wf() && total_weight(g.predecessors.entry_seq()) <= usize::MAX,
            r matches Ok(g) ==> (trim(dot@).len() > 0 ==> exists|es: Seq<(Seq<char>, Seq<char>)>|
                es.to_multiset() == dot_edges(dot@) && g.preds() == preds_of_edges(es)
                    && total_weight(g.predecessors.entry_seq()) == es.len()),
            r matches Err(e) ==> trim(dot@).len() > 0 && dot_error_prefix().is_prefix_of(
                e.message@,
            ),
    {
        let chars = chars_of(dot);
        let (a, b) = trim_bounds(&chars, 0, chars.len());
        assert(chars@.subrange(0, chars@.len() as int) =~= chars@);
        if a == b {
            let g = BazelDependencyGraph { predecessors: StrMap::new() };
            assert(g.preds() =~= Map::<Seq<char>, Seq<Seq<char>>>::empty());
            assert(total_weight(g.predecessors.entry_seq()) == 0);
            return Ok(g);
        }
        match parse_dot_edges(dot) {
            Ok(edges) => {
                let count = edges.len();
                let g = BazelDependencyGraph::from_edges(&edges);
                assert(total_weight(g.predecessors.entry_seq()) == count);
                assert(edge_views(edges@).to_multiset() == dot_edges(dot@)
                    && g.preds() == preds_of_edges(edge_views(edges@)) && total_weight(
                    g.predecessors.entry_seq(),
                ) == edge_views(edges@).len());
                Ok(g)
            },
            Err(text) => {
                let mut message = String::from_str("failed to parse bazel --output=graph DOT: ");
                message.append(text.as_str());
                proof {
                    reveal_strlit("failed to parse bazel --output=graph DOT: ");
                    assert(dot_error_prefix() =~= message@.subrange(0, dot_error_prefix().len() as int));
                }
                Err(DotGraphError { message })
            },
        }
    }

    /// Builds the graph from explicit predecessor lists; a later list for the
    /// same label replaces an earlier one.
    pub fn from_predecessor_lists(lists: Vec<(String, Vec<String>)>) -> (g: Self)
        ensures
            g.wf(),
            g.predecessors@ == crate::str_map::pairs_map(
                lists@.map_values(|p: (String, Vec<String>)| (p.0@, p.1)),
            ),
    {
        BazelDependencyGraph { predecessors: StrMap::from_pairs(lists) }
    }

    /// The labels that depend directly on `label` (none when it is absent).
    pub fn direct_predecessors(&self, label: &str) -> (r: &[String])
        requires
            self.wf(),
        ensures
            string_views(r@) == pred_list(self.preds(), label@),
    {
        match self.predecessors.get(label) {
            Some(v) => v.as_slice(),
            None => {
                assert(string_views(Seq::<String>::empty()) =~= Seq::<Seq<char>>::empty());
                &[]
            },
        }
    }

    /// Every label that appears in the graph.
    pub fn labels(&self) -> (r: StrSet)
        requires
            self.wf(),
        ensures
            r.wf(),
            r@.dom() == graph_labels(self.preds()),
    {
        let ghost es = self.predecessors.entry_seq();
        let ghost g = self.preds();
        let mut r: StrSet = StrMap::new();
        let n = self.predecessors.len();
        proof {
            assert(r@.dom() =~= prefix_labels(es, 0));
        }
        for i in 0..n
            invariant
                n == es.len(),
                es == self.predecessors.entry_seq(),
                g == self.preds(),
                self.wf(),
                r.wf(),
                r@.dom() == prefix_labels(es, i as int),
        {
            let ghost before = r@.dom();
            r.add(self.predecessors.key_at(i).clone());
            let list = self.predecessors.value_at(i);
            let m = list.len();
            for j in 0..m
                invariant
                    m == list@.len(),
                    *list == es[i as int].1,
                    r.wf(),
                    r@.dom() == before.insert(es[i as int].0).union(
                        string_views(list@).take(j as int).to_set(),
                    ),
            {
                r.add(list[j].clone());
                proof {
                    assert(string_views(list@).take(j + 1) =~= string_views(list@).take(
                        j as int,
                    ).push(list@[j as int]@));
                    string_views(list@).take(j as int).lemma_push_to_set_commute(
                        list@[j as int]@,
                    );
                    assert(r@.dom() =~= before.insert(es[i as int].0).union(
                        string_views(list@).take(j + 1).to_set(),
                    ));
                }
            }
            proof {
                assert(string_views(list@).take(m as int) =~= string_views(list@));
                assert forall|x: Seq<char>|
                    r@.dom().contains(x) <==> prefix_labels(es, i + 1).contains(x) by {
                    if r@.dom().contains(x) {
                        if before.contains(x) {
                            let k = choose|k: int| 0 <= k < i && #[trigger] entry_has_label(es[k], x);
                        } else {
                            assert(entry_has_label(es[i as int], x));
                        }
                    }
                    if prefix_labels(es, i + 1).contains(x) {
                        let k = choose|k: int| 0 <= k < i + 1 && #[trigger] entry_has_label(es[k], x);
                        if k < i {
                            assert(before.contains(x));
                        }
                    }
                }
                assert(r@.dom() =~= prefix_labels(es, i + 1));
            }
        }
        proof {
            self.predecessors.lemma_view();
            assert forall|x: Seq<char>| r@.dom().contains(x) <==> graph_labels(g).contains(x) by {
                if r@.dom().contains(x) {
                    let k = choose|k: int| 0 <= k < n && #[trigger] entry_has_label(es[k], x);
                    assert(g.dom().contains(es[k].0));
                    assert(g[es[k].0] == string_views(es[k].1@));
                }
                if graph_labels(g).contains(x) {
                    if g.dom().contains(x) {
                        let k = choose|k: int| 0 <= k < es.len() && #[trigger] es[k].0 == x;
                        assert(entry_has_label(es[k], x));
                    } else {
                        let key = choose|key: Seq<char>| #[trigger]
                            g.dom().contains(key) && g[key].contains(x);
                        let k = choose|k: int| 0 <= k < es.len() && #[trigger] es[k].0 == key;
                        assert(g[key] == string_views(es[k].1@));
                        assert(entry_has_label(es[k], x));
                    }
                }
            }
            assert(r@.dom() =~= graph_labels(g));
        }
        r
    }

    /// The number of labels in the graph.
    pub fn node_count(&self) -> (n: usize)
        requires
            self.wf(),
        ensures
            n == graph_labels(self.preds()).len(),
    {
        let l = self.labels();
        l.len()
    }

    /// The number of recorded predecessor entries, summed over all labels.
    pub fn edge_count(&self) -> (n: usize)
        requires
            self.wf(),
            total_weight(self.predecessors.entry_seq()) <= usize::MAX,
        ensures
            n == total_weight(self.predecessors.entry_seq()),
    {
        let ghost es = self.predecessors.entry_seq();
        let mut total: usize = 0;
        let n = self.predecessors.len();
        for i in 0..n
            invariant
                n == es.len(),
                es == self.predecessors.entry_seq(),
                total_weight(es) <= usize::MAX,
                total == total_weight(es.take(i as int)),
        {
            proof {
                assert(es.take(i + 1).drop_last() =~= es.take(i as int));
                crate::str_map::lemma_total_split(es, i as int);
                assert(es.take(i + 1) =~= es.take(i as int) + seq![es[i as int]]);
                crate::str_map::lemma_total_concat(es.take(i + 1), es.skip(i + 1));
                assert(es.take(i + 1) + es.skip(i + 1) =~= es);
            }
            total = total + self.predecessors.value_at(i).len();
        }
        proof {
            assert(es.take(n as int) =~= es);
        }
        total
    }

    /// The number of labels, other than `label`, that depend on `label`
    /// directly or transitively; walks predecessor lists breadth first, and
    /// stops on cycles.
    pub fn transitive_dependent_count(&self, label: &str) -> (count: u64)
        requires
            self.wf(),
        ensures
            count == dependents(self.preds(), label@).len(),
            dependents(self.preds(), label@).finite(),
    {
        let ghost g = self.preds();
        let ghost univ = graph_labels(g).insert(label@);
        proof {
            self.lemma_labels_finite();
        }
        let mut visited: StrSet = StrMap::new();
        let start = label.to_owned();
        visited.add(start.clone());
        let mut queue: Vec<String> = Vec::new();
        queue.push(start);
        let mut head: usize = 0;
        proof {
            lemma_reaches_self(g, label@);
            visited.lemma_view();
            assert(queue@[0]@ == label@);
            assert(visited@.dom() =~= set![label@]);
        }
        while head < queue.len()
            invariant
                self.wf(),
                g == self.preds(),
                univ == graph_labels(g).insert(label@),
                univ.finite(),
                visited.wf(),
                head <= queue@.len(),
                visited@.dom().contains(label@),
                visited@.dom().subset_of(univ),
                forall|x: Seq<char>| visited@.dom().contains(x) ==> reaches(g, label@, x),
                forall|j: int| 0 <= j < queue@.len() ==> visited@.dom().contains(#[trigger] queue@[j]@),
                forall|x: Seq<char>|
                    visited@.dom().contains(x) ==> (exists|j: int|
                        head <= j < queue@.len() && #[trigger] queue@[j]@ == x) || (forall|p: Seq<char>|
                        #[trigger] pred_edge(g, x, p) ==> visited@.dom().contains(p)),
            decreases 2 * univ.len() - 2 * visited@.dom().len() + queue@.len() - head,
        {
            proof {
                visited.lemma_view();
                vstd::set_lib::lemma_len_subset(visited@.dom(), univ);
            }
            let node = queue[head].clone();
            head = head + 1;
            let ghost v0 = visited@.dom().len();
            let ghost q0 = queue@.len();
            let ps = self.direct_predecessors(node.as_str());
            let m = ps.len();
            for i in 0..m
                invariant
                    m == ps@.len(),
                    string_views(ps@) == pred_list(g, node@),
                    self.wf(),
                    g == self.preds(),
                    univ == graph_labels(g).insert(label@),
                    univ.finite(),
                    visited.wf(),
                    head <= queue@.len(),
                    q0 <= queue@.len(),
                    visited@.dom().contains(label@),
                    visited@.dom().contains(node@),
                    visited@.dom().subset_of(univ),
                    visited@.dom().finite(),
                    2 * visited@.dom().len() - queue@.len() >= 2 * v0 - q0,
                    forall|x: Seq<char>| visited@.dom().contains(x) ==> reaches(g, label@, x),
                    forall|j: int| 0 <= j < queue@.len() ==> visited@.dom().contains(#[trigger] queue@[j]@),
                    forall|k: int| 0 <= k < i ==> visited@.dom().contains(#[trigger] ps@[k]@),
                    forall|x: Seq<char>|
                        visited@.dom().contains(x) ==> x == node@ || (exists|j: int|
                            head <= j < queue@.len() && #[trigger] queue@[j]@ == x) || (forall|
                            p: Seq<char>,
                        | #[trigger] pred_edge(g, x, p) ==> visited@.dom().contains(p)),
            {
                let p = &ps[i];
                assert(string_views(ps@)[i as int] == p@);
                if !visited.contains(p.as_str()) {
                    proof {
                        visited.lemma_view();
                        assert(pred_list(g, node@).contains(p@));
                        assert(g.dom().contains(node@));
                        assert(pred_edge(g, node@, p@));
                        lemma_reaches_step(g, label@, node@, p@);
                        assert(graph_labels(g).contains(p@));
                    }
                    let ghost vb = visited@.dom();
                    visited.add(p.clone());
                    let ghost qb = queue@;
                    queue.push(p.clone());
                    proof {
                        visited.lemma_view();
                        assert(visited@.dom() =~= vb.insert(p@));
                        assert(queue@[queue@.len() - 1]@ == p@);
                        assert forall|x: Seq<char>| visited@.dom().contains(x) implies x == node@ || (
                        exists|j: int| head <= j < queue@.len() && #[trigger] queue@[j]@ == x) || (
                        forall|p2: Seq<char>| #[trigger]
                            pred_edge(g, x, p2) ==> visited@.dom().contains(p2)) by {
                            if x == p@ {
                                assert(queue@[queue@.len() - 1]@ == x);
                            } else if x != node@ {
                                if exists|j: int| head <= j < qb.len() && #[trigger] qb[j]@ == x {
                                    let j = choose|j: int| head <= j < qb.len() && #[trigger] qb[j]@ == x;
                                    assert(queue@[j] == qb[j]);
                                }
                            }
                        }
                        assert forall|j: int| 0 <= j < queue@.len() implies visited@.dom().contains(
                            #[trigger] queue@[j]@,
                        ) by {
                            if j < qb.len() {
                                assert(queue@[j] == qb[j]);
                            }
                        }
                    }
                }
            }
            proof {
                visited.lemma_view();
                assert forall|p2: Seq<char>| #[trigger] pred_edge(g, node@, p2) implies visited@.dom().contains(p2) by {
                    assert(pred_list(g, node@).contains(p2));
                    let k = choose|k: int| 0 <= k < m && string_views(ps@)[k] == p2;
                    assert(string_views(ps@)[k] == ps@[k]@);
                }
                vstd::set_lib::lemma_len_subset(visited@.dom(), univ);
            }
        }
        proof {
            visited.lemma_view();
            let vs = visited@.dom();
            assert forall|x: Seq<char>, p: Seq<char>| vs.contains(x) && #[trigger] pred_edge(g, x, p) implies vs.contains(p) by {
                if exists|j: int| head <= j < queue@.len() && #[trigger] queue@[j]@ == x {
                    let j = choose|j: int| head <= j < queue@.len() && #[trigger] queue@[j]@ == x;
                }
            }
            assert forall|x: Seq<char>| dependents(g, label@).contains(x) <==> vs.remove(label@).contains(x) by {
                if dependents(g, label@).contains(x) {
                    let w = choose|w: Seq<Seq<char>>| is_walk(g, w) && w[0] == label@ && w.last() == x;
                    lemma_closed_holds_reach(g, vs, w);
                }
            }
            assert(dependents(g, label@) =~= vs.remove(label@));
        }
        let total = visited.len();
        proof {
            visited.lemma_view();
        }
        (total - 1) as u64
    }
}

} // verus!

verus! {

impl Default for BazelDependencyGraph {
    /// The empty graph.
    fn default() -> (g: Self)
        ensures
            g.wf(),
            g.preds() == Map::<Seq<char>, Seq<Seq<char>>>::empty(),
    {
        let predecessors: StrMap<Vec<String>> = StrMap::new();
        let g = BazelDependencyGraph { predecessors };
        assert(g.preds() =~= Map::<Seq<char>, Seq<Seq<char>>>::empty());
        g
    }
}

} // verus!

verus! {

/// The trimmed, non-empty strings among `vs`.
pub open spec fn trimmed_nonempty(vs: Seq<Seq<char>>) -> Set<Seq<char>> {
    Set::new(
        |t: Seq<char>| t.len() > 0 && exists|i: int| 0 <= i < vs.len() && trim(#[trigger] vs[i]) == t,
    )
}

/// The distinct non-empty values of `values` after trimming, in increasing
/// order.
pub fn collect_unique_nonempty_strings(values: &Vec<String>) -> (r: Vec<String>)
    ensures
        strictly_sorted(string_views(r@)),
        string_views(r@).to_set() == trimmed_nonempty(string_views(values@)),
{
    let ghost vs = string_views(values@);
    let mut set: StrSet = StrMap::new();
    let n = values.len();
    proof {
        assert(set@.dom() =~= trimmed_nonempty(vs.take(0)));
    }
    for i in 0..n
        invariant
            n == values@.len(),
            vs == string_views(values@),
            set.wf(),
            set@.dom() == trimmed_nonempty(vs.take(i as int)),
    {
        let chars = chars_of(values[i].as_str());
        let (a, b) = trim_bounds(&chars, 0, chars.len());
        assert(chars@.subrange(0, chars@.len() as int) =~= chars@);
        assert(vs[i as int] == values@[i as int]@);
        let ghost before = set@.dom();
        if a < b {
            set.add(string_from_chars(&chars, a, b));
        }
        proof {
            let t = trim(vs[i as int]);
            assert(t == chars@.subrange(a as int, b as int));
            if a < b {
                assert(set@.dom() == before.insert(t));
            } else {
                assert(set@.dom() == before);
            }
            assert(t.len() == b - a);
            assert forall|x: Seq<char>|
                set@.dom().contains(x) == trimmed_nonempty(vs.take(i + 1)).contains(x) by {
                if a < b {
                    assert(set@.dom().contains(x) == (before.contains(x) || x == t));
                } else {
                    assert(set@.dom().contains(x) == before.contains(x));
                }

                if trimmed_nonempty(vs.take(i + 1)).contains(x) {
                    let k = choose|k: int| 0 <= k < i + 1 && trim(#[trigger] vs.take(i + 1)[k]) == x;
                    if k < i {
                        assert(vs.take(i as int)[k] == vs.take(i + 1)[k]);
                    }
                }
                if before.contains(x) {
                    let k = choose|k: int| 0 <= k < i && trim(#[trigger] vs.take(i as int)[k]) == x;
                    assert(vs.take(i as int)[k] == vs.take(i + 1)[k]);
                }
                if x == t && t.len() > 0 {
                    assert(vs.take(i + 1)[i as int] == vs[i as int]);
                }
                assert(trimmed_nonempty(vs.take(i + 1)).contains(x) == (before.contains(x) || (x
                    == t && t.len() > 0)));
            }
            assert(set@.dom() =~= trimmed_nonempty(vs.take(i + 1)));
        }
    }
    proof {
        assert(vs.take(n as int) =~= vs);
        set.lemma_view();
    }
    set.keys()
}

/// Counts, for each distinct non-empty trimmed label of `labels`, the labels
/// of `graph` that depend on it (zero for a label the graph does not have).
pub fn count_transitive_dependents_by_label(
    graph: &BazelDependencyGraph,
    labels: &Vec<String>,
) -> (counts: StrMap<u64>)
    requires
        graph.wf(),
    ensures
        counts.wf(),
        counts@.dom() == trimmed_nonempty(string_views(labels@)),
        forall|l: Seq<char>| #[trigger]
            counts@.dom().contains(l) ==> counts@[l] as int == (if graph_labels(
                graph.preds(),
            ).contains(l) {
                dependents(graph.preds(), l).len() as int
            } else {
                0
            }),
{
    let unique = collect_unique_nonempty_strings(labels);
    let known = graph.labels();
    let mut counts: StrMap<u64> = StrMap::new();
    let n = unique.len();
    for i in 0..n
        invariant
            n == unique@.len(),
            graph.wf(),
            known.wf(),
            known@.dom() == graph_labels(graph.preds()),
            counts.wf(),
            counts@.dom() == string_views(unique@).take(i as int).to_set(),
            forall|l: Seq<char>| #[trigger]
                counts@.dom().contains(l) ==> counts@[l] as int == (if graph_labels(
                    graph.preds(),
                ).contains(l) {
                    dependents(graph.preds(), l).len() as int
                } else {
                    0
                }),
    {
        let label = &unique[i];
        let count = if known.contains(label.as_str()) {
            graph.transitive_dependent_count(label.as_str())
        } else {
            0
        };
        counts.insert(label.clone(), count);
        proof {
            assert(string_views(unique@)[i as int] == label@);
            assert(string_views(unique@).take(i + 1) =~= string_views(unique@).take(i as int).push(
                label@,
            ));
            string_views(unique@).take(i as int).lemma_push_to_set_commute(label@);
        }
    }
    proof {
        assert(string_views(unique@).take(n as int) =~= string_views(unique@));
    }
    counts
}

} // verus!
