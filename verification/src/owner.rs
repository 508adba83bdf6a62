//! Ownership of changed source files by Bazel targets: each labeled source
//! file is credited, with its full churn, to every target that lists it
//! directly, and each owner's impact combines that churn with the number of
//! its transitive dependents.
use vstd::prelude::*;
use crate::bazel::{BazelDependencyGraph, dependents, pred_list};
use crate::str_map::{StrMap, StrSet};
use crate::text::{lex_lt, string_views, strictly_sorted};

verus! {

/// A changed source file with the Bazel label that resolves it.
#[derive(Debug, Clone, PartialEq, Eq)]
pub struct SourceFile {
    pub path: String,
    pub file_label: String,
    pub churn: u64,
}

/// A changed source file that no Bazel label resolves.
#[derive(Debug, Clone, PartialEq, Eq)]
pub struct UnresolvedSourceFile {
    pub path: String,
    pub churn: u64,
}

/// A target that owns changed source files, with their summed churn.
#[derive(Debug, Clone, PartialEq, Eq)]
pub struct OwnerChurn {
    pub label: String,
    pub churn: u64,
    pub source_files: Vec<SourceFile>,
}

/// An owner target with its transitive dependents and impact score.
#[derive(Debug, Clone, PartialEq, Eq)]
pub struct OwnerImpact {
    pub label: String,
    pub churn: u64,
    pub source_files: Vec<SourceFile>,
    pub transitive_dependents: u64,
    pub impact_score: u64,
}

impl View for SourceFile {
    type V = (Seq<char>, Seq<char>, u64);

    open spec fn view(&self) -> (Seq<char>, Seq<char>, u64) {
        (self.path@, self.file_label@, self.churn)
    }
}

impl View for UnresolvedSourceFile {
    type V = (Seq<char>, u64);

    open spec fn view(&self) -> (Seq<char>, u64) {
        (self.path@, self.churn)
    }
}

/// The views of a list of source files.
pub open spec fn file_views(v: Seq<SourceFile>) -> Seq<(Seq<char>, Seq<char>, u64)> {
    v.map_values(|f: SourceFile| f@)
}

/// The views of a list of unresolved source files.
pub open spec fn unresolved_views(v: Seq<UnresolvedSourceFile>) -> Seq<(Seq<char>, u64)> {
    v.map_values(|f: UnresolvedSourceFile| f@)
}

impl View for OwnerChurn {
    type V = (Seq<char>, u64, Seq<(Seq<char>, Seq<char>, u64)>);

    open spec fn view(&self) -> (Seq<char>, u64, Seq<(Seq<char>, Seq<char>, u64)>) {
        (self.label@, self.churn, file_views(self.source_files@))
    }
}

/// `a + b`, capped at `u64::MAX`.
pub open spec fn sat_add(a: u64, b: u64) -> u64 {
    if a + b > u64::MAX {
        u64::MAX
    } else {
        (a + b) as u64
    }
}

/// `a * b`, capped at `u64::MAX`.
pub open spec fn sat_mul(a: u64, b: u64) -> u64 {
    if a * b > u64::MAX {
        u64::MAX
    } else {
        (a * b) as u64
    }
}

/// The capped product is the product where it fits, and `u64::MAX` where it
/// does not.
pub proof fn lemma_sat_mul(a: u64, b: u64)
    ensures
        a * b <= u64::MAX ==> sat_mul(a, b) as int == a * b,
        a * b > u64::MAX ==> sat_mul(a, b) == u64::MAX,
        sat_mul(a, b) as int == if a * b <= u64::MAX { a * b } else { u64::MAX as int },
{
}

/// The capped sum is the sum where it fits, and `u64::MAX` where it does
/// not.
pub proof fn lemma_sat_add(a: u64, b: u64)
    ensures
        sat_add(a, b) as int == if a + b <= u64::MAX { a + b } else { u64::MAX as int },
{
}

/// The targets that list the file at `p` directly, through its label.
pub open spec fn owners_of(
    labels: Map<Seq<char>, String>,
    g: Map<Seq<char>, Seq<Seq<char>>>,
    p: Seq<char>,
) -> Set<Seq<char>> {
    pred_list(g, labels[p]@).to_set()
}

/// Among the first `n` paths, those without a label, with their churn.
pub open spec fn unresolved_upto(
    paths: Seq<Seq<char>>,
    churn: Map<Seq<char>, u64>,
    labels: Map<Seq<char>, String>,
    n: int,
) -> Seq<(Seq<char>, u64)>
    decreases n,
{
    if n <= 0 {
        Seq::empty()
    } else {
        let p = paths[n - 1];
        let prev = unresolved_upto(paths, churn, labels, n - 1);
        if !labels.dom().contains(p) {
            prev.push((p, churn[p]))
        } else {
            prev
        }
    }
}

/// Among the first `n` paths, those with a label that no target lists.
pub open spec fn no_owner_upto(
    paths: Seq<Seq<char>>,
    churn: Map<Seq<char>, u64>,
    labels: Map<Seq<char>, String>,
    g: Map<Seq<char>, Seq<Seq<char>>>,
    n: int,
) -> Seq<(Seq<char>, Seq<char>, u64)>
    decreases n,
{
    if n <= 0 {
        Seq::empty()
    } else {
        let p = paths[n - 1];
        let prev = no_owner_upto(paths, churn, labels, g, n - 1);
        if labels.dom().contains(p) && owners_of(labels, g, p).is_empty() {
            prev.push((p, labels[p]@, churn[p]))
        } else {
            prev
        }
    }
}

/// Among the first `n` paths, the files that target `o` owns.
pub open spec fn owner_files_upto(
    paths: Seq<Seq<char>>,
    churn: Map<Seq<char>, u64>,
    labels: Map<Seq<char>, String>,
    g: Map<Seq<char>, Seq<Seq<char>>>,
    o: Seq<char>,
    n: int,
) -> Seq<(Seq<char>, Seq<char>, u64)>
    decreases n,
{
    if n <= 0 {
        Seq::empty()
    } else {
        let p = paths[n - 1];
        let prev = owner_files_upto(paths, churn, labels, g, o, n - 1);
        if labels.dom().contains(p) && owners_of(labels, g, p).contains(o) {
            prev.push((p, labels[p]@, churn[p]))
        } else {
            prev
        }
    }
}

/// Among the first `n` paths, the churn of the files that target `o` owns,
/// summed in path order with saturation.
pub open spec fn owner_churn_upto(
    paths: Seq<Seq<char>>,
    churn: Map<Seq<char>, u64>,
    labels: Map<Seq<char>, String>,
    g: Map<Seq<char>, Seq<Seq<char>>>,
    o: Seq<char>,
    n: int,
) -> u64
    decreases n,
{
    if n <= 0 {
        0
    } else {
        let p = paths[n - 1];
        let prev = owner_churn_upto(paths, churn, labels, g, o, n - 1);
        if labels.dom().contains(p) && owners_of(labels, g, p).contains(o) {
            sat_add(prev, churn[p])
        } else {
            prev
        }
    }
}

/// The targets that own at least one of the first `n` paths.
pub open spec fn owner_labels_upto(
    paths: Seq<Seq<char>>,
    labels: Map<Seq<char>, String>,
    g: Map<Seq<char>, Seq<Seq<char>>>,
    n: int,
) -> Set<Seq<char>> {
    Set::new(
        |o: Seq<char>|
            exists|k: int|
                0 <= k < n && labels.dom().contains(paths[k]) && #[trigger] owners_of(
                    labels,
                    g,
                    paths[k],
                ).contains(o),
    )
}

/// The view an owner has after the first `n` paths.
pub open spec fn owner_upto(
    paths: Seq<Seq<char>>,
    churn: Map<Seq<char>, u64>,
    labels: Map<Seq<char>, String>,
    g: Map<Seq<char>, Seq<Seq<char>>>,
    o: Seq<char>,
    n: int,
) -> (Seq<char>, u64, Seq<(Seq<char>, Seq<char>, u64)>) {
    (
        o,
        owner_churn_upto(paths, churn, labels, g, o, n),
        owner_files_upto(paths, churn, labels, g, o, n),
    )
}

/// The labels of a list of owners.
pub open spec fn owner_labels_of(v: Seq<OwnerChurn>) -> Seq<Seq<char>> {
    v.map_values(|o: OwnerChurn| o.label@)
}

/// Adds one file, with its churn, to the owner `o` in `owners`.
fn credit_owner(owners: &mut StrMap<OwnerChurn>, o: &String, file: SourceFile)
    requires
        old(owners).wf(),
    ensures
        final(owners).wf(),
        final(owners)@.dom() == old(owners)@.dom().insert(o@),
        forall|x: Seq<char>|
            x != o@ && #[trigger] old(owners)@.dom().contains(x) ==> final(owners)@[x] == old(
                owners,
            )@[x],
        final(owners)@[o@]@ == (if old(owners)@.dom().contains(o@) {
            (
                old(owners)@[o@]@.0,
                sat_add(old(owners)@[o@].churn, file.churn),
                old(owners)@[o@]@.2.push(file@),
            )
        } else {
            (o@, file.churn, seq![file@])
        }),
{
    let ghost f = file@;
    let mut entry = match owners.remove(o.as_str()) {
        Some(e) => e,
        None => OwnerChurn { label: o.clone(), churn: 0, source_files: Vec::new() },
    };
    let ghost before = entry@;
    entry.churn = entry.churn.saturating_add(file.churn);
    entry.source_files.push(file);
    proof {
        assert(file_views(entry.source_files@) =~= before.2.push(f));
        if !old(owners)@.dom().contains(o@) {
            assert(before.2 =~= Seq::<(Seq<char>, Seq<char>, u64)>::empty());
            assert(before.2.push(f) =~= seq![f]);
        }
    }
    owners.insert(o.clone(), entry);
}

/// Sorts the changed source files by ownership: those without a label, those
/// whose label no target lists, and, for each owning target in label order,
/// the files it lists directly (in path order) with their summed churn.
pub fn aggregate_owner_churn(
    file_churn: &StrMap<u64>,
    labels_by_path: &StrMap<String>,
    graph: &BazelDependencyGraph,
) -> (r: (Vec<OwnerChurn>, Vec<UnresolvedSourceFile>, Vec<SourceFile>))
    requires
        file_churn.wf(),
        labels_by_path.wf(),
        graph.wf(),
    ensures
        ({
            let paths = file_churn.key_seq();
            let n = paths.len() as int;
            let c = file_churn@;
            let l = labels_by_path@;
            let g = graph.preds();
            &&& unresolved_views(r.1@) == unresolved_upto(paths, c, l, n)
            &&& file_views(r.2@) == no_owner_upto(paths, c, l, g, n)
            &&& strictly_sorted(owner_labels_of(r.0@))
            &&& owner_labels_of(r.0@).to_set() == owner_labels_upto(paths, l, g, n)
            &&& forall|j: int|
                0 <= j < r.0@.len() ==> (#[trigger] r.0@[j])@ == owner_upto(
                    paths,
                    c,
                    l,
                    g,
                    r.0@[j].label@,
                    n,
                )
            &&& forall|j: int|
                0 <= j < r.0@.len() ==> (#[trigger] r.0@[j]).churn as int == capped_total(
                    file_views(r.0@[j].source_files@),
                )
        }),
{
    let ghost paths = file_churn.key_seq();
    let ghost c = file_churn@;
    let ghost l = labels_by_path@;
    let ghost g = graph.preds();
    let mut owners: StrMap<OwnerChurn> = StrMap::new();
    let mut unresolved: Vec<UnresolvedSourceFile> = Vec::new();
    let mut no_owner: Vec<SourceFile> = Vec::new();
    let n = file_churn.len();
    proof {
        file_churn.lemma_view();
        assert(unresolved_views(unresolved@) =~= unresolved_upto(paths, c, l, 0));
        assert(file_views(no_owner@) =~= no_owner_upto(paths, c, l, g, 0));
        assert(owners@.dom() =~= owner_labels_upto(paths, l, g, 0));
    }
    for i in 0..n
        invariant
            n == paths.len(),
            paths == file_churn.key_seq(),
            c == file_churn@,
            l == labels_by_path@,
            g == graph.preds(),
            file_churn.wf(),
            labels_by_path.wf(),
            graph.wf(),
            owners.wf(),
            unresolved_views(unresolved@) == unresolved_upto(paths, c, l, i as int),
            file_views(no_owner@) == no_owner_upto(paths, c, l, g, i as int),
            owners@.dom() == owner_labels_upto(paths, l, g, i as int),
            forall|o: Seq<char>| #[trigger]
                owners@.dom().contains(o) ==> owners@[o]@ == owner_upto(paths, c, l, g, o, i as int),
    {
        proof {
            file_churn.lemma_view();
        }
        let path = file_churn.key_at(i);
        let churn = *file_churn.value_at(i);
        let ghost p = paths[i as int];
        assert(paths[i as int] == file_churn.entry_seq()[i as int].0);
        assert(path@ == p);
        assert(c.dom().contains(file_churn.entry_seq()[i as int].0));
        assert(c[p] == churn);
        match labels_by_path.get(path.as_str()) {
            None => {
                let ghost before = unresolved@;
                unresolved.push(UnresolvedSourceFile { path: path.clone(), churn });
                proof {
                    assert(unresolved_views(unresolved@) =~= unresolved_views(before).push(
                        (p, churn),
                    ));
                    assert forall|o: Seq<char>|
                        owner_labels_upto(paths, l, g, i + 1).contains(o)
                            == owner_labels_upto(paths, l, g, i as int).contains(o) by {
                        if owner_labels_upto(paths, l, g, i + 1).contains(o) {
                            let k = choose|k: int|
                                0 <= k < i + 1 && l.dom().contains(paths[k]) && #[trigger] owners_of(
                                    l,
                                    g,
                                    paths[k],
                                ).contains(o);
                        }
                    }
                    assert(owner_labels_upto(paths, l, g, i + 1) =~= owner_labels_upto(
                        paths,
                        l,
                        g,
                        i as int,
                    ));
                }
            },
            Some(label) => {
                let preds = graph.direct_predecessors(label.as_str());
                let mut owner_set: StrSet = StrMap::new();
                let m = preds.len();
                proof {
                    assert(owner_set@.dom() =~= string_views(preds@).take(0).to_set());
                }
                for k in 0..m
                    invariant
                        m == preds@.len(),
                        owner_set.wf(),
                        owner_set@.dom() == string_views(preds@).take(k as int).to_set(),
                {
                    owner_set.add(preds[k].clone());
                    proof {
                        assert(string_views(preds@)[k as int] == preds@[k as int]@);
                        assert(string_views(preds@).take(k + 1) =~= string_views(preds@).take(
                            k as int,
                        ).push(preds@[k as int]@));
                        string_views(preds@).take(k as int).lemma_push_to_set_commute(
                            preds@[k as int]@,
                        );
                    }
                }
                proof {
                    assert(string_views(preds@).take(m as int) =~= string_views(preds@));
                    assert(owner_set@.dom() == owners_of(l, g, p));
                }
                if owner_set.is_empty() {
                    let ghost before = no_owner@;
                    no_owner.push(SourceFile { path: path.clone(), file_label: label.clone(), churn });
                    proof {
                        owner_set.lemma_view();
                        assert(owners_of(l, g, p) =~= Set::<Seq<char>>::empty());
                        assert(file_views(no_owner@) =~= file_views(before).push((p, l[p]@, churn)));
                        assert forall|o: Seq<char>|
                            owner_labels_upto(paths, l, g, i + 1).contains(o)
                                == owner_labels_upto(paths, l, g, i as int).contains(o) by {
                            if owner_labels_upto(paths, l, g, i + 1).contains(o) {
                                let k = choose|k: int|
                                    0 <= k < i + 1 && l.dom().contains(paths[k])
                                        && #[trigger] owners_of(l, g, paths[k]).contains(o);
                            }
                        }
                        assert(owner_labels_upto(paths, l, g, i + 1) =~= owner_labels_upto(
                            paths,
                            l,
                            g,
                            i as int,
                        ));
                    }
                } else {
                    let owner_labels = owner_set.keys();
                    let ghost os = string_views(owner_labels@);
                    proof {
                        owner_set.lemma_view();
                        assert(os.to_set() == owners_of(l, g, p));
                    }
                    let ghost prior = owners@;
                    let q = owner_labels.len();
                    for j in 0..q
                        invariant
                            q == owner_labels@.len(),
                            os == string_views(owner_labels@),
                            os.to_set() == owners_of(l, g, p),
                            strictly_sorted(os),
                            owners.wf(),
                            p == paths[i as int],
                            path@ == p,
                            i < paths.len(),
                            l.dom().contains(p),
                            label@ == l[p]@,
                            churn == c[p],
                            owners@.dom() == prior.dom().union(os.take(j as int).to_set()),
                            prior.dom() == owner_labels_upto(paths, l, g, i as int),
                            forall|o: Seq<char>| #[trigger]
                                owners@.dom().contains(o) ==> owners@[o]@ == owner_upto(
                                    paths,
                                    c,
                                    l,
                                    g,
                                    o,
                                    if os.take(j as int).contains(o) {
                                        i + 1
                                    } else {
                                        i as int
                                    },
                                ),
                            forall|o: Seq<char>| #[trigger]
                                prior.dom().contains(o) ==> prior[o]@ == owner_upto(
                                    paths,
                                    c,
                                    l,
                                    g,
                                    o,
                                    i as int,
                                ),
                    {
                        let o = &owner_labels[j];
                        let ghost ov = o@;
                        assert(os[j as int] == ov);
                        let ghost before = owners@;
                        let sf = SourceFile { path: path.clone(), file_label: label.clone(), churn };
                        assert(sf@ == (p, l[p]@, c[p]));
                        credit_owner(&mut owners, o, sf);
                        proof {
                            assert(os.take(j + 1) =~= os.take(j as int).push(ov));
                            os.take(j as int).lemma_push_to_set_commute(ov);
                            assert(!os.take(j as int).contains(ov)) by {
                                if os.take(j as int).contains(ov) {
                                    let x = choose|x: int| 0 <= x < j && os.take(j as int)[x] == ov;
                                    assert(lex_lt(os[x], os[j as int]));
                                    crate::text::lemma_lex_irreflexive(ov);
                                }
                            }
                            assert(os.to_set().contains(ov));
                            assert(owners_of(l, g, p).contains(ov));
                            if before.dom().contains(ov) {
                                assert(before[ov]@ == owner_upto(paths, c, l, g, ov, i as int));
                                assert(owners@[ov]@ == (
                                    before[ov]@.0,
                                    sat_add(before[ov].churn, churn),
                                    before[ov]@.2.push((p, l[p]@, c[p])),
                                ));
                            } else {
                                assert(!prior.dom().contains(ov));
                                assert(!owner_labels_upto(paths, l, g, i as int).contains(ov));
                                assert(owner_files_upto(paths, c, l, g, ov, i as int) =~= Seq::<
                                    (Seq<char>, Seq<char>, u64),
                                >::empty()) by {
                                    lemma_unowned_upto(paths, c, l, g, ov, i as int);
                                }
                                lemma_unowned_upto(paths, c, l, g, ov, i as int);
                            }
                            assert(paths[i + 1 - 1] == p);
                            assert(owner_churn_upto(paths, c, l, g, ov, i + 1) == sat_add(
                                owner_churn_upto(paths, c, l, g, ov, i as int),
                                c[p],
                            ));
                            assert(owner_files_upto(paths, c, l, g, ov, i + 1) == owner_files_upto(
                                paths,
                                c,
                                l,
                                g,
                                ov,
                                i as int,
                            ).push((p, l[p]@, c[p])));
                            assert(owners@[ov]@ == owner_upto(paths, c, l, g, ov, i + 1));
                            assert forall|x: Seq<char>| #[trigger]
                                owners@.dom().contains(x) implies owners@[x]@ == owner_upto(
                                paths,
                                c,
                                l,
                                g,
                                x,
                                if os.take(j + 1).contains(x) {
                                    i + 1
                                } else {
                                    i as int
                                },
                            ) by {
                                if x != ov {
                                    assert(os.take(j + 1).contains(x) == os.take(j as int).contains(
                                        x,
                                    ));
                                    assert(before.dom().contains(x));
                                    assert(owners@[x] == before[x]);
                                } else {
                                    assert(os.take(j + 1)[j as int] == ov);
                                }
                            }
                        }
                    }
                    proof {
                        assert(os.take(q as int) =~= os);
                        assert forall|o: Seq<char>|
                            owner_labels_upto(paths, l, g, i + 1).contains(o) == (prior.dom().contains(o)
                                || os.to_set().contains(o)) by {
                            if owner_labels_upto(paths, l, g, i + 1).contains(o) {
                                let k = choose|k: int|
                                    0 <= k < i + 1 && l.dom().contains(paths[k])
                                        && #[trigger] owners_of(l, g, paths[k]).contains(o);
                                if k < i {
                                    assert(owner_labels_upto(paths, l, g, i as int).contains(o));
                                }
                            }
                            if prior.dom().contains(o) {
                                let k = choose|k: int|
                                    0 <= k < i && l.dom().contains(paths[k]) && #[trigger] owners_of(
                                        l,
                                        g,
                                        paths[k],
                                    ).contains(o);
                            }
                            if os.to_set().contains(o) {
                                assert(owners_of(l, g, paths[i as int]).contains(o));
                            }
                        }
                        assert(owners@.dom() =~= owner_labels_upto(paths, l, g, i + 1));
                        assert forall|o: Seq<char>| #[trigger]
                            owners@.dom().contains(o) implies owners@[o]@ == owner_upto(
                            paths,
                            c,
                            l,
                            g,
                            o,
                            i + 1,
                        ) by {
                            if !os.contains(o) {
                                assert(!os.to_set().contains(o));
                            }
                        }
                    }
                }
            },
        }
        proof {
            assert(labels_by_path@.dom().contains(p) == l.dom().contains(p));
        }
    }
    let ghost es = owners.entry_seq();
    let ghost ow = owners;
    let entries = owners.into_entries();
    let mut result: Vec<OwnerChurn> = Vec::new();
    for e in it: entries
        invariant
            it.seq() == entries@,
            result@.len() == it.index(),
            forall|j: int| 0 <= j < it.index() ==> #[trigger] result@[j] == it.seq()[j].1,
    {
        let (_, owner) = e;
        result.push(owner);
    }
    proof {
        ow.lemma_view();
        assert(entries@.len() == es.len());
        assert forall|j: int| 0 <= j < result@.len() implies #[trigger] result@[j] == es[j].1 && result@[j].label@
            == es[j].0 by {
            assert(entries@.map_values(|e: (String, OwnerChurn)| (e.0@, e.1))[j] == es[j]);
            assert(ow.entry_seq() == es);
            assert(ow@.dom().contains(ow.entry_seq()[j].0));
            assert(ow@[es[j].0] == es[j].1);
        }
        assert(owner_labels_of(result@) =~= ow.key_seq());
        assert(ow.wf());
        assert(strictly_sorted(owner_labels_of(result@)));
        assert(owner_labels_of(result@).to_set() == owner_labels_upto(paths, l, g, n as int));
        assert forall|j: int| 0 <= j < result@.len() implies (#[trigger] result@[j])@ == owner_upto(
            paths,
            c,
            l,
            g,
            result@[j].label@,
            n as int,
        ) by {
            assert(ow@.dom().contains(ow.entry_seq()[j].0));
            assert(ow@[es[j].0] == result@[j]);
        }
        assert(unresolved_views(unresolved@) == unresolved_upto(paths, c, l, n as int));
        assert forall|j: int| 0 <= j < result@.len() implies (#[trigger] result@[j]).churn as int
            == capped_total(file_views(result@[j].source_files@)) by {
            let o = result@[j].label@;
            assert(result@[j]@ == owner_upto(paths, c, l, g, o, n as int));
            lemma_owner_churn_is_file_sum(paths, c, l, g, o, n as int);
            lemma_sat_sum_capped(owner_files_upto(paths, c, l, g, o, n as int));
        }
    }
    (result, unresolved, no_owner)
}

/// Adds to each owner its number of transitive dependents in `graph` and its
/// impact score, the product of churn and dependents capped at `u64::MAX`.
pub fn build_owner_impacts(owner_churn: Vec<OwnerChurn>, graph: &BazelDependencyGraph) -> (r: Vec<
    OwnerImpact,
>)
    requires
        graph.wf(),
    ensures
        r@.len() == owner_churn@.len(),
        forall|i: int|
            0 <= i < r@.len() ==> {
                let o = owner_churn@[i];
                let d = dependents(graph.preds(), o.label@).len();
                &&& (#[trigger] r@[i]).label@ == o.label@
                &&& r@[i].churn == o.churn
                &&& file_views(r@[i].source_files@) == file_views(o.source_files@)
                &&& r@[i].transitive_dependents as int == d
                &&& r@[i].impact_score == sat_mul(o.churn, r@[i].transitive_dependents)
                &&& r@[i].impact_score as int == if o.churn * d <= u64::MAX {
                    o.churn * d
                } else {
                    u64::MAX as int
                }
            },
{
    let mut r: Vec<OwnerImpact> = Vec::new();
    for owner in it: owner_churn
        invariant
            graph.wf(),
            it.seq() == owner_churn@,
            r@.len() == it.index(),
            forall|i: int|
                0 <= i < r@.len() ==> {
                    let o = owner_churn@[i];
                    let d = dependents(graph.preds(), o.label@).len();
                    &&& (#[trigger] r@[i]).label@ == o.label@
                    &&& r@[i].churn == o.churn
                    &&& file_views(r@[i].source_files@) == file_views(o.source_files@)
                    &&& r@[i].transitive_dependents as int == d
                    &&& r@[i].impact_score == sat_mul(o.churn, r@[i].transitive_dependents)
                },
    {
        let ghost i = it.index();
        let OwnerChurn { label, churn, source_files } = owner;
        let transitive_dependents = graph.transitive_dependent_count(label.as_str());
        let impact_score = match churn.checked_mul(transitive_dependents) {
            Some(x) => x,
            None => u64::MAX,
        };
        let ghost before = r@;
        r.push(OwnerImpact { label, churn, source_files, transitive_dependents, impact_score });
        proof {
            assert forall|k: int| 0 <= k < r@.len() implies {
                let o = owner_churn@[k];
                let d = dependents(graph.preds(), o.label@).len();
                &&& (#[trigger] r@[k]).label@ == o.label@
                &&& r@[k].churn == o.churn
                &&& file_views(r@[k].source_files@) == file_views(o.source_files@)
                &&& r@[k].transitive_dependents as int == d
                &&& r@[k].impact_score == sat_mul(o.churn, r@[k].transitive_dependents)
            } by {
                if k < before.len() {
                    assert(r@[k] == before[k]);
                }
            }
        }
    }
    proof {
        assert forall|i: int| 0 <= i < r@.len() implies {
            let o = owner_churn@[i];
            let d = dependents(graph.preds(), o.label@).len();
            (#[trigger] r@[i]).impact_score as int == if o.churn * d <= u64::MAX {
                o.churn * d
            } else {
                u64::MAX as int
            }
        } by {
            lemma_sat_mul(owner_churn@[i].churn, r@[i].transitive_dependents);
        }
    }
    r
}

/// A target that owns none of the first `n` paths has no files and no churn
/// credited.
pub proof fn lemma_unowned_upto(
    paths: Seq<Seq<char>>,
    churn: Map<Seq<char>, u64>,
    labels: Map<Seq<char>, String>,
    g: Map<Seq<char>, Seq<Seq<char>>>,
    o: Seq<char>,
    n: int,
)
    requires
        !owner_labels_upto(paths, labels, g, n).contains(o),
    ensures
        owner_files_upto(paths, churn, labels, g, o, n) == Seq::<(Seq<char>, Seq<char>, u64)>::empty(),
        owner_churn_upto(paths, churn, labels, g, o, n) == 0,
    decreases n,
{
    if n > 0 {
        assert(!owner_labels_upto(paths, labels, g, n - 1).contains(o)) by {
            if owner_labels_upto(paths, labels, g, n - 1).contains(o) {
                let k = choose|k: int|
                    0 <= k < n - 1 && labels.dom().contains(paths[k]) && #[trigger] owners_of(
                        labels,
                        g,
                        paths[k],
                    ).contains(o);
            }
        }
        lemma_unowned_upto(paths, churn, labels, g, o, n - 1);
        if labels.dom().contains(paths[n - 1]) && owners_of(labels, g, paths[n - 1]).contains(o) {
            assert(owner_labels_upto(paths, labels, g, n).contains(o));
        }
    }
}

// ---------------------------------------------------------------------------
// Laws
// ---------------------------------------------------------------------------
/// The churn of a list of files, summed in order and capped at `u64::MAX`.
pub open spec fn sat_sum(files: Seq<(Seq<char>, Seq<char>, u64)>) -> u64
    decreases files.len(),
{
    if files.len() == 0 {
        0
    } else {
        sat_add(sat_sum(files.drop_last()), files.last().2)
    }
}

/// The paths of a list of entries.
pub open spec fn entry_paths<T>(es: Seq<(Seq<char>, T)>) -> Seq<Seq<char>> {
    es.map_values(|e: (Seq<char>, T)| e.0)
}

/// The paths of a list of labeled files.
pub open spec fn file_paths(fs: Seq<(Seq<char>, Seq<char>, u64)>) -> Seq<Seq<char>> {
    fs.map_values(|e: (Seq<char>, Seq<char>, u64)| e.0)
}

/// The churn of a list of files, summed.
pub open spec fn churn_total(files: Seq<(Seq<char>, Seq<char>, u64)>) -> int
    decreases files.len(),
{
    if files.len() == 0 {
        0
    } else {
        churn_total(files.drop_last()) + files.last().2
    }
}

/// The summed churn of a list of files, or `u64::MAX` when it does not fit.
pub open spec fn capped_total(files: Seq<(Seq<char>, Seq<char>, u64)>) -> int {
    if churn_total(files) <= u64::MAX {
        churn_total(files)
    } else {
        u64::MAX as int
    }
}

/// Summing with saturation gives the arithmetic sum where it fits, and
/// `u64::MAX` where it does not.
pub proof fn lemma_sat_sum_capped(files: Seq<(Seq<char>, Seq<char>, u64)>)
    ensures
        sat_sum(files) as int == capped_total(files),
        churn_total(files) >= 0,
    decreases files.len(),
{
    if files.len() > 0 {
        lemma_sat_sum_capped(files.drop_last());
        lemma_sat_add(sat_sum(files.drop_last()), files.last().2);
    }
}

/// An owner's churn is the arithmetic sum of the churn of the files credited
/// to it, capped at `u64::MAX`.
pub proof fn lemma_owner_churn_capped_sum(
    paths: Seq<Seq<char>>,
    churn: Map<Seq<char>, u64>,
    labels: Map<Seq<char>, String>,
    g: Map<Seq<char>, Seq<Seq<char>>>,
    o: Seq<char>,
    n: int,
)
    ensures
        owner_churn_upto(paths, churn, labels, g, o, n) as int == capped_total(
            owner_files_upto(paths, churn, labels, g, o, n),
        ),
{
    lemma_owner_churn_is_file_sum(paths, churn, labels, g, o, n);
    lemma_sat_sum_capped(owner_files_upto(paths, churn, labels, g, o, n));
}

/// An owner's churn is the capped sum of the churn of the files credited to
/// it.
pub proof fn lemma_owner_churn_is_file_sum(
    paths: Seq<Seq<char>>,
    churn: Map<Seq<char>, u64>,
    labels: Map<Seq<char>, String>,
    g: Map<Seq<char>, Seq<Seq<char>>>,
    o: Seq<char>,
    n: int,
)
    ensures
        owner_churn_upto(paths, churn, labels, g, o, n) == sat_sum(
            owner_files_upto(paths, churn, labels, g, o, n),
        ),
    decreases n,
{
    if n > 0 {
        lemma_owner_churn_is_file_sum(paths, churn, labels, g, o, n - 1);
        let prev = owner_files_upto(paths, churn, labels, g, o, n - 1);
        let p = paths[n - 1];
        if labels.dom().contains(p) && owners_of(labels, g, p).contains(o) {
            assert(prev.push((p, labels[p]@, churn[p])).drop_last() =~= prev);
        }
    }
}

proof fn lemma_unresolved_members(
    paths: Seq<Seq<char>>,
    churn: Map<Seq<char>, u64>,
    labels: Map<Seq<char>, String>,
    n: int,
)
    requires
        0 <= n <= paths.len(),
    ensures
        ({
            let u = unresolved_upto(paths, churn, labels, n);
            &&& forall|i: int|
                0 <= i < u.len() ==> exists|k: int|
                    0 <= k < n && !labels.dom().contains(paths[k]) && #[trigger] u[i] == (
                        paths[k],
                        churn[paths[k]],
                    )
            &&& forall|k: int|
                0 <= k < n && !labels.dom().contains(#[trigger] paths[k]) ==> u.contains(
                    (paths[k], churn[paths[k]]),
                )
            &&& strictly_sorted(paths) ==> strictly_sorted(entry_paths(u))
        }),
    decreases n,
{
    if n > 0 {
        lemma_unresolved_members(paths, churn, labels, n - 1);
        let prev = unresolved_upto(paths, churn, labels, n - 1);
        let u = unresolved_upto(paths, churn, labels, n);
        let p = paths[n - 1];
        assert forall|i: int| 0 <= i < u.len() implies exists|k: int|
            0 <= k < n && !labels.dom().contains(paths[k]) && #[trigger] u[i] == (
                paths[k],
                churn[paths[k]],
            ) by {
            if i < prev.len() {
                assert(u[i] == prev[i]);
            } else {
                assert(u[i] == (paths[n - 1], churn[paths[n - 1]]));
            }
        }
        assert forall|k: int| 0 <= k < n && !labels.dom().contains(#[trigger] paths[k]) implies u.contains(
            (paths[k], churn[paths[k]]),
        ) by {
            if k < n - 1 {
                let i = choose|i: int| 0 <= i < prev.len() && prev[i] == (paths[k], churn[paths[k]]);
                assert(u[i] == prev[i]);
            } else {
                assert(u[u.len() - 1] == (p, churn[p]));
            }
        }
        if strictly_sorted(paths) {
            let ps = entry_paths(u);
            assert forall|a: int, b: int| 0 <= a < b < ps.len() implies lex_lt(
                #[trigger] ps[a],
                #[trigger] ps[b],
            ) by {
                assert(entry_paths(prev)[a] == prev[a].0);
                if b < prev.len() {
                    assert(entry_paths(prev)[b] == prev[b].0);
                } else {
                    let ka = choose|k: int|
                        0 <= k < n - 1 && !labels.dom().contains(paths[k]) && #[trigger] prev[a]
                            == (paths[k], churn[paths[k]]);
                    assert(lex_lt(paths[ka], paths[n - 1]));
                }
            }
        }
    }
}

proof fn lemma_no_owner_members(
    paths: Seq<Seq<char>>,
    churn: Map<Seq<char>, u64>,
    labels: Map<Seq<char>, String>,
    g: Map<Seq<char>, Seq<Seq<char>>>,
    n: int,
)
    requires
        0 <= n <= paths.len(),
    ensures
        ({
            let u = no_owner_upto(paths, churn, labels, g, n);
            &&& forall|i: int|
                0 <= i < u.len() ==> exists|k: int|
                    0 <= k < n && labels.dom().contains(paths[k]) && owners_of(
                        labels,
                        g,
                        paths[k],
                    ).is_empty() && #[trigger] u[i] == (
                        paths[k],
                        labels[paths[k]]@,
                        churn[paths[k]],
                    )
            &&& forall|k: int|
                0 <= k < n && labels.dom().contains(#[trigger] paths[k]) && owners_of(
                    labels,
                    g,
                    paths[k],
                ).is_empty() ==> u.contains((paths[k], labels[paths[k]]@, churn[paths[k]]))
            &&& strictly_sorted(paths) ==> strictly_sorted(file_paths(u))
        }),
    decreases n,
{
    if n > 0 {
        lemma_no_owner_members(paths, churn, labels, g, n - 1);
        let prev = no_owner_upto(paths, churn, labels, g, n - 1);
        let u = no_owner_upto(paths, churn, labels, g, n);
        let p = paths[n - 1];
        assert forall|i: int| 0 <= i < u.len() implies exists|k: int|
            0 <= k < n && labels.dom().contains(paths[k]) && owners_of(
                labels,
                g,
                paths[k],
            ).is_empty() && #[trigger] u[i] == (paths[k], labels[paths[k]]@, churn[paths[k]]) by {
            if i < prev.len() {
                assert(u[i] == prev[i]);
            } else {
                assert(u[i] == (paths[n - 1], labels[paths[n - 1]]@, churn[paths[n - 1]]));
            }
        }
        assert forall|k: int|
            0 <= k < n && labels.dom().contains(#[trigger] paths[k]) && owners_of(
                labels,
                g,
                paths[k],
            ).is_empty() implies u.contains((paths[k], labels[paths[k]]@, churn[paths[k]])) by {
            if k < n - 1 {
                let i = choose|i: int|
                    0 <= i < prev.len() && prev[i] == (paths[k], labels[paths[k]]@, churn[paths[k]]);
                assert(u[i] == prev[i]);
            } else {
                assert(u[u.len() - 1] == (p, labels[p]@, churn[p]));
            }
        }
        if strictly_sorted(paths) {
            let ps = file_paths(u);
            assert forall|a: int, b: int| 0 <= a < b < ps.len() implies lex_lt(
                #[trigger] ps[a],
                #[trigger] ps[b],
            ) by {
                assert(file_paths(prev)[a] == prev[a].0);
                if b < prev.len() {
                    assert(file_paths(prev)[b] == prev[b].0);
                } else {
                    let ka = choose|k: int|
                        0 <= k < n - 1 && labels.dom().contains(paths[k]) && owners_of(
                            labels,
                            g,
                            paths[k],
                        ).is_empty() && #[trigger] prev[a] == (
                            paths[k],
                            labels[paths[k]]@,
                            churn[paths[k]],
                        );
                    assert(lex_lt(paths[ka], paths[n - 1]));
                }
            }
        }
    }
}

proof fn lemma_owner_file_members(
    paths: Seq<Seq<char>>,
    churn: Map<Seq<char>, u64>,
    labels: Map<Seq<char>, String>,
    g: Map<Seq<char>, Seq<Seq<char>>>,
    o: Seq<char>,
    n: int,
)
    requires
        0 <= n <= paths.len(),
    ensures
        ({
            let u = owner_files_upto(paths, churn, labels, g, o, n);
            &&& forall|i: int|
                0 <= i < u.len() ==> exists|k: int|
                    0 <= k < n && labels.dom().contains(paths[k]) && owners_of(
                        labels,
                        g,
                        paths[k],
                    ).contains(o) && #[trigger] u[i] == (
                        paths[k],
                        labels[paths[k]]@,
                        churn[paths[k]],
                    )
            &&& forall|k: int|
                0 <= k < n && labels.dom().contains(#[trigger] paths[k]) && owners_of(
                    labels,
                    g,
                    paths[k],
                ).contains(o) ==> u.contains((paths[k], labels[paths[k]]@, churn[paths[k]]))
            &&& strictly_sorted(paths) ==> strictly_sorted(file_paths(u))
        }),
    decreases n,
{
    if n > 0 {
        lemma_owner_file_members(paths, churn, labels, g, o, n - 1);
        let prev = owner_files_upto(paths, churn, labels, g, o, n - 1);
        let u = owner_files_upto(paths, churn, labels, g, o, n);
        let p = paths[n - 1];
        assert forall|i: int| 0 <= i < u.len() implies exists|k: int|
            0 <= k < n && labels.dom().contains(paths[k]) && owners_of(
                labels,
                g,
                paths[k],
            ).contains(o) && #[trigger] u[i] == (paths[k], labels[paths[k]]@, churn[paths[k]]) by {
            if i < prev.len() {
                assert(u[i] == prev[i]);
            } else {
                assert(u[i] == (paths[n - 1], labels[paths[n - 1]]@, churn[paths[n - 1]]));
            }
        }
        assert forall|k: int|
            0 <= k < n && labels.dom().contains(#[trigger] paths[k]) && owners_of(
                labels,
                g,
                paths[k],
            ).contains(o) implies u.contains((paths[k], labels[paths[k]]@, churn[paths[k]])) by {
            if k < n - 1 {
                let i = choose|i: int|
                    0 <= i < prev.len() && prev[i] == (paths[k], labels[paths[k]]@, churn[paths[k]]);
                assert(u[i] == prev[i]);
            } else {
                assert(u[u.len() - 1] == (p, labels[p]@, churn[p]));
            }
        }
        if strictly_sorted(paths) {
            let ps = file_paths(u);
            assert forall|a: int, b: int| 0 <= a < b < ps.len() implies lex_lt(
                #[trigger] ps[a],
                #[trigger] ps[b],
            ) by {
                assert(file_paths(prev)[a] == prev[a].0);
                if b < prev.len() {
                    assert(file_paths(prev)[b] == prev[b].0);
                } else {
                    let ka = choose|k: int|
                        0 <= k < n - 1 && labels.dom().contains(paths[k]) && owners_of(
                            labels,
                            g,
                            paths[k],
                        ).contains(o) && #[trigger] prev[a] == (
                            paths[k],
                            labels[paths[k]]@,
                            churn[paths[k]],
                        );
                    assert(lex_lt(paths[ka], paths[n - 1]));
                }
            }
        }
    }
}

/// Each changed source file lands in exactly one bucket, listed once there,
/// with its full churn: among the unresolved files when it has no label,
/// among the files without owner when no target lists its label, and
/// otherwise under every target that lists it.
pub proof fn lemma_files_bucketed(
    paths: Seq<Seq<char>>,
    churn: Map<Seq<char>, u64>,
    labels: Map<Seq<char>, String>,
    g: Map<Seq<char>, Seq<Seq<char>>>,
)
    requires
        strictly_sorted(paths),
    ensures
        ({
            let n = paths.len() as int;
            let u = unresolved_upto(paths, churn, labels, n);
            let z = no_owner_upto(paths, churn, labels, g, n);
            &&& strictly_sorted(entry_paths(u))
            &&& strictly_sorted(file_paths(z))
            &&& forall|o: Seq<char>|
                strictly_sorted(file_paths(#[trigger] owner_files_upto(paths, churn, labels, g, o, n)))
            &&& forall|k: int|
                0 <= k < n ==> {
                    let p = #[trigger] paths[k];
                    &&& entry_paths(u).contains(p) <==> !labels.dom().contains(p)
                    &&& !labels.dom().contains(p) ==> u.contains((p, churn[p]))
                    &&& file_paths(z).contains(p) <==> (labels.dom().contains(p) && owners_of(
                        labels,
                        g,
                        p,
                    ).is_empty())
                    &&& (labels.dom().contains(p) && owners_of(labels, g, p).is_empty()) ==> z.contains(
                        (p, labels[p]@, churn[p]),
                    )
                    &&& forall|o: Seq<char>|
                        file_paths(#[trigger] owner_files_upto(paths, churn, labels, g, o, n)).contains(
                            p,
                        ) <==> (labels.dom().contains(p) && owners_of(labels, g, p).contains(o))
                    &&& forall|o: Seq<char>|
                        (labels.dom().contains(p) && owners_of(labels, g, p).contains(o)) ==> (
                        #[trigger] owner_files_upto(paths, churn, labels, g, o, n)).contains(
                            (p, labels[p]@, churn[p]),
                        )
                }
        }),
{
    let n = paths.len() as int;
    let u = unresolved_upto(paths, churn, labels, n);
    let z = no_owner_upto(paths, churn, labels, g, n);
    lemma_unresolved_members(paths, churn, labels, n);
    lemma_no_owner_members(paths, churn, labels, g, n);
    assert forall|o: Seq<char>|
        strictly_sorted(file_paths(#[trigger] owner_files_upto(paths, churn, labels, g, o, n))) by {
        lemma_owner_file_members(paths, churn, labels, g, o, n);
    }
    assert forall|k: int| 0 <= k < n implies {
        let p = #[trigger] paths[k];
        &&& entry_paths(u).contains(p) <==> !labels.dom().contains(p)
        &&& !labels.dom().contains(p) ==> u.contains((p, churn[p]))
        &&& file_paths(z).contains(p) <==> (labels.dom().contains(p) && owners_of(
            labels,
            g,
            p,
        ).is_empty())
        &&& (labels.dom().contains(p) && owners_of(labels, g, p).is_empty()) ==> z.contains(
            (p, labels[p]@, churn[p]),
        )
        &&& forall|o: Seq<char>|
            file_paths(#[trigger] owner_files_upto(paths, churn, labels, g, o, n)).contains(p) <==> (
            labels.dom().contains(p) && owners_of(labels, g, p).contains(o))
        &&& forall|o: Seq<char>|
            (labels.dom().contains(p) && owners_of(labels, g, p).contains(o)) ==> (
            #[trigger] owner_files_upto(paths, churn, labels, g, o, n)).contains(
                (p, labels[p]@, churn[p]),
            )
    } by {
        let p = paths[k];
        if entry_paths(u).contains(p) {
            let i = choose|i: int| 0 <= i < entry_paths(u).len() && entry_paths(u)[i] == p;
            let j = choose|j: int|
                0 <= j < n && !labels.dom().contains(paths[j]) && #[trigger] u[i] == (
                    paths[j],
                    churn[paths[j]],
                );
            assert(paths[j] == p);
        }
        if !labels.dom().contains(p) {
            let i = choose|i: int| 0 <= i < u.len() && u[i] == (p, churn[p]);
            assert(entry_paths(u)[i] == p);
        }
        if file_paths(z).contains(p) {
            let i = choose|i: int| 0 <= i < file_paths(z).len() && file_paths(z)[i] == p;
            let j = choose|j: int|
                0 <= j < n && labels.dom().contains(paths[j]) && owners_of(
                    labels,
                    g,
                    paths[j],
                ).is_empty() && #[trigger] z[i] == (paths[j], labels[paths[j]]@, churn[paths[j]]);
            assert(paths[j] == p);
        }
        if labels.dom().contains(p) && owners_of(labels, g, p).is_empty() {
            let i = choose|i: int| 0 <= i < z.len() && z[i] == (p, labels[p]@, churn[p]);
            assert(file_paths(z)[i] == p);
        }
        assert forall|o: Seq<char>|
            file_paths(#[trigger] owner_files_upto(paths, churn, labels, g, o, n)).contains(p) <==> (
            labels.dom().contains(p) && owners_of(labels, g, p).contains(o)) by {
            lemma_owner_file_members(paths, churn, labels, g, o, n);
            let f = owner_files_upto(paths, churn, labels, g, o, n);
            if file_paths(f).contains(p) {
                let i = choose|i: int| 0 <= i < file_paths(f).len() && file_paths(f)[i] == p;
                let j = choose|j: int|
                    0 <= j < n && labels.dom().contains(paths[j]) && owners_of(
                        labels,
                        g,
                        paths[j],
                    ).contains(o) && #[trigger] f[i] == (paths[j], labels[paths[j]]@, churn[paths[j]]);
                assert(paths[j] == p);
            }
            if labels.dom().contains(p) && owners_of(labels, g, p).contains(o) {
                let i = choose|i: int| 0 <= i < f.len() && f[i] == (p, labels[p]@, churn[p]);
                assert(file_paths(f)[i] == p);
            }
        }
        assert forall|o: Seq<char>|
            (labels.dom().contains(p) && owners_of(labels, g, p).contains(o)) implies (
            #[trigger] owner_files_upto(paths, churn, labels, g, o, n)).contains(
                (p, labels[p]@, churn[p]),
            ) by {
            lemma_owner_file_members(paths, churn, labels, g, o, n);
        }
    }
}

} // verus!
