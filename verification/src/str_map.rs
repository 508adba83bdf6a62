//! A map keyed by strings, kept as a vector of entries in strictly increasing
//! key order. Its view is a `Map` from the keys' characters to the values; its
//! entry sequence gives the keys in order, so walking it visits the keys
//! sorted, as a `BTreeMap` would.
use vstd::prelude::*;
use crate::text::{
    chars_of, compare_chars, lemma_lex_irreflexive, lemma_lex_total, lemma_lex_transitive, lex_lt,
    strictly_sorted, string_views, TextOrder,
};

verus! {

/// The keys of a sequence of entries.
pub open spec fn keys_of<V>(es: Seq<(Seq<char>, V)>) -> Seq<Seq<char>> {
    es.map_values(|e: (Seq<char>, V)| e.0)
}

/// Whether some entry of `es` has key `k`.
pub open spec fn has_key<V>(es: Seq<(Seq<char>, V)>, k: Seq<char>) -> bool {
    exists|i: int| 0 <= i < es.len() && #[trigger] es[i].0 == k
}

/// The map that a sequence of entries with distinct keys stands for.
pub open spec fn entries_map<V>(es: Seq<(Seq<char>, V)>) -> Map<Seq<char>, V> {
    Map::new(
        |k: Seq<char>| has_key(es, k),
        |k: Seq<char>| es[choose|i: int| 0 <= i < es.len() && #[trigger] es[i].0 == k].1,
    )
}

/// The map that inserting `ps` in order builds: a later pair for the same key
/// replaces an earlier one.
pub open spec fn pairs_map<V>(ps: Seq<(Seq<char>, V)>) -> Map<Seq<char>, V>
    decreases ps.len(),
{
    if ps.len() == 0 {
        Map::empty()
    } else {
        pairs_map(ps.drop_last()).insert(ps.last().0, ps.last().1)
    }
}

pub proof fn lemma_sorted_distinct(ks: Seq<Seq<char>>, i: int, j: int)
    requires
        strictly_sorted(ks),
        0 <= i < ks.len(),
        0 <= j < ks.len(),
        i != j,
    ensures
        ks[i] != ks[j],
{
    if i < j {
        assert(lex_lt(ks[i], ks[j]));
    } else {
        assert(lex_lt(ks[j], ks[i]));
    }
    lemma_lex_irreflexive(ks[i]);
}

/// What the map of a strictly sorted entry sequence holds.
pub proof fn lemma_entries_map<V>(es: Seq<(Seq<char>, V)>)
    requires
        strictly_sorted(keys_of(es)),
    ensures
        entries_map(es).dom().finite(),
        entries_map(es).dom().len() == es.len(),
        entries_map(es).dom() == keys_of(es).to_set(),
        forall|i: int|
            0 <= i < es.len() ==> #[trigger] entries_map(es).dom().contains(es[i].0)
                && entries_map(es)[es[i].0] == es[i].1,
        forall|k: Seq<char>| #[trigger]
            entries_map(es).dom().contains(k) ==> exists|i: int|
                0 <= i < es.len() && #[trigger] es[i].0 == k,
{
    let ks = keys_of(es);
    let m = entries_map(es);
    assert forall|i: int| 0 <= i < es.len() implies #[trigger] m.dom().contains(es[i].0) && m[es[i].0]
        == es[i].1 by {
        assert(ks[i] == es[i].0);
        assert(has_key(es, es[i].0));
        let j = choose|j: int| 0 <= j < es.len() && #[trigger] es[j].0 == es[i].0;
        if j != i {
            assert(ks[j] == es[j].0);
            lemma_sorted_distinct(ks, i, j);
        }
    }
    assert(m.dom() =~= ks.to_set()) by {
        assert forall|k: Seq<char>| m.dom().contains(k) implies ks.contains(k) by {
            let i = choose|i: int| 0 <= i < es.len() && #[trigger] es[i].0 == k;
            assert(ks[i] == k);
        }
        assert forall|k: Seq<char>| ks.contains(k) implies m.dom().contains(k) by {
            let i = choose|i: int| 0 <= i < ks.len() && ks[i] == k;
            assert(ks[i] == es[i].0);
            assert(has_key(es, k));
        }
    }
    assert(ks.no_duplicates()) by {
        assert forall|i: int, j: int| 0 <= i < ks.len() && 0 <= j < ks.len() && i != j implies ks[i]
            != ks[j] by {
            lemma_sorted_distinct(ks, i, j);
        }
    }
    ks.unique_seq_to_set();
    vstd::seq_lib::seq_to_set_is_finite(ks);
}

/// Inserting a new key at its place keeps the order and adds the pair to the map.
pub proof fn lemma_insert_at<V>(es: Seq<(Seq<char>, V)>, pos: int, k: Seq<char>, v: V)
    requires
        strictly_sorted(keys_of(es)),
        0 <= pos <= es.len(),
        forall|i: int| 0 <= i < pos ==> lex_lt(#[trigger] es[i].0, k),
        forall|i: int| pos <= i < es.len() ==> lex_lt(k, #[trigger] es[i].0),
    ensures
        strictly_sorted(keys_of(es.insert(pos, (k, v)))),
        entries_map(es.insert(pos, (k, v))) == entries_map(es).insert(k, v),
{
    let ns = es.insert(pos, (k, v));
    let ks = keys_of(es);
    let nks = keys_of(ns);
    assert forall|i: int, j: int| 0 <= i < j < nks.len() implies lex_lt(
        #[trigger] nks[i],
        #[trigger] nks[j],
    ) by {
        assert(nks[i] == ns[i].0);
        assert(nks[j] == ns[j].0);
        if i < pos && j < pos {
            assert(ks[i] == es[i].0 && ks[j] == es[j].0);
        } else if i < pos && j == pos {
        } else if i < pos {
            assert(lex_lt(es[i].0, k));
            assert(lex_lt(k, es[j - 1].0));
            lemma_lex_transitive(es[i].0, k, es[j - 1].0);
        } else if i == pos {
        } else {
            assert(ks[i - 1] == es[i - 1].0 && ks[j - 1] == es[j - 1].0);
        }
    }
    lemma_entries_map(es);
    lemma_entries_map(ns);
    let m = entries_map(es).insert(k, v);
    let n = entries_map(ns);
    assert forall|q: Seq<char>| n.dom().contains(q) <==> m.dom().contains(q) by {
        if n.dom().contains(q) {
            let i = choose|i: int| 0 <= i < ns.len() && #[trigger] ns[i].0 == q;
            if i < pos {
                assert(entries_map(es).dom().contains(es[i].0));
            } else if i > pos {
                assert(entries_map(es).dom().contains(es[i - 1].0));
            }
        }
        if m.dom().contains(q) && q != k {
            let i = choose|i: int| 0 <= i < es.len() && #[trigger] es[i].0 == q;
            if i < pos {
                assert(n.dom().contains(ns[i].0));
            } else {
                assert(n.dom().contains(ns[i + 1].0));
            }
        }
        if q == k {
            assert(n.dom().contains(ns[pos].0));
        }
    }
    assert forall|q: Seq<char>| #[trigger] n.dom().contains(q) implies n[q] == m[q] by {
        let i = choose|i: int| 0 <= i < ns.len() && #[trigger] ns[i].0 == q;
        if i < pos {
            assert(entries_map(es)[es[i].0] == es[i].1);
            if es[i].0 == k {
                lemma_lex_irreflexive(k);
            }
        } else if i > pos {
            assert(entries_map(es)[es[i - 1].0] == es[i - 1].1);
            if es[i - 1].0 == k {
                lemma_lex_irreflexive(k);
            }
        }
    }
    assert(n =~= m);
}

/// Replacing the value of the entry at `pos` replaces it in the map.
pub proof fn lemma_update_at<V>(es: Seq<(Seq<char>, V)>, pos: int, v: V)
    requires
        strictly_sorted(keys_of(es)),
        0 <= pos < es.len(),
    ensures
        keys_of(es.update(pos, (es[pos].0, v))) == keys_of(es),
        entries_map(es.update(pos, (es[pos].0, v))) == entries_map(es).insert(es[pos].0, v),
{
    let k = es[pos].0;
    let ns = es.update(pos, (k, v));
    assert(keys_of(ns) =~= keys_of(es));
    lemma_entries_map(es);
    lemma_entries_map(ns);
    let m = entries_map(es).insert(k, v);
    let n = entries_map(ns);
    assert forall|q: Seq<char>| n.dom().contains(q) <==> m.dom().contains(q) by {
        if n.dom().contains(q) {
            let i = choose|i: int| 0 <= i < ns.len() && #[trigger] ns[i].0 == q;
            assert(entries_map(es).dom().contains(es[i].0));
        }
        if m.dom().contains(q) {
            if q == k {
                assert(n.dom().contains(ns[pos].0));
            } else {
                let i = choose|i: int| 0 <= i < es.len() && #[trigger] es[i].0 == q;
                assert(n.dom().contains(ns[i].0));
            }
        }
    }
    assert forall|q: Seq<char>| #[trigger] n.dom().contains(q) implies n[q] == m[q] by {
        let i = choose|i: int| 0 <= i < ns.len() && #[trigger] ns[i].0 == q;
        if i != pos {
            assert(entries_map(es)[es[i].0] == es[i].1);
            lemma_sorted_distinct(keys_of(es), i, pos);
            assert(keys_of(es)[i] == es[i].0);
        }
    }
    assert(n =~= m);
}

/// Removing the entry at `pos` removes its key from the map.
pub proof fn lemma_remove_at<V>(es: Seq<(Seq<char>, V)>, pos: int)
    requires
        strictly_sorted(keys_of(es)),
        0 <= pos < es.len(),
    ensures
        strictly_sorted(keys_of(es.remove(pos))),
        entries_map(es.remove(pos)) == entries_map(es).remove(es[pos].0),
{
    let k = es[pos].0;
    let ns = es.remove(pos);
    let ks = keys_of(es);
    let nks = keys_of(ns);
    assert forall|i: int, j: int| 0 <= i < j < nks.len() implies lex_lt(
        #[trigger] nks[i],
        #[trigger] nks[j],
    ) by {
        let i0 = if i < pos {
            i
        } else {
            i + 1
        };
        let j0 = if j < pos {
            j
        } else {
            j + 1
        };
        assert(nks[i] == ks[i0] && nks[j] == ks[j0]);
    }
    lemma_entries_map(es);
    lemma_entries_map(ns);
    let m = entries_map(es).remove(k);
    let n = entries_map(ns);
    assert forall|q: Seq<char>| n.dom().contains(q) <==> m.dom().contains(q) by {
        if n.dom().contains(q) {
            let i = choose|i: int| 0 <= i < ns.len() && #[trigger] ns[i].0 == q;
            let i0 = if i < pos {
                i
            } else {
                i + 1
            };
            assert(ns[i] == es[i0]);
            assert(entries_map(es).dom().contains(es[i0].0));
            lemma_sorted_distinct(ks, i0, pos);
            assert(ks[i0] == es[i0].0 && ks[pos] == es[pos].0);
        }
        if m.dom().contains(q) {
            let i = choose|i: int| 0 <= i < es.len() && #[trigger] es[i].0 == q;
            if i < pos {
                assert(n.dom().contains(ns[i].0));
            } else {
                assert(i != pos);
                assert(n.dom().contains(ns[i - 1].0));
            }
        }
    }
    assert forall|q: Seq<char>| #[trigger] n.dom().contains(q) implies n[q] == m[q] by {
        let i = choose|i: int| 0 <= i < ns.len() && #[trigger] ns[i].0 == q;
        let i0 = if i < pos {
            i
        } else {
            i + 1
        };
        assert(ns[i] == es[i0]);
        assert(entries_map(es)[es[i0].0] == es[i0].1);
    }
    assert(n =~= m);
}

/// A measure of a value, summed over the entries of a map.
pub trait Weighted {
    spec fn weight(&self) -> nat;
}

impl Weighted for u64 {
    open spec fn weight(&self) -> nat {
        *self as nat
    }
}

impl<T> Weighted for Vec<T> {
    open spec fn weight(&self) -> nat {
        self@.len()
    }
}

/// The sum of the weights of the values of a sequence of entries.
pub open spec fn total_weight<V: Weighted>(es: Seq<(Seq<char>, V)>) -> nat
    decreases es.len(),
{
    if es.len() == 0 {
        0
    } else {
        total_weight(es.drop_last()) + es.last().1.weight()
    }
}

pub proof fn lemma_total_concat<V: Weighted>(a: Seq<(Seq<char>, V)>, b: Seq<(Seq<char>, V)>)
    ensures
        total_weight(a + b) == total_weight(a) + total_weight(b),
    decreases b.len(),
{
    if b.len() == 0 {
        assert(a + b =~= a);
    } else {
        lemma_total_concat(a, b.drop_last());
        assert((a + b).drop_last() =~= a + b.drop_last());
    }
}

pub proof fn lemma_total_split<V: Weighted>(es: Seq<(Seq<char>, V)>, i: int)
    requires
        0 <= i < es.len(),
    ensures
        total_weight(es) == total_weight(es.take(i)) + es[i].1.weight() + total_weight(es.skip(i + 1)),
{
    let one = seq![es[i]];
    assert(es =~= es.take(i) + one + es.skip(i + 1));
    lemma_total_concat(es.take(i) + one, es.skip(i + 1));
    lemma_total_concat(es.take(i), one);
    assert(one.drop_last() =~= Seq::<(Seq<char>, V)>::empty());
    assert(total_weight(one.drop_last()) == 0);
    assert(one.last() == es[i]);
    assert(total_weight(one) == es[i].1.weight());
}

pub proof fn lemma_total_update<V: Weighted>(es: Seq<(Seq<char>, V)>, i: int, e: (Seq<char>, V))
    requires
        0 <= i < es.len(),
    ensures
        total_weight(es.update(i, e)) == total_weight(es) - es[i].1.weight() + e.1.weight(),
{
    let ns = es.update(i, e);
    lemma_total_split(es, i);
    lemma_total_split(ns, i);
    assert(ns.take(i) =~= es.take(i));
    assert(ns.skip(i + 1) =~= es.skip(i + 1));
}

pub proof fn lemma_total_insert<V: Weighted>(es: Seq<(Seq<char>, V)>, i: int, e: (Seq<char>, V))
    requires
        0 <= i <= es.len(),
    ensures
        total_weight(es.insert(i, e)) == total_weight(es) + e.1.weight(),
{
    let ns = es.insert(i, e);
    lemma_total_split(ns, i);
    assert(ns.take(i) =~= es.take(i));
    assert(ns.skip(i + 1) =~= es.skip(i));
    assert(es =~= es.take(i) + es.skip(i));
    lemma_total_concat(es.take(i), es.skip(i));
}

pub proof fn lemma_total_remove<V: Weighted>(es: Seq<(Seq<char>, V)>, i: int)
    requires
        0 <= i < es.len(),
    ensures
        total_weight(es.remove(i)) == total_weight(es) - es[i].1.weight(),
{
    let ns = es.remove(i);
    lemma_total_split(es, i);
    assert(ns =~= es.take(i) + es.skip(i + 1));
    lemma_total_concat(es.take(i), es.skip(i + 1));
}


/// A map from strings to values of type `V`, kept sorted by key.
#[derive(Debug, Clone, PartialEq, Eq)]
pub struct StrMap<V> {
    entries: Vec<(String, V)>,
}

/// A set of strings, kept sorted.
pub type StrSet = StrMap<()>;

impl<V> View for StrMap<V> {
    type V = Map<Seq<char>, V>;

    open spec fn view(&self) -> Map<Seq<char>, V> {
        entries_map(self.entry_seq())
    }
}

impl<V> StrMap<V> {
    /// The entries, in the order the map keeps them.
    pub closed spec fn entry_seq(&self) -> Seq<(Seq<char>, V)> {
        self.entries@.map_values(|e: (String, V)| (e.0@, e.1))
    }

    /// The keys, in the order the map keeps them.
    pub open spec fn key_seq(&self) -> Seq<Seq<char>> {
        keys_of(self.entry_seq())
    }

    /// The map's invariant: keys strictly increase.
    pub open spec fn wf(&self) -> bool {
        strictly_sorted(self.key_seq())
    }

    /// What a well-formed map's view holds.
    pub proof fn lemma_view(&self)
        requires
            self.wf(),
        ensures
            self@.dom().finite(),
            self@.len() == self.entry_seq().len(),
            self@.dom() == self.key_seq().to_set(),
            forall|i: int|
                0 <= i < self.entry_seq().len() ==> #[trigger] self@.dom().contains(
                    self.entry_seq()[i].0,
                ) && self@[self.entry_seq()[i].0] == self.entry_seq()[i].1,
            forall|k: Seq<char>| #[trigger]
                self@.dom().contains(k) ==> exists|i: int|
                    0 <= i < self.entry_seq().len() && #[trigger] self.entry_seq()[i].0 == k,
    {
        lemma_entries_map(self.entry_seq());
    }

    /// An empty map.
    pub fn new() -> (res: Self)
        ensures
            res.wf(),
            res.entry_seq() == Seq::<(Seq<char>, V)>::empty(),
            res@ == Map::<Seq<char>, V>::empty(),
    {
        let res = StrMap { entries: Vec::new() };
        assert(res.entry_seq() =~= Seq::<(Seq<char>, V)>::empty());
        assert(res@ =~= Map::<Seq<char>, V>::empty());
        res
    }

    /// The number of entries.
    pub fn len(&self) -> (n: usize)
        ensures
            n == self.entry_seq().len(),
            self.wf() ==> n == self@.len(),
    {
        proof {
            if self.wf() {
                self.lemma_view();
            }
        }
        self.entries.len()
    }

    /// Whether the map has no entries.
    pub fn is_empty(&self) -> (b: bool)
        ensures
            b == (self.entry_seq().len() == 0),
            self.wf() ==> (b == (self@.len() == 0)),
    {
        self.len() == 0
    }

    /// The position of `key`: whether it is present, and the index of the
    /// first key not below it.
    pub fn find(&self, key: &Vec<char>) -> (r: (bool, usize))
        requires
            self.wf(),
        ensures
            r.1 <= self.entry_seq().len(),
            r.0 ==> r.1 < self.entry_seq().len() && self.key_seq()[r.1 as int] == key@,
            forall|i: int| 0 <= i < r.1 ==> lex_lt(#[trigger] self.key_seq()[i], key@),
            !r.0 ==> forall|i: int|
                r.1 <= i < self.entry_seq().len() ==> lex_lt(key@, #[trigger] self.key_seq()[i]),
            r.0 == self@.dom().contains(key@),
    {
        let ghost ks = self.key_seq();
        let mut lo: usize = 0;
        let mut hi: usize = self.entries.len();
        assert(ks.len() == self.entries@.len());
        while lo < hi
            invariant
                0 <= lo <= hi <= ks.len(),
                ks == self.key_seq(),
                ks.len() == self.entries@.len(),
                strictly_sorted(ks),
                forall|i: int| 0 <= i < lo ==> lex_lt(#[trigger] ks[i], key@),
                forall|i: int| hi <= i < ks.len() ==> !lex_lt(#[trigger] ks[i], key@),
            decreases hi - lo,
        {
            let mid = lo + (hi - lo) / 2;
            let kc = chars_of(self.entries[mid].0.as_str());
            assert(kc@ == ks[mid as int]);
            match compare_chars(&kc, key) {
                TextOrder::Less => {
                    assert forall|i: int| 0 <= i < mid + 1 implies lex_lt(#[trigger] ks[i], key@) by {
                        if i < mid {
                            assert(lex_lt(ks[i], ks[mid as int]));
                            lemma_lex_transitive(ks[i], ks[mid as int], key@);
                        }
                    }
                    lo = mid + 1;
                },
                _ => {
                    assert forall|i: int| mid <= i < ks.len() implies !lex_lt(
                        #[trigger] ks[i],
                        key@,
                    ) by {
                        if i > mid && lex_lt(ks[i], key@) {
                            assert(lex_lt(ks[mid as int], ks[i]));
                            lemma_lex_transitive(ks[mid as int], ks[i], key@);
                        }
                    }
                    hi = mid;
                },
            }
        }
        let found = if lo < self.entries.len() {
            let kc = chars_of(self.entries[lo].0.as_str());
            compare_chars(&kc, key) == TextOrder::Equal
        } else {
            false
        };
        proof {
            self.lemma_view();
            if !found {
                assert forall|i: int| lo <= i < ks.len() implies lex_lt(key@, #[trigger] ks[i]) by {
                    lemma_lex_total(key@, ks[i]);
                    if i > lo {
                        assert(lex_lt(ks[lo as int], ks[i]));
                        if ks[i] == key@ {
                            assert(!lex_lt(ks[lo as int], key@));
                        }
                    }
                }
                if self@.dom().contains(key@) {
                    let i = choose|i: int|
                        0 <= i < self.entry_seq().len() && #[trigger] self.entry_seq()[i].0 == key@;
                    assert(ks[i] == key@);
                    lemma_lex_irreflexive(key@);
                }
            } else {
                assert(self.entry_seq()[lo as int].0 == ks[lo as int]);
            }
        }
        (found, lo)
    }

    /// The value stored under `key`, if any.
    pub fn get(&self, key: &str) -> (r: Option<&V>)
        requires
            self.wf(),
        ensures
            r is Some <==> self@.dom().contains(key@),
            r matches Some(v) ==> *v == self@[key@],
    {
        let kc = chars_of(key);
        self.get_chars(&kc)
    }

    /// The value stored under the key spelled by `key`, if any.
    pub fn get_chars(&self, key: &Vec<char>) -> (r: Option<&V>)
        requires
            self.wf(),
        ensures
            r is Some <==> self@.dom().contains(key@),
            r matches Some(v) ==> *v == self@[key@],
    {
        let (found, pos) = self.find(key);
        if found {
            proof {
                self.lemma_view();
                assert(self.entry_seq()[pos as int].0 == key@);
            }
            Some(&self.entries[pos].1)
        } else {
            None
        }
    }

    /// Whether `key` is present.
    pub fn contains(&self, key: &str) -> (b: bool)
        requires
            self.wf(),
        ensures
            b == self@.dom().contains(key@),
    {
        let kc = chars_of(key);
        self.find(&kc).0
    }

    /// Stores `value` under `key`, replacing any earlier value; returns the
    /// index of the entry.
    pub fn insert(&mut self, key: String, value: V) -> (idx: usize)
        requires
            old(self).wf(),
        ensures
            final(self).wf(),
            final(self)@ == old(self)@.insert(key@, value),
            idx < final(self).entry_seq().len(),
            final(self).entry_seq()[idx as int] == (key@, value),
            old(self)@.dom().contains(key@) ==> idx < old(self).entry_seq().len() && old(
                self,
            ).entry_seq()[idx as int].0 == key@ && final(self).entry_seq() == old(
                self,
            ).entry_seq().update(idx as int, (key@, value)),
            !old(self)@.dom().contains(key@) ==> idx <= old(self).entry_seq().len(),
            !old(self)@.dom().contains(key@) ==> final(self).entry_seq() == old(
                self,
            ).entry_seq().insert(idx as int, (key@, value)),
    {
        let kc = chars_of(key.as_str());
        let (found, pos) = self.find(&kc);
        let ghost es = self.entry_seq();
        if found {
            self.entries.set(pos, (key, value));
            proof {
                lemma_update_at(es, pos as int, value);
                assert(self.entry_seq() =~= es.update(pos as int, (es[pos as int].0, value)));
            }
        } else {
            self.entries.insert(pos, (key, value));
            proof {
                assert forall|i: int| 0 <= i < pos implies lex_lt(#[trigger] es[i].0, kc@) by {
                    assert(keys_of(es)[i] == es[i].0);
                }
                assert forall|i: int| pos <= i < es.len() implies lex_lt(kc@, #[trigger] es[i].0) by {
                    assert(keys_of(es)[i] == es[i].0);
                }
                lemma_insert_at(es, pos as int, kc@, value);
                assert(self.entry_seq() =~= es.insert(pos as int, (kc@, value)));
            }
        }
        pos
    }

    /// Removes `key`, returning the value it held.
    pub fn remove(&mut self, key: &str) -> (r: Option<V>)
        requires
            old(self).wf(),
        ensures
            final(self).wf(),
            final(self)@ == old(self)@.remove(key@),
            r == (if old(self)@.dom().contains(key@) {
                Some(old(self)@[key@])
            } else {
                None::<V>
            }),
            r is None ==> final(self).entry_seq() == old(self).entry_seq(),
            r is Some ==> exists|i: int|
                0 <= i < old(self).entry_seq().len() && #[trigger] old(self).entry_seq()[i].0
                    == key@ && final(self).entry_seq() == old(self).entry_seq().remove(i),
    {
        let kc = chars_of(key);
        let (found, pos) = self.find(&kc);
        let ghost es = self.entry_seq();
        if found {
            let (_, v) = self.entries.remove(pos);
            proof {
                lemma_remove_at(es, pos as int);
                assert(self.entry_seq() =~= es.remove(pos as int));
                lemma_entries_map(es);
                assert(es[pos as int].0 == kc@);
                assert(old(self).entry_seq()[pos as int].0 == key@);
            }
            Some(v)
        } else {
            proof {
                assert(old(self)@ =~= old(self)@.remove(key@));
            }
            None
        }
    }

    /// The key of the entry at index `i`.
    pub fn key_at(&self, i: usize) -> (k: &String)
        requires
            i < self.entry_seq().len(),
        ensures
            k@ == self.entry_seq()[i as int].0,
    {
        &self.entries[i].0
    }

    /// The value of the entry at index `i`.
    pub fn value_at(&self, i: usize) -> (v: &V)
        requires
            i < self.entry_seq().len(),
        ensures
            *v == self.entry_seq()[i as int].1,
    {
        &self.entries[i].1
    }

    /// The keys, in increasing order.
    pub fn keys(&self) -> (r: Vec<String>)
        ensures
            string_views(r@) == self.key_seq(),
    {
        let mut r: Vec<String> = Vec::new();
        let n = self.entries.len();
        assert(self.key_seq().len() == n);
        for i in 0..n
            invariant
                n == self.entries@.len(),
                n == self.key_seq().len(),
                r@.len() == i,
                string_views(r@) == self.key_seq().take(i as int),
        {
            let c = self.entries[i].0.clone();
            let ghost before = r@;
            assert(self.entry_seq()[i as int].0 == self.entries@[i as int].0@);
            r.push(c);
            assert forall|j: int| 0 <= j < i + 1 implies #[trigger] string_views(r@)[j]
                == self.key_seq().take(i + 1)[j] by {
                if j < i {
                    assert(r@[j] == before[j]);
                    assert(string_views(before)[j] == self.key_seq().take(i as int)[j]);
                }
            }
            assert(string_views(r@) =~= self.key_seq().take(i + 1));
        }
        assert(self.key_seq().take(n as int) =~= self.key_seq());
        r
    }

    /// The entries, in key order.
    pub fn into_entries(self) -> (r: Vec<(String, V)>)
        ensures
            r@.map_values(|e: (String, V)| (e.0@, e.1)) == self.entry_seq(),
    {
        self.entries
    }

    /// The map that inserting `pairs` in order builds.
    pub fn from_pairs(pairs: Vec<(String, V)>) -> (res: Self)
        ensures
            res.wf(),
            res@ == pairs_map(pairs@.map_values(|p: (String, V)| (p.0@, p.1))),
    {
        let ghost ps = pairs@.map_values(|p: (String, V)| (p.0@, p.1));
        let mut res = StrMap::new();
        for p in it: pairs
            invariant
                res.wf(),
                it.seq() == pairs@,
                ps == pairs@.map_values(|p: (String, V)| (p.0@, p.1)),
                res@ == pairs_map(ps.take(it.index() as int)),
        {
            let ghost i = it.index() as int;
            assert(ps.take(i + 1).drop_last() =~= ps.take(i));
            assert(ps.take(i + 1).last() == ps[i]);
            let (k, v) = p;
            res.insert(k, v);
        }
        assert(ps.take(ps.len() as int) =~= ps);
        res
    }
}

impl StrMap<()> {
    /// Adds `key` to the set.
    pub fn add(&mut self, key: String)
        requires
            old(self).wf(),
        ensures
            final(self).wf(),
            final(self)@.dom() == old(self)@.dom().insert(key@),
    {
        self.insert(key, ());
    }
}

} // verus!
