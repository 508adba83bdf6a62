//! File churn: how often each file was touched, computed from the output of
//! `git log --name-status`.
use vstd::prelude::*;
use crate::str_map::{
    lemma_total_insert, lemma_total_remove, lemma_total_split, lemma_total_update, total_weight,
    StrMap,
};
use crate::text::{
    chars_of, find_char, find_char_in, lemma_find_char, lemma_find_char_props, string_from_chars, trim,
    trim_bounds,
};

verus! {

/// Churn per file path, and the number of lines that could not be read.
pub struct FileChurn {
    pub churn: StrMap<u64>,
    pub malformed_lines: u64,
}

// ---------------------------------------------------------------------------
// The model
// ---------------------------------------------------------------------------
/// `l` without one trailing carriage return.
pub open spec fn strip_cr(l: Seq<char>) -> Seq<char> {
    if l.len() > 0 && l.last() == '\r' {
        l.drop_last()
    } else {
        l
    }
}

/// The lines of `s`, as `str::lines` yields them: split at `\n`, a `\r`
/// before the `\n` dropped, and no empty line after a final `\n`.
pub open spec fn lines_of(s: Seq<char>) -> Seq<Seq<char>>
    decreases s.len(),
{
    if s.len() == 0 {
        Seq::empty()
    } else {
        let i = find_char(s, '\n');
        if i >= s.len() {
            seq![s]
        } else {
            proof {
                lemma_find_char_props(s, '\n');
            }
            seq![strip_cr(s.subrange(0, i))] + lines_of(s.subrange(i + 1, s.len() as int))
        }
    }
}

/// The fields of a line split at its first two tabs (`splitn(3, '\t')`).
pub open spec fn fields_of(line: Seq<char>) -> Seq<Seq<char>> {
    let i = find_char(line, '\t');
    if i >= line.len() {
        seq![line]
    } else {
        let rest = line.subrange(i + 1, line.len() as int);
        let j = find_char(rest, '\t');
        if j >= rest.len() {
            seq![line.subrange(0, i), rest]
        } else {
            seq![line.subrange(0, i), rest.subrange(0, j), rest.subrange(j + 1, rest.len() as int)]
        }
    }
}

/// Churn counted so far for `p` (zero when absent).
pub open spec fn count_in(m: Map<Seq<char>, nat>, p: Seq<char>) -> nat {
    if m.dom().contains(p) {
        m[p]
    } else {
        0
    }
}

/// The effect of one line of `git log --name-status` on the churn counts and
/// the number of malformed lines.
///
/// Blank lines are skipped. The status is the first character of the first
/// field: `A` and `M` count the path once more, `C` counts the copy's new
/// path, `D` forgets the path, `R` moves the old path's count to the new path
/// and counts it once more. A line without its paths, with an empty status, or
/// with another status is malformed.
pub open spec fn churn_step(st: (Map<Seq<char>, nat>, nat), line: Seq<char>) -> (
    Map<Seq<char>, nat>,
    nat,
) {
    let m = st.0;
    let bad = st.1;
    if trim(line).len() == 0 {
        st
    } else {
        let f = fields_of(line);
        if f[0].len() == 0 {
            (m, bad + 1)
        } else {
            let status = f[0][0];
            if status == 'A' || status == 'M' {
                if f.len() >= 2 {
                    (m.insert(f[1], count_in(m, f[1]) + 1), bad)
                } else {
                    (m, bad + 1)
                }
            } else if status == 'C' {
                if f.len() >= 3 {
                    (m.insert(f[2], count_in(m, f[2]) + 1), bad)
                } else {
                    (m, bad + 1)
                }
            } else if status == 'D' {
                if f.len() >= 2 {
                    (m.remove(f[1]), bad)
                } else {
                    (m, bad + 1)
                }
            } else if status == 'R' {
                if f.len() >= 3 {
                    let prev = count_in(m, f[1]);
                    let m2 = m.remove(f[1]);
                    (m2.insert(f[2], count_in(m2, f[2]) + prev + 1), bad)
                } else {
                    (m, bad + 1)
                }
            } else {
                (m, bad + 1)
            }
        }
    }
}

/// Churn counts and malformed lines after reading `ls` in order.
pub open spec fn churn_of_lines(ls: Seq<Seq<char>>) -> (Map<Seq<char>, nat>, nat)
    decreases ls.len(),
{
    if ls.len() == 0 {
        (Map::empty(), 0)
    } else {
        churn_step(churn_of_lines(ls.drop_last()), ls.last())
    }
}

/// Churn counts and malformed lines of a whole `git log --name-status` output.
pub open spec fn churn_of(stdout: Seq<char>) -> (Map<Seq<char>, nat>, nat) {
    churn_of_lines(lines_of(stdout))
}

/// Whether `line` counts `p` once more: an `A` or `M` line for `p`, or a `C`
/// or `R` line whose new path is `p`.
pub open spec fn counts_path(line: Seq<char>, p: Seq<char>) -> bool {
    let f = fields_of(line);
    &&& trim(line).len() > 0
    &&& f[0].len() > 0
    &&& {
        ||| (f[0][0] == 'A' || f[0][0] == 'M') && f.len() >= 2 && f[1] == p
        ||| (f[0][0] == 'C' || f[0][0] == 'R') && f.len() >= 3 && f[2] == p
    }
}

/// Whether `line` is a `D` line for `p`.
pub open spec fn deletes_path(line: Seq<char>, p: Seq<char>) -> bool {
    let f = fields_of(line);
    trim(line).len() > 0 && f[0].len() > 0 && f[0][0] == 'D' && f.len() >= 2 && f[1] == p
}

/// A path that a line deletes, and that no later line counts again, has no
/// churn: deleted files are left out of the result.
pub proof fn lemma_deleted_path_forgotten(ls: Seq<Seq<char>>, k: int, p: Seq<char>)
    requires
        0 <= k < ls.len(),
        deletes_path(ls[k], p),
        forall|j: int| k < j < ls.len() ==> !counts_path(#[trigger] ls[j], p),
    ensures
        !churn_of_lines(ls).0.dom().contains(p),
    decreases ls.len(),
{
    let prev = ls.drop_last();
    if k < ls.len() - 1 {
        assert forall|j: int| k < j < prev.len() implies !counts_path(#[trigger] prev[j], p) by {
            assert(prev[j] == ls[j]);
        }
        assert(prev[k] == ls[k]);
        lemma_deleted_path_forgotten(prev, k, p);
        assert(!counts_path(ls[ls.len() - 1], p));
    }
}

/// Every path with churn was counted at least once.
pub proof fn lemma_churn_positive(ls: Seq<Seq<char>>)
    ensures
        forall|p: Seq<char>| #[trigger] churn_of_lines(ls).0.dom().contains(p) ==> churn_of_lines(ls).0[p] >= 1,
    decreases ls.len(),
{
    if ls.len() > 0 {
        let prev = ls.drop_last();
        lemma_churn_positive(prev);
        let st = churn_of_lines(prev);
        let line = ls.last();
        assert(churn_of_lines(ls) == churn_step(st, line));
        let m = churn_step(st, line).0;
        assert forall|p: Seq<char>| #[trigger] m.dom().contains(p) implies m[p] >= 1 by {
            if trim(line).len() > 0 {
                let f = fields_of(line);
                if f[0].len() > 0 {
                    let status = f[0][0];
                    if status == 'R' && f.len() >= 3 {
                        let m2 = st.0.remove(f[1]);
                        if p != f[2] {
                            assert(m2.dom().contains(p));
                            assert(st.0.dom().contains(p));
                        }
                    } else if status == 'D' && f.len() >= 2 {
                        assert(st.0.dom().contains(p));
                    } else if p != f[1] && p != f[2] {
                        assert(st.0.dom().contains(p));
                    }
                }
            }
        }
    }
}

/// Whether `line` is counted as malformed: a non-blank line whose status is
/// empty or unknown, or that lacks the paths its status needs.
pub open spec fn is_malformed(line: Seq<char>) -> bool {
    let f = fields_of(line);
    &&& trim(line).len() > 0
    &&& {
        ||| f[0].len() == 0
        ||| {
            let status = f[0][0];
            if status == 'A' || status == 'M' || status == 'D' {
                f.len() < 2
            } else if status == 'C' || status == 'R' {
                f.len() < 3
            } else {
                true
            }
        }
    }
}

proof fn lemma_step_malformed(st: (Map<Seq<char>, nat>, nat), line: Seq<char>)
    ensures
        churn_step(st, line).1 == st.1 + (if is_malformed(line) { 1int } else { 0int }),
{
}

proof fn lemma_malformed_lines_concat(a: Seq<Seq<char>>, b: Seq<Seq<char>>)
    ensures
        churn_of_lines(a + b).1 == churn_of_lines(a).1 + churn_of_lines(b).1,
    decreases b.len(),
{
    if b.len() == 0 {
        assert(a + b =~= a);
    } else {
        let b1 = b.drop_last();
        lemma_malformed_lines_concat(a, b1);
        assert((a + b).drop_last() =~= a + b1);
        assert((a + b).last() == b.last());
        lemma_step_malformed(churn_of_lines(a + b1), b.last());
        lemma_step_malformed(churn_of_lines(b1), b.last());
    }
}

proof fn lemma_lines_concat(a: Seq<char>, b: Seq<char>)
    requires
        a.len() == 0 || a.last() == '\n',
    ensures
        lines_of(a + b) == lines_of(a) + lines_of(b),
    decreases a.len(),
{
    if a.len() == 0 {
        assert(a + b =~= b);
        assert(lines_of(a) + lines_of(b) =~= lines_of(b));
    } else {
        let s = a + b;
        lemma_find_char_props(a, '\n');
        let i = find_char(a, '\n');
        assert(i < a.len());
        assert forall|j: int| 0 <= j < i implies #[trigger] s[j] != '\n' by {
            assert(s[j] == a[j]);
        }
        assert(s[i] == a[i]);
        lemma_find_char(s, '\n', i);
        let rest = a.subrange(i + 1, a.len() as int);
        assert(s.subrange(0, i) =~= a.subrange(0, i));
        assert(s.subrange(i + 1, s.len() as int) =~= rest + b);
        if rest.len() > 0 {
            assert(rest.last() == a.last());
        }
        lemma_lines_concat(rest, b);
        assert(lines_of(s) == seq![strip_cr(a.subrange(0, i))] + lines_of(rest + b));
        assert(lines_of(a) == seq![strip_cr(a.subrange(0, i))] + lines_of(rest));
        assert(lines_of(s) =~= lines_of(a) + lines_of(b));
    }
}

/// Whether a line is malformed does not depend on the lines before it: the
/// malformed lines of two logs, the first ending with a newline, add up.
pub proof fn lemma_malformed_additive(a: Seq<char>, b: Seq<char>)
    requires
        a.len() == 0 || a.last() == '\n',
    ensures
        churn_of(a + b).1 == churn_of(a).1 + churn_of(b).1,
{
    lemma_lines_concat(a, b);
    lemma_malformed_lines_concat(lines_of(a), lines_of(b));
}

/// Whether `line` starts with `D`, the status of a deletion.
pub open spec fn starts_with_d(line: Seq<char>) -> bool {
    line.len() > 0 && line[0] == 'D'
}

/// One for a non-blank line, zero for a blank one.
pub open spec fn line_weight(line: Seq<char>) -> nat {
    if trim(line).len() > 0 {
        1
    } else {
        0
    }
}

/// The number of non-blank lines of `ls`.
pub open spec fn nonblank_count(ls: Seq<Seq<char>>) -> nat
    decreases ls.len(),
{
    if ls.len() == 0 {
        0
    } else {
        nonblank_count(ls.drop_last()) + line_weight(ls.last())
    }
}

/// Whether no line of `ls` starts with `D`.
pub open spec fn no_deletions(ls: Seq<Seq<char>>) -> bool {
    forall|i: int| 0 <= i < ls.len() ==> !starts_with_d(#[trigger] ls[i])
}

/// The counts of a churn map, as natural numbers.
pub open spec fn counts_view(m: Map<Seq<char>, u64>) -> Map<Seq<char>, nat> {
    m.map_values(|v: u64| v as nat)
}

// ---------------------------------------------------------------------------
// Reading lines
// ---------------------------------------------------------------------------
/// The ranges in `s` of the fields of the line `s[a..b]`.
fn split_fields(s: &Vec<char>, a: usize, b: usize) -> (r: Vec<(usize, usize)>)
    requires
        a <= b <= s@.len(),
    ensures
        1 <= r@.len() <= 3,
        r@.len() == fields_of(s@.subrange(a as int, b as int)).len(),
        forall|j: int|
            0 <= j < r@.len() ==> a <= (#[trigger] r@[j]).0 <= r@[j].1 <= b && s@.subrange(
                r@[j].0 as int,
                r@[j].1 as int,
            ) == fields_of(s@.subrange(a as int, b as int))[j],
{
    let ghost line = s@.subrange(a as int, b as int);
    let t1 = find_char_in(s, a, b, '\t');
    let mut r: Vec<(usize, usize)> = Vec::new();
    if t1 == b {
        r.push((a, b));
        assert(s@.subrange(a as int, b as int) == line);
        return r;
    }
    let ghost rest = line.subrange(t1 - a + 1, line.len() as int);
    assert(rest =~= s@.subrange(t1 + 1, b as int));
    let t2 = find_char_in(s, t1 + 1, b, '\t');
    r.push((a, t1));
    assert(s@.subrange(a as int, t1 as int) =~= line.subrange(0, t1 - a));
    if t2 == b {
        r.push((t1 + 1, b));
    } else {
        r.push((t1 + 1, t2));
        r.push((t2 + 1, b));
        assert(s@.subrange(t1 + 1, t2 as int) =~= rest.subrange(0, t2 - t1 - 1));
        assert(s@.subrange(t2 + 1, b as int) =~= rest.subrange(t2 - t1, rest.len() as int));
    }
    r
}

/// The range of the path field of a one-path line; a line without it counts as
/// malformed.
fn take_path(fields: &Vec<(usize, usize)>, malformed_lines: &mut u64) -> (r: Option<(usize, usize)>)
    requires
        *old(malformed_lines) < u64::MAX,
    ensures
        fields@.len() >= 2 ==> r == Some(fields@[1]) && *final(malformed_lines) == *old(
            malformed_lines,
        ),
        fields@.len() < 2 ==> r is None && *final(malformed_lines) == *old(malformed_lines) + 1,
{
    if fields.len() >= 2 {
        Some(fields[1])
    } else {
        *malformed_lines = *malformed_lines + 1;
        None
    }
}

/// The ranges of the old and new path fields of a two-path line; a line
/// without them counts as malformed.
fn take_path_pair(fields: &Vec<(usize, usize)>, malformed_lines: &mut u64) -> (r: Option<
    ((usize, usize), (usize, usize)),
>)
    requires
        *old(malformed_lines) < u64::MAX,
    ensures
        fields@.len() >= 3 ==> r == Some((fields@[1], fields@[2])) && *final(malformed_lines)
            == *old(malformed_lines),
        fields@.len() < 3 ==> r is None && *final(malformed_lines) == *old(malformed_lines) + 1,
{
    if fields.len() >= 3 {
        Some((fields[1], fields[2]))
    } else {
        *malformed_lines = *malformed_lines + 1;
        None
    }
}

/// The churn counted for `path` (zero when absent).
fn current_count(churn: &StrMap<u64>, path: &String) -> (c: u64)
    requires
        churn.wf(),
    ensures
        c == count_in(counts_view(churn@), path@),
{
    match churn.get(path.as_str()) {
        Some(v) => *v,
        None => 0,
    }
}

proof fn lemma_counts_insert(m: Map<Seq<char>, u64>, k: Seq<char>, v: u64)
    ensures
        counts_view(m.insert(k, v)) == counts_view(m).insert(k, v as nat),
{
    assert(counts_view(m.insert(k, v)) =~= counts_view(m).insert(k, v as nat));
}

proof fn lemma_counts_remove(m: Map<Seq<char>, u64>, k: Seq<char>)
    ensures
        counts_view(m.remove(k)) == counts_view(m).remove(k),
{
    assert(counts_view(m.remove(k)) =~= counts_view(m).remove(k));
}

/// Every count is at most the total of the counts.
proof fn lemma_count_le_total(churn: &StrMap<u64>, p: Seq<char>)
    requires
        churn.wf(),
    ensures
        count_in(counts_view(churn@), p) <= total_weight(churn.entry_seq()),
{
    churn.lemma_view();
    if churn@.dom().contains(p) {
        let i = choose|i: int|
            0 <= i < churn.entry_seq().len() && #[trigger] churn.entry_seq()[i].0 == p;
        lemma_total_split(churn.entry_seq(), i);
    }
}

/// Adds `extra` to the churn of `path`.
fn add_churn(churn: &mut StrMap<u64>, path: String, extra: u64)
    requires
        old(churn).wf(),
        total_weight(old(churn).entry_seq()) + extra <= u64::MAX,
    ensures
        final(churn).wf(),
        counts_view(final(churn)@) == counts_view(old(churn)@).insert(
            path@,
            count_in(counts_view(old(churn)@), path@) + extra as nat,
        ),
        total_weight(final(churn).entry_seq()) == total_weight(old(churn).entry_seq()) + extra,
{
    let cur = current_count(churn, &path);
    proof {
        lemma_count_le_total(churn, path@);
    }
    let ghost es = churn.entry_seq();
    let ghost p = path@;
    assert(es == old(churn).entry_seq());
    let idx = churn.insert(path, cur + extra);
    proof {
        assert(idx < churn.entry_seq().len());
        lemma_counts_insert(old(churn)@, p, (cur + extra) as u64);
        if old(churn)@.dom().contains(p) {
            old(churn).lemma_view();
            let i = choose|i: int| 0 <= i < es.len() && #[trigger] es[i].0 == p;
            assert(i == idx) by {
                if i != idx {
                    crate::str_map::lemma_sorted_distinct(old(churn).key_seq(), i, idx as int);
                }
            }
            lemma_total_update(es, idx as int, (p, (cur + extra) as u64));
        } else {
            lemma_total_insert(es, idx as int, (p, (cur + extra) as u64));
        }
    }
}

/// Forgets the churn of `path`, returning what it was.
fn take_churn(churn: &mut StrMap<u64>, path: &String) -> (prev: u64)
    requires
        old(churn).wf(),
    ensures
        final(churn).wf(),
        prev == count_in(counts_view(old(churn)@), path@),
        counts_view(final(churn)@) == counts_view(old(churn)@).remove(path@),
        total_weight(final(churn).entry_seq()) == total_weight(old(churn).entry_seq()) - prev,
{
    let r = churn.remove(path.as_str());
    proof {
        lemma_counts_remove(old(churn)@, path@);
    }
    match r {
        Some(v) => {
            proof {
                let es = old(churn).entry_seq();
                let i = choose|i: int|
                    0 <= i < es.len() && #[trigger] es[i].0 == path@ && churn.entry_seq()
                        == es.remove(i);
                old(churn).lemma_view();
                lemma_total_remove(es, i);
            }
            v
        },
        None => 0,
    }
}

proof fn lemma_status_first(line: Seq<char>)
    requires
        fields_of(line)[0].len() > 0,
    ensures
        line.len() > 0,
        fields_of(line)[0][0] == line[0],
{
    let i = find_char(line, '\t');
    lemma_find_char_props(line, '\t');
    if i < line.len() {
        assert(fields_of(line)[0] == line.subrange(0, i));
    }
}

/// Applies the line `s[a..b]` to the churn counts.
fn apply_line(
    s: &Vec<char>,
    a: usize,
    b: usize,
    churn: &mut StrMap<u64>,
    malformed_lines: &mut u64,
)
    requires
        a <= b <= s@.len(),
        old(churn).wf(),
        total_weight(old(churn).entry_seq()) + *old(malformed_lines) < u64::MAX,
    ensures
        final(churn).wf(),
        (counts_view(final(churn)@), *final(malformed_lines) as nat) == churn_step(
            (counts_view(old(churn)@), *old(malformed_lines) as nat),
            s@.subrange(a as int, b as int),
        ),
        total_weight(final(churn).entry_seq()) + *final(malformed_lines) <= total_weight(
            old(churn).entry_seq(),
        ) + *old(malformed_lines) + line_weight(s@.subrange(a as int, b as int)),
        !starts_with_d(s@.subrange(a as int, b as int)) ==> total_weight(final(churn).entry_seq())
            + *final(malformed_lines) == total_weight(old(churn).entry_seq()) + *old(
            malformed_lines,
        ) + line_weight(s@.subrange(a as int, b as int)),
{
    let ghost line = s@.subrange(a as int, b as int);
    let (ta, tb) = trim_bounds(s, a, b);
    if ta == tb {
        return;
    }
    let fields = split_fields(s, a, b);
    let ghost f = fields_of(line);
    let (f0a, f0b) = fields[0];
    if f0a == f0b {
        *malformed_lines = *malformed_lines + 1;
        return;
    }
    let status = s[f0a];
    assert(f[0][0] == status);
    proof {
        lemma_status_first(line);
    }
    if status == 'A' || status == 'M' {
        if let Some((pa, pb)) = take_path(&fields, malformed_lines) {
            let path = string_from_chars(s, pa, pb);
            add_churn(churn, path, 1);
        }
    } else if status == 'C' {
        if let Some((_, (pa, pb))) = take_path_pair(&fields, malformed_lines) {
            let path = string_from_chars(s, pa, pb);
            add_churn(churn, path, 1);
        }
    } else if status == 'D' {
        if let Some((pa, pb)) = take_path(&fields, malformed_lines) {
            let path = string_from_chars(s, pa, pb);
            take_churn(churn, &path);
        }
    } else if status == 'R' {
        if let Some(((oa, ob), (na, nb))) = take_path_pair(&fields, malformed_lines) {
            let old_path = string_from_chars(s, oa, ob);
            let new_path = string_from_chars(s, na, nb);
            let previous = take_churn(churn, &old_path);
            add_churn(churn, new_path, previous + 1);
        }
    } else {
        *malformed_lines = *malformed_lines + 1;
    }
}

/// Parses `git log --name-status` output into file churn.
pub fn parse_name_status_stdout(stdout: &str) -> (res: FileChurn)
    ensures
        res.churn.wf(),
        counts_view(res.churn@) == churn_of(stdout@).0,
        res.malformed_lines == churn_of(stdout@).1,
        total_weight(res.churn.entry_seq()) + res.malformed_lines <= nonblank_count(lines_of(stdout@)),
        no_deletions(lines_of(stdout@)) ==> total_weight(res.churn.entry_seq()) + res.malformed_lines
            == nonblank_count(lines_of(stdout@)),
{
    let s = chars_of(stdout);
    let n = s.len();
    let mut churn: StrMap<u64> = StrMap::new();
    let mut malformed_lines: u64 = 0;
    let mut start: usize = 0;
    let ghost mut done: Seq<Seq<char>> = Seq::empty();
    proof {
        assert(s@.subrange(0, n as int) =~= s@);
        assert(counts_view(churn@) =~= Map::<Seq<char>, nat>::empty());
    }
    while start < n
        invariant
            start <= n == s@.len(),
            s@ == stdout@,
            done + lines_of(s@.subrange(start as int, n as int)) == lines_of(s@),
            done.len() <= start,
            churn.wf(),
            counts_view(churn@) == churn_of_lines(done).0,
            malformed_lines == churn_of_lines(done).1,
            total_weight(churn.entry_seq()) + malformed_lines <= done.len(),
            total_weight(churn.entry_seq()) + malformed_lines <= nonblank_count(done),
            no_deletions(done) ==> total_weight(churn.entry_seq()) + malformed_lines
                == nonblank_count(done),
        decreases n - start,
    {
        let ghost rest = s@.subrange(start as int, n as int);
        let nl = find_char_in(&s, start, n, '\n');
        let mut end = nl;
        if nl < n && end > start && s[end - 1] == '\r' {
            end = end - 1;
        }
        let ghost line = s@.subrange(start as int, end as int);
        proof {
            lemma_find_char_props(rest, '\n');
            if nl < n {
                let piece = rest.subrange(0, nl - start);
                assert(piece =~= s@.subrange(start as int, nl as int));
                if end < nl {
                    assert(piece.last() == '\r');
                    assert(strip_cr(piece) =~= line);
                } else {
                    assert(strip_cr(piece) =~= line);
                }
                assert(rest.subrange(nl - start + 1, rest.len() as int) =~= s@.subrange(
                    nl + 1,
                    n as int,
                ));
                assert(lines_of(rest) == seq![line] + lines_of(s@.subrange(nl + 1, n as int)));
            } else {
                assert(line =~= rest);
                assert(lines_of(rest) == seq![line]);
            }
        }
        apply_line(&s, start, end, &mut churn, &mut malformed_lines);
        proof {
            let nd = done.push(line);
            assert(nd.drop_last() =~= done);
            assert(nd.last() == line);
            if no_deletions(nd) {
                assert forall|j: int| 0 <= j < done.len() implies !starts_with_d(#[trigger] done[j]) by {
                    assert(nd[j] == done[j]);
                }
                assert(!starts_with_d(nd[done.len() as int]));
            }
            if nl < n {
                assert(nd + lines_of(s@.subrange(nl + 1, n as int)) =~= done + lines_of(rest));
            } else {
                assert(s@.subrange(n as int, n as int) =~= Seq::<char>::empty());
                assert(nd + lines_of(s@.subrange(n as int, n as int)) =~= done + lines_of(rest));
            }
            done = nd;
        }
        start = if nl < n {
            nl + 1
        } else {
            n
        };
    }
    proof {
        assert(s@.subrange(n as int, n as int) =~= Seq::<char>::empty());
        assert(done + Seq::<Seq<char>>::empty() =~= done);
        assert(done == lines_of(s@));
    }
    FileChurn { churn, malformed_lines }
}

} // verus!
