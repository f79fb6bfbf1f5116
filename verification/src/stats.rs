//! Index statistics: chunk and file counts, the per-source-type breakdown
//! (ordered by source type name, as a sorted map keeps it), and search-log
//! totals.

use vstd::prelude::*;
use crate::text::to_chars;

verus! {

#[derive(Debug, Clone)]
pub struct Stats {
    pub chunks: i64,
    pub files: i64,
    /// Chunk count per source type, by increasing name, each name once.
    pub source_types: Vec<(String, i64)>,
    pub search_log_total: i64,
    pub search_log_last_7d: i64,
}

/// Lexicographic order of names by code point (the order of `String`).
pub open spec fn name_lt(a: Seq<char>, b: Seq<char>) -> bool
    decreases a.len(),
{
    if a.len() == 0 {
        b.len() > 0
    } else if b.len() == 0 {
        false
    } else if a[0] != b[0] {
        (a[0] as u32) < (b[0] as u32)
    } else {
        name_lt(a.drop_first(), b.drop_first())
    }
}

pub proof fn lemma_name_lt_irreflexive(a: Seq<char>)
    ensures
        !name_lt(a, a),
    decreases a.len(),
{
    if a.len() > 0 {
        lemma_name_lt_irreflexive(a.drop_first());
    }
}

pub proof fn lemma_name_lt_total(a: Seq<char>, b: Seq<char>)
    ensures
        a == b || name_lt(a, b) || name_lt(b, a),
    decreases a.len(),
{
    if a.len() > 0 && b.len() > 0 && a[0] == b[0] {
        lemma_name_lt_total(a.drop_first(), b.drop_first());
        if a.drop_first() == b.drop_first() {
            assert(a =~= seq![a[0]] + a.drop_first());
            assert(b =~= seq![b[0]] + b.drop_first());
        }
    } else if a.len() > 0 && b.len() > 0 {
        let x = a[0] as u32;
        let y = b[0] as u32;
        assert(x != y) by {
            vstd::utf8::char_u32_cast(a[0], x);
            vstd::utf8::char_u32_cast(b[0], y);
        };
    } else if a.len() == 0 && b.len() == 0 {
        assert(a =~= b);
    }
}

pub proof fn lemma_name_lt_transitive(a: Seq<char>, b: Seq<char>, c: Seq<char>)
    requires
        name_lt(a, b),
        name_lt(b, c),
    ensures
        name_lt(a, c),
    decreases a.len(),
{
    if a.len() > 0 && b.len() > 0 && c.len() > 0 && a[0] == b[0] && b[0] == c[0] {
        lemma_name_lt_transitive(a.drop_first(), b.drop_first(), c.drop_first());
    }
}

proof fn lemma_name_lt_asymmetric(a: Seq<char>, b: Seq<char>)
    requires
        name_lt(a, b),
    ensures
        !name_lt(b, a),
        a != b,
{
    lemma_name_lt_irreflexive(a);
    if name_lt(b, a) {
        lemma_name_lt_transitive(a, b, a);
    }
}

fn name_less(a: &Vec<char>, b: &Vec<char>) -> (r: bool)
    ensures
        r == name_lt(a@, b@),
{
    let mut i: usize = 0;
    assert(a@.skip(0) =~= a@);
    assert(b@.skip(0) =~= b@);
    while i < a.len() && i < b.len() && a[i] == b[i]
        invariant
            i <= a.len(),
            i <= b.len(),
            name_lt(a@, b@) == name_lt(a@.skip(i as int), b@.skip(i as int)),
        decreases a.len() - i,
    {
        assert(a@.skip(i as int).drop_first() =~= a@.skip(i + 1));
        assert(b@.skip(i as int).drop_first() =~= b@.skip(i + 1));
        i = i + 1;
    }
    if i == a.len() {
        i < b.len()
    } else if i == b.len() {
        false
    } else {
        (a[i] as u32) < (b[i] as u32)
    }
}

/// The value the last row with name `k` gives, if any row has that name.
pub open spec fn last_value(rows: Seq<(Seq<char>, i64)>, k: Seq<char>) -> Option<i64>
    decreases rows.len(),
{
    if rows.len() == 0 {
        None
    } else if rows.last().0 == k {
        Some(rows.last().1)
    } else {
        last_value(rows.drop_last(), k)
    }
}

pub open spec fn entry_views(v: Seq<(String, i64)>) -> Seq<(Seq<char>, i64)> {
    v.map_values(|e: (String, i64)| (e.0@, e.1))
}

/// The sorted map that collecting `rows` yields: names strictly increasing,
/// each name of the rows present once with the value of its last row, and
/// no other name.
pub open spec fn is_sorted_map_of(entries: Seq<(Seq<char>, i64)>, rows: Seq<(Seq<char>, i64)>) -> bool {
    &&& forall|a: int, b: int|
        0 <= a < b < entries.len() ==> name_lt(#[trigger] entries[a].0, #[trigger] entries[b].0)
    &&& forall|j: int|
        0 <= j < entries.len() ==> last_value(rows, (#[trigger] entries[j]).0) == Some(entries[j].1)
    &&& forall|k: Seq<char>|
        #[trigger] last_value(rows, k) is Some ==> exists|j: int|
            0 <= j < entries.len() && (#[trigger] entries[j]).0 == k
}

/// Position where `k` belongs in the sorted entries: the first entry whose
/// name is not below `k`.
fn find_slot(entries: &Vec<(String, i64)>, k: &Vec<char>) -> (r: usize)
    requires
        forall|a: int, b: int|
            0 <= a < b < entries@.len() ==> name_lt(
                #[trigger] entry_views(entries@)[a].0,
                #[trigger] entry_views(entries@)[b].0,
            ),
    ensures
        r <= entries@.len(),
        forall|a: int| 0 <= a < r ==> name_lt(#[trigger] entry_views(entries@)[a].0, k@),
        r < entries@.len() ==> !name_lt(entry_views(entries@)[r as int].0, k@),
{
    let mut i: usize = 0;
    while i < entries.len() && name_less(&to_chars(entries[i].0.as_str()), k)
        invariant
            i <= entries@.len(),
            forall|a: int| 0 <= a < i ==> name_lt(#[trigger] entry_views(entries@)[a].0, k@),
        decreases entries@.len() - i,
    {
        i = i + 1;
    }
    i
}

fn same_name(a: &String, k: &Vec<char>) -> (r: bool)
    ensures
        r == (a@ == k@),
{
    crate::text::same_chars(&to_chars(a.as_str()), k)
}

/// Collects `(name, count)` rows into the sorted per-name breakdown; a later
/// row for the same name replaces an earlier one.
pub fn sorted_counts(rows: &Vec<(String, i64)>) -> (r: Vec<(String, i64)>)
    ensures
        is_sorted_map_of(entry_views(r@), entry_views(rows@)),
{
    let ghost rv = entry_views(rows@);
    let mut out: Vec<(String, i64)> = Vec::new();
    let mut i: usize = 0;
    while i < rows.len()
        invariant
            i <= rows.len(),
            rv == entry_views(rows@),
            is_sorted_map_of(entry_views(out@), rv.take(i as int)),
        decreases rows.len() - i,
    {
        let ghost old_e = entry_views(out@);
        let ghost pre = rv.take(i as int);
        let ghost post = rv.take(i + 1);
        let k = to_chars(rows[i].0.as_str());
        let v = rows[i].1;
        proof {
            assert(post.drop_last() =~= pre);
            assert(post.last() == (k@, v));
        }
        let p = find_slot(&out, &k);
        if p < out.len() && same_name(&out[p].0, &k) {
            let name = out[p].0.clone();
            out.set(p, (name, v));
            proof {
                let e = entry_views(out@);
                assert(e =~= old_e.update(p as int, (k@, v)));
                assert forall|j: int| 0 <= j < e.len() implies last_value(post, (
                #[trigger] e[j]).0) == Some(e[j].1) by {
                    if j != p {
                        assert(e[j] == old_e[j]);
                        if j < p {
                            lemma_name_lt_asymmetric(old_e[j].0, k@);
                        } else {
                            lemma_name_lt_asymmetric(old_e[p as int].0, old_e[j].0);
                        }
                    }
                }
                assert forall|q: Seq<char>| #[trigger] last_value(post, q) is Some implies exists|
                    j: int,
                | 0 <= j < e.len() && (#[trigger] e[j]).0 == q by {
                    if q == k@ {
                        assert(e[p as int].0 == q);
                    } else {
                        assert(last_value(pre, q) is Some);
                        let j = choose|j: int| 0 <= j < old_e.len() && (#[trigger] old_e[j]).0 == q;
                        assert(e[j].0 == q);
                    }
                }
            }
        } else {
            proof {
                if p < out.len() {
                    lemma_name_lt_total(old_e[p as int].0, k@);
                }
            }
            out.insert(p, (String::from_str(rows[i].0.as_str()), v));
            proof {
                let e = entry_views(out@);
                assert(e =~= old_e.insert(p as int, (k@, v)));
                assert forall|a: int, b: int| 0 <= a < b < e.len() implies name_lt(
                    #[trigger] e[a].0,
                    #[trigger] e[b].0,
                ) by {
                    if b == p {
                        assert(e[a] == old_e[a]);
                    } else if a == p {
                        assert(e[b] == old_e[b - 1]);
                        if b - 1 > p {
                            lemma_name_lt_transitive(k@, old_e[p as int].0, old_e[b - 1].0);
                        }
                    } else if a < p && b < p {
                        assert(e[a] == old_e[a] && e[b] == old_e[b]);
                    } else if a < p {
                        assert(e[a] == old_e[a] && e[b] == old_e[b - 1]);
                    } else {
                        assert(e[a] == old_e[a - 1] && e[b] == old_e[b - 1]);
                    }
                }
                assert forall|j: int| 0 <= j < e.len() implies last_value(post, (
                #[trigger] e[j]).0) == Some(e[j].1) by {
                    if j < p {
                        assert(e[j] == old_e[j]);
                        lemma_name_lt_asymmetric(old_e[j].0, k@);
                    } else if j > p {
                        assert(e[j] == old_e[j - 1]);
                        if j - 1 == p {
                            lemma_name_lt_asymmetric(k@, old_e[p as int].0);
                        } else {
                            lemma_name_lt_transitive(k@, old_e[p as int].0, old_e[j - 1].0);
                            lemma_name_lt_asymmetric(k@, old_e[j - 1].0);
                        }
                    }
                }
                assert forall|q: Seq<char>| #[trigger] last_value(post, q) is Some implies exists|
                    j: int,
                | 0 <= j < e.len() && (#[trigger] e[j]).0 == q by {
                    if q == k@ {
                        assert(e[p as int].0 == q);
                    } else {
                        assert(last_value(pre, q) is Some);
                        let j = choose|j: int| 0 <= j < old_e.len() && (#[trigger] old_e[j]).0 == q;
                        if j < p {
                            assert(e[j].0 == q);
                        } else {
                            assert(e[j + 1].0 == q);
                        }
                    }
                }
            }
        }
        i = i + 1;
    }
    assert(rv.take(i as int) =~= rv);
    out
}

impl Stats {
    /// Statistics from the counts the index reports; the per-source-type
    /// rows are collected into the sorted breakdown.
    pub fn from_counts(
        chunks: i64,
        files: i64,
        rows: &Vec<(String, i64)>,
        search_log_total: i64,
        search_log_last_7d: i64,
    ) -> (r: Stats)
        ensures
            r.chunks == chunks,
            r.files == files,
            is_sorted_map_of(entry_views(r.source_types@), entry_views(rows@)),
            r.search_log_total == search_log_total,
            r.search_log_last_7d == search_log_last_7d,
    {
        Stats {
            chunks,
            files,
            source_types: sorted_counts(rows),
            search_log_total,
            search_log_last_7d,
        }
    }
}

} // verus!
