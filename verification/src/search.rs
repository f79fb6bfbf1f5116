//! Search planning: the query sent to the full-text index, the size of the
//! candidate pool, the filters applied to candidates, and the truncation of
//! the text shown for each hit.

use vstd::prelude::*;
use crate::error::CoreError;
use crate::text::{
    char_width, char_width_of, has_prefix, slice_chars, starts_with_chars, to_chars, to_string,
    trim, trim_chars,
};

verus! {

/// Characters that are neither word characters nor whitespace; they are
/// blanked out of a query before it reaches the full-text index.
pub const NON_WORD_PATTERN: &'static str = "[^\\w\\s]";

/// What replacing every match of the regular expression `pattern` in
/// `haystack` by `replacement` yields, or `None` when `pattern` is not a
/// valid regular expression.
pub uninterp spec fn regex_replace_all_result(
    pattern: Seq<char>,
    haystack: Seq<char>,
    replacement: Seq<char>,
) -> Option<Seq<char>>;

/// An ASCII character that `[^\w\s]` does not match: a letter, a digit,
/// `_`, or ASCII whitespace (tab, line feed, vertical tab, form feed,
/// carriage return, space).
pub open spec fn ascii_word_or_space(c: char) -> bool {
    ||| ('a' <= c && c <= 'z')
    ||| ('A' <= c && c <= 'Z')
    ||| ('0' <= c && c <= '9')
    ||| c == '_'
    ||| (0x09 <= (c as u32) && (c as u32) <= 0x0D)
    ||| c == ' '
}

/// Every character of `s` is ASCII.
pub open spec fn is_ascii_text(s: Seq<char>) -> bool {
    forall|i: int| 0 <= i < s.len() ==> (#[trigger] s[i] as u32) < 128
}

/// An ASCII text with every character that `[^\w\s]` matches replaced by a
/// space.
pub open spec fn blank_non_word_ascii(s: Seq<char>) -> Seq<char> {
    s.map_values(|c: char| if ascii_word_or_space(c) { c } else { ' ' })
}

/// `regex::Regex::new(pattern)`, then `Regex::replace_all(haystack,
/// replacement)` on the compiled expression. The contract claims that the
/// outcome is a function of the three arguments: `None` exactly when the
/// pattern does not compile, else the replaced text, both as
/// `regex_replace_all_result` names them. For the one pattern this library
/// uses, `[^\w\s]`, it claims what the crate's documentation gives: the
/// pattern compiles (the crate's default `unicode` features provide `\w`
/// and `\s`), and each match is one character that is neither a word
/// character nor whitespace, so that on an ASCII haystack with the
/// replacement `" "` (which holds no `$` group reference) every ASCII
/// character other than a letter, a digit, `_` or ASCII whitespace becomes
/// a space and the rest stay. Which non-ASCII characters `\w` and `\s`
/// match is left to the crate's Unicode tables and unsaid.
#[verifier::external_body]
fn regex_replace_all(pattern: &str, haystack: &str, replacement: &str) -> (r: Option<String>)
    ensures
        r is Some == regex_replace_all_result(pattern@, haystack@, replacement@) is Some,
        r matches Some(s) ==> regex_replace_all_result(pattern@, haystack@, replacement@) == Some(
            s@,
        ),
        r is None ==> pattern@ != NON_WORD_PATTERN@,
        r matches Some(s) ==> (pattern@ == NON_WORD_PATTERN@ && replacement@ == " "@
            && is_ascii_text(haystack@) ==> s@ == blank_non_word_ascii(haystack@)),
{
    match regex::Regex::new(pattern) {
        Ok(re) => Some(re.replace_all(haystack, replacement).into_owned()),
        Err(_) => None,
    }
}

#[derive(Debug, Clone)]
pub struct SearchQuery {
    pub query: String,
    pub top_k: i64,
    pub filter_file: String,
    pub filter_source_type: Option<String>,
}

impl Default for SearchQuery {
    fn default() -> (r: SearchQuery)
        ensures
            r.query@.len() == 0,
            r.top_k == 0,
            r.filter_file@.len() == 0,
            r.filter_source_type is None,
    {
        SearchQuery {
            query: String::new(),
            top_k: 0,
            filter_file: String::new(),
            filter_source_type: None,
        }
    }
}

/// Whether a query narrows its hits by file prefix or source type.
pub open spec fn has_filters(q: SearchQuery) -> bool {
    q.filter_file@.len() > 0 || q.filter_source_type is Some
}

pub fn query_has_filters(q: &SearchQuery) -> (r: bool)
    ensures
        r == has_filters(*q),
{
    !q.filter_file.as_str().is_empty() || q.filter_source_type.is_some()
}

/// Number of hits a query asks for: its `top_k`, but at least one.
pub open spec fn effective_top_k(q: SearchQuery) -> i64 {
    if q.top_k < 1 {
        1
    } else {
        q.top_k
    }
}

/// What a search sends to the full-text index.
#[derive(Debug, Clone)]
pub struct SearchPlan {
    /// The query with punctuation blanked out and whitespace trimmed.
    pub match_query: String,
    /// How many hits are returned at most.
    pub top_k: i64,
    /// How many candidates are fetched: four times `top_k` when filters will
    /// drop some of them.
    pub pool_size: i64,
}

/// The plan for a query whose punctuation has already been blanked out to
/// `blanked`: none when nothing but whitespace is left.
pub open spec fn plan_for(blanked: Seq<char>, q: SearchQuery) -> Option<(Seq<char>, i64, i64)> {
    let m = trim(blanked);
    if m.len() == 0 {
        None
    } else {
        let k = effective_top_k(q);
        Some((m, k, if has_filters(q) { (k * 4) as i64 } else { k }))
    }
}

pub open spec fn plan_view(p: Option<SearchPlan>) -> Option<(Seq<char>, i64, i64)> {
    match p {
        Some(p) => Some((p.match_query@, p.top_k, p.pool_size)),
        None => None,
    }
}

pub fn plan_from_blanked(blanked: &str, q: &SearchQuery) -> (r: Option<SearchPlan>)
    requires
        has_filters(*q) ==> q.top_k <= i64::MAX / 4,
    ensures
        plan_view(r) == plan_for(blanked@, *q),
{
    let m = trim_chars(&to_chars(blanked));
    if m.len() == 0 {
        return None;
    }
    let top_k = if q.top_k < 1 {
        1
    } else {
        q.top_k
    };
    let filtered = query_has_filters(q);
    let pool_size = if filtered {
        top_k * 4
    } else {
        top_k
    };
    Some(SearchPlan { match_query: to_string(&m), top_k, pool_size })
}

/// What planning a query gives: `None` when the blanking pattern could not
/// be compiled, else the plan for the blanked query.
pub open spec fn search_plan_spec(q: SearchQuery) -> Option<Option<(Seq<char>, i64, i64)>> {
    match regex_replace_all_result(NON_WORD_PATTERN@, q.query@, " "@) {
        Some(b) => Some(plan_for(b, q)),
        None => None,
    }
}

/// Plans a search: blanks every character that is neither a word character
/// nor whitespace, trims, and sizes the candidate pool.
pub fn plan_search(q: &SearchQuery) -> (r: Result<Option<SearchPlan>, CoreError>)
    requires
        has_filters(*q) ==> q.top_k <= i64::MAX / 4,
    ensures
        match r {
            Ok(p) => search_plan_spec(*q) == Some(plan_view(p)),
            Err(e) => search_plan_spec(*q) is None && (e matches CoreError::Other(m)
                && m@ == "invalid search pattern"@),
        },
        r is Ok,
        is_ascii_text(q.query@) ==> (r matches Ok(p) && plan_view(p) == plan_for(
            blank_non_word_ascii(q.query@),
            *q,
        )),
{
    match regex_replace_all(NON_WORD_PATTERN, q.query.as_str(), " ") {
        Some(blanked) => Ok(plan_from_blanked(blanked.as_str(), q)),
        None => Err(CoreError::Other(String::from_str("invalid search pattern"))),
    }
}

/// For an ASCII query, the text a search sends to the full-text index holds
/// nothing but letters, digits, `_` and whitespace: every other character
/// was blanked out.
pub proof fn law_ascii_match_query_clean(q: SearchQuery)
    requires
        is_ascii_text(q.query@),
    ensures
        plan_for(blank_non_word_ascii(q.query@), q) matches Some(pl) ==> forall|i: int|
            0 <= i < pl.0.len() ==> ascii_word_or_space(#[trigger] pl.0[i]),
{
    let b = blank_non_word_ascii(q.query@);
    let p = |c: char| ascii_word_or_space(c);
    assert forall|i: int| 0 <= i < b.len() implies p(#[trigger] b[i]) by {
        assert(b[i] == (if ascii_word_or_space(q.query@[i]) { q.query@[i] } else { ' ' }));
    }
    crate::text::lemma_trim_keeps(b, p);
}

/// Whether a hit from `file`, of source type `st`, survives the query's
/// filters: the file starts with the file filter, and the source type is
/// the one asked for.
pub open spec fn hit_passes(q: SearchQuery, file: Seq<char>, st: Seq<char>) -> bool {
    &&& (q.filter_file@.len() == 0 || has_prefix(file, q.filter_file@))
    &&& match q.filter_source_type {
        Some(f) => st == f@,
        None => true,
    }
}

/// A hit passes the filters exactly when both hold: the file filter is
/// empty or the file starts with it, and there is no source-type filter or
/// the hit's source type equals it. A non-empty file filter that the file
/// does not start with drops the hit whatever the source-type filter says.
pub proof fn law_hit_passes_both_filters(q: SearchQuery, file: Seq<char>, st: Seq<char>)
    ensures
        hit_passes(q, file, st) <==> {
            &&& (q.filter_file@.len() == 0 || (q.filter_file@.len() <= file.len() && forall|i: int|
                0 <= i < q.filter_file@.len() ==> #[trigger] file[i] == q.filter_file@[i]))
            &&& (q.filter_source_type is None || st == q.filter_source_type->0@)
        },
        q.filter_file@.len() > 0 && !(q.filter_file@.len() <= file.len() && forall|i: int|
            0 <= i < q.filter_file@.len() ==> #[trigger] file[i] == q.filter_file@[i])
            ==> !hit_passes(q, file, st),
{
    let ff = q.filter_file@;
    if ff.len() <= file.len() {
        if forall|i: int| 0 <= i < ff.len() ==> #[trigger] file[i] == ff[i] {
            assert(file.take(ff.len() as int) =~= ff);
        }
        if file.take(ff.len() as int) == ff {
            assert forall|i: int| 0 <= i < ff.len() implies #[trigger] file[i] == ff[i] by {
                assert(file.take(ff.len() as int)[i] == file[i]);
            }
        }
    }
}

pub fn passes_filters(q: &SearchQuery, file: &str, source_type: &str) -> (r: bool)
    ensures
        r == hit_passes(*q, file@, source_type@),
{
    let ff = to_chars(q.filter_file.as_str());
    if ff.len() > 0 && !starts_with_chars(&to_chars(file), &ff) {
        return false;
    }
    match &q.filter_source_type {
        Some(f) => crate::text::same_chars(&to_chars(source_type), &to_chars(f.as_str())),
        None => true,
    }
}

/// Indices of the first `n` candidates that pass the filters.
pub open spec fn passing_indices(q: SearchQuery, hits: Seq<(Seq<char>, Seq<char>)>, n: nat) -> Seq<
    int,
>
    decreases n,
{
    if n == 0 {
        seq![]
    } else {
        let prev = passing_indices(q, hits, (n - 1) as nat);
        if n - 1 < hits.len() && hit_passes(q, hits[n - 1].0, hits[n - 1].1) {
            prev.push(n - 1)
        } else {
            prev
        }
    }
}

/// The indices of the hits a search returns: those passing the filters, in
/// candidate order, at most `top_k` of them.
pub open spec fn selected_indices(q: SearchQuery, top_k: int, hits: Seq<(Seq<char>, Seq<char>)>) -> Seq<
    int,
> {
    let all = passing_indices(q, hits, hits.len());
    if all.len() <= top_k {
        all
    } else {
        all.take(top_k)
    }
}

pub open spec fn pair_views(v: Seq<(String, String)>) -> Seq<(Seq<char>, Seq<char>)> {
    v.map_values(|p: (String, String)| (p.0@, p.1@))
}

proof fn lemma_passing_len(q: SearchQuery, hits: Seq<(Seq<char>, Seq<char>)>, n: nat)
    ensures
        passing_indices(q, hits, n).len() <= n,
    decreases n,
{
    if n > 0 {
        lemma_passing_len(q, hits, (n - 1) as nat);
    }
}

proof fn lemma_passing_mono(q: SearchQuery, hits: Seq<(Seq<char>, Seq<char>)>, n: nat, m: nat)
    requires
        n <= m,
    ensures
        passing_indices(q, hits, n).len() <= passing_indices(q, hits, m).len(),
        passing_indices(q, hits, m).take(passing_indices(q, hits, n).len() as int)
            == passing_indices(q, hits, n),
    decreases m - n,
{
    if n < m {
        lemma_passing_mono(q, hits, n, (m - 1) as nat);
        let a = passing_indices(q, hits, n);
        let b = passing_indices(q, hits, (m - 1) as nat);
        let c = passing_indices(q, hits, m);
        assert(c.take(a.len() as int) =~= b.take(a.len() as int));
    } else {
        let a = passing_indices(q, hits, n);
        assert(a.take(a.len() as int) =~= a);
    }
}

/// Chooses which candidates become hits: given each candidate's file and
/// source type, the indices of the first `top_k` that pass the filters.
pub fn select_hits(q: &SearchQuery, top_k: i64, hits: &Vec<(String, String)>) -> (r: Vec<usize>)
    requires
        top_k >= 1,
    ensures
        r@.map_values(|i: usize| i as int) == selected_indices(*q, top_k as int, pair_views(hits@)),
{
    let ghost hv = pair_views(hits@);
    let mut out: Vec<usize> = Vec::new();
    let mut i: usize = 0;
    while i < hits.len()
        invariant
            i <= hits.len(),
            hv == pair_views(hits@),
            top_k >= 1,
            out@.len() < top_k,
            out@.map_values(|j: usize| j as int) == passing_indices(*q, hv, i as nat),
        decreases hits.len() - i,
    {
        let ghost before = out@;
        let keep = passes_filters(q, hits[i].0.as_str(), hits[i].1.as_str());
        if keep {
            out.push(i);
            proof {
                assert(out@.map_values(|j: usize| j as int) =~= before.map_values(|j: usize| j as int).push(i as int));
            }
            if (out.len() as u64) >= (top_k as u64) {
                proof {
                    let all = passing_indices(*q, hv, hv.len());
                    lemma_passing_mono(*q, hv, (i + 1) as nat, hv.len());
                    assert(out@.len() == top_k);
                    assert(all.take(top_k as int) == passing_indices(*q, hv, (i + 1) as nat));
                }
                return out;
            }
        }
        i = i + 1;
    }
    proof {
        assert(hv.len() == i);
    }
    out
}

/// The source type recorded for a hit, `"memory"` when none is.
pub open spec fn stored_source_type_spec(found: Option<Seq<char>>) -> Seq<char> {
    match found {
        Some(s) => s,
        None => "memory"@,
    }
}

pub fn stored_source_type(found: Option<String>) -> (r: String)
    ensures
        r@ == stored_source_type_spec(
            match found {
                Some(s) => Some(s@),
                None => None,
            },
        ),
{
    match found {
        Some(s) => s,
        None => String::from_str("memory"),
    }
}

/// `s` cut to at most `max` bytes, at a character boundary: the longest
/// prefix of `s` whose UTF-8 encoding fits in `max` bytes.
pub fn truncate(s: &str, max: usize) -> (r: String)
    ensures
        r@.len() <= s@.len(),
        r@ == s@.take(r@.len() as int),
        crate::text::utf8_len(r@) <= max,
        r@.len() < s@.len() ==> crate::text::utf8_len(r@) + char_width(s@[r@.len() as int])
            > max,
{
    let v = to_chars(s);
    let mut total: usize = 0;
    let mut i: usize = 0;
    while i < v.len() && char_width_of(v[i]) <= max - total
        invariant
            i <= v.len(),
            total == crate::text::utf8_len(v@.take(i as int)),
            total <= max,
        decreases v.len() - i,
    {
        let w = char_width_of(v[i]);
        proof {
            crate::text::lemma_utf8_len_push(v@.take(i as int), v@[i as int]);
            assert(v@.take(i as int).push(v@[i as int]) =~= v@.take(i + 1));
        }
        total = total + w;
        i = i + 1;
    }
    let part = slice_chars(&v, 0, i);
    assert(part@ =~= v@.take(i as int));
    assert(v@.take(i as int).len() == i);
    to_string(&part)
}

proof fn lemma_passing_props(q: SearchQuery, hits: Seq<(Seq<char>, Seq<char>)>, n: nat)
    requires
        n <= hits.len(),
    ensures
        forall|j: int|
            0 <= j < passing_indices(q, hits, n).len() ==> {
                let i = #[trigger] passing_indices(q, hits, n)[j];
                &&& 0 <= i < n
                &&& hit_passes(q, hits[i].0, hits[i].1)
            },
        forall|a: int, b: int|
            0 <= a < b < passing_indices(q, hits, n).len() ==> #[trigger] passing_indices(
                q,
                hits,
                n,
            )[a] < #[trigger] passing_indices(q, hits, n)[b],
    decreases n,
{
    if n > 0 {
        lemma_passing_props(q, hits, (n - 1) as nat);
        let prev = passing_indices(q, hits, (n - 1) as nat);
        let cur = passing_indices(q, hits, n);
        if n - 1 < hits.len() && hit_passes(q, hits[n - 1].0, hits[n - 1].1) {
            assert(cur == prev.push(n - 1));
            assert forall|j: int| 0 <= j < cur.len() implies {
                let i = #[trigger] cur[j];
                &&& 0 <= i < n
                &&& hit_passes(q, hits[i].0, hits[i].1)
            } by {
                if j < prev.len() {
                    assert(cur[j] == prev[j]);
                }
            }
            assert forall|a: int, b: int| 0 <= a < b < cur.len() implies #[trigger] cur[a]
                < #[trigger] cur[b] by {
                assert(cur[a] == prev[a]);
                if b < prev.len() {
                    assert(cur[b] == prev[b]);
                }
            }
        }
    }
}

proof fn lemma_passing_complete(q: SearchQuery, hits: Seq<(Seq<char>, Seq<char>)>, n: nat)
    requires
        n <= hits.len(),
    ensures
        forall|i: int|
            0 <= i < n && hit_passes(q, hits[i].0, hits[i].1) ==> passing_indices(
                q,
                hits,
                n,
            ).contains(i),
    decreases n,
{
    if n > 0 {
        lemma_passing_complete(q, hits, (n - 1) as nat);
        let prev = passing_indices(q, hits, (n - 1) as nat);
        let cur = passing_indices(q, hits, n);
        let last_passes = hit_passes(q, hits[n - 1].0, hits[n - 1].1);
        if last_passes {
            assert(cur == prev.push(n - 1));
        } else {
            assert(cur == prev);
        }
        assert forall|i: int| 0 <= i < n && hit_passes(q, hits[i].0, hits[i].1) implies cur.contains(
            i,
        ) by {
            if i < n - 1 {
                assert(0 <= i < n - 1 && hit_passes(q, hits[i].0, hits[i].1));
                assert(prev.contains(i));
                let k = choose|k: int| 0 <= k < prev.len() && prev[k] == i;
                assert(cur[k] == prev[k]);
            } else {
                assert(cur[prev.len() as int] == i);
            }
        }
    }
}

/// No passing hit is left out while there is room: a hit that passes the
/// filters and is not selected comes after every selected hit, and `top_k`
/// hits were selected.
pub proof fn law_selection_keeps_earliest_passing(
    q: SearchQuery,
    top_k: int,
    hits: Seq<(Seq<char>, Seq<char>)>,
)
    requires
        top_k >= 1,
    ensures
        forall|i: int|
            0 <= i < hits.len() && hit_passes(q, hits[i].0, hits[i].1) && !(#[trigger] selected_indices(
                q,
                top_k,
                hits,
            ).contains(i)) ==> selected_indices(q, top_k, hits).len() == top_k && forall|j: int|
                0 <= j < top_k ==> selected_indices(q, top_k, hits)[j] < i,
{
    lemma_passing_complete(q, hits, hits.len());
    lemma_passing_props(q, hits, hits.len());
    let all = passing_indices(q, hits, hits.len());
    let sel = selected_indices(q, top_k, hits);
    assert forall|i: int|
        0 <= i < hits.len() && hit_passes(q, hits[i].0, hits[i].1) && !(#[trigger] sel.contains(
            i,
        )) implies sel.len() == top_k && forall|j: int| 0 <= j < top_k ==> sel[j] < i by {
        assert(all.contains(i));
        let k = choose|k: int| 0 <= k < all.len() && all[k] == i;
        if all.len() <= top_k {
            assert(sel == all);
            assert(sel[k] == i);
        } else {
            assert(sel == all.take(top_k));
            if k < top_k {
                assert(sel[k] == i);
            }
            assert forall|j: int| 0 <= j < top_k implies sel[j] < i by {
                assert(sel[j] == all[j]);
                assert(all[j] < all[k]);
            }
        }
    }
}

/// The hits a search returns all pass its filters, come in candidate order
/// without repetition, and number at most `top_k`.
pub proof fn law_selected_hits_pass_filters(
    q: SearchQuery,
    top_k: int,
    hits: Seq<(Seq<char>, Seq<char>)>,
)
    requires
        top_k >= 1,
    ensures
        selected_indices(q, top_k, hits).len() <= top_k,
        forall|j: int|
            0 <= j < selected_indices(q, top_k, hits).len() ==> {
                let i = #[trigger] selected_indices(q, top_k, hits)[j];
                &&& 0 <= i < hits.len()
                &&& hit_passes(q, hits[i].0, hits[i].1)
            },
        forall|a: int, b: int|
            0 <= a < b < selected_indices(q, top_k, hits).len() ==> #[trigger] selected_indices(
                q,
                top_k,
                hits,
            )[a] < #[trigger] selected_indices(q, top_k, hits)[b],
{
    lemma_passing_props(q, hits, hits.len());
    let all = passing_indices(q, hits, hits.len());
    let sel = selected_indices(q, top_k, hits);
    assert forall|j: int| 0 <= j < sel.len() implies #[trigger] sel[j] == all[j] by {}
}

/// A query with nothing but punctuation and whitespace is not sent to the
/// index: the search finds nothing.
pub proof fn law_blank_query_finds_nothing(blanked: Seq<char>, q: SearchQuery)
    requires
        trim(blanked).len() == 0,
    ensures
        plan_for(blanked, q) is None,
{
}

} // verus!
