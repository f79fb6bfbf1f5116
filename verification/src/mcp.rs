//! The MCP tools' arguments and the text answers they give.

use vstd::prelude::*;
use crate::chunker::strings;
use crate::search::SearchQuery;
use crate::stats::{entry_views, Stats};
use crate::text::{decimal, extend_chars, join_lines, push_decimal, to_chars, to_string};

verus! {

broadcast use vstd::seq_lib::group_seq_properties;

#[derive(Debug, Clone)]
pub struct SearchArgs {
    /// Search query text
    pub query: String,
    /// Number of results to return
    pub top_k: i64,
    /// Only return results from files matching this prefix
    pub filter_file: String,
    /// Only return results with this source type (memory|project|vault|contact)
    pub filter_source_type: String,
}

#[derive(Debug, Clone)]
pub struct WriteMemoryArgs {
    /// Relative path within memory_dir (e.g., "projects/sift.md")
    pub file_path: String,
    /// Markdown content to write
    pub content: String,
    /// If true, append. If false (default), overwrite.
    pub append: bool,
}

#[derive(Debug, Clone)]
pub struct AddFactArgs {
    /// Relative path within memory_dir (e.g., "learnings.md")
    pub file_path: String,
    /// Section heading (e.g., "## Patterns")
    pub section: String,
    /// Fact to add (formatted as "- <fact>")
    pub fact: String,
}

/// Number of results a search tool call asks for when it does not say.
pub fn default_top_k() -> (r: i64)
    ensures
        r == 5,
{
    5
}

impl SearchArgs {
    /// The query a tool call stands for; an empty source type means no
    /// source-type filter.
    pub fn to_query(&self) -> (r: SearchQuery)
        ensures
            r.query@ == self.query@,
            r.top_k == self.top_k,
            r.filter_file@ == self.filter_file@,
            self.filter_source_type@.len() == 0 ==> r.filter_source_type is None,
            self.filter_source_type@.len() > 0 ==> (r.filter_source_type matches Some(s) && s@
                == self.filter_source_type@),
    {
        SearchQuery {
            query: self.query.clone(),
            top_k: self.top_k,
            filter_file: self.filter_file.clone(),
            filter_source_type: if self.filter_source_type.as_str().is_empty() {
                None
            } else {
                Some(self.filter_source_type.clone())
            },
        }
    }
}

/// The first `n` characters of `s` (all of them when it is shorter).
pub open spec fn first_chars(s: Seq<char>, n: nat) -> Seq<char> {
    if s.len() <= n {
        s
    } else {
        s.take(n as int)
    }
}

/// How one hit is shown: `"[file] heading"`, then the first 200 characters
/// of its text indented by two spaces, then a blank line.
pub open spec fn hit_block(file: Seq<char>, heading: Seq<char>, content: Seq<char>) -> Seq<char> {
    "["@ + file + "] "@ + heading + "\n  "@ + first_chars(content, 200) + "\n\n"@
}

pub open spec fn hit_triples(v: Seq<(String, String, String)>) -> Seq<
    (Seq<char>, Seq<char>, Seq<char>),
> {
    v.map_values(|h: (String, String, String)| (h.0@, h.1@, h.2@))
}

pub open spec fn hit_blocks(hs: Seq<(Seq<char>, Seq<char>, Seq<char>)>) -> Seq<char>
    decreases hs.len(),
{
    if hs.len() == 0 {
        seq![]
    } else {
        hit_blocks(hs.drop_last()) + hit_block(hs.last().0, hs.last().1, hs.last().2)
    }
}

/// The search tool's answer for `query` and its hits (file, heading, text).
pub open spec fn search_answer(query: Seq<char>, hs: Seq<(Seq<char>, Seq<char>, Seq<char>)>) -> Seq<
    char,
> {
    if hs.len() == 0 {
        "No results for '"@ + query + "'."@
    } else {
        decimal(hs.len()) + " results for '"@ + query + "':\n\n"@ + hit_blocks(hs)
    }
}

/// The blocks of two runs of hits, one after the other, are the blocks of
/// the first run followed by those of the second: hits are shown in the
/// order given.
pub proof fn law_hit_blocks_concat(
    a: Seq<(Seq<char>, Seq<char>, Seq<char>)>,
    b: Seq<(Seq<char>, Seq<char>, Seq<char>)>,
)
    ensures
        hit_blocks(a + b) == hit_blocks(a) + hit_blocks(b),
    decreases b.len(),
{
    if b.len() == 0 {
        assert(a + b =~= a);
        assert(hit_blocks(a) + hit_blocks(b) =~= hit_blocks(a));
    } else {
        assert((a + b).drop_last() =~= a + b.drop_last());
        law_hit_blocks_concat(a, b.drop_last());
        assert(hit_blocks(a) + hit_blocks(b.drop_last()) + hit_block(
            b.last().0,
            b.last().1,
            b.last().2,
        ) =~= hit_blocks(a) + hit_blocks(b));
    }
}

/// The search answer for at least one hit is the count line, then the first
/// hit shown as `"[file] heading"`, its first 200 characters indented by
/// two spaces and a blank line, then the answer's blocks for the other
/// hits in the order given.
pub proof fn law_search_answer_first_hit(
    query: Seq<char>,
    hs: Seq<(Seq<char>, Seq<char>, Seq<char>)>,
)
    requires
        hs.len() > 0,
    ensures
        search_answer(query, hs) == decimal(hs.len()) + " results for '"@ + query + "':\n\n"@
            + "["@ + hs[0].0 + "] "@ + hs[0].1 + "\n  "@ + (if hs[0].2.len() <= 200 {
            hs[0].2
        } else {
            hs[0].2.take(200)
        }) + "\n\n"@ + hit_blocks(hs.drop_first()),
{
    law_hit_blocks_concat(seq![hs[0]], hs.drop_first());
    assert(seq![hs[0]] + hs.drop_first() =~= hs);
    let one = seq![hs[0]];
    assert(one.drop_last() =~= Seq::<(Seq<char>, Seq<char>, Seq<char>)>::empty());
    assert(one.last() == hs[0]);
    assert(hit_blocks(one.drop_last()) == Seq::<char>::empty());
    assert(hit_blocks(one) =~= hit_block(hs[0].0, hs[0].1, hs[0].2));
    let rest = hit_blocks(hs.drop_first());
    assert(search_answer(query, hs) =~= decimal(hs.len()) + " results for '"@ + query
        + "':\n\n"@ + "["@ + hs[0].0 + "] "@ + hs[0].1 + "\n  "@ + first_chars(hs[0].2, 200)
        + "\n\n"@ + rest);
}

fn push_str(out: &mut Vec<char>, s: &str)
    ensures
        final(out)@ == old(out)@ + s@,
{
    extend_chars(out, &to_chars(s));
}

fn first_chars_exec(s: &Vec<char>, n: usize) -> (r: Vec<char>)
    ensures
        r@ == first_chars(s@, n as nat),
{
    if s.len() <= n {
        crate::text::slice_chars(s, 0, s.len())
    } else {
        crate::text::slice_chars(s, 0, n)
    }
}

pub fn render_search_results(query: &str, hits: &Vec<(String, String, String)>) -> (r: String)
    ensures
        r@ == search_answer(query@, hit_triples(hits@)),
{
    let ghost hs = hit_triples(hits@);
    let mut out: Vec<char> = Vec::new();
    if hits.len() == 0 {
        push_str(&mut out, "No results for '");
        push_str(&mut out, query);
        push_str(&mut out, "'.");
        assert(out@ =~= search_answer(query@, hs));
        return to_string(&out);
    }
    push_decimal(&mut out, hits.len() as u64);
    push_str(&mut out, " results for '");
    push_str(&mut out, query);
    push_str(&mut out, "':\n\n");
    let ghost head = out@;
    let mut i: usize = 0;
    while i < hits.len()
        invariant
            i <= hits.len(),
            hs == hit_triples(hits@),
            out@ == head + hit_blocks(hs.take(i as int)),
        decreases hits.len() - i,
    {
        let h = &hits[i];
        let ghost before = out@;
        push_str(&mut out, "[");
        push_str(&mut out, h.0.as_str());
        push_str(&mut out, "] ");
        push_str(&mut out, h.1.as_str());
        push_str(&mut out, "\n  ");
        let c = first_chars_exec(&to_chars(h.2.as_str()), 200);
        extend_chars(&mut out, &c);
        push_str(&mut out, "\n\n");
        proof {
            assert(hs.take(i + 1).drop_last() =~= hs.take(i as int));
            assert(hs.take(i + 1).last() == hs[i as int]);
            assert(out@ =~= before + hit_block(hs[i as int].0, hs[i as int].1, hs[i as int].2));
        }
        i = i + 1;
    }
    assert(hs.take(i as int) =~= hs);
    assert(out@ =~= search_answer(query@, hs));
    to_string(&out)
}

/// The file-listing tool's answer: one `"- path"` line per file, or a note
/// that nothing is indexed.
pub open spec fn file_list_answer(paths: Seq<Seq<char>>) -> Seq<char> {
    if paths.len() == 0 {
        "No memory files indexed."@
    } else {
        join_lines(paths.map_values(|p: Seq<char>| "- "@ + p))
    }
}

pub fn render_file_list(paths: &Vec<String>) -> (r: String)
    ensures
        r@ == file_list_answer(strings(paths@)),
{
    let ghost pv = strings(paths@);
    if paths.len() == 0 {
        return String::from_str("No memory files indexed.");
    }
    let ghost items = pv.map_values(|p: Seq<char>| "- "@ + p);
    let mut out: Vec<char> = Vec::new();
    let mut i: usize = 0;
    while i < paths.len()
        invariant
            i <= paths.len(),
            pv == strings(paths@),
            items == pv.map_values(|p: Seq<char>| "- "@ + p),
            out@ == join_lines(items.take(i as int)),
        decreases paths.len() - i,
    {
        if i > 0 {
            out.push('\n');
        }
        push_str(&mut out, "- ");
        push_str(&mut out, paths[i].as_str());
        proof {
            assert(items.take(i + 1).drop_last() =~= items.take(i as int));
            assert(items.take(i + 1).last() == items[i as int]);
            if i == 0 {
                assert(out@ =~= items.take(1)[0]);
            } else {
                assert(out@ =~= join_lines(items.take(i as int)) + seq!['\n'] + items[i as int]);
            }
        }
        i = i + 1;
    }
    assert(items.take(i as int) =~= items);
    to_string(&out)
}

/// The decimal numeral of a signed number.
pub open spec fn signed_decimal(n: int) -> Seq<char> {
    if n < 0 {
        "-"@ + decimal((-n) as nat)
    } else {
        decimal(n as nat)
    }
}

fn push_signed(out: &mut Vec<char>, n: i64)
    ensures
        final(out)@ == old(out)@ + signed_decimal(n as int),
{
    if n < 0 {
        push_str(out, "-");
        let m: u64 = ((-(n + 1)) as u64) + 1;
        push_decimal(out, m);
        assert(final(out)@ =~= old(out)@ + signed_decimal(n as int)) by {
            assert(m as int == -(n as int));
        }
    } else {
        push_decimal(out, n as u64);
    }
}

pub open spec fn source_type_lines(es: Seq<(Seq<char>, i64)>) -> Seq<char>
    decreases es.len(),
{
    if es.len() == 0 {
        seq![]
    } else {
        source_type_lines(es.drop_last()) + "  "@ + es.last().0 + ": "@ + signed_decimal(
            es.last().1 as int,
        ) + "\n"@
    }
}

/// The statistics tool's answer.
pub open spec fn stats_answer(s: Stats) -> Seq<char> {
    "Chunks: "@ + signed_decimal(s.chunks as int) + "\nFiles: "@ + signed_decimal(s.files as int)
        + "\nSearch log: "@ + signed_decimal(s.search_log_total as int) + " total, "@
        + signed_decimal(s.search_log_last_7d as int) + " last 7 days\n\nSource types:\n"@
        + source_type_lines(entry_views(s.source_types@))
}

pub fn render_stats(s: &Stats) -> (r: String)
    ensures
        r@ == stats_answer(*s),
{
    let mut out: Vec<char> = Vec::new();
    push_str(&mut out, "Chunks: ");
    push_signed(&mut out, s.chunks);
    push_str(&mut out, "\nFiles: ");
    push_signed(&mut out, s.files);
    push_str(&mut out, "\nSearch log: ");
    push_signed(&mut out, s.search_log_total);
    push_str(&mut out, " total, ");
    push_signed(&mut out, s.search_log_last_7d);
    push_str(&mut out, " last 7 days\n\nSource types:\n");
    let ghost head = out@;
    let ghost es = entry_views(s.source_types@);
    let mut i: usize = 0;
    while i < s.source_types.len()
        invariant
            i <= s.source_types.len(),
            es == entry_views(s.source_types@),
            out@ == head + source_type_lines(es.take(i as int)),
        decreases s.source_types.len() - i,
    {
        let ghost before = out@;
        push_str(&mut out, "  ");
        push_str(&mut out, s.source_types[i].0.as_str());
        push_str(&mut out, ": ");
        push_signed(&mut out, s.source_types[i].1);
        push_str(&mut out, "\n");
        proof {
            assert(es.take(i + 1).drop_last() =~= es.take(i as int));
            assert(es.take(i + 1).last() == es[i as int]);
            assert(out@ =~= before + "  "@ + es[i as int].0 + ": "@ + signed_decimal(
                es[i as int].1 as int,
            ) + "\n"@);
        }
        i = i + 1;
    }
    assert(es.take(i as int) =~= es);
    assert(out@ =~= stats_answer(*s));
    to_string(&out)
}

/// The write tool's answer after a successful write or append.
pub fn render_write_result(append: bool, file_path: &str) -> (r: String)
    ensures
        r@ == (if append {
            "Appended to "@
        } else {
            "Wrote "@
        }) + file_path@,
{
    let mut out = if append {
        to_chars("Appended to ")
    } else {
        to_chars("Wrote ")
    };
    push_str(&mut out, file_path);
    to_string(&out)
}

/// The fact tool's answer after a successful `add_fact`.
pub fn render_fact_added(file_path: &str, section: &str) -> (r: String)
    ensures
        r@ == "Added fact to "@ + file_path@ + " under '"@ + section@ + "'"@,
{
    let mut out = to_chars("Added fact to ");
    push_str(&mut out, file_path);
    push_str(&mut out, " under '");
    push_str(&mut out, section);
    push_str(&mut out, "'");
    to_string(&out)
}

/// A tool's answer when the core reports an error.
pub fn render_tool_error(message: &str) -> (r: String)
    ensures
        r@ == "error: "@ + message@,
{
    let mut out = to_chars("error: ");
    push_str(&mut out, message);
    to_string(&out)
}

} // verus!
