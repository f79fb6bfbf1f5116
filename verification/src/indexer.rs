//! Indexing rules: which files are indexed, under which path, which rows a
//! file contributes, and which indexed paths are pruned.

use vstd::prelude::*;
use crate::chunker::{chunk_views, parse_chunks, parse_chunks_spec, strings};
use crate::source_type::{infer, source_type_name, source_type_of_path};
use crate::text::{extend_chars, same_chars, to_chars, to_string, utf8_len};
use crate::writeback::{ends_with_chars, has_suffix, replace_char};

verus! {

broadcast use vstd::seq_lib::group_seq_properties;

#[derive(Debug, Clone)]
pub struct IndexRoot {
    pub dir: String,
    /// Virtual prefix applied to relative paths (e.g. "vault/"), empty for
    /// the primary root.
    pub prefix: String,
}

#[derive(Debug, Clone, Copy)]
pub struct IndexReport {
    pub files_indexed: usize,
    pub files_pruned: usize,
}

impl Default for IndexReport {
    fn default() -> (r: IndexReport)
        ensures
            r.files_indexed == 0,
            r.files_pruned == 0,
    {
        IndexReport { files_indexed: 0, files_pruned: 0 }
    }
}

/// Whether a file name has the extension `md`: it ends in `.md` and the dot
/// is not its first character (`Path::extension` gives none for `.md`).
pub open spec fn is_markdown_name(name: Seq<char>) -> bool {
    name.len() > 3 && has_suffix(name, ".md"@)
}

pub fn is_markdown_file(name: &str) -> (r: bool)
    ensures
        r == is_markdown_name(name@),
{
    let n = to_chars(name);
    n.len() > 3 && ends_with_chars(&n, &to_chars(".md"))
}

/// The path under which a file is indexed: the root's prefix, then the path
/// relative to the root with backslashes turned into slashes.
pub open spec fn virtual_path_spec(prefix: Seq<char>, rel: Seq<char>) -> Seq<char> {
    prefix + replace_char(rel, '\\', "/"@)
}

pub fn virtual_path(prefix: &str, rel: &str) -> (r: String)
    ensures
        r@ == virtual_path_spec(prefix@, rel@),
{
    let r = rel_with_slashes(rel);
    let mut v = to_chars(prefix);
    extend_chars(&mut v, &r);
    to_string(&v)
}

fn rel_with_slashes(rel: &str) -> (r: Vec<char>)
    ensures
        r@ == replace_char(rel@, '\\', "/"@),
{
    let s = to_chars(rel);
    let slash = to_chars("/");
    let mut out: Vec<char> = Vec::new();
    let mut i: usize = 0;
    while i < s.len()
        invariant
            i <= s.len(),
            slash@ == "/"@,
            out@ == replace_char(s@.take(i as int), '\\', "/"@),
        decreases s.len() - i,
    {
        if s[i] == '\\' {
            extend_chars(&mut out, &slash);
        } else {
            out.push(s[i]);
        }
        proof {
            assert(s@.take(i + 1).drop_last() =~= s@.take(i as int));
            assert(s@.take(i + 1).last() == s@[i as int]);
        }
        i = i + 1;
    }
    assert(s@.take(i as int) =~= s@);
    out
}

/// The indexed paths that are no longer on disk, in index order.
pub open spec fn stale_paths_spec(indexed: Seq<Seq<char>>, live: Seq<Seq<char>>) -> Seq<Seq<char>> {
    indexed.filter(|p: Seq<char>| !live.contains(p))
}

fn contains_path(live: &Vec<String>, p: &Vec<char>) -> (r: bool)
    ensures
        r == strings(live@).contains(p@),
{
    let mut i: usize = 0;
    while i < live.len()
        invariant
            i <= live.len(),
            forall|j: int| 0 <= j < i ==> strings(live@)[j] != p@,
        decreases live.len() - i,
    {
        if same_chars(&to_chars(live[i].as_str()), p) {
            assert(strings(live@)[i as int] == p@);
            return true;
        }
        i = i + 1;
    }
    false
}

/// The paths to prune: those indexed but not seen on disk.
pub fn stale_paths(indexed: &Vec<String>, live: &Vec<String>) -> (r: Vec<String>)
    ensures
        strings(r@) == stale_paths_spec(strings(indexed@), strings(live@)),
{
    let ghost iv = strings(indexed@);
    let ghost lv = strings(live@);
    let mut out: Vec<String> = Vec::new();
    let mut i: usize = 0;
    while i < indexed.len()
        invariant
            i <= indexed.len(),
            iv == strings(indexed@),
            lv == strings(live@),
            strings(out@) == stale_paths_spec(iv.take(i as int), lv),
        decreases indexed.len() - i,
    {
        let p = to_chars(indexed[i].as_str());
        proof {
            assert(iv.take(i + 1) =~= iv.take(i as int).push(iv[i as int]));
            iv.take(i as int).lemma_filter_push(iv[i as int], |q: Seq<char>| !lv.contains(q));
        }
        if !contains_path(live, &p) {
            let s = to_string(&p);
            let ghost before = out@;
            out.push(s);
            assert(strings(out@) =~= strings(before).push(s@));
        }
        i = i + 1;
    }
    assert(iv.take(i as int) =~= iv);
    out
}

/// One row of the index: a chunk of a file with the file's source type.
#[derive(Debug, Clone)]
pub struct ChunkRecord {
    pub file: String,
    pub heading: String,
    pub content: String,
    pub source_type: String,
}

/// The rows a file contributes to the index: one per chunk of its text,
/// each carrying the file's path and source type.
pub fn index_records(rel: &str, text: &str) -> (r: Vec<ChunkRecord>)
    requires
        utf8_len(text@) < usize::MAX,
    ensures
        r@.len() == parse_chunks_spec(text@).len(),
        forall|i: int|
            0 <= i < r@.len() ==> {
                &&& (#[trigger] r@[i]).file@ == rel@
                &&& (r@[i].heading@, r@[i].content@) == parse_chunks_spec(text@)[i]
                &&& r@[i].source_type@ == source_type_name(source_type_of_path(rel@))
            },
{
    let chunks = parse_chunks(text);
    let st = infer(rel).as_str();
    let ghost cv = chunk_views(chunks@);
    let mut out: Vec<ChunkRecord> = Vec::new();
    let mut i: usize = 0;
    while i < chunks.len()
        invariant
            i <= chunks.len(),
            cv == chunk_views(chunks@),
            cv == parse_chunks_spec(text@),
            st@ == source_type_name(source_type_of_path(rel@)),
            out@.len() == i,
            forall|j: int|
                0 <= j < i ==> {
                    &&& (#[trigger] out@[j]).file@ == rel@
                    &&& (out@[j].heading@, out@[j].content@) == cv[j]
                    &&& out@[j].source_type@ == st@
                },
        decreases chunks.len() - i,
    {
        let c = &chunks[i];
        out.push(
            ChunkRecord {
                file: String::from_str(rel),
                heading: c.heading.clone(),
                content: c.content.clone(),
                source_type: String::from_str(st),
            },
        );
        i = i + 1;
    }
    out
}

/// A path is pruned exactly when it is indexed and was not seen on disk.
pub proof fn law_prune_only_missing(indexed: Seq<Seq<char>>, live: Seq<Seq<char>>, p: Seq<char>)
    ensures
        stale_paths_spec(indexed, live).contains(p) <==> (indexed.contains(p) && !live.contains(p)),
{
    let f = |q: Seq<char>| !live.contains(q);
    if stale_paths_spec(indexed, live).contains(p) {
        indexed.lemma_filter_contains_rev(f, p);
        let fl = indexed.filter(f);
        let j = choose|j: int| 0 <= j < fl.len() && fl[j] == p;
        indexed.lemma_filter_pred(f, j);
    }
    if indexed.contains(p) && !live.contains(p) {
        let i = choose|i: int| 0 <= i < indexed.len() && indexed[i] == p;
        indexed.lemma_filter_contains(f, i);
    }
}

/// A file indexed under the `vault/` prefix is classified as a vault note,
/// whatever its path below the root.
pub proof fn law_vault_prefix_classifies(rel: Seq<char>)
    ensures
        source_type_of_path(virtual_path_spec("vault/"@, rel)) == crate::source_type::SourceType::Vault,
{
    let p = virtual_path_spec("vault/"@, rel);
    assert(p.take("vault/"@.len() as int) =~= "vault/"@);
}

} // verus!
