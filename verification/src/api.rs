//! The HTTP API's request and response bodies and its access rule.

use vstd::prelude::*;
use crate::search::SearchQuery;
use crate::text::{has_prefix, same_chars, slice_chars, starts_with_chars, to_chars};

verus! {

#[derive(Debug, Clone)]
pub struct FactBody {
    pub file: String,
    pub section: String,
    pub fact: String,
}

#[derive(Debug, Clone)]
pub struct FileContent {
    pub path: String,
    pub content: String,
}

#[derive(Debug, Clone)]
pub struct WriteBody {
    pub content: String,
}

#[derive(Debug, Clone)]
pub struct OkResponse {
    pub ok: bool,
    pub path: String,
}

#[derive(Debug, Clone)]
pub struct SearchParams {
    pub q: String,
    pub top_k: i64,
    pub source_type: Option<String>,
    pub file_prefix: Option<String>,
}

#[derive(Debug, Clone, Copy)]
pub struct ReindexResponse {
    pub files_indexed: usize,
    pub files_pruned: usize,
}

/// Number of hits a search request asks for when it does not say.
pub fn default_top_k() -> (r: i64)
    ensures
        r == 5,
{
    5
}

pub open spec fn opt_string_view(s: Option<String>) -> Option<Seq<char>> {
    match s {
        Some(t) => Some(t@),
        None => None,
    }
}

impl SearchParams {
    /// The query a search request stands for; no file prefix means no file
    /// filter.
    pub fn to_query(&self) -> (r: SearchQuery)
        ensures
            r.query@ == self.q@,
            r.top_k == self.top_k,
            r.filter_file@ == (match self.file_prefix {
                Some(p) => p@,
                None => Seq::<char>::empty(),
            }),
            opt_string_view(r.filter_source_type) == opt_string_view(self.source_type),
    {
        SearchQuery {
            query: self.q.clone(),
            top_k: self.top_k,
            filter_file: match &self.file_prefix {
                Some(p) => p.clone(),
                None => String::new(),
            },
            filter_source_type: match &self.source_type {
                Some(s) => Some(s.clone()),
                None => None,
            },
        }
    }
}

/// Whether a request may use the API: a key must be configured, and the
/// request must carry it in `x-api-key` or as `Authorization: Bearer <key>`.
pub open spec fn key_accepted(
    expected: Seq<char>,
    x_api_key: Option<Seq<char>>,
    authorization: Option<Seq<char>>,
) -> bool {
    &&& expected.len() > 0
    &&& {
        ||| x_api_key == Some(expected)
        ||| (authorization matches Some(a) && has_prefix(a, "Bearer "@) && a.skip(7) == expected)
    }
}

pub open spec fn opt_str_view(s: Option<&str>) -> Option<Seq<char>> {
    match s {
        Some(t) => Some(t@),
        None => None,
    }
}

/// Decides a request's access from the configured key and the values of
/// its `x-api-key` and `Authorization` headers (`None` when absent or not
/// visible ASCII).
pub fn api_key_accepted(expected: &str, x_api_key: Option<&str>, authorization: Option<&str>) -> (r:
    bool)
    ensures
        r == key_accepted(expected@, opt_str_view(x_api_key), opt_str_view(authorization)),
{
    proof {
        reveal_strlit("Bearer ");
    }
    let e = to_chars(expected);
    if e.len() == 0 {
        return false;
    }
    let by_header = match x_api_key {
        Some(k) => same_chars(&to_chars(k), &e),
        None => false,
    };
    if by_header {
        return true;
    }
    match authorization {
        Some(a) => {
            let av = to_chars(a);
            if starts_with_chars(&av, &to_chars("Bearer ")) {
                let rest = slice_chars(&av, 7, av.len());
                assert(rest@ =~= av@.skip(7));
                same_chars(&rest, &e)
            } else {
                false
            }
        },
        None => false,
    }
}

/// Without a configured key, no request is let in.
pub proof fn law_no_key_no_access(x_api_key: Option<Seq<char>>, authorization: Option<Seq<char>>)
    ensures
        !key_accepted(Seq::<char>::empty(), x_api_key, authorization),
{
}

/// A request that presents the configured key in `x-api-key` is let in.
pub proof fn law_matching_key_accepted(expected: Seq<char>, authorization: Option<Seq<char>>)
    requires
        expected.len() > 0,
    ensures
        key_accepted(expected, Some(expected), authorization),
{
}

} // verus!
