use directive_memory::search::{
    passes_filters, plan_from_blanked, plan_search, select_hits, stored_source_type, truncate,
    SearchQuery,
};

fn query(q: &str) -> SearchQuery {
    SearchQuery { query: q.into(), top_k: 5, ..Default::default() }
}

#[test]
fn sanitizes_punctuation_in_query() {
    let plan = plan_search(&query("fencing? \"quote\"")).unwrap().unwrap();
    assert_eq!(plan.match_query, "fencing   quote");
    assert_eq!(plan.top_k, 5);
    assert_eq!(plan.pool_size, 5);
}

#[test]
fn empty_query_returns_empty() {
    assert!(plan_search(&query("   ")).unwrap().is_none());
    assert!(plan_search(&query("?!.,")).unwrap().is_none());
}

#[test]
fn word_characters_survive_blanking() {
    let plan = plan_search(&query("naïve_test 3638 über-cool")).unwrap().unwrap();
    assert_eq!(plan.match_query, "naïve_test 3638 über cool");
}

#[test]
fn filters_widen_the_candidate_pool() {
    let q = SearchQuery { query: "x".into(), top_k: 3, filter_file: "projects/".into(), ..Default::default() };
    let plan = plan_from_blanked("x", &q).unwrap();
    assert_eq!(plan.pool_size, 12);
    let q = SearchQuery { query: "x".into(), top_k: 0, filter_source_type: Some("vault".into()), ..Default::default() };
    let plan = plan_from_blanked(" x ", &q).unwrap();
    assert_eq!(plan.match_query, "x");
    assert_eq!(plan.top_k, 1);
    assert_eq!(plan.pool_size, 4);
}

#[test]
fn filter_by_file_prefix() {
    let q = SearchQuery { query: "fencing".into(), top_k: 5, filter_file: "projects/".into(), ..Default::default() };
    assert!(passes_filters(&q, "projects/sift.md", "project"));
    assert!(!passes_filters(&q, "alpha.md", "memory"));
}

#[test]
fn filter_by_source_type() {
    let q = SearchQuery { query: "fencing".into(), top_k: 5, filter_source_type: Some("project".into()), ..Default::default() };
    assert!(passes_filters(&q, "projects/sift.md", "project"));
    assert!(!passes_filters(&q, "alpha.md", "memory"));
}

#[test]
fn selection_keeps_order_and_limit() {
    let q = SearchQuery { query: "x".into(), top_k: 2, filter_source_type: Some("project".into()), ..Default::default() };
    let hits = vec![
        ("a.md".to_string(), "memory".to_string()),
        ("projects/b.md".to_string(), "project".to_string()),
        ("projects/c.md".to_string(), "project".to_string()),
        ("projects/d.md".to_string(), "project".to_string()),
    ];
    assert_eq!(select_hits(&q, 2, &hits), vec![1, 2]);
    assert_eq!(select_hits(&query("x"), 10, &hits), vec![0, 1, 2, 3]);
}

#[test]
fn truncation_respects_char_boundaries() {
    assert_eq!(truncate("hello", 300), "hello");
    assert_eq!(truncate("hello", 3), "hel");
    assert_eq!(truncate("aé", 2), "a");
    assert_eq!(truncate("aé", 3), "aé");
    assert_eq!(truncate("日本", 5), "日");
    assert_eq!(truncate("", 0), "");
}

#[test]
fn missing_source_type_defaults_to_memory() {
    assert_eq!(stored_source_type(None), "memory");
    assert_eq!(stored_source_type(Some("vault".into())), "vault");
}

#[test]
fn ascii_query_keeps_only_word_characters_and_whitespace() {
    let plan = plan_search(&query("a+b=c\t(d)_e;f-9")).unwrap().unwrap();
    assert_eq!(plan.match_query, "a b c\t d _e f 9");
    assert!(plan
        .match_query
        .chars()
        .all(|c| c.is_ascii_alphanumeric() || c == '_' || c.is_ascii_whitespace()));
}
