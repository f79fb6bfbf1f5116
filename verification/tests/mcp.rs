use directive_memory::mcp::{
    render_fact_added, render_file_list, render_search_results, render_stats, render_tool_error,
    render_write_result, SearchArgs,
};
use directive_memory::stats::Stats;

#[test]
fn search_answer_lists_hits() {
    let hits = vec![("a.md".to_string(), "A".to_string(), "fencing quote".to_string())];
    assert_eq!(render_search_results("fencing", &hits), "1 results for 'fencing':\n\n[a.md] A\n  fencing quote\n\n");
    assert_eq!(render_search_results("zzz", &Vec::new()), "No results for 'zzz'.");
}

#[test]
fn search_answer_cuts_text_at_200_chars() {
    let long = "é".repeat(250);
    let hits = vec![("f".to_string(), "h".to_string(), long)];
    let out = render_search_results("q", &hits);
    assert!(out.contains(&format!("  {}\n\n", "é".repeat(200))));
    assert!(!out.contains(&"é".repeat(201)));
}

#[test]
fn file_list_answer() {
    assert_eq!(render_file_list(&Vec::new()), "No memory files indexed.");
    assert_eq!(render_file_list(&vec!["a.md".to_string(), "b/c.md".to_string()]), "- a.md\n- b/c.md");
}

#[test]
fn stats_answer() {
    let rows = vec![("project".to_string(), 1), ("memory".to_string(), 12)];
    let s = Stats::from_counts(13, 2, &rows, 7, -1);
    assert_eq!(
        render_stats(&s),
        "Chunks: 13\nFiles: 2\nSearch log: 7 total, -1 last 7 days\n\nSource types:\n  memory: 12\n  project: 1\n"
    );
}

#[test]
fn write_and_fact_answers() {
    assert_eq!(render_write_result(true, "x.md"), "Appended to x.md");
    assert_eq!(render_write_result(false, "x.md"), "Wrote x.md");
    assert_eq!(render_fact_added("l.md", "## P"), "Added fact to l.md under '## P'");
    assert_eq!(render_tool_error("invalid path: x"), "error: invalid path: x");
}

#[test]
fn empty_source_type_means_no_filter() {
    let a = SearchArgs { query: "q".into(), top_k: 5, filter_file: "".into(), filter_source_type: "".into() };
    assert!(a.to_query().filter_source_type.is_none());
    let a = SearchArgs { query: "q".into(), top_k: 5, filter_file: "p/".into(), filter_source_type: "vault".into() };
    let q = a.to_query();
    assert_eq!(q.filter_source_type.as_deref(), Some("vault"));
    assert_eq!(q.filter_file, "p/");
}
