use directive_memory::config::{Config, ExtraDir};
use directive_memory::indexer::{index_records, is_markdown_file, stale_paths, virtual_path, IndexReport};
use directive_memory::source_type::{infer, SourceType};
use directive_memory::stats::Stats;

#[test]
fn applies_prefix_for_external_roots() {
    let rel = virtual_path("vault/", "note.md");
    assert_eq!(rel, "vault/note.md");
    assert_eq!(infer(&rel), SourceType::Vault);
    let rows = index_records(&rel, "# Note\ntext");
    assert_eq!(rows.len(), 1);
    assert_eq!(rows[0].file, "vault/note.md");
    assert_eq!(rows[0].source_type, "vault");
    assert_eq!(rows[0].heading, "Note");
    assert_eq!(rows[0].content, "text");
}

#[test]
fn backslashes_become_slashes() {
    assert_eq!(virtual_path("", "daily\\2026.md"), "daily/2026.md");
}

#[test]
fn only_markdown_files_are_indexed() {
    assert!(is_markdown_file("a.md"));
    assert!(is_markdown_file(".hidden.md"));
    assert!(!is_markdown_file(".md"));
    assert!(!is_markdown_file("a.mdx"));
    assert!(!is_markdown_file("a.txt"));
}

#[test]
fn prunes_only_missing_paths() {
    let indexed = vec!["a.md".to_string(), "b.md".to_string(), "c.md".to_string()];
    let live = vec!["c.md".to_string(), "a.md".to_string()];
    assert_eq!(stale_paths(&indexed, &live), vec!["b.md".to_string()]);
    assert!(stale_paths(&indexed, &indexed).is_empty());
}

#[test]
fn default_config_and_roots() {
    let mut cfg = Config::default();
    assert_eq!(cfg.memory_dir, "./memory");
    assert_eq!(cfg.db_path, "./data/memory.db");
    assert_eq!(cfg.port, 3001);
    assert_eq!(cfg.api_key, "");
    assert_eq!(cfg.bind, "127.0.0.1");
    cfg.extra_dirs.push(ExtraDir { dir: "/home/you/second_brain".into(), prefix: "vault/".into() });
    let roots = cfg.index_roots();
    assert_eq!(roots.len(), 2);
    assert_eq!(roots[0].dir, "./memory");
    assert_eq!(roots[0].prefix, "");
    assert_eq!(roots[1].dir, "/home/you/second_brain");
    assert_eq!(roots[1].prefix, "vault/");
    let r = IndexReport::default();
    assert_eq!((r.files_indexed, r.files_pruned), (0, 0));
}

#[test]
fn sorted_counts_keep_last_row() {
    let rows = vec![("project".to_string(), 1), ("memory".to_string(), 1), ("project".to_string(), 3)];
    let s = Stats::from_counts(2, 2, &rows, 0, 0);
    assert_eq!(s.files, 2);
    assert!(s.chunks >= 2);
    assert_eq!(s.source_types, vec![("memory".to_string(), 1), ("project".to_string(), 3)]);
}
