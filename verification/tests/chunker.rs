use directive_memory::chunker::{parse_chunks, split_by_paragraphs, MAX_CHUNK_CHARS};

#[test]
fn splits_on_headings() {
    let md = "# Top\nintro\n\n## One\nalpha\n\n## Two\nbeta\n";
    let chunks = parse_chunks(md);
    let headings: Vec<&str> = chunks.iter().map(|c| c.heading.as_str()).collect();
    assert_eq!(headings, vec!["Top", "One", "Two"]);
}

#[test]
fn preamble_before_heading_uses_top_heading() {
    let chunks = parse_chunks("just some text\nno heading\n");
    assert_eq!(chunks.len(), 1);
    assert_eq!(chunks[0].heading, "(top)");
    assert!(chunks[0].content.contains("just some text"));
}

#[test]
fn drops_empty_sections() {
    let chunks = parse_chunks("# Empty\n\n## Real\ncontent\n");
    assert_eq!(chunks.len(), 1);
    assert_eq!(chunks[0].heading, "Real");
}

#[test]
fn large_section_is_subchunked_with_numbered_headings() {
    let para = "sentence. ".repeat(100); // ~1000 chars
    let md = format!("# Big\n\n{para}\n\n{para}\n");
    let chunks = parse_chunks(&md);
    assert!(chunks.len() >= 2);
    assert!(chunks[0].heading.starts_with("Big ("));
    assert!(chunks.iter().all(|c| c.content.len() <= MAX_CHUNK_CHARS * 2));
}

#[test]
fn short_section_below_limit_is_single_chunk() {
    let chunks = parse_chunks("# Small\nshort content here\n");
    assert_eq!(chunks.len(), 1);
    assert_eq!(chunks[0].heading, "Small");
}

#[test]
fn hard_split_fires_on_single_huge_paragraph() {
    let huge_paragraph = (0..500)
        .map(|i| format!("line {i} with some content here"))
        .collect::<Vec<_>>()
        .join("\n");
    let md = format!("# Giant\n{huge_paragraph}\n");
    let chunks = parse_chunks(&md);
    assert!(chunks.len() >= 2, "hard-split path should produce multiple chunks");
    for c in &chunks {
        assert!(
            c.content.len() <= MAX_CHUNK_CHARS * 2,
            "each chunk content must stay within the 2x bound; got {}",
            c.content.len()
        );
    }
}

#[test]
fn many_small_paragraphs_cluster_into_one_chunk() {
    let paragraphs: Vec<String> = (0..10).map(|i| format!("short para {i}.")).collect();
    let md = format!("# Cluster\n{}\n", paragraphs.join("\n\n"));
    let chunks = parse_chunks(&md);
    assert_eq!(chunks.len(), 1, "small paragraphs should not subdivide");
    assert_eq!(chunks[0].heading, "Cluster");
    for p in &paragraphs {
        assert!(chunks[0].content.contains(p), "missing paragraph: {p}");
    }
}

#[test]
fn numbered_headings_count_from_one() {
    let para = "word ".repeat(200);
    let md = format!("# Big\n{para}\n\n{para}\n");
    let chunks = parse_chunks(&md);
    assert_eq!(chunks.len(), 2);
    assert_eq!(chunks[0].heading, "Big (1)");
    assert_eq!(chunks[1].heading, "Big (2)");
    assert_eq!(chunks[0].content, para.trim());
}

#[test]
fn five_hashes_is_not_a_heading() {
    let chunks = parse_chunks("##### deep\n#nospace\n####\ttabbed  \nbody\n");
    assert_eq!(chunks.len(), 2);
    assert_eq!(chunks[0].heading, "(top)");
    assert_eq!(chunks[0].content, "##### deep\n#nospace");
    assert_eq!(chunks[1].heading, "tabbed");
    assert_eq!(chunks[1].content, "body");
}

#[test]
fn crlf_lines_lose_their_carriage_return() {
    let chunks = parse_chunks("# A\r\nline one\r\nline two\r\n");
    assert_eq!(chunks.len(), 1);
    assert_eq!(chunks[0].heading, "A");
    assert_eq!(chunks[0].content, "line one\nline two");
}

#[test]
fn empty_document_has_no_chunks() {
    assert!(parse_chunks("").is_empty());
    assert!(parse_chunks("# Only a heading\n").is_empty());
}

#[test]
fn heading_without_body_keeps_previous_heading_only_if_body() {
    let chunks = parse_chunks("# A\n# B\ntext\n");
    assert_eq!(chunks.len(), 1);
    assert_eq!(chunks[0].heading, "B");
}

#[test]
fn paragraphs_pack_until_limit() {
    let out = split_by_paragraphs("aaa\nbbb\n\nccc\n\n\nddd", 10);
    assert_eq!(out, vec!["aaa\nbbb".to_string(), "ccc\nddd".to_string()]);
}

#[test]
fn paragraphs_keep_every_nonblank_line() {
    let text = "one\n  \ntwo\nthree\n\nfour";
    let out = split_by_paragraphs(text, 5);
    let joined: Vec<String> = out.iter().flat_map(|c| c.lines().map(|l| l.to_string())).collect();
    assert_eq!(joined, vec!["one", "two", "three", "four"]);
}

#[test]
fn hard_split_cuts_long_buffer() {
    // Four lines of 4 bytes (cost 5 each): cost 20 > 2 * 4, so lines are cut
    // off while the taken cost stays below 4: one line at a time.
    let out = split_by_paragraphs("abcd\nefgh\nijkl\nmnop", 4);
    assert_eq!(out, vec!["abcd", "efgh", "ijkl", "mnop"]);
}

#[test]
fn byte_length_counts_multibyte_characters() {
    // "é" is two bytes: each line costs 3, the paragraph costs 6 > 5.
    let out = split_by_paragraphs("é\n\né", 5);
    assert_eq!(out, vec!["é", "é"]);
    let out = split_by_paragraphs("e\n\ne", 5);
    assert_eq!(out, vec!["e\ne"]);
}

#[test]
fn split_texts_stay_within_twice_the_limit() {
    // Every line is at most 6 bytes; every text is then at most 12 bytes.
    let text = "abcdef\nabc\nabcdef\n\nab\nabcdef\nabcdef\nabcdef\n\nxyz";
    let out = split_by_paragraphs(text, 6);
    assert!(!out.is_empty());
    for c in &out {
        assert!(c.len() <= 12, "{c:?} is {} bytes", c.len());
    }
}

#[test]
fn split_texts_give_back_the_nonblank_lines() {
    let text = "alpha\nbeta\n\n\ngamma\n   \ndelta\nepsilon\n\nzeta";
    let out = split_by_paragraphs(text, 8);
    let pieces: Vec<&str> = out.iter().flat_map(|c| c.split('\n')).collect();
    let nonblank: Vec<&str> = text.lines().filter(|l| !l.trim().is_empty()).collect();
    assert_eq!(pieces, nonblank);
    assert!(out.iter().all(|c| !c.is_empty()));
}
