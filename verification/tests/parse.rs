use lore::frontmatter::split_frontmatter;
use lore::headings::collect;
use lore::links::extract_links;
use lore::obsidian::{detect_dataview_ranges, DATAVIEW_MARKER};
use lore::parse::parse_document;
use lore::summary::{first_sentence, SUMMARY_MAX};
use lore::types::LinkKind;

// ---- frontmatter ----------------------------------------------------------

#[test]
fn no_frontmatter_returns_src_unchanged() {
    let src = "# Hi\n";
    let (fm, body, off) = split_frontmatter(src);
    assert!(fm.is_none());
    assert_eq!(body, src);
    assert_eq!(off, 0);
}

#[test]
fn yaml_frontmatter_peeled() {
    let src = "---\ntitle: Hello\ntags:\n  - a\n---\n# Body\n";
    let (fm, body, off) = split_frontmatter(src);
    let fm = fm.expect("should have frontmatter");
    assert_eq!(fm.data.get("title").and_then(|v| v.as_str()), Some("Hello"));
    assert!(body.starts_with("# Body"));
    assert_eq!(&src[off as usize..off as usize + 6], "# Body");
}

#[test]
fn handles_crlf_line_endings() {
    let src = "---\r\ntitle: x\r\n---\r\n# Body\r\n";
    let (fm, body, off) = split_frontmatter(src);
    assert!(fm.is_some());
    assert!(body.starts_with("# Body"));
    assert_eq!(&src[off as usize..off as usize + 6], "# Body");
}

#[test]
fn unterminated_frontmatter_falls_through() {
    let src = "---\ntitle: x\n# No close\n";
    let (fm, body, off) = split_frontmatter(src);
    assert!(fm.is_none());
    assert_eq!(off, 0);
    assert_eq!(body, src);
}

#[test]
fn dots_alone_do_not_close_a_frontmatter_block() {
    let src = "---\ntitle: x\n...\nrest\n";
    let (fm, body, off) = split_frontmatter(src);
    assert!(fm.is_none());
    assert_eq!(body, src);
    assert_eq!(off, 0);
}

#[test]
fn empty_frontmatter_block_is_not_peeled() {
    let src = "---\n---\n# Body\n";
    let (fm, body, off) = split_frontmatter(src);
    assert!(fm.is_none());
    assert_eq!(body, src);
    assert_eq!(off, 0);
}

#[test]
fn frontmatter_numbers_keep_their_text() {
    let src = "---\nweight: 12\n---\nx\n";
    let (fm, _, _) = split_frontmatter(src);
    let fm = fm.unwrap();
    match fm.data.get("weight") {
        Some(lore::json::Json::Number(n)) => assert_eq!(n, "12"),
        other => panic!("unexpected {:?}", other),
    }
}

// ---- headings -------------------------------------------------------------

#[test]
fn atx_headings_detected() {
    let src = "# A\n\n## B\n\n### C\n";
    let hs = collect(src, 0);
    assert_eq!(hs.len(), 3);
    assert_eq!(hs[0].level, 1);
    assert_eq!(hs[0].text, "A");
    assert_eq!(hs[2].level, 3);
    assert_eq!(hs[2].text, "C");
}

#[test]
fn inline_code_in_heading_is_included_as_text() {
    let src = "## Use `cargo test`\n";
    let hs = collect(src, 0);
    assert_eq!(hs[0].text, "Use cargo test");
}

#[test]
fn offsets_are_shifted_by_body_offset() {
    let body = "# Title\n";
    let shifted = collect(body, 100);
    assert_eq!(shifted[0].offset, 100);
}

#[test]
fn setext_headings_detected() {
    let src = "Title\n=====\n\nBody\n";
    let hs = collect(src, 0);
    assert_eq!(hs.len(), 1);
    assert_eq!(hs[0].level, 1);
    assert_eq!(hs[0].text, "Title");
}

#[test]
fn heading_body_start_is_after_the_heading_line() {
    let hs = collect("# A\nbody\n", 10);
    assert_eq!(hs[0].offset, 10);
    assert_eq!(hs[0].body_start, 14);
}

// ---- links ----------------------------------------------------------------

#[test]
fn inline_link_with_text() {
    let body = "see [the docs](https://example.com)";
    let links = extract_links(body, 0);
    assert_eq!(links.len(), 1);
    assert_eq!(links[0].kind, LinkKind::Inline);
    assert_eq!(links[0].target, "https://example.com");
    assert_eq!(links[0].text.as_deref(), Some("the docs"));
}

#[test]
fn wiki_link_with_alias() {
    let body = "hello [[Some Page|its alias]] world";
    let links = extract_links(body, 0);
    assert_eq!(links.len(), 1);
    assert_eq!(links[0].kind, LinkKind::Wiki);
    assert_eq!(links[0].target, "Some Page");
    assert_eq!(links[0].text.as_deref(), Some("its alias"));
}

#[test]
fn wiki_link_in_code_fence_is_ignored() {
    let body = "```\n[[should_not_count]]\n```\n[[real_one]]\n";
    let links = extract_links(body, 0);
    assert_eq!(links.len(), 1);
    assert_eq!(links[0].target, "real_one");
}

#[test]
fn wiki_link_in_inline_code_is_ignored() {
    let body = "Use `[[code]]` or [[real]]";
    let links = extract_links(body, 0);
    assert_eq!(links.len(), 1);
    assert_eq!(links[0].target, "real");
}

#[test]
fn offsets_shifted_by_body_offset() {
    let body = "[x](y)";
    let links = extract_links(body, 100);
    assert_eq!(links[0].offset, 100);
}

#[test]
fn links_come_out_in_offset_order() {
    let body = "[[wiki]] then [inline](t) then [[again]]";
    let links = extract_links(body, 0);
    let offsets: Vec<u32> = links.iter().map(|l| l.offset).collect();
    assert_eq!(offsets, vec![0, 14, 31]);
    assert_eq!(links[1].kind, LinkKind::Inline);
}

#[test]
fn inline_link_text_equal_to_target_is_dropped() {
    let links = extract_links("[y](y)", 0);
    assert_eq!(links[0].text, None);
}

#[test]
fn blank_wiki_target_is_skipped() {
    let links = extract_links("[[ |alias]] and [[ok]]", 0);
    assert_eq!(links.len(), 1);
    assert_eq!(links[0].target, "ok");
}

// ---- dataview -------------------------------------------------------------

#[test]
fn dataview_block_is_detected() {
    let body = "# A\n\n```dataview\nTABLE x FROM \"notes\"\n```\n\nrest\n";
    let ranges = detect_dataview_ranges(body, 0);
    assert_eq!(ranges.len(), 1);
    let (s, e) = ranges[0];
    assert!((s as usize) < (e as usize));
    assert!(body[s as usize..e as usize].contains("dataview"));
}

#[test]
fn non_dataview_blocks_are_ignored() {
    let body = "```rust\nfn main() {}\n```\n```python\nprint('x')\n```\n";
    assert!(detect_dataview_ranges(body, 0).is_empty());
}

#[test]
fn dataviewjs_is_not_dataview() {
    let body = "```dataviewjs\ndv.table([], [])\n```\n";
    assert!(detect_dataview_ranges(body, 0).is_empty());
}

#[test]
fn ranges_shift_by_body_offset() {
    let body = "```dataview\nTABLE x\n```\n";
    let ranges = detect_dataview_ranges(body, 100);
    assert_eq!(ranges[0].0, 100);
}

#[test]
fn dataview_info_string_ignores_case_and_padding() {
    let body = "```  DataView \nLIST\n```\n";
    assert_eq!(detect_dataview_ranges(body, 0).len(), 1);
    assert_eq!(DATAVIEW_MARKER, "[dataview query]");
}

// ---- summaries ------------------------------------------------------------

#[test]
fn extracts_first_sentence() {
    let body = "This is the hook. This is the rest of the body.\n";
    assert_eq!(first_sentence(body), "This is the hook.");
}

#[test]
fn skips_code_blocks() {
    let body = "```rust\nfn main() {}\n```\nThe real sentence here.\n";
    assert_eq!(first_sentence(body), "The real sentence here.");
}

#[test]
fn truncates_when_no_sentence_break() {
    let body = "a".repeat(400);
    let s = first_sentence(&body);
    assert!(s.len() <= SUMMARY_MAX + 4);
    assert!(s.ends_with('…'));
}

#[test]
fn empty_returns_empty() {
    assert_eq!(first_sentence(""), "");
    assert_eq!(first_sentence("   \n\n"), "");
}

#[test]
fn truncation_keeps_exactly_the_grapheme_prefix() {
    let body = "b".repeat(300);
    let s = first_sentence(&body);
    assert_eq!(s, format!("{}…", "b".repeat(SUMMARY_MAX)));
}

#[test]
fn question_and_exclamation_end_sentences() {
    assert_eq!(first_sentence("Why? Because."), "Why?");
    assert_eq!(first_sentence("Stop! Now."), "Stop!");
    assert_eq!(first_sentence("v1.2 is out"), "v1.2 is out");
}

// ---- whole documents ------------------------------------------------------

#[test]
fn parses_simple_doc() {
    let src = "# Title\n\nparagraph\n\n## Child\n\nmore\n";
    let doc = parse_document(src).unwrap();
    assert!(doc.frontmatter.is_none());
    assert_eq!(doc.headings.len(), 2);
    assert_eq!(doc.headings[0].level, 1);
    assert_eq!(doc.headings[0].text, "Title");
    assert_eq!(doc.headings[1].level, 2);
    assert_eq!(doc.headings[1].text, "Child");
}

#[test]
fn offsets_reference_original_source_even_with_frontmatter() {
    let src = "---\ntitle: Hi\n---\n# Heading\n";
    let doc = parse_document(src).unwrap();
    assert!(doc.frontmatter.is_some());
    assert_eq!(doc.headings.len(), 1);
    let h = &doc.headings[0];
    assert_eq!(&src.as_bytes()[h.offset as usize..][..1], b"#");
}

#[test]
fn parse_reports_source_length_and_dataview() {
    let src = "# A\n\n```dataview\nLIST\n```\n";
    let doc = parse_document(src).unwrap();
    assert_eq!(doc.source_len as usize, src.len());
    assert_eq!(doc.dataview_ranges.len(), 1);
}
