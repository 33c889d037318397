use lore::corpus::{canonical_link_keys, trigrams_of, CorpusIndex, DocId, Field};
use lore::document::build_document;
use lore::json::Json;
use lore::model::DocumentIndex;
use lore::query::{is_walkable, Traversal};
use lore::okf::{
    concept_type, days_from_civil, is_declared_stale, stale_after, status, trust_tier, TrustTier,
};
use lore::types::{HeadingPath, NodeId, SourceId};

fn build(src: &str) -> DocumentIndex {
    build_document(SourceId::new("test"), "t.md", src).unwrap()
}

fn s(text: &str) -> Json {
    Json::Str(text.to_string())
}

fn obj(members: Vec<(&str, Json)>) -> Json {
    Json::Object(members.into_iter().map(|(k, v)| (k.to_string(), v)).collect())
}

// ---- builder ----------------------------------------------------------------

#[test]
fn single_heading_document() {
    let src = "# Only\n\nbody.\n";
    let doc = build(src);
    assert_eq!(doc.nodes.len(), 1);
    let n = &doc.nodes[0];
    assert_eq!(n.level, 1);
    assert_eq!(n.title, "Only");
    assert_eq!(n.byte_range.end, src.len() as u32);
}

#[test]
fn nested_headings_build_tree() {
    let src = "# A\n\n## B\n\n### C\n\n## D\n\n# E\n";
    let doc = build(src);
    assert_eq!(doc.nodes.len(), 5);
    assert_eq!(doc.roots, vec![NodeId(0), NodeId(4)]);
    assert_eq!(doc.nodes[0].children, vec![NodeId(1), NodeId(3)]);
    assert_eq!(doc.nodes[1].children, vec![NodeId(2)]);
    assert_eq!(doc.nodes[4].children, vec![]);
    assert_eq!(doc.nodes[2].path.to_string(), "A > B > C");
}

#[test]
fn byte_ranges_are_contiguous_at_each_level() {
    let src = "# A\n\nbody\n\n# B\n\nmore\n";
    let doc = build(src);
    assert_eq!(doc.nodes[0].byte_range.end, doc.nodes[1].byte_range.start);
    assert_eq!(doc.nodes[1].byte_range.end, src.len() as u32);
}

#[test]
fn link_attached_to_deepest_node() {
    let src = "# A\n\n## B\n\nsee [x](y)\n";
    let doc = build(src);
    assert_eq!(doc.nodes[0].outbound_links.len(), 0);
    assert_eq!(doc.nodes[1].outbound_links.len(), 1);
    assert_eq!(doc.nodes[1].outbound_links[0].target, "y");
}

#[test]
fn summary_is_first_sentence() {
    let src = "# H\n\nHook sentence. Extra prose.\n";
    let doc = build(src);
    assert_eq!(doc.nodes[0].summary, "Hook sentence.");
}

#[test]
fn skipped_heading_level_still_parents_correctly() {
    let src = "# A\n\n### C\n";
    let doc = build(src);
    assert_eq!(doc.nodes[1].parent, Some(NodeId(0)));
    assert_eq!(doc.nodes[0].children, vec![NodeId(1)]);
}

#[test]
fn document_records_hash_offsets_and_frontmatter() {
    let src = "---\ntitle: T\n---\n# A\n\ntext\n";
    let doc = build(src);
    assert_eq!(doc.source_len, src.len() as u32);
    assert_eq!(doc.body_offset, 17);
    assert_eq!(doc.file_hash, xxhash_rust::xxh3::xxh3_64(src.as_bytes()));
    assert!(doc.frontmatter.is_some());
    assert_eq!(doc.nodes[0].byte_range.start, 17);
    assert_eq!(doc.rel_path, "t.md");
}

#[test]
fn dataview_section_is_marked() {
    let src = "# A\n\n```dataview\nLIST\n```\n\n# B\n\ntext\n";
    let doc = build(src);
    assert_eq!(doc.nodes[0].kind.as_deref(), Some("dataview"));
    assert_eq!(doc.nodes[1].kind, None);
}

#[test]
fn document_without_headings_has_no_nodes() {
    let doc = build("just prose\n");
    assert!(doc.nodes.is_empty());
    assert!(doc.roots.is_empty());
}

// ---- corpus ------------------------------------------------------------------

#[test]
fn indices_built_after_push() {
    let mut corp = CorpusIndex::new(SourceId::new("k"), "/tmp".to_string());
    let doc = build_document(SourceId::new("k"), "a.md", "# Hello\n\n## Sub\n").unwrap();
    corp.push_document(doc);
    corp.rebuild_indices();

    assert!(corp.heading_lookup.contains_key(&HeadingPath::new(&["Hello"])));
    assert!(corp
        .heading_lookup
        .contains_key(&HeadingPath::new(&["Hello", "Sub"])));
    assert_eq!(corp.path_to_doc.get("a.md"), Some(DocId(0)));
}

#[test]
fn trigrams_lowercase_and_ascii_only() {
    let ts: Vec<[u8; 3]> = trigrams_of("Hello world");
    assert!(ts.contains(b"hel"));
    assert!(ts.contains(b"o w"));
}

#[test]
fn trigrams_skip_windows_with_other_bytes() {
    let ts = trigrams_of("a.bc_d");
    assert_eq!(ts, vec![*b"bc ", *b"c d"]);
}

#[test]
fn canonical_keys_cover_obsidian_shapes() {
    let keys = canonical_link_keys("folder/Page.md#Heading");
    assert!(keys.contains(&"folder/page.md#heading".to_string()));
    assert!(keys.contains(&"folder/page.md".to_string()));
    assert!(keys.contains(&"folder/page".to_string()));
    assert!(keys.contains(&"page.md".to_string()));
    assert!(keys.contains(&"page".to_string()));
}

#[test]
fn canonical_keys_handle_bare_stem() {
    let keys = canonical_link_keys("Page");
    assert_eq!(keys, vec!["page"]);
}

#[test]
fn canonical_keys_are_sorted_and_unique() {
    let keys = canonical_link_keys("Page.md");
    assert_eq!(keys, vec!["page", "page.md"]);
}

#[test]
fn backlinks_found_regardless_of_link_shape() {
    let mut corp = CorpusIndex::new(SourceId::new("k"), "/t".to_string());
    let src = "# A\n\nsee [[docs/arch.md#Caching|the cache]] and [[arch]].\n";
    let doc = build_document(SourceId::new("k"), "a.md", src).unwrap();
    corp.push_document(doc);
    corp.rebuild_indices();
    assert!(corp.backlinks.contains_key("arch"));
    assert!(corp.backlinks.contains_key("arch.md"));
    assert!(corp.backlinks.contains_key("docs/arch"));
    assert!(corp.backlinks.contains_key("docs/arch.md"));
}

#[test]
fn field_lengths_count_tokens_per_node() {
    let mut corp = CorpusIndex::new(SourceId::new("k"), "/t".to_string());
    let doc = build_document(SourceId::new("k"), "guide.md", "# Cache Design\n\nWarm caches fast.\n").unwrap();
    corp.push_document(doc);
    corp.rebuild_indices();
    assert_eq!(corp.field_lengths.total_nodes, 1);
    assert_eq!(corp.field_lengths.get(DocId(0), NodeId(0), Field::Title), 2);
    assert_eq!(corp.field_lengths.title_total, 2);
    assert_eq!(corp.total_nodes(), 1);
    let postings = corp.inverted.get("cach").expect("title token is indexed, stemmed");
    // In the title, in the heading path, and ("caches") in the summary.
    assert_eq!(postings.len(), 3);
    assert_eq!(postings[0].field, Field::Title);
    assert_eq!(postings[1].field, Field::Path);
    assert_eq!(postings[2].field, Field::Summary);
    assert_eq!(postings[0].tf, 1);
}

#[test]
fn push_document_hands_out_positions() {
    let mut corp = CorpusIndex::new(SourceId::new("k"), "/t".to_string());
    let a = corp.push_document(build("# A\n"));
    let b = corp.push_document(build("# B\n"));
    assert_eq!(a, DocId(0));
    assert_eq!(b, DocId(1));
    assert!(corp.doc(DocId(1)).is_some());
    assert!(corp.doc(DocId(2)).is_none());
}

// ---- okf ---------------------------------------------------------------------

#[test]
fn concept_type_and_status_project_strings() {
    let fm = obj(vec![("type", s("BigQuery Table")), ("status", s("stable"))]);
    assert_eq!(concept_type(Some(&fm)), Some("BigQuery Table".to_string()));
    assert_eq!(status(Some(&fm)), Some("stable".to_string()));
}

#[test]
fn non_string_fields_are_ignored() {
    let fm = obj(vec![
        ("type", Json::Array(vec![s("a"), s("b")])),
        ("status", Json::Number("3".to_string())),
    ]);
    assert_eq!(concept_type(Some(&fm)), None);
    assert_eq!(status(Some(&fm)), None);
}

#[test]
fn missing_frontmatter_yields_none() {
    assert_eq!(concept_type(None), None);
    assert_eq!(trust_tier(None), None);
    assert!(!is_declared_stale(None, 10_000_000_000));
}

#[test]
fn epoch_civil_conversion_is_exact() {
    assert_eq!(days_from_civil(1970, 1, 1), 0);
    assert_eq!(days_from_civil(1970, 1, 2), 1);
    assert_eq!(days_from_civil(2000, 3, 1), 11017);
    assert_eq!(days_from_civil(2026, 5, 28), 20601);
}

#[test]
fn civil_days_before_the_epoch_are_negative() {
    assert_eq!(days_from_civil(1969, 12, 31), -1);
    assert_eq!(days_from_civil(1600, 3, 1), -135080);
}

#[test]
fn declared_stale_flips_on_the_date() {
    let fm = obj(vec![("stale_after", s("2026-05-28"))]);
    let midnight = 20601i64 * 86_400;
    assert!(!is_declared_stale(Some(&fm), (midnight - 1) as u64));
    assert!(is_declared_stale(Some(&fm), midnight as u64));
    assert!(is_declared_stale(Some(&fm), (midnight + 86_400) as u64));
    assert_eq!(stale_after(Some(&fm)), Some("2026-05-28".to_string()));
}

#[test]
fn declared_stale_accepts_datetime_form() {
    let fm = obj(vec![("stale_after", s("2026-05-28T14:30:00Z"))]);
    let midnight = 20601i64 * 86_400;
    assert!(is_declared_stale(Some(&fm), midnight as u64));
}

#[test]
fn bad_date_is_never_stale() {
    assert!(!is_declared_stale(
        Some(&obj(vec![("stale_after", s("someday"))])),
        u64::MAX
    ));
    assert!(!is_declared_stale(
        Some(&obj(vec![("stale_after", s("2026-13-01"))])),
        u64::MAX
    ));
}

#[test]
fn trust_tier_from_list() {
    let human = obj(vec![(
        "verified",
        Json::Array(vec![
            obj(vec![("by", s("process:nightly"))]),
            obj(vec![("by", s("human:dave"))]),
        ]),
    )]);
    assert_eq!(trust_tier(Some(&human)), Some(TrustTier::HumanReviewed));

    let machine = obj(vec![(
        "verified",
        Json::Array(vec![obj(vec![("by", s("reference_agent/gemini-2.5-pro"))])]),
    )]);
    assert_eq!(trust_tier(Some(&machine)), Some(TrustTier::MachineConfirmed));
}

#[test]
fn trust_tier_accepts_bare_map() {
    let bare = obj(vec![(
        "verified",
        obj(vec![("by", s("human:ahormati")), ("at", s("2026-05-01T00:00:00Z"))]),
    )]);
    assert_eq!(trust_tier(Some(&bare)), Some(TrustTier::HumanReviewed));
}

#[test]
fn no_verified_key_is_unverified() {
    let fm = obj(vec![(
        "generated",
        obj(vec![("by", s("agent/x")), ("at", s("2026-05-01T00:00:00Z"))]),
    )]);
    assert_eq!(trust_tier(Some(&fm)), None);
}

#[test]
fn empty_verified_list_is_unverified() {
    assert_eq!(trust_tier(Some(&obj(vec![("verified", Json::Array(vec![]))]))), None);
}

#[test]
fn trust_tier_names() {
    assert_eq!(TrustTier::HumanReviewed.as_str(), "human-reviewed");
    assert_eq!(TrustTier::MachineConfirmed.as_str(), "machine-confirmed");
}

// ---- traversal -----------------------------------------------------------------

#[test]
fn resolve_path_exact_match() {
    let mut corp = CorpusIndex::new(SourceId::new("k"), "/t".to_string());
    let doc = build_document(SourceId::new("k"), "a.md", "# Root\n\n## Leaf\n").unwrap();
    corp.push_document(doc);
    corp.rebuild_indices();
    let tr = Traversal::new(&corp);
    let hits = tr.resolve_path(&HeadingPath::new(&["Root", "Leaf"]));
    assert_eq!(hits.len(), 1);
    assert_eq!(hits[0].node.title, "Leaf");
}

#[test]
fn resolve_path_case_insensitive() {
    let mut corp = CorpusIndex::new(SourceId::new("k"), "/t".to_string());
    let doc = build_document(SourceId::new("k"), "a.md", "# Hello\n").unwrap();
    corp.push_document(doc);
    corp.rebuild_indices();
    let tr = Traversal::new(&corp);
    let hits = tr.resolve_path(&HeadingPath::new(&["HELLO"]));
    assert_eq!(hits.len(), 1);
    assert_eq!(hits[0].doc_id, DocId(0));
    assert!(tr.resolve_path(&HeadingPath::new(&["Hello", "Nope"])).is_empty());
}

#[test]
fn walk_doc_returns_source_order() {
    let mut corp = CorpusIndex::new(SourceId::new("k"), "/t".to_string());
    let doc = build_document(SourceId::new("k"), "a.md", "# A\n## B\n### C\n## D\n").unwrap();
    corp.push_document(doc);
    corp.rebuild_indices();
    let tr = Traversal::new(&corp);
    assert!(is_walkable(&corp.documents[0]));
    let walked = tr.walk_doc(&corp.documents[0]);
    let titles: Vec<&str> = walked.iter().map(|(n, _)| n.title.as_str()).collect();
    assert_eq!(titles, vec!["A", "B", "C", "D"]);
    let depths: Vec<usize> = walked.iter().map(|(_, d)| *d).collect();
    assert_eq!(depths, vec![0, 1, 2, 1]);
}

#[test]
fn walk_doc_skips_ids_that_name_no_node() {
    let mut corp = CorpusIndex::new(SourceId::new("k"), "/t".to_string());
    let mut doc = build_document(SourceId::new("k"), "a.md", "# A\n## B\n").unwrap();
    doc.nodes[0].children.push(NodeId(99));
    doc.roots.push(NodeId(42));
    corp.push_document(doc);
    let tr = Traversal::new(&corp);
    assert!(is_walkable(&corp.documents[0]));
    let walked = tr.walk_doc(&corp.documents[0]);
    let titles: Vec<&str> = walked.iter().map(|(n, _)| n.title.as_str()).collect();
    assert_eq!(titles, vec!["A", "B"]);
}

#[test]
fn every_link_shape_reaches_a_lookup_for_the_page() {
    let mut corp = CorpusIndex::new(SourceId::new("k"), "/t".to_string());
    let src = "# Notes\n\n## One\n\n[[Page]]\n\n## Two\n\n[[notes/Page]]\n\n## Three\n\n[[Page.md]]\n\n## Four\n\n[[Page#Intro]]\n\n## Five\n\n[see](notes/Page.markdown#Intro)\n\n## Six\n\n[[Other]]\n";
    corp.push_document(build_document(SourceId::new("k"), "n.md", src).unwrap());
    corp.rebuild_indices();
    let found = lore::service::backlinks_in(&corp, "Page", 20, 0);
    let titles: Vec<&str> = found.iter().map(|b| b.heading_path[1].as_str()).collect();
    assert_eq!(titles, vec!["One", "Two", "Three", "Four", "Five"]);
    assert_eq!(canonical_link_keys("Page"), vec!["page".to_string()]);
}

#[test]
fn resolve_path_returns_every_case_insensitive_match() {
    let mut corp = CorpusIndex::new(SourceId::new("k"), "/t".to_string());
    corp.push_document(build_document(SourceId::new("k"), "a.md", "# Hello\n").unwrap());
    corp.push_document(build_document(SourceId::new("k"), "b.md", "# HELLO\n").unwrap());
    corp.rebuild_indices();
    let tr = Traversal::new(&corp);
    let hits = tr.resolve_path(&HeadingPath::new(&["Hello"]));
    assert_eq!(hits.len(), 2);
}

#[test]
fn description_words_are_filed_on_the_first_heading() {
    let mut corp = CorpusIndex::new(SourceId::new("k"), "/t".to_string());
    let src = "---\ndescription: Zephyrine lives here.\n---\n# Root\n\nHello.\n";
    corp.push_document(build_document(SourceId::new("k"), "README.md", src).unwrap());
    corp.rebuild_indices();
    let postings = corp.inverted.get("zephyrin").expect("description word is indexed, stemmed");
    assert_eq!(postings.len(), 1);
    assert_eq!(postings[0].doc, DocId(0));
    assert_eq!(postings[0].node, NodeId(0));
    assert_eq!(postings[0].field, Field::Description);
}

#[test]
fn backlink_spellings_differing_in_case_find_the_same_sections() {
    let mut corp = CorpusIndex::new(SourceId::new("k"), "/t".to_string());
    let src = "# A\n\nsee [[docs/arch.md#Caching|the cache]] and [[arch]].\n";
    corp.push_document(build_document(SourceId::new("k"), "a.md", src).unwrap());
    corp.rebuild_indices();
    let ids = |t: &str| -> Vec<(u32, u32)> {
        lore::service::backlinks_in(&corp, t, 20, 0).iter().map(|b| (b.doc_id, b.node_id)).collect()
    };
    assert_eq!(ids("arch"), vec![(0, 0)]);
    assert_eq!(ids("Arch"), ids("arch"));
    assert_eq!(ids("docs/arch.md"), vec![(0, 0)]);
    assert_eq!(ids("Arch.md"), vec![(0, 0)]);
    assert_eq!(corp.field_lengths.total_nodes as usize, corp.total_nodes());
    let hits = corp.heading_lookup.get(&HeadingPath::new(&["A"])).unwrap();
    assert_eq!(hits, vec![(DocId(0), NodeId(0))]);
}

#[test]
fn documents_and_nodes_can_be_changed_in_place() {
    let mut corp = CorpusIndex::new(SourceId::new("k"), "/t".to_string());
    corp.push_document(build_document(SourceId::new("k"), "a.md", "# A\n\n## B\n").unwrap());
    {
        let doc = corp.doc_mut(DocId(0)).expect("document 0 exists");
        doc.modified_at = Some(7);
        let node = doc.node_mut(NodeId(1)).expect("node 1 exists");
        node.summary = "changed".to_string();
        assert!(doc.node_mut(NodeId(2)).is_none());
    }
    assert!(corp.doc_mut(DocId(1)).is_none());
    assert_eq!(corp.documents[0].modified_at, Some(7));
    assert_eq!(corp.documents[0].nodes[1].summary, "changed");
}
