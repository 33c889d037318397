use lore::candidates::{distinct_nodes, excluded_nodes};
use lore::corpus_map::build_corpus_map;
use lore::corpus::{CorpusIndex, DocId, Field, Posting};
use lore::document::build_document;
use lore::export::{doc_note, doc_title, full_text_order, render_llms_full, render_llms_txt, truncate_chars};
use lore::json::Json;
use lore::listing::{frontmatter_matches, list_documents};
use lore::toc::{doc_headings, table_of_contents, toc_tree};
use lore::tools::{ListDocumentsRequest, TocRequest};
use lore::types::{NodeId, SourceId};

fn demo() -> CorpusIndex {
    let mut c = CorpusIndex::new(SourceId::new("demo"), "/tmp".to_string());
    c.push_document(
        build_document(
            SourceId::new("demo"),
            "README.md",
            "---\ndescription: The demo corpus.\n---\n# Demo\n\nWelcome.\n",
        )
        .unwrap(),
    );
    c.push_document(
        build_document(
            SourceId::new("demo"),
            "docs/intro.md",
            "# Introduction\n\nHook sentence here. More prose.\n",
        )
        .unwrap(),
    );
    c.push_document(
        build_document(SourceId::new("demo"), "docs/guide.md", "# Guide\n\nSteps.\n").unwrap(),
    );
    c.rebuild_indices();
    c
}

// ---- llms.txt -------------------------------------------------------------------

#[test]
fn llms_txt_has_spec_shape() {
    let out = render_llms_txt(&demo());
    assert!(out.starts_with("# demo\n"));
    assert!(out.contains("> The demo corpus."));
    assert!(out.contains("## Documents\n"));
    assert!(out.contains("## docs/\n"));
    assert!(out.contains("- [Demo](README.md): The demo corpus."));
    assert!(out.contains("[Introduction](docs/intro.md): Hook sentence here."));
}

#[test]
fn root_section_sorts_before_folders() {
    let out = render_llms_txt(&demo());
    let docs_at = out.find("## Documents").unwrap();
    let folder_at = out.find("## docs/").unwrap();
    assert!(docs_at < folder_at, "root documents lead the file");
}

#[test]
fn llms_txt_exact_text() {
    let out = render_llms_txt(&demo());
    assert_eq!(
        out,
        "# demo\n\n> The demo corpus.\n\nIndex of 3 documents. Each link is a path relative to the corpus root.\n\
         \n## Documents\n\n- [Demo](README.md): The demo corpus.\n\
         \n## docs/\n\n- [Guide](docs/guide.md): Steps.\n- [Introduction](docs/intro.md): Hook sentence here.\n"
    );
}

#[test]
fn blurb_falls_back_to_a_count() {
    let mut c = CorpusIndex::new(SourceId::new("x"), "/tmp".to_string());
    c.push_document(build_document(SourceId::new("x"), "notes/a.md", "plain\n").unwrap());
    let out = render_llms_txt(&c);
    assert!(out.contains("> A Lore-indexed corpus of 1 documents.\n"));
    assert!(out.contains("- [a](notes/a.md)\n"));
}

#[test]
fn note_collapses_whitespace_and_caps_length() {
    let long = "word ".repeat(80);
    let src = format!("# T\n\n{long}\n");
    let mut c = CorpusIndex::new(SourceId::new("x"), "/tmp".to_string());
    c.push_document(build_document(SourceId::new("x"), "a.md", &src).unwrap());
    c.rebuild_indices();
    let note = doc_note(&c.documents[0]).unwrap();
    assert!(note.chars().count() <= 160);
    assert!(!note.contains("  "), "whitespace collapsed");
    assert!(note.ends_with('\u{2026}'));
    assert_eq!(doc_title(&c.documents[0]), "T");
}

#[test]
fn truncation_keeps_one_less_and_adds_an_ellipsis() {
    assert_eq!(truncate_chars("abcdef", 6), "abcdef");
    assert_eq!(truncate_chars("abcdef", 4), "abc\u{2026}");
    assert_eq!(truncate_chars("abc", 0), "\u{2026}");
}

#[test]
fn full_text_is_ordered_by_path() {
    let c = demo();
    let order = full_text_order(&c);
    assert_eq!(order, vec![0, 2, 1]);
    let parts = vec![
        ("README.md".to_string(), "# Demo\n\n".to_string()),
        ("docs/a.md".to_string(), "Zephyrine content here.  \n".to_string()),
    ];
    let full = render_llms_full("demo", &parts);
    assert_eq!(
        full,
        "# demo \u{2014} full text\n\n\n\n---\n\n# README.md\n\n# Demo\n\n\n---\n\n# docs/a.md\n\nZephyrine content here.\n"
    );
}

// ---- tables of contents -------------------------------------------------------

#[test]
fn toc_prunes_below_the_cap_but_flags_children() {
    let doc = build_document(SourceId::new("t"), "a.md", "# Root\n\n## Child\n\n### Deep\n").unwrap();
    let full = toc_tree(&doc, None);
    assert_eq!(full.len(), 1);
    assert_eq!(full[0].children.len(), 1);
    assert_eq!(full[0].children[0].children[0].title, "Deep");
    let capped = toc_tree(&doc, Some(2));
    assert_eq!(capped[0].children.len(), 1);
    assert!(capped[0].children[0].children.is_empty());
    assert!(capped[0].children[0].has_children);
    let preview = doc_headings(&doc, None);
    assert!(preview[0].children.is_empty());
    assert!(preview[0].has_children);
    assert_eq!(preview[0].heading_path, vec!["Root".to_string()]);
}

#[test]
fn toc_skips_child_ids_that_name_no_node() {
    let mut doc = build_document(SourceId::new("t"), "a.md", "# Root\n\n## Child\n").unwrap();
    doc.nodes[0].children.push(NodeId(7));
    doc.roots.push(NodeId(9));
    let full = toc_tree(&doc, None);
    assert_eq!(full.len(), 1);
    assert_eq!(full[0].children.len(), 1);
    assert_eq!(full[0].children[0].title, "Child");
}

#[test]
fn table_of_contents_by_path_and_prefix() {
    let c = demo();
    let req = TocRequest {
        source_id: "demo".to_string(),
        rel_path: Some("docs/guide.md".to_string()),
        path_prefix: None,
        max_depth: None,
        include_frontmatter: false,
    };
    let r = table_of_contents(&c, &req).unwrap();
    assert_eq!(r.documents.len(), 1);
    assert_eq!(r.documents[0].doc_id, 2);
    assert_eq!(r.documents[0].roots[0].title, "Guide");

    let missing = TocRequest { rel_path: Some("nope.md".to_string()), ..req };
    assert!(table_of_contents(&c, &missing).is_err());

    let by_prefix = TocRequest {
        source_id: "demo".to_string(),
        rel_path: None,
        path_prefix: Some("docs/".to_string()),
        max_depth: Some(1),
        include_frontmatter: true,
    };
    let r = table_of_contents(&c, &by_prefix).unwrap();
    assert_eq!(r.source_id, "demo");
    assert_eq!(r.documents.len(), 2);
    assert_eq!(r.documents[0].rel_path, "docs/intro.md");
    assert!(r.documents[0].frontmatter.is_none());
}

// ---- listings ---------------------------------------------------------------------

fn obj(members: Vec<(&str, Json)>) -> Json {
    Json::Object(members.into_iter().map(|(k, v)| (k.to_string(), v)).collect())
}

#[test]
fn frontmatter_filters_match_scalars_and_array_elements() {
    let fm = obj(vec![
        ("tags", Json::Array(vec![Json::Str("project".into()), Json::Str("work".into())])),
        ("type", Json::Str("moc".into())),
    ]);
    let tag = vec![("tags".to_string(), Json::Str("project".into()))];
    assert!(frontmatter_matches(&tag, Some(&fm)));
    let ty = vec![("type".to_string(), Json::Str("moc".into()))];
    assert!(frontmatter_matches(&ty, Some(&fm)));
    let wrong = vec![("type".to_string(), Json::Str("note".into()))];
    assert!(!frontmatter_matches(&wrong, Some(&fm)));
    let absent = vec![("owner".to_string(), Json::Str("me".into()))];
    assert!(!frontmatter_matches(&absent, Some(&fm)));
    assert!(frontmatter_matches(&vec![], None));
    assert!(!frontmatter_matches(&ty, None));
}

#[test]
fn list_documents_filters_limits_and_flags_truncation() {
    let c = demo();
    let req = ListDocumentsRequest {
        source_id: "demo".to_string(),
        path_prefix: Some("docs/".to_string()),
        frontmatter: None,
        include_frontmatter: false,
        limit: 1,
    };
    let r = list_documents(&c, &req, 0);
    assert_eq!(r.documents.len(), 1);
    assert!(r.truncated);
    assert_eq!(r.documents[0].rel_path, "docs/intro.md");
    assert_eq!(r.documents[0].doc_id, 1);
    assert_eq!(r.documents[0].title.as_deref(), Some("Introduction"));
    assert_eq!(r.documents[0].node_count, 1);

    let described = ListDocumentsRequest {
        source_id: "demo".to_string(),
        path_prefix: None,
        frontmatter: Some(vec![("description".to_string(), Json::Str("The demo corpus.".into()))]),
        include_frontmatter: true,
        limit: 10,
    };
    let r = list_documents(&c, &described, 0);
    assert_eq!(r.documents.len(), 1);
    assert!(!r.truncated);
    assert_eq!(r.documents[0].description.as_deref(), Some("The demo corpus."));
    assert!(r.documents[0].frontmatter.is_some());
}

// ---- ranking inputs ----------------------------------------------------------------

#[test]
fn distinct_nodes_counts_each_node_once() {
    let p = |d: u32, n: u32, f: Field| Posting { doc: DocId(d), node: NodeId(n), field: f, tf: 1 };
    let ps = vec![p(0, 0, Field::Title), p(0, 0, Field::Path), p(1, 2, Field::Summary), p(0, 0, Field::Summary)];
    assert_eq!(distinct_nodes(&ps), vec![(DocId(0), NodeId(0)), (DocId(1), NodeId(2))]);
}

#[test]
fn excluded_nodes_collects_negated_terms() {
    let c = demo();
    // Terms arrive as tokens, so stemmed: "guide" is filed as "guid".
    let ex = excluded_nodes(&c, &vec!["guid".to_string(), "zebra".to_string()]);
    assert_eq!(ex, vec![(DocId(2), NodeId(0))]);
}

// ---- corpus map -----------------------------------------------------------------

fn corpus_of(paths: &[&str]) -> CorpusIndex {
    let mut c = CorpusIndex::new(SourceId::new("t"), "/tmp".to_string());
    for p in paths {
        let title = p.rsplit('/').next().unwrap();
        let src = format!("# {title}\n\nbody.\n");
        c.push_document(build_document(SourceId::new("t"), p, &src).unwrap());
    }
    c.rebuild_indices();
    c
}

#[test]
fn corpus_map_nests_folders_and_counts_subtrees() {
    let corpus = corpus_of(&[
        "README.md",
        "docs/intro.md",
        "docs/guide/setup.md",
        "docs/guide/deploy.md",
    ]);
    let root = build_corpus_map(&corpus, None, None, 0);

    assert_eq!(root.path, "");
    assert_eq!(root.doc_count, 4, "recursive count over the whole tree");
    assert_eq!(root.documents.len(), 1, "only README at the root");
    assert_eq!(root.documents[0].rel_path, "README.md");

    assert_eq!(root.folders.len(), 1);
    let docs = &root.folders[0];
    assert_eq!(docs.path, "docs/");
    assert_eq!(docs.doc_count, 3, "intro + guide subtree");
    assert_eq!(docs.documents.len(), 1, "intro.md directly under docs/");

    let guide = &docs.folders[0];
    assert_eq!(guide.path, "docs/guide/");
    assert_eq!(guide.doc_count, 2);
    assert_eq!(guide.documents[0].rel_path, "docs/guide/deploy.md");
    assert_eq!(guide.documents[1].rel_path, "docs/guide/setup.md");
}

#[test]
fn corpus_map_path_prefix_selects_subtree() {
    let corpus = corpus_of(&["README.md", "docs/intro.md", "other/note.md"]);
    let root = build_corpus_map(&corpus, Some("docs/"), None, 0);
    assert_eq!(root.doc_count, 1, "only docs/ matched");
    assert!(root.documents.is_empty(), "nothing lives at the root of docs/-only");
    assert_eq!(root.folders.len(), 1);
    assert_eq!(root.folders[0].path, "docs/");
}

#[test]
fn corpus_map_default_preview_is_shallow() {
    let mut c = CorpusIndex::new(SourceId::new("t"), "/tmp".to_string());
    c.push_document(
        build_document(SourceId::new("t"), "a.md", "# Root\n\n## Child\n\nbody.\n").unwrap(),
    );
    c.rebuild_indices();
    let root = build_corpus_map(&c, None, None, 0);
    let doc = &root.documents[0];
    assert_eq!(doc.headings.len(), 1, "root heading only");
    assert!(doc.headings[0].children.is_empty(), "no nested children in preview");
    assert!(doc.headings[0].has_children, "but flags that a child exists");

    let deep = build_corpus_map(&c, None, Some(2), 0);
    assert_eq!(deep.documents[0].headings[0].children.len(), 1);
}

#[test]
fn corpus_map_folders_sort_by_name_and_carry_hooks() {
    let corpus = corpus_of(&["zeta/a.md", "alpha/b.md", "alpha/deep/c.md"]);
    let root = build_corpus_map(&corpus, None, None, 0);
    let names: Vec<&str> = root.folders.iter().map(|f| f.path.as_str()).collect();
    assert_eq!(names, vec!["alpha/", "zeta/"]);
    assert_eq!(root.folders[0].doc_count, 2);
    assert_eq!(root.folders[0].folders[0].path, "alpha/deep/");
    assert_eq!(root.folders[0].documents[0].title.as_deref(), Some("b.md"));
    assert_eq!(root.folders[0].documents[0].doc_id, 1);
}

#[test]
fn heading_less_document_is_titled_by_its_file_stem() {
    let doc = build_document(SourceId::new("x"), "docs/notes.md", "plain prose, no headings.\n").unwrap();
    assert!(doc.nodes.is_empty());
    assert_eq!(doc_title(&doc), "notes");
    let dotfile = build_document(SourceId::new("x"), "a/.profile", "text\n").unwrap();
    assert_eq!(doc_title(&dotfile), ".profile");
}
