use lore::cli::WatchEvent;
use lore::debounce::Debouncer;
use lore::config::{admits_by_walk_rules, is_ignore_file, is_ignored, IgnoreVerdict};
use lore::corpus::CorpusIndex;
use lore::document::build_document;
use lore::service::{doc_facts, find_doc};
use lore::types::SourceId;
use lore::watching::{watch_step, WatchStep};

fn corpus(files: &[(&str, &str)]) -> CorpusIndex {
    let mut c = CorpusIndex::new(SourceId::new("kb"), "/kb".to_string());
    for (p, src) in files {
        c.push_document(build_document(SourceId::new("kb"), p, src).unwrap());
    }
    c.rebuild_indices();
    c
}

#[test]
fn reindex_document_replaces_existing_entry() {
    let mut c = corpus(&[("a.md", "# A\n")]);
    c.upsert_document(build_document(SourceId::new("kb"), "a.md", "# A\n\n## New\n").unwrap());
    let doc = c.documents.iter().find(|d| d.rel_path == "a.md").expect("still there");
    assert_eq!(doc.nodes.len(), 2);
    assert_eq!(doc.nodes[1].title, "New");
}

#[test]
fn reindex_document_inserts_when_new() {
    let mut c = corpus(&[("a.md", "# A\n")]);
    c.upsert_document(build_document(SourceId::new("kb"), "b.md", "# B\n").unwrap());
    let rel_paths: Vec<_> = c.documents.iter().map(|d| d.rel_path.as_str()).collect();
    assert_eq!(rel_paths, vec!["a.md", "b.md"]);
}

#[test]
fn remove_document_drops_it() {
    let mut c = corpus(&[("a.md", "# A\n")]);
    c.remove_document("a.md");
    assert!(c.documents.is_empty());
}

#[test]
fn upsert_keeps_position_and_rebuilds_tables() {
    let mut c = corpus(&[("a.md", "# A\n\n## B\n"), ("b.md", "# Other\n")]);
    let fresh = build_document(SourceId::new("kb"), "a.md", "# A\n\n## C\n").unwrap();
    c.upsert_document(fresh);
    assert_eq!(c.documents.len(), 2);
    assert_eq!(c.documents[0].rel_path, "a.md");
    assert_eq!(c.documents[0].nodes[1].title, "C");
    assert_eq!(find_doc(&c, "kb", "a.md").unwrap(), 0);
}

#[test]
fn upsert_of_a_new_path_orders_documents_by_path() {
    let mut c = corpus(&[("d.md", "# D\n"), ("b.md", "# B\n")]);
    let fresh = build_document(SourceId::new("kb"), "c.md", "# C\n\nNew words here.\n").unwrap();
    c.upsert_document(fresh);
    let paths: Vec<&str> = c.documents.iter().map(|d| d.rel_path.as_str()).collect();
    assert_eq!(paths, vec!["b.md", "c.md", "d.md"]);
    assert!(c.inverted.get("word").is_some());
    assert_eq!(find_doc(&c, "kb", "c.md").unwrap(), 1);
}

#[test]
fn removal_rebuilds_tables_and_reports_whether_anything_went() {
    let mut c = corpus(&[("a.md", "# A\n\nalpha.\n"), ("b.md", "# B\n")]);
    assert!(c.remove_document("a.md"));
    assert_eq!(c.documents.len(), 1);
    assert_eq!(c.documents[0].rel_path, "b.md");
    assert!(c.inverted.get("alpha").is_none());
    assert!(find_doc(&c, "kb", "a.md").is_err());
    assert!(!c.remove_document("a.md"));
}

#[test]
fn recognizes_ignore_files_by_name() {
    assert!(is_ignore_file("/v/.gitignore"));
    assert!(is_ignore_file("/v/sub/.ignore"));
    assert!(!is_ignore_file("/v/notes.md"));
}

#[test]
fn walk_rules_reject_hidden_state_and_outside_paths() {
    let exts = vec!["MD".to_string()];
    assert!(admits_by_walk_rules("/kb", "/kb/docs/a.md", &exts, false));
    assert!(!admits_by_walk_rules("/kb", "/kb/.hidden/a.md", &exts, false));
    assert!(admits_by_walk_rules("/kb", "/kb/.hidden/a.md", &exts, true));
    assert!(!admits_by_walk_rules("/kb", "/kb/.lore/a.md", &exts, true));
    assert!(!admits_by_walk_rules("/kb", "/other/a.md", &exts, false));
    assert!(!admits_by_walk_rules("/kb", "/kb/a.txt", &exts, false));
}

#[test]
fn watch_steps_follow_the_change() {
    let loc = Some(("kb".to_string(), "a.md".to_string()));
    match watch_step(&WatchEvent::Upsert("/kb/a.md".to_string()), loc.clone(), true, true) {
        WatchStep::Reindex { source, rel } => {
            assert_eq!(source, "kb");
            assert_eq!(rel, "a.md");
        }
        other => panic!("unexpected {other:?}"),
    }
    assert!(matches!(
        watch_step(&WatchEvent::Upsert("/kb/a.md".to_string()), loc.clone(), true, false),
        WatchStep::Remove { .. }
    ));
    assert!(matches!(
        watch_step(&WatchEvent::Remove("/kb/.gitignore".to_string()), None, false, false),
        WatchStep::RefreshIgnoreRules
    ));
    assert!(matches!(
        watch_step(&WatchEvent::Upsert("/kb/a.txt".to_string()), loc.clone(), true, true),
        WatchStep::Skip
    ));
    assert!(matches!(
        watch_step(&WatchEvent::Upsert("/kb/a.md".to_string()), loc, false, true),
        WatchStep::Skip
    ));
}

#[test]
fn debounce_collapses_bursts_and_releases_when_quiet() {
    let mut d = Debouncer::new();
    for t in 0..5u64 {
        d.ingest(WatchEvent::Upsert("/kb/note.md".to_string()), t * 10);
    }
    d.ingest(WatchEvent::Upsert("/kb/other.md".to_string()), 45);
    d.ingest(WatchEvent::Remove("/kb/note.md".to_string()), 50);
    assert_eq!(d.pending.len(), 2);
    assert!(d.take_ripe(100, 150).is_empty());
    let first = d.take_ripe(195, 150);
    assert_eq!(first.len(), 1);
    assert!(matches!(&first[0], WatchEvent::Upsert(p) if p == "/kb/other.md"));
    let second = d.take_ripe(200, 150);
    assert_eq!(second.len(), 1);
    assert!(matches!(&second[0], WatchEvent::Remove(p) if p == "/kb/note.md"));
    assert!(d.is_empty());
    // A clock that seems to run backwards counts as no time.
    d.ingest(WatchEvent::Upsert("/kb/a.md".to_string()), 500);
    assert!(d.take_ripe(400, 1).is_empty());
    assert_eq!(d.take_ripe(400, 0).len(), 1);
}

#[test]
fn a_burst_on_one_path_releases_only_its_last_change() {
    let mut burst = Debouncer::new();
    burst.ingest(WatchEvent::Upsert("/r/b.md".to_string()), 5);
    burst.ingest(WatchEvent::Upsert("/r/a.md".to_string()), 10);
    burst.ingest(WatchEvent::Remove("/r/a.md".to_string()), 20);
    let mut single = Debouncer::new();
    single.ingest(WatchEvent::Upsert("/r/b.md".to_string()), 5);
    single.ingest(WatchEvent::Remove("/r/a.md".to_string()), 20);
    assert_eq!(burst.pending, single.pending);
    let out = burst.take_ripe(400, 250);
    assert_eq!(
        out,
        vec![
            WatchEvent::Upsert("/r/b.md".to_string()),
            WatchEvent::Remove("/r/a.md".to_string())
        ]
    );
    assert!(burst.is_empty());
}

#[test]
fn deepest_ignore_rule_decides_each_component() {
    // A deeper `!rule` re-includes what a shallower rule ignores.
    assert!(!is_ignored(&vec![vec![IgnoreVerdict::Unmatched, IgnoreVerdict::Ignore, IgnoreVerdict::Whitelist]]));
    // A deeper rule ignores what a shallower one re-includes.
    assert!(is_ignored(&vec![vec![IgnoreVerdict::Whitelist, IgnoreVerdict::Ignore]]));
    // An ignored directory excludes everything below it.
    assert!(is_ignored(&vec![vec![IgnoreVerdict::Unmatched, IgnoreVerdict::Ignore], vec![IgnoreVerdict::Unmatched, IgnoreVerdict::Unmatched, IgnoreVerdict::Whitelist]]));
    // No rule speaks: the path stays.
    assert!(!is_ignored(&vec![vec![IgnoreVerdict::Unmatched], vec![IgnoreVerdict::Unmatched, IgnoreVerdict::Unmatched]]));
    assert!(!is_ignored(&vec![]));
}

#[test]
fn search_hit_facts_come_from_frontmatter_and_age() {
    let src = "---\ndescription: Cache notes.\ntype: guide\nstatus: draft\nstale_after: 1970-01-10\n---\n# Cache\n\nWarm it.\n";
    let mut doc = build_document(SourceId::new("k"), "c.md", src).unwrap();
    doc.modified_at = Some(0);
    let now = 20 * 86_400 + 5;
    let facts = doc_facts(&doc, now, Some(30));
    assert_eq!(facts.description.as_deref(), Some("Cache notes."));
    assert_eq!(facts.concept_type.as_deref(), Some("guide"));
    assert_eq!(facts.status.as_deref(), Some("draft"));
    assert_eq!(facts.trust, None);
    assert_eq!(facts.age_days, Some(20));
    // The declared date has passed, whatever the threshold says.
    assert_eq!(facts.stale, Some(true));

    let plain = build_document(SourceId::new("k"), "p.md", "# P\n\nText.\n").unwrap();
    let mut aged = plain;
    aged.modified_at = Some(0);
    assert_eq!(doc_facts(&aged, now, Some(30)).stale, Some(false));
    assert_eq!(doc_facts(&aged, now, Some(10)).stale, Some(true));
    assert_eq!(doc_facts(&aged, now, None).stale, None);
}
