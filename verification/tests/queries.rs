use lore::config::{
    default_source_id, has_matching_extension, index_path, is_markdown, markdown_extension_list,
    rel_path, rel_to_posix,
};
use lore::corpus::{CorpusIndex, DocId};
use lore::document::build_document;
use lore::eval::{
    coverage_level_str, hit_matches, parse_target, score_query, tally, EvalQuery,
};
use lore::search::{coverage, group_hits, parse_query, split_whitespace};
use lore::stem::stem_chars;
use lore::tokens::tokenize;
use lore::service::{document_response, resolve_section, section_text};
use lore::tools::GetSectionRequest;
use lore::types::ByteRange;
use lore::tools::CoverageLevel;
use lore::types::{NodeId, SourceId};

fn corpus_of(files: &[(&str, &str)]) -> CorpusIndex {
    let mut c = CorpusIndex::new(SourceId::new("t"), "/t".to_string());
    for (path, src) in files {
        c.push_document(build_document(SourceId::new("t"), path, src).unwrap());
    }
    c.rebuild_indices();
    c
}

fn stem(w: &str) -> String {
    stem_chars(w.chars().collect()).into_iter().collect()
}

// ---- stemming ------------------------------------------------------------------

#[test]
fn porter_stems_of_the_classic_examples() {
    let cases = [
        ("caresses", "caress"),
        ("ponies", "poni"),
        ("ties", "ti"),
        ("caress", "caress"),
        ("cats", "cat"),
        ("feed", "feed"),
        ("agreed", "agre"),
        ("plastered", "plaster"),
        ("bled", "bled"),
        ("motoring", "motor"),
        ("sing", "sing"),
        ("conflated", "conflat"),
        ("troubled", "troubl"),
        ("sized", "size"),
        ("hopping", "hop"),
        ("tanned", "tan"),
        ("falling", "fall"),
        ("hissing", "hiss"),
        ("fizzed", "fizz"),
        ("failing", "fail"),
        ("filing", "file"),
        ("happy", "happi"),
        ("sky", "sky"),
        ("relational", "relat"),
        ("generalizations", "gener"),
        ("controlling", "control"),
        ("adjustment", "adjust"),
        ("adoption", "adopt"),
        ("hopefulness", "hope"),
    ];
    for (word, expected) in cases {
        assert_eq!(stem(word), expected, "stem of {}", word);
    }
}

#[test]
fn words_outside_a_to_z_and_short_words_are_their_own_stem() {
    assert_eq!(stem("v2s"), "v2s");
    assert_eq!(stem("cafés"), "cafés");
    assert_eq!(stem("is"), "is");
    assert_eq!(stem("ies"), "i");
}

#[test]
fn alarm_and_alarms_share_a_token() {
    assert_eq!(tokenize("Alarms"), vec!["alarm".to_string()]);
    assert_eq!(tokenize("alarm alarming alarmed"), vec!["alarm".to_string(); 3]);
}

#[test]
fn a_query_for_alarm_covers_a_document_about_alarms() {
    let c = corpus_of(&[("a.md", "# Alarms\n\nCritical thresholds.\n")]);
    let cov = coverage(&c, "alarm");
    assert_eq!(cov.level, CoverageLevel::Full);
    assert_eq!(cov.matched_terms, vec!["alarm".to_string()]);
}

// ---- query parsing and coverage ---------------------------------------------

#[test]
fn negation_does_not_split_words_on_internal_hyphen() {
    let (pos, neg) = parse_query("kafka-connect");
    assert!(neg.is_empty());
    assert!(!pos.is_empty(), "internal-hyphen token should produce positives");
}

#[test]
fn negation_leading_dash_alone_is_ignored() {
    let (pos, neg) = parse_query("- kafka");
    assert!(neg.is_empty());
    assert_eq!(pos, vec!["kafka".to_string()]);
}

#[test]
fn negated_words_are_tokenized_into_negatives() {
    let (pos, neg) = parse_query("cache -Redis");
    assert_eq!(pos, vec!["cach".to_string()]);
    assert_eq!(neg, vec!["redi".to_string()]);
}

#[test]
fn whitespace_split_drops_empty_words() {
    assert_eq!(split_whitespace("  a \t b\n"), vec!["a".to_string(), "b".to_string()]);
    assert!(split_whitespace("   ").is_empty());
}

#[test]
fn coverage_reports_full_partial_and_none() {
    let c = corpus_of(&[("a.md", "# Caching\n\nWarm the cache.\n")]);
    let full = coverage(&c, "cache");
    assert_eq!(full.level, CoverageLevel::Full);
    assert_eq!(full.matched_terms, vec!["cach".to_string()]);
    let partial = coverage(&c, "cache zebra");
    assert_eq!(partial.level, CoverageLevel::Partial);
    assert_eq!(partial.unmatched_terms, vec!["zebra".to_string()]);
    let none = coverage(&c, "zebra");
    assert_eq!(none.level, CoverageLevel::Uncovered);
    assert!(none.matched_terms.is_empty());
}

// ---- eval ----------------------------------------------------------------------

#[test]
fn parse_target_doc_and_section() {
    let d = parse_target("a/b.md");
    assert_eq!(d.rel_path, "a/b.md");
    assert!(d.heading.is_none());
    let s = parse_target("a/b.md#Foo > Bar");
    assert_eq!(s.rel_path, "a/b.md");
    assert_eq!(s.heading.unwrap(), vec!["Foo", "Bar"]);
}

#[test]
fn doc_level_target_matches_any_section() {
    let t = parse_target("arch.md");
    assert!(hit_matches(
        "arch.md",
        &vec!["Architecture".into(), "Caching".into()],
        &t
    ));
    assert!(!hit_matches("intro.md", &vec!["Intro".into()], &t));
}

#[test]
fn section_target_requires_exact_heading() {
    let t = parse_target("arch.md#Architecture > Caching");
    assert!(hit_matches(
        "arch.md",
        &vec!["Architecture".into(), "Caching".into()],
        &t
    ));
    assert!(!hit_matches("arch.md", &vec!["Architecture".into()], &t));
}

#[test]
fn score_query_ranks_first_relevant_hit_and_checks_verdict() {
    let c = corpus_of(&[
        ("intro.md", "# Intro\n\nwelcome.\n"),
        ("arch.md", "# Architecture\n\n## Caching\n\nwarm.\n"),
    ]);
    let q = EvalQuery {
        query: "caching".to_string(),
        relevant: vec!["arch.md#Architecture > Caching".to_string()],
        expected_coverage: Some("FULL".to_string()),
        note: None,
    };
    // A hit naming no node counts as a miss but still holds its rank.
    let hits = vec![(DocId(9), NodeId(0)), (DocId(0), NodeId(0)), (DocId(1), NodeId(1))];
    let r = score_query(&c, &q, &hits, CoverageLevel::Full);
    assert_eq!(r.rank, Some(3));
    assert!(r.judged);
    assert_eq!(r.coverage, "full");
    assert_eq!(r.coverage_ok, Some(true));

    let doc_level = EvalQuery {
        query: "architecture".to_string(),
        relevant: vec!["arch.md".to_string()],
        expected_coverage: None,
        note: None,
    };
    let d = score_query(&c, &doc_level, &vec![(DocId(1), NodeId(0))], CoverageLevel::Partial);
    assert_eq!(d.rank, Some(1));
    assert_eq!(d.coverage_ok, None);

    let probe = EvalQuery {
        query: "weather".to_string(),
        relevant: vec![],
        expected_coverage: Some("none".to_string()),
        note: None,
    };
    let p = score_query(&c, &probe, &hits, CoverageLevel::Partial);
    assert_eq!(p.rank, None);
    assert!(!p.judged);
    assert_eq!(p.coverage_ok, Some(false));

    let counts = tally(&vec![r, d, p]);
    assert_eq!(counts.judged, 2);
    assert_eq!(counts.success_at_1, 1);
    assert_eq!(counts.success_at_3, 2);
    assert_eq!(counts.success_at_10, 2);
    assert_eq!(counts.coverage_scored, 2);
    assert_eq!(counts.coverage_correct, 1);
}

#[test]
fn coverage_names_on_the_wire() {
    assert_eq!(coverage_level_str(CoverageLevel::Full), "full");
    assert_eq!(coverage_level_str(CoverageLevel::Partial), "partial");
    assert_eq!(coverage_level_str(CoverageLevel::Uncovered), "none");
}

// ---- paths -------------------------------------------------------------------

#[test]
fn rel_path_uses_forward_slashes() {
    assert_eq!(rel_path("/tmp/kb", "/tmp/kb/docs/intro.md"), "docs/intro.md");
}

#[test]
fn rel_to_posix_drops_current_dir_parts() {
    assert_eq!(rel_to_posix("./docs//intro.md"), "docs/intro.md");
}

#[test]
fn index_path_and_default_source_id() {
    assert_eq!(index_path("/tmp/kb"), "/tmp/kb/.lore/index.json");
    assert_eq!(default_source_id("/tmp/kb"), "kb");
    assert_eq!(default_source_id("/"), "root");
}

#[test]
fn markdown_extensions_match_case_insensitively() {
    assert_eq!(markdown_extension_list(), vec!["md", "markdown", "mdx", "mkd"]);
    assert!(is_markdown("notes/Intro.MD"));
    assert!(!is_markdown("notes/intro.txt"));
    assert!(!is_markdown("notes/md"));
    assert!(has_matching_extension("a.txt", &vec!["txt".to_string()]));
}

#[test]
fn ranked_hits_group_by_document_in_rank_order() {
    let h = |d: u32, n: u32| (DocId(d), NodeId(n));
    let hits = vec![h(0, 0), h(1, 0), h(0, 1), h(2, 0), h(0, 2), h(1, 1)];
    assert_eq!(group_hits(&hits, 2, 1), vec![(0, vec![2]), (1, vec![5])]);
    assert_eq!(
        group_hits(&hits, 10, 3),
        vec![(0, vec![2, 4]), (1, vec![5]), (3, vec![])]
    );
    assert_eq!(group_hits(&hits, 0, 3), vec![]);
    assert_eq!(group_hits(&vec![], 5, 5), vec![]);
}

#[test]
fn a_request_naming_no_heading_reads_the_whole_document() {
    let src = "# Intro\n\nHello.\n\n## More\n\nText.\n";
    let mut corp = CorpusIndex::new(SourceId::new("k"), "/t".to_string());
    corp.push_document(build_document(SourceId::new("k"), "docs/intro.md", src).unwrap());
    corp.rebuild_indices();
    let req = GetSectionRequest {
        source_id: "k".to_string(),
        rel_path: "docs/intro.md".to_string(),
        heading_path: None,
        node_id: None,
        body_only: false,
    };
    let (d, picked) = resolve_section(&corp, &req).unwrap();
    assert_eq!((d, picked), (0, None));
    let range = ByteRange::new(0, corp.documents[0].source_len);
    let content = section_text(src.as_bytes(), range).unwrap();
    let resp = document_response(&corp, d, "docs/intro.md", content, 0);
    assert_eq!(resp.content, src);
    assert!(resp.heading_path.is_empty());
    assert_eq!(resp.byte_range, [0, src.len() as u32]);
    let bad = GetSectionRequest { node_id: Some(9), ..req };
    assert!(resolve_section(&corp, &bad).is_err());
}

#[test]
fn unicode_white_space_separates_words() {
    assert_eq!(
        split_whitespace("a\u{3000}b\u{2028}c\u{00A0}d\te"),
        vec!["a", "b", "c", "d", "e"]
    );
    assert_eq!(split_whitespace("a\u{200B}b"), vec!["a\u{200B}b"]);
}
