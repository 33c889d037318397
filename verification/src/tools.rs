//! Request and response types of the query tools, and the pure logic that
//! turns a loaded corpus and a request into a response.

use vstd::prelude::*;

use crate::corpus::{at_views, backlink_entries, CorpusIndex, DocId};
use crate::json::Json;
use crate::model::{DocumentIndex, HeadingNode};
use crate::text::{chars_of, find_char, first_index_of, string_of_range, trim, trimmed};
use crate::tokens::{canonical_link_keys, link_keys, string_views};
use crate::types::{clone_strings, ByteRange, Error, HeadingPath, LinkKind, NodeId};

verus! {

// ---------------------------------------------------------------------------
// Response and request types
// ---------------------------------------------------------------------------

#[derive(Debug)]
pub struct SourceSummary {
    pub source_id: String,
    pub root_dir: String,
    pub documents: usize,
    pub nodes: usize,
}

#[derive(Debug)]
pub struct ListSourcesResponse {
    pub sources: Vec<SourceSummary>,
}

#[derive(Debug)]
pub struct TocRequest {
    /// Corpus identifier.
    pub source_id: String,
    /// Narrow to a single document.
    pub rel_path: Option<String>,
    /// Folder-prefix filter on `rel_path` (ignored when `rel_path` is set).
    pub path_prefix: Option<String>,
    /// Maximum heading depth to include; `None` means no limit.
    pub max_depth: Option<u8>,
    /// Attach each document's frontmatter.
    pub include_frontmatter: bool,
}

#[derive(Debug)]
pub struct TocEntry {
    pub node_id: u32,
    pub level: u8,
    pub title: String,
    pub heading_path: Vec<String>,
    /// The node has child headings, even when `max_depth` pruned them.
    pub has_children: bool,
    pub kind: Option<String>,
    pub children: Vec<TocEntry>,
}

#[derive(Debug)]
pub struct TocDocument {
    pub rel_path: String,
    pub doc_id: u32,
    /// Top-level headings, each carrying its subtree in `children`.
    pub roots: Vec<TocEntry>,
    pub frontmatter: Option<Json>,
}

#[derive(Debug)]
pub struct TocResponse {
    pub source_id: String,
    pub documents: Vec<TocDocument>,
}

#[derive(Debug)]
pub struct ListDocumentsRequest {
    pub source_id: String,
    /// Folder-prefix filter on `rel_path`.
    pub path_prefix: Option<String>,
    /// Frontmatter equality filters, all of which must hold.
    pub frontmatter: Option<Vec<(String, Json)>>,
    /// Attach each document's frontmatter.
    pub include_frontmatter: bool,
    pub limit: usize,
}

#[derive(Debug)]
pub struct DocumentSummary {
    pub rel_path: String,
    pub doc_id: u32,
    /// Title of the document's first heading.
    pub title: Option<String>,
    /// Frontmatter `description`, when present.
    pub description: Option<String>,
    pub concept_type: Option<String>,
    pub status: Option<String>,
    pub trust: Option<String>,
    pub node_count: usize,
    pub age_days: Option<u32>,
    pub frontmatter: Option<Json>,
}

#[derive(Debug)]
pub struct ListDocumentsResponse {
    pub source_id: String,
    pub documents: Vec<DocumentSummary>,
    /// More documents matched than were returned.
    pub truncated: bool,
}

#[derive(Debug)]
pub struct CorpusMapRequest {
    pub source_id: String,
    pub path_prefix: Option<String>,
    pub max_depth: Option<u8>,
}

#[derive(Debug)]
pub struct CorpusMapDoc {
    pub rel_path: String,
    pub doc_id: u32,
    pub title: Option<String>,
    pub description: Option<String>,
    pub concept_type: Option<String>,
    pub status: Option<String>,
    pub age_days: Option<u32>,
    pub headings: Vec<TocEntry>,
}

#[derive(Debug)]
pub struct CorpusFolder {
    /// Folder path relative to the corpus root, ending in `/` (empty for
    /// the root itself).
    pub path: String,
    /// Number of documents anywhere in this folder's subtree.
    pub doc_count: usize,
    pub folders: Vec<CorpusFolder>,
    pub documents: Vec<CorpusMapDoc>,
}

#[derive(Debug)]
pub struct CorpusMapResponse {
    pub source_id: String,
    pub root: CorpusFolder,
}

#[derive(Debug)]
pub struct GetSectionRequest {
    pub source_id: String,
    pub rel_path: String,
    /// Full heading ancestry, e.g. `["Architecture", "Caching"]`.
    pub heading_path: Option<Vec<String>>,
    /// Direct node id, if known.
    pub node_id: Option<u32>,
    /// Exclude the heading line itself (body only).
    pub body_only: bool,
}

#[derive(Debug)]
pub struct SectionResponse {
    pub source_id: String,
    pub rel_path: String,
    pub node_id: u32,
    pub level: u8,
    pub heading_path: Vec<String>,
    pub byte_range: [u32; 2],
    pub content: String,
    pub outbound_links: Vec<LinkInfo>,
    pub concept_type: Option<String>,
    pub status: Option<String>,
    pub trust: Option<String>,
    pub age_days: Option<u32>,
    pub stale: Option<bool>,
}

#[derive(Debug)]
pub struct LinkInfo {
    pub target: String,
    pub kind: String,
    pub text: Option<String>,
}

#[derive(Debug, Clone, Copy, PartialEq, Eq, Structural)]
pub enum GroupBy {
    /// One row per matching heading node.
    Section,
    /// One row per matching document, with nested secondary sections.
    Doc,
}

#[derive(Debug)]
pub struct SearchRequest {
    pub source_id: String,
    pub query: String,
    pub limit: usize,
    pub group_by: GroupBy,
    pub secondary_limit: usize,
    pub stale_after_days: Option<u32>,
}

/// Term-presence verdict for a query against a corpus.
#[derive(Debug, Clone, Copy, PartialEq, Eq, Structural)]
pub enum CoverageLevel {
    Full,
    Partial,
    /// The corpus holds none of the query's terms.
    Uncovered,
}

#[derive(Debug)]
pub struct SearchCoverage {
    pub level: CoverageLevel,
    /// Normalised (stemmed) query terms with postings in this corpus.
    pub matched_terms: Vec<String>,
    /// Normalised (stemmed) query terms with no postings.
    pub unmatched_terms: Vec<String>,
}

#[derive(Debug)]
pub struct AddSourceRequest {
    pub root: String,
    pub source_id: Option<String>,
    pub rebuild: bool,
}

#[derive(Debug)]
pub struct AddSourceResponse {
    pub source_id: String,
    pub root_dir: String,
    pub documents: usize,
    pub nodes: usize,
    pub indexed: bool,
}

#[derive(Debug)]
pub struct BacklinksRequest {
    pub source_id: String,
    pub target: String,
    pub target_anchor: Option<String>,
    pub limit: usize,
}

#[derive(Debug)]
pub struct ResolvedTarget {
    pub rel_path: String,
    pub doc_id: u32,
    pub node_id: u32,
    pub heading_path: Vec<String>,
}

#[derive(Debug)]
pub struct Backlink {
    pub rel_path: String,
    pub doc_id: u32,
    pub node_id: u32,
    pub level: u8,
    pub heading_path: Vec<String>,
    pub summary: String,
    pub age_days: Option<u32>,
}

#[derive(Debug)]
pub struct BacklinksResponse {
    pub source_id: String,
    pub target: String,
    pub target_anchor: Option<String>,
    pub resolved_targets: Vec<ResolvedTarget>,
    pub backlinks: Vec<Backlink>,
}

#[derive(Debug)]
pub struct HotRequest {
    pub source_id: String,
    pub limit: usize,
}

#[derive(Debug)]
pub struct NeighborsRequest {
    pub source_id: String,
    pub rel_path: String,
    pub heading_path: Option<Vec<String>>,
    pub node_id: Option<u32>,
}

#[derive(Debug)]
pub struct NeighborRef {
    pub node_id: u32,
    pub level: u8,
    pub title: String,
    pub heading_path: Vec<String>,
}

#[derive(Debug)]
pub struct NeighborsResponse {
    pub source_id: String,
    pub rel_path: String,
    pub node_id: u32,
    pub parent: Option<NeighborRef>,
    pub prev_sibling: Option<NeighborRef>,
    pub next_sibling: Option<NeighborRef>,
    pub children: Vec<NeighborRef>,
}

#[derive(Debug)]
pub struct GetByPathRequest {
    pub source_id: String,
    /// `path/to/file.md#Heading > Subheading`; the `#` part is optional.
    pub qualified_path: String,
    pub body_only: bool,
}

// ---------------------------------------------------------------------------
// Small helpers
// ---------------------------------------------------------------------------

/// Whether two string lists are equal.
pub fn strings_eq(a: &Vec<String>, b: &Vec<String>) -> (r: bool)
    ensures
        r == (string_views(a@) == string_views(b@)),
{
    if a.len() != b.len() {
        return false;
    }
    let mut i: usize = 0;
    while i < a.len()
        invariant
            i <= a@.len(),
            a@.len() == b@.len(),
            forall|k: int| 0 <= k < i ==> a@[k]@ == b@[k]@,
        decreases a@.len() - i,
    {
        if a[i] != b[i] {
            assert(string_views(a@)[i as int] != string_views(b@)[i as int]);
            return false;
        }
        i = i + 1;
    }
    assert(string_views(a@) =~= string_views(b@));
    true
}

/// The `stale` flag of a hit: `None` when no threshold was asked for;
/// otherwise whether the age is known and above it.
pub fn stale_flag(age_days: Option<u32>, threshold: Option<u32>) -> (r: Option<bool>)
    ensures
        r == match threshold {
            Some(t) => Some(
                match age_days {
                    Some(a) => a > t,
                    None => false,
                },
            ),
            None => None,
        },
{
    match threshold {
        Some(t) => Some(
            match age_days {
                Some(a) => a > t,
                None => false,
            },
        ),
        None => None,
    }
}

/// A neighbor reference to `n`.
pub fn to_ref(n: &HeadingNode) -> (r: NeighborRef)
    ensures
        r.node_id == n.id.0,
        r.level == n.level,
        r.title@ == n.title@,
        string_views(r.heading_path@) == n.path@,
{
    NeighborRef {
        node_id: n.id.0,
        level: n.level,
        title: n.title.clone(),
        heading_path: clone_strings(&n.path.0),
    }
}

// ---------------------------------------------------------------------------
// Heading paths written as text
// ---------------------------------------------------------------------------

/// `s` cut at every `c`, as `str::split` does (always at least one piece).
pub open spec fn pieces(s: Seq<char>, c: char) -> Seq<Seq<char>>
    decreases s.len(),
{
    if s.len() == 0 {
        seq![Seq::empty()]
    } else {
        let p = pieces(s.drop_last(), c);
        if s.last() == c {
            p.push(Seq::empty())
        } else {
            p.update(p.len() - 1, p.last().push(s.last()))
        }
    }
}

pub proof fn lemma_pieces_nonempty(s: Seq<char>, c: char)
    ensures
        pieces(s, c).len() >= 1,
    decreases s.len(),
{
    if s.len() > 0 {
        lemma_pieces_nonempty(s.drop_last(), c);
    }
}

/// The trimmed pieces that are not blank, in order.
pub open spec fn kept_segments(ps: Seq<Seq<char>>) -> Seq<Seq<char>>
    decreases ps.len(),
{
    if ps.len() == 0 {
        Seq::empty()
    } else {
        let prev = kept_segments(ps.drop_last());
        if trimmed(ps.last()).len() > 0 {
            prev.push(trimmed(ps.last()))
        } else {
            prev
        }
    }
}

/// The heading segments written as `Heading > Sub`: split at `>`, each
/// trimmed, blanks dropped.
pub open spec fn heading_segments_of(s: Seq<char>) -> Seq<Seq<char>> {
    kept_segments(pieces(s, '>'))
}

pub fn split_pieces(cs: &[char], c: char) -> (r: Vec<String>)
    ensures
        string_views(r@) == pieces(cs@, c),
{
    let mut out: Vec<String> = Vec::new();
    let mut start: usize = 0;
    let mut i: usize = 0;
    proof {
        assert(cs@.take(0) =~= Seq::<char>::empty());
    }
    while i < cs.len()
        invariant
            start <= i <= cs@.len(),
            string_views(out@).push(cs@.subrange(start as int, i as int)) == pieces(cs@.take(i as int), c),
        decreases cs@.len() - i,
    {
        proof {
            assert(cs@.take(i + 1).drop_last() =~= cs@.take(i as int));
            lemma_pieces_nonempty(cs@.take(i as int), c);
        }
        if cs[i] == c {
            let piece = string_of_range(cs, start, i);
            let ghost before = string_views(out@);
            out.push(piece);
            proof {
                assert(string_views(out@) =~= before.push(cs@.subrange(start as int, i as int)));
                assert(cs@.subrange(i + 1, i + 1) =~= Seq::<char>::empty());
            }
            start = i + 1;
        } else {
            proof {
                assert(cs@.subrange(start as int, i + 1) =~= cs@.subrange(start as int, i as int).push(cs@[i as int]));
                let p = pieces(cs@.take(i as int), c);
                assert(string_views(out@).push(cs@.subrange(start as int, i + 1)) =~= p.update(
                    p.len() - 1,
                    p.last().push(cs@[i as int]),
                ));
            }
        }
        i = i + 1;
    }
    let last = string_of_range(cs, start, cs.len());
    let ghost before = string_views(out@);
    out.push(last);
    proof {
        assert(string_views(out@) =~= before.push(cs@.subrange(start as int, cs@.len() as int)));
        assert(cs@.take(cs@.len() as int) =~= cs@);
    }
    out
}

/// The segments of a heading path written as `Heading > Sub`.
pub fn heading_segments(s: &str) -> (r: Vec<String>)
    ensures
        string_views(r@) == heading_segments_of(s@),
{
    let cs = chars_of(s);
    let ps = split_pieces(cs.as_slice(), '>');
    let ghost pv = string_views(ps@);
    let mut out: Vec<String> = Vec::new();
    let mut i: usize = 0;
    while i < ps.len()
        invariant
            i <= ps@.len(),
            pv == string_views(ps@),
            pv == pieces(s@, '>'),
            string_views(out@) == kept_segments(pv.take(i as int)),
        decreases ps@.len() - i,
    {
        proof {
            assert(pv.take(i + 1).drop_last() =~= pv.take(i as int));
        }
        let t = trim(ps[i].as_str());
        if t.as_str().unicode_len() > 0 {
            let ghost before = string_views(out@);
            out.push(t);
            proof {
                assert(string_views(out@) =~= before.push(out@.last()@));
            }
        }
        i = i + 1;
    }
    assert(pv.take(i as int) =~= pv);
    out
}

/// The part of `s` before the first `#`, and the text after it.
pub open spec fn split_at_hash(s: Seq<char>) -> (Seq<char>, Option<Seq<char>>) {
    match first_index_of(s, '#') {
        Some(i) => (s.take(i), Some(s.skip(i + 1))),
        None => (s, None),
    }
}

/// `path/to/file.md#Heading > Sub` read as a document path and, when the
/// fragment names any heading, its segments.
pub open spec fn qualified_path_of(s: Seq<char>) -> (Seq<char>, Option<Seq<Seq<char>>>) {
    match split_at_hash(s).1 {
        Some(frag) => (
            split_at_hash(s).0,
            if heading_segments_of(frag).len() > 0 {
                Some(heading_segments_of(frag))
            } else {
                None
            },
        ),
        None => (s, None),
    }
}

pub open spec fn opt_segments_view(o: Option<Vec<String>>) -> Option<Seq<Seq<char>>> {
    match o {
        Some(v) => Some(string_views(v@)),
        None => None,
    }
}

/// Split `path/to/file.md#Heading > Sub` into the document path and the
/// heading path (`None` when there is no fragment or it names no heading).
pub fn parse_qualified_path(s: &str) -> (r: (String, Option<Vec<String>>))
    ensures
        r.0@ == qualified_path_of(s@).0,
        opt_segments_view(r.1) == qualified_path_of(s@).1,
{
    let cs = chars_of(s);
    let n = cs.len();
    match find_char(cs.as_slice(), '#') {
        Some(pos) => {
            assert(pos < n);
            let rel = string_of_range(cs.as_slice(), 0, pos);
            let frag = string_of_range(cs.as_slice(), pos + 1, n);
            proof {
                assert(cs@.subrange(pos + 1, cs@.len() as int) =~= cs@.skip(pos + 1));
            }
            let segs = heading_segments(frag.as_str());
            if segs.len() == 0 {
                (rel, None)
            } else {
                (rel, Some(segs))
            }
        },
        None => {
            assert(cs@.subrange(0, cs@.len() as int) =~= cs@);
            (string_of_range(cs.as_slice(), 0, cs.len()), None)
        },
    }
}

} // verus!
