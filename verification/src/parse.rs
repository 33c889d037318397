//! The structural parse of a markdown document: frontmatter, heading events,
//! link events and Dataview block ranges, all with byte offsets into the
//! original source.

use vstd::prelude::*;

use crate::frontmatter::{body_start, body_view, parsed_front_matter, split_frontmatter, split_offset};
use crate::headings::{collect, heading_views, headings_of_events};
use crate::json::{json_same, Json};
use crate::links::{extract_links, inline_links_of, sort_by_offset, wiki_links_in};
use crate::markdown::markdown_events;
use crate::obsidian::{dataview_ranges_of, detect_dataview_ranges};
use crate::types::{Error, LinkKind};
use vstd::string::StringSliceAdditionalSpecFns;
use vstd::utf8::encode_utf8;

verus! {

/// A heading discovered in source order.
#[derive(Debug)]
pub struct HeadingEvent {
    /// Heading depth, 1 to 6.
    pub level: u8,
    /// Heading text with inline formatting stripped.
    pub text: String,
    /// Byte offset of the heading line start in the original source.
    pub offset: u32,
    /// Byte offset just after the heading (its text and line ending).
    pub body_start: u32,
}

pub struct HeadingEventView {
    pub level: u8,
    pub text: Seq<char>,
    pub offset: u32,
    pub body_start: u32,
}

impl View for HeadingEvent {
    type V = HeadingEventView;

    open spec fn view(&self) -> HeadingEventView {
        HeadingEventView {
            level: self.level,
            text: self.text@,
            offset: self.offset,
            body_start: self.body_start,
        }
    }
}

/// A link discovered during parsing. Offsets reference the original source.
#[derive(Debug)]
pub struct LinkEvent {
    pub target: String,
    pub text: Option<String>,
    pub kind: LinkKind,
    pub offset: u32,
}

pub struct LinkEventView {
    pub target: Seq<char>,
    pub text: Option<Seq<char>>,
    pub kind: LinkKind,
    pub offset: u32,
}

impl View for LinkEvent {
    type V = LinkEventView;

    open spec fn view(&self) -> LinkEventView {
        LinkEventView {
            target: self.target@,
            text: match self.text {
                Some(t) => Some(t@),
                None => None,
            },
            kind: self.kind,
            offset: self.offset,
        }
    }
}

pub open spec fn link_views(ls: Seq<LinkEvent>) -> Seq<LinkEventView> {
    ls.map_values(|l: LinkEvent| l@)
}

/// Decoded frontmatter plus its raw text.
#[derive(Debug)]
pub struct Frontmatter {
    /// The raw YAML text, with the `---` delimiters stripped.
    pub raw: String,
    /// The decoded value (`Null` when the YAML did not decode).
    pub data: Json,
}

/// The full structural parse of a markdown document.
#[derive(Debug)]
pub struct ParsedDoc {
    pub frontmatter: Option<Frontmatter>,
    /// Headings in source order.
    pub headings: Vec<HeadingEvent>,
    /// Links in source order.
    pub links: Vec<LinkEvent>,
    /// Byte ranges `[start, end)` of Obsidian Dataview blocks.
    pub dataview_ranges: Vec<(u32, u32)>,
    /// Length of the original source in bytes.
    pub source_len: u32,
}

/// `doc` is the structural parse of `src`: the frontmatter block peeled off
/// as `split_frontmatter` does, then headings, links (sorted by offset) and
/// Dataview ranges read from the markdown events of the body, all with
/// offsets into the original source.
pub open spec fn parsed_doc_of(src: Seq<char>, doc: ParsedDoc) -> bool {
    let body = body_view(src);
    let off = body_start(src);
    let ev = markdown_events(body);
    &&& match split_offset(src) {
        Some(_) => doc.frontmatter matches Some(fm) && fm.raw@ == parsed_front_matter(src).0
            && json_same(fm.data, parsed_front_matter(src).1),
        None => doc.frontmatter is None,
    }
    &&& heading_views(doc.headings@) == headings_of_events(ev, off)
    &&& link_views(doc.links@) == sort_by_offset(
        inline_links_of(ev, off) + wiki_links_in(body, ev, encode_utf8(body).len(), off),
    )
    &&& doc.dataview_ranges@ == dataview_ranges_of(ev, off)
    &&& doc.source_len == encode_utf8(src).len()
}

/// Parse a markdown document into its structural events. Offsets reference
/// the original `src`; callers never track the frontmatter split themselves.
pub fn parse_document(src: &str) -> (r: Result<ParsedDoc, Error>)
    requires
        src.spec_bytes().len() <= u32::MAX,
        src.spec_bytes().len() < usize::MAX,
    ensures
        r matches Ok(doc) && parsed_doc_of(src@, doc),
{
    let (fm, body, body_offset) = split_frontmatter(src);
    let headings = collect(body, body_offset);
    let links = extract_links(body, body_offset);
    let dataview_ranges = detect_dataview_ranges(body, body_offset);
    let source_len = src.as_bytes().len() as u32;
    Ok(ParsedDoc { frontmatter: fm, headings, links, dataview_ranges, source_len })
}

/// Two parses of one source have the same number of headings.
pub proof fn lemma_parsed_doc_heading_count(src: Seq<char>, p1: ParsedDoc, p2: ParsedDoc)
    requires
        parsed_doc_of(src, p1),
        parsed_doc_of(src, p2),
    ensures
        p1.headings@.len() == p2.headings@.len(),
{
    assert(heading_views(p1.headings@).len() == p1.headings@.len());
    assert(heading_views(p2.headings@).len() == p2.headings@.len());
}

/// Two parses of one source agree on the headings' offsets and the length.
pub proof fn lemma_parsed_doc_offsets(src: Seq<char>, p1: ParsedDoc, p2: ParsedDoc)
    requires
        parsed_doc_of(src, p1),
        parsed_doc_of(src, p2),
    ensures
        p1.headings@.len() == p2.headings@.len(),
        p1.source_len == p2.source_len,
        forall|j: int| 0 <= j < p1.headings@.len() ==> #[trigger] p1.headings@[j].offset == p2.headings@[j].offset,
{
    let v1 = heading_views(p1.headings@);
    let v2 = heading_views(p2.headings@);
    assert(v1.len() == p1.headings@.len());
    assert(v2.len() == p2.headings@.len());
    assert forall|j: int| 0 <= j < p1.headings@.len() implies #[trigger] p1.headings@[j].offset == p2.headings@[j].offset by {
        assert(v1[j] == p1.headings@[j]@);
        assert(v2[j] == p2.headings@[j]@);
    }
}

} // verus!
