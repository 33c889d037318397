//! Assembling a document index: the heading tree of a parsed document with
//! ranges closed, links attached, Dataview sections tagged and summaries
//! filled in from the source text.

use vstd::prelude::*;

use crate::builder::{
    attach_links, body_range, build_tree, finalise_ranges, lemma_same_shape_tree, links_attached,
    node_at, node_containing, opt_view, ranges_of, same_shape, section_range, tree_of,
};
use crate::json::Json;
use crate::model::{DocumentIndex, HeadingNode};
use crate::obsidian::DATAVIEW_MARKER;
use crate::parse::{parse_document, parsed_doc_of, HeadingEvent, LinkEvent, ParsedDoc};
use crate::summary::{first_sentence, summary_of};
use crate::tree_laws::headings_ordered;
use crate::types::{ByteRange, Error, NodeId, SourceId};
use vstd::string::StringSliceAdditionalSpecFns;
use vstd::utf8::{decode_utf8, encode_utf8, valid_utf8};

verus! {

// ---------------------------------------------------------------------------
// Dataview tagging
// ---------------------------------------------------------------------------

pub open spec fn dataview_kind() -> Seq<char> {
    seq!['d', 'a', 't', 'a', 'v', 'i', 'e', 'w']
}

/// Some Dataview block starts inside node `j` (as its deepest section).
pub open spec fn holds_dataview(rs: Seq<ByteRange>, ranges: Seq<(u32, u32)>, j: int) -> bool {
    exists|k: int| 0 <= k < ranges.len() && node_at(rs, (#[trigger] ranges[k]).0) == Some(j)
}

/// Tags every section whose range holds the start of a Dataview block with
/// `kind = "dataview"`, crediting the deepest such section.
fn attach_dataview(nodes: &mut Vec<HeadingNode>, ranges: &Vec<(u32, u32)>)
    ensures
        same_shape(old(nodes)@, final(nodes)@),
        forall|j: int|
            0 <= j < final(nodes)@.len() ==> {
                &&& (#[trigger] final(nodes)@[j]).byte_range == old(nodes)@[j].byte_range
                &&& final(nodes)@[j].content_range == old(nodes)@[j].content_range
                &&& final(nodes)@[j].summary == old(nodes)@[j].summary
                &&& final(nodes)@[j].outbound_links == old(nodes)@[j].outbound_links
                &&& opt_view(final(nodes)@[j].kind) == if holds_dataview(
                    ranges_of(old(nodes)@),
                    ranges@,
                    j,
                ) {
                    Some(dataview_kind())
                } else {
                    opt_view(old(nodes)@[j].kind)
                }
            },
{
    let ghost orig = nodes@;
    let ghost rs = ranges_of(nodes@);
    let mut k: usize = 0;
    while k < ranges.len()
        invariant
            k <= ranges@.len(),
            same_shape(orig, nodes@),
            rs == ranges_of(orig),
            forall|j: int|
                0 <= j < nodes@.len() ==> {
                    &&& (#[trigger] nodes@[j]).byte_range == orig[j].byte_range
                    &&& nodes@[j].content_range == orig[j].content_range
                    &&& nodes@[j].summary == orig[j].summary
                    &&& nodes@[j].outbound_links == orig[j].outbound_links
                    &&& opt_view(nodes@[j].kind) == if holds_dataview(rs, ranges@.take(k as int), j) {
                        Some(dataview_kind())
                    } else {
                        opt_view(orig[j].kind)
                    }
                },
        decreases ranges@.len() - k,
    {
        let (start, _end) = ranges[k];
        let ghost before = nodes@;
        proof {
            assert(ranges_of(nodes@) =~= rs);
        }
        let found = node_containing(nodes.as_slice(), start);
        match found {
            Some(i) => {
                nodes[i].kind = Some("dataview".to_owned());
                proof {
                    reveal_strlit("dataview");
                }
            },
            None => {},
        }
        proof {
            let t0 = ranges@.take(k as int);
            let t1 = ranges@.take(k + 1);
            assert forall|j: int| 0 <= j < nodes@.len() implies {
                &&& (#[trigger] nodes@[j]).byte_range == orig[j].byte_range
                &&& nodes@[j].content_range == orig[j].content_range
                &&& nodes@[j].summary == orig[j].summary
                &&& nodes@[j].outbound_links == orig[j].outbound_links
                &&& opt_view(nodes@[j].kind) == if holds_dataview(rs, t1, j) {
                    Some(dataview_kind())
                } else {
                    opt_view(orig[j].kind)
                }
            } by {
                assert(t1[k as int] == ranges@[k as int]);
                if holds_dataview(rs, t0, j) {
                    let w = choose|w: int| 0 <= w < t0.len() && node_at(rs, (#[trigger] t0[w]).0) == Some(j);
                    assert(t1[w] == t0[w]);
                }
                if holds_dataview(rs, t1, j) && !holds_dataview(rs, t0, j) {
                    let w = choose|w: int| 0 <= w < t1.len() && node_at(rs, (#[trigger] t1[w]).0) == Some(j);
                    if w < k {
                        assert(t0[w] == t1[w]);
                    }
                }
                if node_at(rs, start) == Some(j) {
                    assert(t1[k as int].0 == start);
                }
            }
        }
        k = k + 1;
    }
    assert(ranges@.take(ranges@.len() as int) =~= ranges@);
}

// ---------------------------------------------------------------------------
// Summaries
// ---------------------------------------------------------------------------

/// `std::str::from_utf8`: the text of `bytes` when they are valid UTF-8.
#[verifier::external_body]
pub(crate) fn utf8_text(bytes: &[u8]) -> (r: Option<&str>)
    ensures
        match r {
            Some(s) => valid_utf8(bytes@) && s.spec_bytes() == bytes@,
            None => !valid_utf8(bytes@),
        },
{
    std::str::from_utf8(bytes).ok()
}

pub open spec fn dataview_marker() -> Seq<char> {
    DATAVIEW_MARKER@
}

/// The summary a node gets from the source bytes of its body: the body's
/// first sentence, or the Dataview marker for a Dataview section with no
/// prose. A body range that is empty, out of bounds or not valid UTF-8
/// leaves the previous summary.
pub open spec fn summary_for(src: Seq<u8>, r: ByteRange, kind: Option<Seq<char>>, prev: Seq<char>) -> Seq<char> {
    if r.start >= r.end || r.end > src.len() {
        prev
    } else if !valid_utf8(src.subrange(r.start as int, r.end as int)) {
        prev
    } else {
        let s = summary_of(decode_utf8(src.subrange(r.start as int, r.end as int)));
        if s.len() == 0 && kind == Some(dataview_kind()) {
            dataview_marker()
        } else {
            s
        }
    }
}

fn fill_summaries(nodes: &mut Vec<HeadingNode>, src: &str)
    ensures
        same_shape(old(nodes)@, final(nodes)@),
        forall|j: int|
            0 <= j < final(nodes)@.len() ==> {
                &&& (#[trigger] final(nodes)@[j]).byte_range == old(nodes)@[j].byte_range
                &&& final(nodes)@[j].content_range == old(nodes)@[j].content_range
                &&& final(nodes)@[j].outbound_links == old(nodes)@[j].outbound_links
                &&& final(nodes)@[j].kind == old(nodes)@[j].kind
                &&& final(nodes)@[j].summary@ == summary_for(
                    src.spec_bytes(),
                    old(nodes)@[j].content_range,
                    opt_view(old(nodes)@[j].kind),
                    old(nodes)@[j].summary@,
                )
            },
{
    let ghost orig = nodes@;
    let bytes = src.as_bytes();
    let n = nodes.len();
    for i in 0..n
        invariant
            n == nodes@.len(),
            bytes@ == src.spec_bytes(),
            same_shape(orig, nodes@),
            forall|j: int|
                0 <= j < n ==> {
                    &&& (#[trigger] nodes@[j]).byte_range == orig[j].byte_range
                    &&& nodes@[j].content_range == orig[j].content_range
                    &&& nodes@[j].outbound_links == orig[j].outbound_links
                    &&& nodes@[j].kind == orig[j].kind
                },
            forall|j: int|
                0 <= j < i ==> (#[trigger] nodes@[j]).summary@ == summary_for(
                    bytes@,
                    orig[j].content_range,
                    opt_view(orig[j].kind),
                    orig[j].summary@,
                ),
            forall|j: int| i <= j < n ==> (#[trigger] nodes@[j]).summary == orig[j].summary,
    {
        let start = nodes[i].content_range.start as usize;
        let end = nodes[i].content_range.end as usize;
        if start < end && end <= bytes.len() {
            let slice = slice_bytes(bytes, start, end);
            match utf8_text(slice) {
                Some(s) => {
                    proof {
                        vstd::utf8::decode_utf8_encode_utf8(slice@);
                        vstd::utf8::encode_utf8_decode_utf8(s@);
                    }
                    let sentence = first_sentence(s);
                    let tag = "dataview".to_owned();
                    let is_dataview = match &nodes[i].kind {
                        Some(k) => *k == tag,
                        None => false,
                    };
                    proof {
                        reveal_strlit("dataview");
                        assert("dataview"@ =~= dataview_kind());
                        assert(s@ == decode_utf8(bytes@.subrange(start as int, end as int)));
                        assert(is_dataview == (opt_view(orig[i as int].kind) == Some(dataview_kind())));
                    }
                    if sentence.as_str().unicode_len() == 0 && is_dataview {
                        nodes[i].summary = DATAVIEW_MARKER.to_owned();
                    } else {
                        nodes[i].summary = sentence;
                    }
                    proof {
                        assert(nodes@[i as int].summary@ == summary_for(
                            bytes@,
                            orig[i as int].content_range,
                            opt_view(orig[i as int].kind),
                            orig[i as int].summary@,
                        ));
                    }
                },
                None => {},
            }
        }
    }
}

/// `bytes[start..end]`.
fn slice_bytes(bytes: &[u8], start: usize, end: usize) -> (r: &[u8])
    requires
        start <= end <= bytes@.len(),
    ensures
        r@ == bytes@.subrange(start as int, end as int),
{
    let (head, _) = bytes.split_at(end);
    let (_, tail) = head.split_at(start);
    assert(tail@ =~= bytes@.subrange(start as int, end as int));
    tail
}


// ---------------------------------------------------------------------------
// Body offset
// ---------------------------------------------------------------------------

/// The least element of `s`, if any.
pub open spec fn min_of(s: Seq<u32>) -> Option<u32>
    decreases s.len(),
{
    if s.len() == 0 {
        None
    } else {
        match min_of(s.drop_last()) {
            Some(m) => Some(if s.last() < m { s.last() } else { m }),
            None => Some(s.last()),
        }
    }
}

pub open spec fn heading_offsets(hs: Seq<HeadingEvent>) -> Seq<u32> {
    hs.map_values(|h: HeadingEvent| h.offset)
}

pub open spec fn link_offsets(ls: Seq<LinkEvent>) -> Seq<u32> {
    ls.map_values(|l: LinkEvent| l.offset)
}

/// The offset of the earliest heading or link (`0` when there are none).
pub open spec fn first_event_offset(p: ParsedDoc) -> u32 {
    match (min_of(heading_offsets(p.headings@)), min_of(link_offsets(p.links@))) {
        (Some(a), Some(b)) => if a < b {
            a
        } else {
            b
        },
        (Some(a), None) => a,
        (None, Some(b)) => b,
        (None, None) => 0,
    }
}

fn min_heading_offset(hs: &Vec<HeadingEvent>) -> (r: Option<u32>)
    ensures
        r == min_of(heading_offsets(hs@)),
{
    let ghost offs = heading_offsets(hs@);
    let mut best: Option<u32> = None;
    let mut i: usize = 0;
    while i < hs.len()
        invariant
            i <= hs@.len(),
            offs == heading_offsets(hs@),
            best == min_of(offs.subrange(0, i as int)),
        decreases hs@.len() - i,
    {
        let o = hs[i].offset;
        proof {
            assert(offs.subrange(0, i + 1).drop_last() =~= offs.subrange(0, i as int));
        }
        best = match best {
            Some(m) => Some(if o < m { o } else { m }),
            None => Some(o),
        };
        i = i + 1;
    }
    assert(offs.subrange(0, i as int) =~= offs);
    best
}

fn min_link_offset(ls: &Vec<LinkEvent>) -> (r: Option<u32>)
    ensures
        r == min_of(link_offsets(ls@)),
{
    let ghost offs = link_offsets(ls@);
    let mut best: Option<u32> = None;
    let mut i: usize = 0;
    while i < ls.len()
        invariant
            i <= ls@.len(),
            offs == link_offsets(ls@),
            best == min_of(offs.subrange(0, i as int)),
        decreases ls@.len() - i,
    {
        let o = ls[i].offset;
        proof {
            assert(offs.subrange(0, i + 1).drop_last() =~= offs.subrange(0, i as int));
        }
        best = match best {
            Some(m) => Some(if o < m { o } else { m }),
            None => Some(o),
        };
        i = i + 1;
    }
    assert(offs.subrange(0, i as int) =~= offs);
    best
}

/// The earliest heading or link offset: a safe upper bound on where the body
/// starts. With no structural events the whole file counts as body (`0`).
fn first_nonfrontmatter_offset(parsed: &ParsedDoc) -> (r: u32)
    ensures
        r == first_event_offset(*parsed),
{
    let min_h = min_heading_offset(&parsed.headings);
    let min_l = min_link_offset(&parsed.links);
    match (min_h, min_l) {
        (Some(a), Some(b)) => if a < b {
            a
        } else {
            b
        },
        (Some(a), None) => a,
        (None, Some(b)) => b,
        (None, None) => 0,
    }
}

// ---------------------------------------------------------------------------
// Assembly
// ---------------------------------------------------------------------------

/// The section ranges of every heading.
pub open spec fn section_ranges(hs: Seq<HeadingEvent>, source_len: u32) -> Seq<ByteRange> {
    Seq::new(hs.len(), |j: int| section_range(hs, j, source_len))
}

/// `nodes` / `roots` are the heading tree of `p`: tree shape, closed ranges,
/// links attached to their deepest section, Dataview tags, and summaries
/// taken from the source bytes `src`.
pub open spec fn assembled(p: ParsedDoc, src: Seq<u8>, nodes: Seq<HeadingNode>, roots: Seq<NodeId>) -> bool {
    let hs = p.headings@;
    let rs = section_ranges(hs, p.source_len);
    &&& tree_of(hs, nodes, roots)
    &&& forall|j: int|
        0 <= j < nodes.len() ==> {
            &&& (#[trigger] nodes[j]).byte_range == section_range(hs, j, p.source_len)
            &&& nodes[j].content_range == body_range(hs, j, p.source_len)
            &&& links_attached(nodes[j].outbound_links@, rs, p.links@, j)
            &&& opt_view(nodes[j].kind) == if holds_dataview(rs, p.dataview_ranges@, j) {
                Some(dataview_kind())
            } else {
                None::<Seq<char>>
            }
            &&& nodes[j].summary@ == summary_for(
                src,
                body_range(hs, j, p.source_len),
                opt_view(nodes[j].kind),
                Seq::empty(),
            )
        }
}

/// The document index of `p`, with its identity fields.
pub open spec fn document_from(
    doc: DocumentIndex,
    source: Seq<char>,
    rel_path: Seq<char>,
    file_hash: u64,
    src: Seq<u8>,
    p: ParsedDoc,
    body_offset: u32,
) -> bool {
    &&& doc.source.0@ == source
    &&& doc.rel_path@ == rel_path
    &&& doc.file_hash == file_hash
    &&& doc.frontmatter == match p.frontmatter {
        Some(fm) => Some(fm.data),
        None => None,
    }
    &&& doc.modified_at is None
    &&& doc.source_len == p.source_len
    &&& doc.body_offset == body_offset
    &&& assembled(p, src, doc.nodes@, doc.roots@)
}

#[verifier::spinoff_prover]
fn assemble(
    source: SourceId,
    rel_path: String,
    file_hash: u64,
    src: &str,
    parsed: ParsedDoc,
    body_offset: u32,
) -> (doc: DocumentIndex)
    requires
        parsed.headings@.len() <= u32::MAX,
    ensures
        document_from(doc, source.0@, rel_path@, file_hash, src.spec_bytes(), parsed, body_offset),
{
    let ghost p = parsed;
    let ParsedDoc { frontmatter, headings, links, dataview_ranges, source_len } = parsed;
    let (mut nodes, roots) = build_tree(&headings);
    let ghost n0 = nodes@;
    finalise_ranges(&mut nodes, &headings, source_len);
    let ghost n1 = nodes@;
    let ghost hs = headings@;
    let ghost rs = section_ranges(hs, source_len);
    proof {
        lemma_same_shape_tree(hs, n0, n1, roots@);
        assert(ranges_of(n1) =~= rs);
    }
    attach_links(&mut nodes, &links);
    let ghost n2 = nodes@;
    proof {
        assert(same_shape(n0, n2)) by {
            assert forall|j: int| 0 <= j < n0.len() implies #[trigger] n0[j].id == n2[j].id by {
                assert(n0[j].id == n1[j].id);
            }
        }
        lemma_same_shape_tree(hs, n0, n2, roots@);
        assert(ranges_of(n2) =~= rs);
    }
    attach_dataview(&mut nodes, &dataview_ranges);
    let ghost n3 = nodes@;
    proof {
        lemma_same_shape_tree(hs, n2, n3, roots@);
    }
    fill_summaries(&mut nodes, src);
    let ghost n4 = nodes@;
    proof {
        lemma_same_shape_tree(hs, n3, n4, roots@);
        assert forall|j: int| 0 <= j < n4.len() implies {
            &&& (#[trigger] n4[j]).byte_range == section_range(hs, j, source_len)
            &&& n4[j].content_range == body_range(hs, j, source_len)
            &&& links_attached(n4[j].outbound_links@, rs, links@, j)
            &&& opt_view(n4[j].kind) == if holds_dataview(rs, dataview_ranges@, j) {
                Some(dataview_kind())
            } else {
                None::<Seq<char>>
            }
            &&& n4[j].summary@ == summary_for(
                src.spec_bytes(),
                body_range(hs, j, source_len),
                opt_view(n4[j].kind),
                Seq::empty(),
            )
        } by {
            assert(n1[j].byte_range == section_range(hs, j, source_len));
            assert(n1[j].content_range == body_range(hs, j, source_len));
            assert(n2[j].byte_range == n1[j].byte_range);
            assert(n2[j].content_range == n1[j].content_range);
            assert(n2[j].summary == n1[j].summary);
            assert(n2[j].kind == n1[j].kind);
            assert(n1[j].summary == n0[j].summary);
            assert(n1[j].kind == n0[j].kind);
            assert(n0[j].kind is None);
            assert(n0[j].summary@ == Seq::<char>::empty());
            assert(links_attached(n2[j].outbound_links@, ranges_of(n1), links@, j));
            assert(n3[j].byte_range == n2[j].byte_range);
            assert(n3[j].content_range == n2[j].content_range);
            assert(n3[j].summary == n2[j].summary);
            assert(n3[j].outbound_links == n2[j].outbound_links);
            assert(n4[j].outbound_links == n3[j].outbound_links);
            assert(n4[j].kind == n3[j].kind);
        }
    }
    let fm_data: Option<Json> = match frontmatter {
        Some(f) => Some(f.data),
        None => None,
    };
    DocumentIndex {
        source,
        rel_path,
        file_hash,
        frontmatter: fm_data,
        modified_at: None,
        nodes,
        roots,
        source_len,
        body_offset,
    }
}

/// The xxh3 64-bit hash of a byte string.
pub uninterp spec fn xxh3_of(bytes: Seq<u8>) -> u64;

/// `xxhash_rust::xxh3::xxh3_64`: the XXH3 64-bit hash of `bytes` (seed 0).
#[verifier::external_body]
fn xxh3_64(bytes: &[u8]) -> (r: u64)
    ensures
        r == xxh3_of(bytes@),
{
    xxhash_rust::xxh3::xxh3_64(bytes)
}

/// `doc` is the index built from source `src` of document `rel_path` in
/// corpus `source`, for some structural parse `p` of `src`.
pub open spec fn built_from(doc: DocumentIndex, source: Seq<char>, rel_path: Seq<char>, src: Seq<char>, p: ParsedDoc) -> bool {
    &&& parsed_doc_of(src, p)
    &&& p.headings@.len() <= u32::MAX
    &&& headings_ordered(p.headings@, p.source_len)
    &&& document_from(
        doc,
        source,
        rel_path,
        xxh3_of(encode_utf8(src)),
        encode_utf8(src),
        p,
        if p.frontmatter is Some {
            first_event_offset(p)
        } else {
            0
        },
    )
}

/// Whether the headings' offsets are in source order and within the source.
fn headings_in_order(hs: &Vec<HeadingEvent>, source_len: u32) -> (r: bool)
    ensures
        r == headings_ordered(hs@, source_len),
{
    let mut i: usize = 0;
    while i < hs.len()
        invariant
            i <= hs@.len(),
            forall|a: int, b: int| 0 <= a <= b < i ==> #[trigger] hs@[a].offset <= #[trigger] hs@[b].offset,
            forall|a: int| 0 <= a < i ==> #[trigger] hs@[a].offset <= source_len,
        decreases hs@.len() - i,
    {
        if hs[i].offset > source_len {
            return false;
        }
        if i > 0 && hs[i - 1].offset > hs[i].offset {
            return false;
        }
        proof {
            assert forall|a: int, b: int| 0 <= a <= b < i + 1 implies #[trigger] hs@[a].offset <= #[trigger] hs@[b].offset by {
                if b == i && a < i {
                    assert(hs@[a].offset <= hs@[i - 1].offset);
                }
            }
        }
        i = i + 1;
    }
    true
}

/// Build a `DocumentIndex` from raw source text.
///
/// Fails only when the document has more headings than node ids can
/// number, or when the parser reports headings out of source order.
pub fn build_document(source: SourceId, rel_path: &str, src: &str) -> (r: Result<DocumentIndex, Error>)
    requires
        src.spec_bytes().len() <= u32::MAX,
        src.spec_bytes().len() < usize::MAX,
    ensures
        match r {
            Ok(doc) => exists|p: ParsedDoc| built_from(doc, source.0@, rel_path@, src@, p),
            Err(e) => exists|p: ParsedDoc|
                parsed_doc_of(src@, p) && (p.headings@.len() > u32::MAX || !headings_ordered(
                    p.headings@,
                    p.source_len,
                )),
        },
{
    let parsed = match parse_document(src) {
        Ok(p) => p,
        Err(e) => {
            return Err(e);
        },
    };
    if parsed.headings.len() > 4294967295usize {
        return Err(Error::Parse("too many headings".to_owned()));
    }
    if !headings_in_order(&parsed.headings, parsed.source_len) {
        return Err(Error::Parse("headings reported out of source order".to_owned()));
    }
    let file_hash = xxh3_64(src.as_bytes());
    let body_offset = if parsed.frontmatter.is_some() {
        first_nonfrontmatter_offset(&parsed)
    } else {
        0
    };
    let ghost p = parsed;
    let doc = assemble(source, rel_path.to_owned(), file_hash, src, parsed, body_offset);
    assert(built_from(doc, source.0@, rel_path@, src@, p));
    Ok(doc)
}

} // verus!
