//! Link extraction.
//!
//! Two shapes: inline links `[text](target)`, found in the markdown event
//! stream, and Obsidian wiki-links `[[target]]` / `[[target|alias]]`, found
//! with a regular expression over the body. Wiki-links that fall inside a
//! code block or an inline code span are dropped.

use vstd::prelude::*;

use crate::headings::sat_add;
use crate::markdown::{markdown_events, markdown_events_of, MdEvent, MdKind};
use crate::parse::{link_views, LinkEvent, LinkEventView};
use crate::text::{chars_of, find_char, first_index_of, string_of_range, trim_bounds, trimmed};
use crate::types::LinkKind;
use vstd::string::StringSliceAdditionalSpecFns;

verus! {

// ---------------------------------------------------------------------------
// Inline links
// ---------------------------------------------------------------------------

/// A link whose start has been seen: destination, text so far, start offset.
pub type OpenLink = (Seq<char>, Seq<char>, usize);

pub open spec fn inline_scan(evs: Seq<MdEvent>, off: u32) -> (Seq<LinkEventView>, Option<OpenLink>)
    decreases evs.len(),
{
    if evs.len() == 0 {
        (Seq::empty(), None)
    } else {
        let (out, open) = inline_scan(evs.drop_last(), off);
        let ev = evs.last();
        match ev.kind {
            MdKind::LinkStart(dest) => (out, Some((dest@, Seq::empty(), ev.start))),
            MdKind::Text(t) => match open {
                Some(o) => (out, Some((o.0, o.1 + t@, o.2))),
                None => (out, None),
            },
            MdKind::LinkEnd => match open {
                Some(o) => (
                    out.push(
                        LinkEventView {
                            target: o.0,
                            text: if o.1.len() == 0 || o.1 == o.0 {
                                None
                            } else {
                                Some(o.1)
                            },
                            kind: LinkKind::Inline,
                            offset: sat_add(o.2 as u32, off),
                        },
                    ),
                    None,
                ),
                None => (out, None),
            },
            _ => (out, open),
        }
    }
}

/// The inline links of an event stream, in stream order. A link's text is
/// kept only when it is non-empty and differs from the target.
pub open spec fn inline_links_of(evs: Seq<MdEvent>, off: u32) -> Seq<LinkEventView> {
    inline_scan(evs, off).0
}

struct OpenInline {
    target: String,
    text: String,
    start: usize,
}

fn extract_inline(events: &Vec<MdEvent>, body_offset: u32, out: &mut Vec<LinkEvent>)
    ensures
        link_views(final(out)@) == link_views(old(out)@) + inline_links_of(events@, body_offset),
{
    let ghost base = link_views(out@);
    let mut open_link: Option<OpenInline> = None;
    let mut i: usize = 0;
    while i < events.len()
        invariant
            i <= events@.len(),
            link_views(out@) == base + inline_scan(events@.take(i as int), body_offset).0,
            match inline_scan(events@.take(i as int), body_offset).1 {
                Some(o) => open_link is Some && open_link->0.target@ == o.0
                    && open_link->0.text@ == o.1 && open_link->0.start == o.2,
                None => open_link is None,
            },
        decreases events@.len() - i,
    {
        proof {
            assert(events@.take(i + 1).drop_last() =~= events@.take(i as int));
            assert(events@.take(i + 1).last() == events@[i as int]);
        }
        let ev = &events[i];
        match &ev.kind {
            MdKind::LinkStart(dest) => {
                open_link = Some(OpenInline { target: dest.clone(), text: String::new(), start: ev.start });
            },
            MdKind::Text(t) => {
                match open_link {
                    Some(o) => {
                        let mut text = o.text;
                        text.append(t.as_str());
                        open_link = Some(OpenInline { target: o.target, text, start: o.start });
                    },
                    None => {},
                }
            },
            MdKind::LinkEnd => {
                match open_link {
                    Some(o) => {
                        let text = if o.text.as_str().unicode_len() == 0 || o.text == o.target {
                            None
                        } else {
                            Some(o.text)
                        };
                        let ghost before = out@;
                        out.push(
                            LinkEvent {
                                target: o.target,
                                text,
                                kind: LinkKind::Inline,
                                offset: (o.start as u32).saturating_add(body_offset),
                            },
                        );
                        proof {
                            assert(link_views(out@) =~= link_views(before).push(out@.last()@));
                        }
                    },
                    None => {},
                }
                open_link = None;
            },
            _ => {},
        }
        i = i + 1;
    }
    proof {
        assert(events@.take(events@.len() as int) =~= events@);
    }
}

// ---------------------------------------------------------------------------
// Code mask
// ---------------------------------------------------------------------------

/// Open code blocks before event `e`, counted in a `u32` that saturates at
/// both ends.
pub open spec fn code_depth(evs: Seq<MdEvent>, e: int) -> u32
    decreases e,
{
    if e <= 0 || e > evs.len() {
        0
    } else {
        let d = code_depth(evs, e - 1);
        match evs[e - 1].kind {
            MdKind::FencedCodeStart(_) => if d < u32::MAX {
                (d + 1) as u32
            } else {
                d
            },
            MdKind::IndentedCodeStart => if d < u32::MAX {
                (d + 1) as u32
            } else {
                d
            },
            MdKind::CodeBlockEnd => if d > 0 {
                (d - 1) as u32
            } else {
                0
            },
            _ => d,
        }
    }
}

/// Event `e` marks its range as code: a code block start, an inline code
/// span, or anything (but a block end) inside an open code block.
pub open spec fn marks_code(evs: Seq<MdEvent>, e: int) -> bool {
    match evs[e].kind {
        MdKind::FencedCodeStart(_) => true,
        MdKind::IndentedCodeStart => true,
        MdKind::CodeBlockEnd => false,
        MdKind::Code(_) => true,
        _ => code_depth(evs, e) > 0,
    }
}

/// Byte `b` of a text of `len` bytes is inside some code-marking event's range.
pub open spec fn in_code(evs: Seq<MdEvent>, len: nat, b: int) -> bool {
    exists|e: int|
        0 <= e < evs.len() && #[trigger] marks_code(evs, e) && evs[e].start <= b < evs[e].end && b
            < len + 1
}

/// Sets `mask[b]` for every `b` in `[start, min(end, mask.len()))`.
fn mark(mask: &mut Vec<bool>, start: usize, end: usize)
    ensures
        final(mask)@.len() == old(mask)@.len(),
        forall|b: int|
            0 <= b < final(mask)@.len() ==> final(mask)@[b] == (old(mask)@[b] || start <= b < end),
{
    let end = if end < mask.len() {
        end
    } else {
        mask.len()
    };
    let mut b = start;
    while b < end
        invariant
            start <= b,
            start <= end ==> b <= end,
            start > end ==> b == start,
            end <= mask@.len(),
            mask@.len() == old(mask)@.len(),
            forall|x: int|
                0 <= x < mask@.len() ==> mask@[x] == (old(mask)@[x] || start <= x < b),
        decreases end - b,
    {
        mask.set(b, true);
        b = b + 1;
    }
}

/// A byte-indexed mask over `body` (one extra slot for the end): `true`
/// inside a code block or an inline code span.
fn build_code_mask(events: &Vec<MdEvent>, len: usize) -> (r: Vec<bool>)
    requires
        len < usize::MAX,
    ensures
        r@.len() == len + 1,
        forall|b: int| 0 <= b < r@.len() ==> r@[b] == in_code(events@, len as nat, b),
{
    let mut mask: Vec<bool> = Vec::new();
    let mut k: usize = 0;
    while k < len + 1
        invariant
            len < usize::MAX,
            k <= len + 1,
            mask@.len() == k,
            forall|x: int| 0 <= x < k ==> !mask@[x],
        decreases len + 1 - k,
    {
        mask.push(false);
        k = k + 1;
    }
    let mut depth: u32 = 0;
    let mut e: usize = 0;
    while e < events.len()
        invariant
            e <= events@.len(),
            mask@.len() == len + 1,
            depth == code_depth(events@, e as int),
            forall|b: int|
                0 <= b < mask@.len() ==> mask@[b] == exists|f: int|
                    0 <= f < e && #[trigger] marks_code(events@, f) && events@[f].start <= b
                        < events@[f].end,
        decreases events@.len() - e,
    {
        let ev = &events[e];
        let ghost m0 = mask@;
        match &ev.kind {
            MdKind::FencedCodeStart(_) => {
                depth = depth.saturating_add(1);
                mark(&mut mask, ev.start, ev.end);
            },
            MdKind::IndentedCodeStart => {
                depth = depth.saturating_add(1);
                mark(&mut mask, ev.start, ev.end);
            },
            MdKind::CodeBlockEnd => {
                depth = depth.saturating_sub(1);
            },
            MdKind::Code(_) => {
                mark(&mut mask, ev.start, ev.end);
            },
            _ => {
                if depth > 0 {
                    mark(&mut mask, ev.start, ev.end);
                }
            },
        }
        proof {
            assert forall|b: int| 0 <= b < mask@.len() implies mask@[b] == exists|f: int|
                0 <= f < e + 1 && #[trigger] marks_code(events@, f) && events@[f].start <= b
                    < events@[f].end by {
                if marks_code(events@, e as int) && events@[e as int].start <= b < events@[e as int].end {
                    assert(0 <= e < e + 1);
                }
                if mask@[b] && !m0[b] {
                    assert(marks_code(events@, e as int));
                }
            }
        }
        e = e + 1;
    }
    mask
}

// ---------------------------------------------------------------------------
// Wiki-links
// ---------------------------------------------------------------------------

/// One regular-expression match: its byte range and the text of group 1.
#[derive(Debug)]
pub struct RegexCapture {
    pub start: usize,
    pub end: usize,
    pub group1: Option<String>,
}

/// The successive non-overlapping matches of `pattern` in `text`, as
/// `regex::Regex::captures_iter` reports them; `None` when `pattern` does
/// not compile.
pub uninterp spec fn regex_captures(pattern: Seq<char>, text: Seq<char>) -> Option<Seq<RegexCapture>>;

/// Compiles `pattern` with `regex::Regex::new` and lists the matches of
/// `captures_iter(text)`: each match's byte range and group 1's text. The
/// contract names the result; regular-expression matching is not restated.
#[verifier::external_body]
pub(crate) fn regex_captures_of(pattern: &str, text: &str) -> (r: Option<Vec<RegexCapture>>)
    ensures
        match r {
            Some(v) => regex_captures(pattern@, text@) == Some(v@),
            None => regex_captures(pattern@, text@) is None,
        },
{
    let re = match regex::Regex::new(pattern) {
        Ok(re) => re,
        Err(_) => return None,
    };
    let mut out = Vec::new();
    for c in re.captures_iter(text) {
        let m = c.get_match();
        out.push(RegexCapture { start: m.start(), end: m.end(), group1: c.get(1).map(|g| g.as_str().to_string()) });
    }
    Some(out)
}

/// `[[`, one or more characters other than `[`, `]` and newline, `]]`.
pub open spec fn wiki_pattern() -> Seq<char> {
    "\\[\\[([^\\[\\]\\n]+)\\]\\]"@
}

/// Target and alias of a wiki-link body `target|alias` (split at the first
/// `|`, both sides trimmed); no alias without a `|`.
pub open spec fn wiki_parts(inner: Seq<char>) -> (Seq<char>, Option<Seq<char>>) {
    match first_index_of(inner, '|') {
        Some(p) => (trimmed(inner.take(p)), Some(trimmed(inner.skip(p + 1)))),
        None => (trimmed(inner), None),
    }
}

/// The wiki-links among `caps`: matches that start outside code and whose
/// target is non-empty, in match order.
pub open spec fn wiki_links_of(caps: Seq<RegexCapture>, evs: Seq<MdEvent>, len: nat, off: u32) -> Seq<LinkEventView>
    decreases caps.len(),
{
    if caps.len() == 0 {
        Seq::empty()
    } else {
        let prev = wiki_links_of(caps.drop_last(), evs, len, off);
        let c = caps.last();
        if in_code(evs, len, c.start as int) || c.group1 is None {
            prev
        } else {
            let (target, text) = wiki_parts(c.group1->0@);
            if target.len() == 0 {
                prev
            } else {
                prev.push(LinkEventView { target, text, kind: LinkKind::Wiki, offset: sat_add(c.start as u32, off) })
            }
        }
    }
}

/// The wiki-links of a body with `len` bytes and event stream `evs`.
pub open spec fn wiki_links_in(body: Seq<char>, evs: Seq<MdEvent>, len: nat, off: u32) -> Seq<LinkEventView> {
    match regex_captures(wiki_pattern(), body) {
        Some(caps) => wiki_links_of(caps, evs, len, off),
        None => Seq::empty(),
    }
}

fn extract_wiki(body: &str, events: &Vec<MdEvent>, body_offset: u32, out: &mut Vec<LinkEvent>)
    requires
        body.spec_bytes().len() < usize::MAX,
    ensures
        link_views(final(out)@) == link_views(old(out)@) + wiki_links_in(
            body@,
            events@,
            body.spec_bytes().len(),
            body_offset,
        ),
{
    let pattern = "\\[\\[([^\\[\\]\\n]+)\\]\\]";
    let caps = match regex_captures_of(pattern, body) {
        Some(v) => v,
        None => {
            proof {
                assert(link_views(out@) =~= link_views(old(out)@) + Seq::<LinkEventView>::empty());
            }
            return;
        },
    };
    let len = body.len();
    let code_mask = build_code_mask(events, len);
    let ghost base = link_views(out@);
    let mut i: usize = 0;
    while i < caps.len()
        invariant
            i <= caps@.len(),
            code_mask@.len() == len + 1,
            len == body.spec_bytes().len(),
            forall|b: int| 0 <= b < code_mask@.len() ==> code_mask@[b] == in_code(events@, len as nat, b),
            link_views(out@) == base + wiki_links_of(caps@.take(i as int), events@, len as nat, body_offset),
        decreases caps@.len() - i,
    {
        proof {
            assert(caps@.take(i + 1).drop_last() =~= caps@.take(i as int));
            assert(caps@.take(i + 1).last() == caps@[i as int]);
        }
        let cap = &caps[i];
        let masked = if cap.start < code_mask.len() {
            code_mask[cap.start]
        } else {
            false
        };
        if !masked {
            match &cap.group1 {
                Some(inner) => {
                    let cs = chars_of(inner.as_str());
                    let (target, text) = match find_char(cs.as_slice(), '|') {
                        Some(pipe) => {
                            assert(pipe < cs@.len());
                            let (a, b) = trim_bounds(cs.as_slice(), 0, pipe);
                            let (c, d) = trim_bounds(cs.as_slice(), pipe + 1, cs.len());
                            proof {
                                assert(cs@.subrange(0, pipe as int) =~= cs@.take(pipe as int));
                                assert(cs@.subrange(pipe + 1, cs@.len() as int) =~= cs@.skip(pipe + 1));
                            }
                            (string_of_range(cs.as_slice(), a, b), Some(string_of_range(cs.as_slice(), c, d)))
                        },
                        None => {
                            let (a, b) = trim_bounds(cs.as_slice(), 0, cs.len());
                            proof {
                                assert(cs@.subrange(0, cs@.len() as int) =~= cs@);
                            }
                            (string_of_range(cs.as_slice(), a, b), None)
                        },
                    };
                    if target.as_str().unicode_len() > 0 {
                        let ghost before = out@;
                        out.push(
                            LinkEvent {
                                target,
                                text,
                                kind: LinkKind::Wiki,
                                offset: (cap.start as u32).saturating_add(body_offset),
                            },
                        );
                        proof {
                            assert(link_views(out@) =~= link_views(before).push(out@.last()@));
                        }
                    }
                },
                None => {},
            }
        }
        i = i + 1;
    }
    proof {
        assert(caps@.take(caps@.len() as int) =~= caps@);
        reveal_strlit("\\[\\[([^\\[\\]\\n]+)\\]\\]");
    }
}

// ---------------------------------------------------------------------------
// Ordering
// ---------------------------------------------------------------------------

/// The first index at or after `i` whose offset exceeds `off`.
pub open spec fn first_after(s: Seq<LinkEventView>, off: u32, i: int) -> int
    decreases s.len() - i,
{
    if i >= s.len() || i < 0 {
        s.len() as int
    } else if s[i].offset > off {
        i
    } else {
        first_after(s, off, i + 1)
    }
}

/// `x` inserted after every element whose offset is not greater than its own.
pub open spec fn insert_by_offset(s: Seq<LinkEventView>, x: LinkEventView) -> Seq<LinkEventView> {
    let p = first_after(s, x.offset, 0);
    s.take(p).push(x) + s.skip(p)
}

/// Stable sort by offset (insertion order kept among equal offsets).
pub open spec fn sort_by_offset(s: Seq<LinkEventView>) -> Seq<LinkEventView>
    decreases s.len(),
{
    if s.len() == 0 {
        s
    } else {
        insert_by_offset(sort_by_offset(s.drop_last()), s.last())
    }
}

pub open spec fn offsets_sorted(s: Seq<LinkEventView>) -> bool {
    forall|a: int, b: int| 0 <= a <= b < s.len() ==> #[trigger] s[a].offset <= #[trigger] s[b].offset
}

proof fn lemma_first_after(s: Seq<LinkEventView>, off: u32, i: int)
    requires
        0 <= i <= s.len(),
    ensures
        i <= first_after(s, off, i) <= s.len(),
        forall|k: int| i <= k < first_after(s, off, i) ==> #[trigger] s[k].offset <= off,
        first_after(s, off, i) < s.len() ==> s[first_after(s, off, i)].offset > off,
    decreases s.len() - i,
{
    if i < s.len() && s[i].offset <= off {
        lemma_first_after(s, off, i + 1);
    }
}

/// Insertion keeps a sequence sorted by offset.
proof fn lemma_insert_sorted(s: Seq<LinkEventView>, x: LinkEventView)
    requires
        offsets_sorted(s),
    ensures
        offsets_sorted(insert_by_offset(s, x)),
        insert_by_offset(s, x).len() == s.len() + 1,
{
    lemma_first_after(s, x.offset, 0);
    let p = first_after(s, x.offset, 0);
    let r = insert_by_offset(s, x);
    assert forall|a: int, b: int| 0 <= a <= b < r.len() implies #[trigger] r[a].offset <= #[trigger] r[b].offset by {
        if a < p && b < p {
            assert(r[a] == s[a] && r[b] == s[b]);
        } else if a < p && b == p {
            assert(r[a] == s[a]);
        } else if a < p {
            assert(r[a] == s[a] && r[b] == s[b - 1]);
        } else if a == p && b > p {
            assert(r[b] == s[b - 1]);
            assert(s[p].offset > x.offset);
            assert(s[p].offset <= s[b - 1].offset);
        } else if a > p {
            assert(r[a] == s[a - 1] && r[b] == s[b - 1]);
        }
    }
}

/// The stable sort by offset is sorted by offset.
pub proof fn lemma_sort_sorted(s: Seq<LinkEventView>)
    ensures
        offsets_sorted(sort_by_offset(s)),
        sort_by_offset(s).len() == s.len(),
    decreases s.len(),
{
    if s.len() > 0 {
        lemma_sort_sorted(s.drop_last());
        lemma_insert_sorted(sort_by_offset(s.drop_last()), s.last());
    }
}

/// Stable in-place sort of `links` by offset.
fn sort_links_by_offset(links: Vec<LinkEvent>) -> (r: Vec<LinkEvent>)
    ensures
        link_views(r@) == sort_by_offset(link_views(links@)),
{
    let ghost src = link_views(links@);
    let n = links.len();
    assert(src.len() == n);
    let mut out: Vec<LinkEvent> = Vec::new();
    let mut links = links;
    // Reverse the input so that popping yields the elements in order.
    let mut rest: Vec<LinkEvent> = Vec::new();
    while links.len() > 0
        invariant
            link_views(links@) + link_views(rest@).reverse() == src,
            src.len() <= usize::MAX,
        decreases links@.len(),
    {
        let ghost l0 = links@;
        let ghost r0 = rest@;
        let x = links.pop().unwrap();
        rest.push(x);
        proof {
            assert(link_views(l0) =~= link_views(links@).push(x@));
            assert(link_views(rest@) =~= link_views(r0).push(x@));
            assert(link_views(rest@).reverse() =~= seq![x@] + link_views(r0).reverse());
            assert(link_views(links@) + link_views(rest@).reverse() =~= link_views(l0) + link_views(r0).reverse());
        }
    }
    proof {
        assert(link_views(links@) =~= Seq::<LinkEventView>::empty());
        assert(link_views(rest@).reverse() =~= src);
        assert(link_views(rest@) =~= src.reverse());
        assert(src.reverse().take(rest@.len() as int) =~= src.reverse());
    }
    let mut i: usize = 0;
    while rest.len() > 0
        invariant
            i + rest@.len() == src.len(),
            src.len() <= usize::MAX,
            link_views(rest@) == src.reverse().take(rest@.len() as int),
            link_views(out@) == sort_by_offset(src.take(i as int)),
        decreases rest@.len(),
    {
        let ghost r0 = rest@;
        let x = rest.pop().unwrap();
        proof {
            assert(link_views(r0).last() == x@);
            assert(src.reverse().take(r0.len() as int).last() == src[i as int]);
            assert(x@ == src[i as int]);
            assert(link_views(rest@) =~= src.reverse().take(rest@.len() as int));
            assert(src.take(i + 1).drop_last() =~= src.take(i as int));
            assert(src.take(i + 1).last() == src[i as int]);
        }
        let ghost ov = link_views(out@);
        let mut p: usize = 0;
        while p < out.len() && out[p].offset <= x.offset
            invariant
                p <= out@.len(),
                ov == link_views(out@),
                first_after(ov, x.offset, 0) == first_after(ov, x.offset, p as int),
            decreases out@.len() - p,
        {
            p = p + 1;
        }
        proof {
            assert(first_after(ov, x.offset, p as int) == p);
        }
        out.insert(p, x);
        proof {
            assert(link_views(out@) =~= insert_by_offset(ov, x@));
        }
        i = i + 1;
    }
    proof {
        assert(src.take(i as int) =~= src);
    }
    out
}

/// Every link of `body` (inline and wiki), ordered by offset; offsets are
/// shifted by `body_offset`.
pub fn extract_links(body: &str, body_offset: u32) -> (r: Vec<LinkEvent>)
    requires
        body.spec_bytes().len() < usize::MAX,
    ensures
        link_views(r@) == sort_by_offset(
            inline_links_of(markdown_events(body@), body_offset) + wiki_links_in(
                body@,
                markdown_events(body@),
                body.spec_bytes().len(),
                body_offset,
            ),
        ),
        offsets_sorted(link_views(r@)),
{
    let events = markdown_events_of(body);
    let mut out: Vec<LinkEvent> = Vec::new();
    proof {
        assert(link_views(out@) =~= Seq::<LinkEventView>::empty());
    }
    extract_inline(&events, body_offset, &mut out);
    extract_wiki(body, &events, body_offset, &mut out);
    let ghost all = link_views(out@);
    let sorted = sort_links_by_offset(out);
    proof {
        assert(all =~= inline_links_of(markdown_events(body@), body_offset) + wiki_links_in(
            body@,
            markdown_events(body@),
            body.spec_bytes().len(),
            body_offset,
        ));
        lemma_sort_sorted(all);
    }
    sorted
}

// ---------------------------------------------------------------------------
// Offsets follow the body's place in the file
// ---------------------------------------------------------------------------

/// `l` moved `k` bytes later.
pub open spec fn moved(l: LinkEventView, k: u32) -> LinkEventView {
    LinkEventView { target: l.target, text: l.text, kind: l.kind, offset: (l.offset + k) as u32 }
}

/// Every link of `s` moved `k` bytes later.
pub open spec fn shifted(s: Seq<LinkEventView>, k: u32) -> Seq<LinkEventView> {
    s.map_values(|l: LinkEventView| moved(l, k))
}

/// Every offset of `s` leaves room for `k` more bytes.
pub open spec fn room_for(s: Seq<LinkEventView>, k: u32) -> bool {
    forall|i: int| 0 <= i < s.len() ==> #[trigger] s[i].offset + k <= u32::MAX
}

/// The links of `body`, found at body offset `off`, in offset order: what
/// `extract_links(body, off)` returns, for a body of `len` bytes.
pub open spec fn links_at(body: Seq<char>, len: nat, off: u32) -> Seq<LinkEventView> {
    let evs = markdown_events(body);
    sort_by_offset(inline_links_of(evs, off) + wiki_links_in(body, evs, len, off))
}

proof fn lemma_inline_shift(evs: Seq<MdEvent>, k: u32)
    requires
        forall|i: int| 0 <= i < evs.len() ==> (#[trigger] evs[i]).start as u32 + k <= u32::MAX,
    ensures
        inline_scan(evs, k).1 == inline_scan(evs, 0).1,
        inline_scan(evs, k).0 == shifted(inline_scan(evs, 0).0, k),
        room_for(inline_scan(evs, 0).0, k),
        inline_scan(evs, 0).1 matches Some(o) ==> exists|i: int| 0 <= i < evs.len() && evs[i].start == o.2,
    decreases evs.len(),
{
    if evs.len() > 0 {
        let init = evs.drop_last();
        assert forall|i: int| 0 <= i < init.len() implies (#[trigger] init[i]).start as u32 + k <= u32::MAX by {
            assert(init[i] == evs[i]);
        }
        lemma_inline_shift(init, k);
        let (o0, op0) = inline_scan(init, 0);
        let (ok, opk) = inline_scan(init, k);
        let ev = evs.last();
        assert(ev == evs[evs.len() - 1]);
        match ev.kind {
            MdKind::LinkStart(dest) => {},
            MdKind::Text(t) => {
                match op0 {
                    Some(o) => {
                        let i = choose|i: int| 0 <= i < init.len() && init[i].start == o.2;
                        assert(evs[i] == init[i]);
                    },
                    None => {},
                }
            },
            MdKind::LinkEnd => {
                match op0 {
                    Some(o) => {
                        let i = choose|i: int| 0 <= i < init.len() && init[i].start == o.2;
                        assert(evs[i] == init[i]);
                        assert(o.2 as u32 + k <= u32::MAX);
                        let l0 = LinkEventView {
                            target: o.0,
                            text: if o.1.len() == 0 || o.1 == o.0 {
                                None
                            } else {
                                Some(o.1)
                            },
                            kind: LinkKind::Inline,
                            offset: sat_add(o.2 as u32, 0),
                        };
                        assert(sat_add(o.2 as u32, k) == (l0.offset + k) as u32);
                        assert(shifted(o0.push(l0), k) =~= shifted(o0, k).push(moved(l0, k)));
                        assert forall|j: int| 0 <= j < o0.push(l0).len() implies #[trigger] o0.push(l0)[j].offset
                            + k <= u32::MAX by {
                            if j < o0.len() {
                                assert(o0.push(l0)[j] == o0[j]);
                            }
                        }
                    },
                    None => {},
                }
            },
            _ => {
                match op0 {
                    Some(o) => {
                        let i = choose|i: int| 0 <= i < init.len() && init[i].start == o.2;
                        assert(evs[i] == init[i]);
                    },
                    None => {},
                }
            },
        }
    }
}

proof fn lemma_wiki_shift(caps: Seq<RegexCapture>, evs: Seq<MdEvent>, len: nat, k: u32)
    requires
        forall|i: int| 0 <= i < caps.len() ==> (#[trigger] caps[i]).start as u32 + k <= u32::MAX,
    ensures
        wiki_links_of(caps, evs, len, k) == shifted(wiki_links_of(caps, evs, len, 0), k),
        room_for(wiki_links_of(caps, evs, len, 0), k),
    decreases caps.len(),
{
    if caps.len() > 0 {
        let init = caps.drop_last();
        assert forall|i: int| 0 <= i < init.len() implies (#[trigger] init[i]).start as u32 + k <= u32::MAX by {
            assert(init[i] == caps[i]);
        }
        lemma_wiki_shift(init, evs, len, k);
        let c = caps.last();
        assert(c == caps[caps.len() - 1]);
        let prev = wiki_links_of(init, evs, len, 0);
        if !(in_code(evs, len, c.start as int) || c.group1 is None) {
            let (target, text) = wiki_parts(c.group1->0@);
            if target.len() > 0 {
                let l0 = LinkEventView { target, text, kind: LinkKind::Wiki, offset: sat_add(c.start as u32, 0) };
                assert(shifted(prev.push(l0), k) =~= shifted(prev, k).push(moved(l0, k)));
                assert forall|j: int| 0 <= j < prev.push(l0).len() implies #[trigger] prev.push(l0)[j].offset + k
                    <= u32::MAX by {
                    if j < prev.len() {
                        assert(prev.push(l0)[j] == prev[j]);
                    }
                }
            }
        }
    }
}

proof fn lemma_first_after_shift(t: Seq<LinkEventView>, o: u32, k: u32, i: int)
    requires
        room_for(t, k),
        o + k <= u32::MAX,
        0 <= i,
    ensures
        first_after(shifted(t, k), (o + k) as u32, i) == first_after(t, o, i),
    decreases t.len() - i,
{
    if i < t.len() {
        assert(shifted(t, k)[i] == moved(t[i], k));
        assert(t[i].offset + k <= u32::MAX);
        lemma_first_after_shift(t, o, k, i + 1);
    }
}

proof fn lemma_sort_shift(s: Seq<LinkEventView>, k: u32)
    requires
        room_for(s, k),
    ensures
        room_for(sort_by_offset(s), k),
        sort_by_offset(shifted(s, k)) == shifted(sort_by_offset(s), k),
    decreases s.len(),
{
    if s.len() > 0 {
        let init = s.drop_last();
        let x = s.last();
        assert(x == s[s.len() - 1]);
        assert forall|i: int| 0 <= i < init.len() implies #[trigger] init[i].offset + k <= u32::MAX by {
            assert(init[i] == s[i]);
        }
        lemma_sort_shift(init, k);
        let t = sort_by_offset(init);
        assert(shifted(s, k).drop_last() =~= shifted(init, k));
        assert(shifted(s, k).last() == moved(x, k));
        lemma_first_after_shift(t, x.offset, k, 0);
        let p = first_after(t, x.offset, 0);
        lemma_first_after(t, x.offset, 0);
        let r = t.take(p).push(x) + t.skip(p);
        assert(sort_by_offset(s) == r);
        assert forall|i: int| 0 <= i < r.len() implies #[trigger] r[i].offset + k <= u32::MAX by {
            if i < p {
                assert(r[i] == t[i]);
            } else if i > p {
                assert(r[i] == t[i - 1]);
            }
        }
        assert(shifted(t, k).take(p).push(moved(x, k)) + shifted(t, k).skip(p) =~= shifted(r, k));
    }
}

/// Where the body starts in the file only moves the links: found at body
/// offset `k`, a body's links are those found at offset 0, each `k` bytes
/// later, in the same order (when no offset runs past `u32::MAX`).
pub proof fn law_link_offsets_shift(body: Seq<char>, len: nat, k: u32)
    requires
        forall|i: int|
            0 <= i < markdown_events(body).len() ==> (#[trigger] markdown_events(body)[i]).start as u32 + k
                <= u32::MAX,
        regex_captures(wiki_pattern(), body) matches Some(caps) ==> forall|i: int|
            0 <= i < caps.len() ==> (#[trigger] caps[i]).start as u32 + k <= u32::MAX,
    ensures
        links_at(body, len, k) == shifted(links_at(body, len, 0), k),
{
    let evs = markdown_events(body);
    lemma_inline_shift(evs, k);
    let a0 = inline_links_of(evs, 0);
    let w0 = wiki_links_in(body, evs, len, 0);
    match regex_captures(wiki_pattern(), body) {
        Some(caps) => lemma_wiki_shift(caps, evs, len, k),
        None => {},
    }
    assert(wiki_links_in(body, evs, len, k) == shifted(w0, k));
    assert(inline_links_of(evs, k) + wiki_links_in(body, evs, len, k) =~= shifted(a0 + w0, k));
    let all = a0 + w0;
    assert forall|i: int| 0 <= i < all.len() implies #[trigger] all[i].offset + k <= u32::MAX by {
        if i < a0.len() {
            assert(all[i] == a0[i]);
        } else {
            assert(all[i] == w0[i - a0.len()]);
        }
    }
    lemma_sort_shift(all, k);
}

} // verus!
