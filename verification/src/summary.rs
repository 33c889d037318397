//! First-sentence summary extraction.
//!
//! A section's first sentence is almost always a usable hook for deciding
//! whether to read further. When no sentence break is found the flattened
//! text is cut at a grapheme boundary.

use vstd::prelude::*;

use crate::markdown::{markdown_events, markdown_events_of, MdEvent, MdKind};
use crate::text::{
    char_is_whitespace, chars_of, is_whitespace, push_char, string_of_range, trim, trim_end,
    trimmed,
};
use vstd::string::StringSliceAdditionalSpecFns;
use vstd::utf8::{decode_utf8, encode_utf8, is_char_boundary};

verus! {

/// Longest summary, in bytes, before truncation.
pub const SUMMARY_MAX: usize = 240;

pub open spec fn ends_with_space(s: Seq<char>) -> bool {
    s.len() > 0 && s.last() == ' '
}

/// `s` with one space appended unless it already ends with one.
pub open spec fn with_gap(s: Seq<char>) -> Seq<char> {
    if ends_with_space(s) {
        s
    } else {
        s.push(' ')
    }
}

/// Flattened text so far and whether a code block is open, after `evs`.
pub open spec fn flatten_scan(evs: Seq<MdEvent>) -> (Seq<char>, bool)
    decreases evs.len(),
{
    if evs.len() == 0 {
        (Seq::empty(), false)
    } else {
        let (out, in_code) = flatten_scan(evs.drop_last());
        match evs.last().kind {
            MdKind::FencedCodeStart(_) => (out, true),
            MdKind::IndentedCodeStart => (out, true),
            MdKind::CodeBlockEnd => (with_gap(out), false),
            MdKind::Text(t) => if in_code {
                (out, in_code)
            } else {
                (out + t@, in_code)
            },
            MdKind::Code(t) => if in_code {
                (out, in_code)
            } else {
                (out + t@, in_code)
            },
            MdKind::Break => (with_gap(out), in_code),
            MdKind::ParagraphEnd => (with_gap(out), in_code),
            _ => (out, in_code),
        }
    }
}

/// The plain text of an event stream: text and inline code outside code
/// blocks, with a single space after breaks, paragraphs and code blocks.
pub open spec fn flattened(evs: Seq<MdEvent>) -> Seq<char> {
    flatten_scan(evs).0
}

/// The event opens a fenced or indented code block.
pub open spec fn opens_code(e: MdEvent) -> bool {
    e.kind is FencedCodeStart || e.kind is IndentedCodeStart
}

/// Event `k` lies inside a code block: some earlier event opened one and no
/// code-block end came between.
pub open spec fn inside_code_block(evs: Seq<MdEvent>, k: int) -> bool {
    exists|j: int|
        0 <= j < k && opens_code(#[trigger] evs[j]) && forall|m: int|
            j < m < k ==> !(#[trigger] evs[m].kind is CodeBlockEnd)
}

pub open spec fn is_prefix(a: Seq<char>, b: Seq<char>) -> bool {
    a.len() <= b.len() && b.subrange(0, a.len() as int) == a
}

proof fn lemma_scan_flag(evs: Seq<MdEvent>, k: int)
    requires
        0 <= k <= evs.len(),
    ensures
        flatten_scan(evs.take(k)).1 == inside_code_block(evs, k),
    decreases k,
{
    if k > 0 {
        lemma_scan_flag(evs, k - 1);
        assert(evs.take(k).drop_last() =~= evs.take(k - 1));
        assert(evs.take(k).last() == evs[k - 1]);
        let e = evs[k - 1];
        if opens_code(e) {
            assert(inside_code_block(evs, k)) by {
                assert(opens_code(evs[k - 1]));
            }
        } else if e.kind is CodeBlockEnd {
            if inside_code_block(evs, k) {
                let j = choose|j: int|
                    0 <= j < k && opens_code(#[trigger] evs[j]) && forall|m: int|
                        j < m < k ==> !(#[trigger] evs[m].kind is CodeBlockEnd);
                assert(j != k - 1);
                assert(!(evs[k - 1].kind is CodeBlockEnd));
            }
        } else {
            if inside_code_block(evs, k) {
                let j = choose|j: int|
                    0 <= j < k && opens_code(#[trigger] evs[j]) && forall|m: int|
                        j < m < k ==> !(#[trigger] evs[m].kind is CodeBlockEnd);
                assert(j < k - 1);
                assert(forall|m: int| j < m < k - 1 ==> !(#[trigger] evs[m].kind is CodeBlockEnd));
                assert(inside_code_block(evs, k - 1));
            }
            if inside_code_block(evs, k - 1) {
                let j = choose|j: int|
                    0 <= j < k - 1 && opens_code(#[trigger] evs[j]) && forall|m: int|
                        j < m < k - 1 ==> !(#[trigger] evs[m].kind is CodeBlockEnd);
                assert(forall|m: int| j < m < k ==> !(#[trigger] evs[m].kind is CodeBlockEnd));
                assert(inside_code_block(evs, k));
            }
        }
    }
}

proof fn lemma_scan_step_grows(s: Seq<MdEvent>)
    requires
        s.len() > 0,
    ensures
        is_prefix(flatten_scan(s.drop_last()).0, flatten_scan(s).0),
{
    let out = flatten_scan(s.drop_last()).0;
    let c = flatten_scan(s).0;
    assert(out.push(' ').subrange(0, out.len() as int) =~= out);
    assert(out.subrange(0, out.len() as int) =~= out);
    match s.last().kind {
        MdKind::Text(t) => {
            assert((out + t@).subrange(0, out.len() as int) =~= out);
        },
        MdKind::Code(t) => {
            assert((out + t@).subrange(0, out.len() as int) =~= out);
        },
        _ => {},
    }
}

/// The flattened text only grows as events are added.
proof fn lemma_scan_grows(evs: Seq<MdEvent>, k: int, n: int)
    requires
        0 <= k <= n <= evs.len(),
    ensures
        is_prefix(flatten_scan(evs.take(k)).0, flatten_scan(evs.take(n)).0),
    decreases n - k,
{
    if k < n {
        lemma_scan_grows(evs, k, n - 1);
        assert(evs.take(n).drop_last() =~= evs.take(n - 1));
        let a = flatten_scan(evs.take(k)).0;
        let b = flatten_scan(evs.take(n - 1)).0;
        let c = flatten_scan(evs.take(n)).0;
        lemma_scan_step_grows(evs.take(n));
        assert(is_prefix(b, c));
        assert(c.subrange(0, a.len() as int) =~= b.subrange(0, a.len() as int));
        assert(c.subrange(0, a.len() as int) =~= a);
    } else {
        let a = flatten_scan(evs.take(k)).0;
        assert(a.subrange(0, a.len() as int) =~= a);
    }
}

/// Text and inline code outside code blocks reach the flattened text whole
/// and in order: at event `k`, the text flattened so far followed by the
/// event's text begins the flattened text of all the events.
pub proof fn law_inline_text_is_kept(evs: Seq<MdEvent>, k: int)
    requires
        0 <= k < evs.len(),
        evs[k].kind is Text || evs[k].kind is Code,
        !inside_code_block(evs, k),
    ensures
        is_prefix(
            flattened(evs.take(k)) + match evs[k].kind {
                MdKind::Text(t) => t@,
                MdKind::Code(t) => t@,
                _ => Seq::empty(),
            },
            flattened(evs),
        ),
{
    lemma_scan_flag(evs, k);
    assert(evs.take(k + 1).drop_last() =~= evs.take(k));
    assert(evs.take(k + 1).last() == evs[k]);
    lemma_scan_grows(evs, k + 1, evs.len() as int);
    assert(evs.take(evs.len() as int) =~= evs);
}

fn flatten_events(events: &Vec<MdEvent>) -> (r: String)
    ensures
        r@ == flattened(events@),
{
    let mut out = String::new();
    let mut in_code_block = false;
    let mut i: usize = 0;
    while i < events.len()
        invariant
            i <= events@.len(),
            (out@, in_code_block) == flatten_scan(events@.take(i as int)),
        decreases events@.len() - i,
    {
        proof {
            assert(events@.take(i + 1).drop_last() =~= events@.take(i as int));
            assert(events@.take(i + 1).last() == events@[i as int]);
        }
        match &events[i].kind {
            MdKind::FencedCodeStart(_) => in_code_block = true,
            MdKind::IndentedCodeStart => in_code_block = true,
            MdKind::CodeBlockEnd => {
                in_code_block = false;
                push_gap(&mut out);
            },
            MdKind::Text(t) => {
                if !in_code_block {
                    out.append(t.as_str());
                }
            },
            MdKind::Code(t) => {
                if !in_code_block {
                    out.append(t.as_str());
                }
            },
            MdKind::Break => push_gap(&mut out),
            MdKind::ParagraphEnd => push_gap(&mut out),
            _ => {},
        }
        i = i + 1;
    }
    proof {
        assert(events@.take(events@.len() as int) =~= events@);
    }
    out
}

/// Appends a space unless `s` already ends with one.
fn push_gap(s: &mut String)
    ensures
        final(s)@ == with_gap(old(s)@),
{
    let cs = chars_of(s.as_str());
    let n = cs.len();
    if !(n > 0 && cs[n - 1] == ' ') {
        push_char(s, ' ');
    }
}

/// The plain text of a markdown slice.
pub fn flatten_text(body: &str) -> (r: String)
    ensures
        r@ == flattened(markdown_events(body@)),
{
    let events = markdown_events_of(body);
    flatten_events(&events)
}

pub open spec fn is_sentence_punct(c: char) -> bool {
    c == '.' || c == '!' || c == '?'
}

/// Position `i` of `t` ends a sentence: `.`, `!` or `?` followed by
/// whitespace or by the end of the text.
pub open spec fn ends_sentence(t: Seq<char>, i: int) -> bool {
    is_sentence_punct(t[i]) && (i + 1 == t.len() || char_is_whitespace(t[i + 1]))
}

/// The first sentence end at or after `i`, as a length (the whole text when
/// there is none).
pub open spec fn sentence_len_from(t: Seq<char>, i: int) -> int
    decreases t.len() - i,
{
    if i >= t.len() || i < 0 {
        t.len() as int
    } else if ends_sentence(t, i) {
        i + 1
    } else {
        sentence_len_from(t, i + 1)
    }
}

/// The first sentence of trimmed text `t` (all of `t` without a break).
pub open spec fn first_sentence_chars(t: Seq<char>) -> Seq<char> {
    t.take(sentence_len_from(t, 0))
}

/// The last grapheme start in `gs` (scanning from `i`, stopping at the
/// first start past `max`), or `end` when none is found.
pub open spec fn cut_point(gs: Seq<usize>, max: usize, i: int, end: usize) -> usize
    decreases gs.len() - i,
{
    if i >= gs.len() || i < 0 {
        end
    } else if gs[i] > max {
        end
    } else {
        cut_point(gs, max, i + 1, gs[i])
    }
}

/// The byte offsets at which the extended grapheme clusters of `s` start,
/// in order, as `UnicodeSegmentation::grapheme_indices(s, true)` yields them.
pub uninterp spec fn grapheme_starts(s: Seq<char>) -> Seq<usize>;

/// `UnicodeSegmentation::grapheme_indices(s, true)`, offsets only. Each
/// offset starts a slice of `s`, so it is a character boundary.
#[verifier::external_body]
fn grapheme_starts_of(s: &str) -> (r: Vec<usize>)
    ensures
        r@ == grapheme_starts(s@),
        forall|i: int| 0 <= i < r@.len() ==> is_char_boundary(s.spec_bytes(), #[trigger] r@[i] as int),
{
    unicode_segmentation::UnicodeSegmentation::grapheme_indices(s, true).map(|(i, _)| i).collect()
}

/// `s` when it fits in `max` bytes (trimmed); otherwise the longest prefix
/// ending at a grapheme start within `max` bytes, right-trimmed, plus `…`.
pub open spec fn truncated(s: Seq<char>, max: usize) -> Seq<char> {
    if encode_utf8(s).len() <= max {
        trimmed(s)
    } else {
        let end = cut_point(grapheme_starts(s), max, 0, 0);
        trim_end(decode_utf8(encode_utf8(s).subrange(0, end as int))).push('…')
    }
}

proof fn lemma_cut_point(gs: Seq<usize>, bytes: Seq<u8>, max: usize, i: int, end: usize)
    requires
        0 <= i,
        is_char_boundary(bytes, end as int),
        forall|k: int| 0 <= k < gs.len() ==> is_char_boundary(bytes, #[trigger] gs[k] as int),
    ensures
        is_char_boundary(bytes, cut_point(gs, max, i, end) as int),
    decreases gs.len() - i,
{
    if i < gs.len() && gs[i] <= max {
        lemma_cut_point(gs, bytes, max, i + 1, gs[i]);
    }
}

/// The length of `cs` without its trailing whitespace.
fn trim_end_bound(cs: &[char]) -> (r: usize)
    ensures
        r <= cs@.len(),
        cs@.subrange(0, r as int) == trim_end(cs@),
{
    let mut j = cs.len();
    proof {
        assert(cs@.subrange(0, j as int) =~= cs@);
    }
    while j > 0 && is_whitespace(cs[j - 1])
        invariant
            j <= cs@.len(),
            trim_end(cs@) == trim_end(cs@.subrange(0, j as int)),
        decreases j,
    {
        proof {
            assert(cs@.subrange(0, j as int).drop_last() =~= cs@.subrange(0, j - 1));
            assert(cs@.subrange(0, j as int).last() == cs@[j - 1]);
        }
        j = j - 1;
    }
    proof {
        let t = cs@.subrange(0, j as int);
        if j > 0 {
            assert(t.last() == cs@[j - 1]);
        }
    }
    j
}

fn truncate_on_grapheme(s: &str, max: usize) -> (r: String)
    ensures
        r@ == truncated(s@, max),
{
    let n = s.as_bytes().len();
    assert(s.spec_bytes() == encode_utf8(s@));
    if n <= max {
        return trim(s);
    }
    let starts = grapheme_starts_of(s);
    let mut end: usize = 0;
    let mut i: usize = 0;
    proof {
        vstd::utf8::encode_utf8_valid_utf8(s@);
        vstd::utf8::is_char_boundary_start_end_of_seq(s.spec_bytes());
    }
    while i < starts.len() && starts[i] <= max
        invariant
            i <= starts@.len(),
            cut_point(starts@, max, 0, 0) == cut_point(starts@, max, i as int, end),
        decreases starts@.len() - i,
    {
        end = starts[i];
        i = i + 1;
    }
    proof {
        lemma_cut_point(starts@, s.spec_bytes(), max, 0, 0);
    }
    let (head, _) = s.split_at(end);
    proof {
        vstd::utf8::encode_utf8_decode_utf8(head@);
    }
    let cs = chars_of(head);
    let b = trim_end_bound(cs.as_slice());
    let mut out = string_of_range(cs.as_slice(), 0, b);
    push_char(&mut out, '…');
    out
}

/// The summary of already-flattened text: its first sentence (trimmed),
/// truncated to `SUMMARY_MAX` bytes; empty for blank text.
pub open spec fn summary_of_text(text: Seq<char>) -> Seq<char> {
    let t = trimmed(text);
    if t.len() == 0 {
        Seq::empty()
    } else {
        truncated(first_sentence_chars(t), SUMMARY_MAX)
    }
}

/// The summary of a markdown section body.
pub open spec fn summary_of(body: Seq<char>) -> Seq<char> {
    summary_of_text(flattened(markdown_events(body)))
}

fn first_sentence_of(text: &str) -> (r: String)
    ensures
        r@ == summary_of_text(text@),
{
    let t = trim(text);
    let cs = chars_of(t.as_str());
    if cs.len() == 0 {
        return String::new();
    }
    let mut best = cs.len();
    let mut i: usize = 0;
    while i < cs.len()
        invariant_except_break
            i <= cs@.len(),
            best == cs@.len(),
            sentence_len_from(cs@, 0) == sentence_len_from(cs@, i as int),
        ensures
            best == sentence_len_from(cs@, 0),
            best <= cs@.len(),
        decreases cs@.len() - i,
    {
        let c = cs[i];
        if c == '.' || c == '!' || c == '?' {
            if i + 1 == cs.len() || is_whitespace(cs[i + 1]) {
                best = i + 1;
                break;
            }
        }
        i = i + 1;
    }
    let sentence = string_of_range(cs.as_slice(), 0, best);
    proof {
        assert(cs@.subrange(0, best as int) =~= first_sentence_chars(cs@));
    }
    truncate_on_grapheme(sentence.as_str(), SUMMARY_MAX)
}

/// A short plain-text summary of a section body: its first sentence, or the
/// start of its text cut at a grapheme boundary.
pub fn first_sentence(body: &str) -> (r: String)
    ensures
        r@ == summary_of(body@),
{
    let text = flatten_text(body);
    first_sentence_of(text.as_str())
}

} // verus!
