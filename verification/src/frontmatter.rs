//! YAML frontmatter extraction.
//!
//! Markdown files in Obsidian and most static-site generators open with a
//! YAML block delimited by `---` on its own line. It is peeled off before the
//! markdown parse so that the parser only sees body content, while every
//! byte offset emitted later still references the original source.

use vstd::prelude::*;

use crate::json::{json_same, Json};
use crate::parse::Frontmatter;
use vstd::string::StringSliceAdditionalSpecFns;
use vstd::utf8::{
    decode_utf8, encode_utf8, is_char_boundary, length_of_first_scalar, pop_first_scalar, valid_utf8,
};

verus! {

#[verifier::external_type_specification]
#[verifier::external_body]
pub struct ExJsonValue(serde_json::Value);

// ---------------------------------------------------------------------------
// Delimiter scan
// ---------------------------------------------------------------------------

pub open spec fn dashes() -> Seq<u8> {
    seq![45u8, 45u8, 45u8]
}

pub open spec fn dots() -> Seq<u8> {
    seq![46u8, 46u8, 46u8]
}

/// `line` without one trailing carriage return.
pub open spec fn without_cr(line: Seq<u8>) -> Seq<u8> {
    if line.len() > 0 && line.last() == 13u8 {
        line.drop_last()
    } else {
        line
    }
}

/// A line that closes the frontmatter block: `---` or `...`, with an
/// optional trailing carriage return.
pub open spec fn is_closing_line(line: Seq<u8>) -> bool {
    without_cr(line) == dashes() || without_cr(line) == dots()
}

/// The index of the first newline at or after `c`, else the length.
pub open spec fn line_end_from(b: Seq<u8>, c: int) -> int
    decreases b.len() - c,
{
    if c >= b.len() || c < 0 {
        b.len() as int
    } else if b[c] == 10u8 {
        c
    } else {
        line_end_from(b, c + 1)
    }
}

/// Scanning lines from `c`: the offset just past the first closing line.
pub open spec fn closing_from(b: Seq<u8>, c: int) -> Option<int>
    decreases b.len() - c,
{
    if c >= b.len() || c < 0 {
        None
    } else {
        let e = line_end_from(b, c);
        if e < c {
            None
        } else if is_closing_line(b.subrange(c, e)) {
            Some(if e < b.len() { e + 1 } else { e })
        } else if e >= b.len() {
            None
        } else {
            closing_from(b, e + 1)
        }
    }
}

/// Where the first line after the opening `---` starts: `---` must be
/// followed by a line ending (LF or CRLF); `None` otherwise.
pub open spec fn first_line_start(b: Seq<u8>) -> Option<int> {
    if b.len() < 3 || b.subrange(0, 3) != dashes() {
        None
    } else {
        let c = if b.len() > 3 && b[3] == 13u8 { 4int } else { 3int };
        if c < b.len() && b[c] == 10u8 {
            Some(c + 1)
        } else if c == b.len() {
            Some(c)
        } else {
            None
        }
    }
}

/// The byte offset where the body starts: just past the line that closes a
/// frontmatter block opened on the first line.
pub open spec fn body_offset_of(b: Seq<u8>) -> Option<int> {
    match first_line_start(b) {
        Some(c) => closing_from(b, c),
        None => None,
    }
}

proof fn lemma_line_end(b: Seq<u8>, c: int)
    requires
        0 <= c <= b.len(),
    ensures
        c <= line_end_from(b, c) <= b.len(),
        line_end_from(b, c) < b.len() ==> b[line_end_from(b, c)] == 10u8,
    decreases b.len() - c,
{
    if c < b.len() && b[c] != 10u8 {
        lemma_line_end(b, c + 1);
    }
}

proof fn lemma_closing_bound(b: Seq<u8>, c: int)
    requires
        0 <= c,
    ensures
        match closing_from(b, c) {
            Some(o) => c < o <= b.len() && (o == b.len() || b[o - 1] == 10u8),
            None => true,
        },
    decreases b.len() - c,
{
    if c < b.len() {
        lemma_line_end(b, c);
        let e = line_end_from(b, c);
        if !is_closing_line(b.subrange(c, e)) && e < b.len() {
            lemma_closing_bound(b, e + 1);
        }
    }
}

/// `line` with one trailing carriage return removed.
fn trim_cr(line: &[u8]) -> (r: &[u8])
    ensures
        r@ == without_cr(line@),
{
    let n = line.len();
    if n > 0 && line[n - 1] == 13u8 {
        let (head, _) = line.split_at(n - 1);
        head
    } else {
        line
    }
}

/// Whether `line` is `---` or `...`.
fn closes_block(line: &[u8]) -> (r: bool)
    ensures
        r == is_closing_line(line@),
{
    let t = trim_cr(line);
    if t.len() != 3 {
        return false;
    }
    let r = (t[0] == 45u8 && t[1] == 45u8 && t[2] == 45u8) || (t[0] == 46u8 && t[1] == 46u8
        && t[2] == 46u8);
    proof {
        if t@ == dashes() || t@ == dots() {
        } else {
            if t[0] == 45u8 && t[1] == 45u8 && t[2] == 45u8 {
                assert(t@ =~= dashes());
            }
            if t[0] == 46u8 && t[1] == 46u8 && t[2] == 46u8 {
                assert(t@ =~= dots());
            }
        }
    }
    r
}

/// The offset where the body starts after a frontmatter block, or `None`
/// when the source does not open with a closed block.
fn find_body_offset(bytes: &[u8]) -> (r: Option<usize>)
    ensures
        match r {
            Some(o) => body_offset_of(bytes@) == Some(o as int),
            None => body_offset_of(bytes@) is None,
        },
{
    let n = bytes.len();
    if n < 3 || bytes[0] != 45u8 || bytes[1] != 45u8 || bytes[2] != 45u8 {
        proof {
            if n >= 3 {
                assert(bytes@.subrange(0, 3)[0] == bytes@[0]);
                assert(bytes@.subrange(0, 3)[1] == bytes@[1]);
                assert(bytes@.subrange(0, 3)[2] == bytes@[2]);
            }
        }
        return None;
    }
    assert(bytes@.subrange(0, 3) =~= dashes());
    let mut cursor: usize = 3;
    if n > 3 && bytes[3] == 13u8 {
        cursor = 4;
    }
    if cursor < n && bytes[cursor] == 10u8 {
        cursor = cursor + 1;
    } else if n != cursor {
        return None;
    }
    while cursor < n
        invariant
            n == bytes@.len(),
            cursor <= n,
            body_offset_of(bytes@) == closing_from(bytes@, cursor as int),
        decreases n - cursor,
    {
        let mut e: usize = cursor;
        while e < n && bytes[e] != 10u8
            invariant
                cursor <= e <= n,
                n == bytes@.len(),
                line_end_from(bytes@, cursor as int) == line_end_from(bytes@, e as int),
            decreases n - e,
        {
            e = e + 1;
        }
        let line = slice_range(bytes, cursor, e);
        if closes_block(line) {
            let after = if e < n { e + 1 } else { e };
            return Some(after);
        }
        if e == n {
            return None;
        }
        cursor = e + 1;
    }
    None
}

/// `bytes[start..end]`.
fn slice_range(bytes: &[u8], start: usize, end: usize) -> (r: &[u8])
    requires
        start <= end <= bytes@.len(),
    ensures
        r@ == bytes@.subrange(start as int, end as int),
{
    let (head, _) = bytes.split_at(end);
    let (_, tail) = head.split_at(start);
    assert(tail@ =~= bytes@.subrange(start as int, end as int));
    tail
}

// ---------------------------------------------------------------------------
// Character boundaries
// ---------------------------------------------------------------------------

/// A boundary followed by an ASCII byte is followed by another boundary.
proof fn lemma_boundary_after_ascii(b: Seq<u8>, k: int)
    requires
        valid_utf8(b),
        0 <= k < b.len(),
        is_char_boundary(b, k),
        b[k] < 0x80u8,
    ensures
        is_char_boundary(b, k + 1),
    decreases b.len(),
{
    let l = length_of_first_scalar(b);
    let p = pop_first_scalar(b);
    if k == 0 {
        assert(l == 1);
        assert(is_char_boundary(p, 0));
    } else {
        assert(valid_utf8(p));
        assert(is_char_boundary(p, k - l));
        assert(0 <= k - l < p.len());
        assert(p[k - l] == b[k]);
        lemma_boundary_after_ascii(p, k - l);
    }
}

/// Every offset `body_offset_of` reports is a character boundary.
proof fn lemma_body_offset_boundary(b: Seq<u8>)
    requires
        valid_utf8(b),
    ensures
        match body_offset_of(b) {
            Some(o) => is_char_boundary(b, o),
            None => true,
        },
{
    match first_line_start(b) {
        Some(c) => {
            lemma_closing_bound(b, c);
            match closing_from(b, c) {
                Some(o) => {
                    vstd::utf8::is_char_boundary_start_end_of_seq(b);
                    if o < b.len() {
                        assert(b[o - 1] == 10u8);
                        vstd::utf8::is_char_boundary_iff_not_is_continuation_byte(b, o - 1);
                        lemma_boundary_after_ascii(b, o - 1);
                    }
                },
                None => {},
            }
        },
        None => {},
    }
}

// ---------------------------------------------------------------------------
// The YAML decode
// ---------------------------------------------------------------------------

/// What `gray_matter` reports for a source: the block's text between the
/// delimiters (trimmed; empty when there is none) and its decoded value.
pub uninterp spec fn parsed_front_matter(src: Seq<char>) -> (Seq<char>, Json);

/// Converts a decoded `serde_json` value into the library's value model, one
/// node for one: numbers keep their canonical text, objects their key order.
#[verifier::external_body]
fn json_of_value(v: &serde_json::Value) -> (r: Json) {
    match v {
        serde_json::Value::Null => Json::Null,
        serde_json::Value::Bool(b) => Json::Bool(*b),
        serde_json::Value::Number(n) => Json::Number(n.to_string()),
        serde_json::Value::String(s) => Json::Str(s.clone()),
        serde_json::Value::Array(xs) => Json::Array(xs.iter().map(json_of_value).collect()),
        serde_json::Value::Object(m) => Json::Object(
            m.iter().map(|(k, x)| (k.clone(), json_of_value(x))).collect(),
        ),
    }
}

/// `gray_matter::Matter::<YAML>::parse`: the frontmatter text of `src`
/// (`ParsedEntity::matter`) and its YAML data decoded into JSON (`Null`
/// when absent or not decodable). Both are named, not restated: the result
/// depends on `src` alone.
#[verifier::external_body]
fn front_matter_of(src: &str) -> (r: (String, Json))
    ensures
        r.0@ == parsed_front_matter(src@).0,
        json_same(r.1, parsed_front_matter(src@).1),
{
    let matter: gray_matter::Matter<gray_matter::engine::YAML> = gray_matter::Matter::new();
    let parsed = matter.parse(src);
    let data = parsed.data.and_then(|pod| pod.deserialize::<serde_json::Value>().ok());
    let value = data.unwrap_or(serde_json::Value::Null);
    (parsed.matter, json_of_value(&value))
}

// ---------------------------------------------------------------------------
// Split
// ---------------------------------------------------------------------------

/// Whether `src` opens with a frontmatter block that `split_frontmatter`
/// peels off: it starts with `---`, the YAML block text is non-empty, and a
/// closing line is found. Yields the body offset.
pub open spec fn split_offset(src: Seq<char>) -> Option<int> {
    let b = encode_utf8(src);
    if b.len() >= 3 && b.subrange(0, 3) == dashes() && parsed_front_matter(src).0.len() > 0 {
        body_offset_of(b)
    } else {
        None
    }
}

/// The body of `src`: what follows a peeled frontmatter block, else all of it.
pub open spec fn body_view(src: Seq<char>) -> Seq<char> {
    match split_offset(src) {
        Some(o) => decode_utf8(encode_utf8(src).subrange(o, encode_utf8(src).len() as int)),
        None => src,
    }
}

/// The byte offset of the body in `src` (`0` without a frontmatter block).
pub open spec fn body_start(src: Seq<char>) -> u32 {
    match split_offset(src) {
        Some(o) => o as u32,
        None => 0,
    }
}

/// Split `src` into `(frontmatter, body, body_offset)`.
///
/// `body_offset` is the byte index in `src` where the body begins; for a
/// source without a frontmatter block it is `0` and the body is `src`.
pub fn split_frontmatter(src: &str) -> (r: (Option<Frontmatter>, &str, u32))
    requires
        src.spec_bytes().len() <= u32::MAX,
    ensures
        match split_offset(src@) {
            Some(o) => {
                &&& r.0 matches Some(fm) && fm.raw@ == parsed_front_matter(src@).0 && json_same(
                    fm.data,
                    parsed_front_matter(src@).1,
                )
                &&& r.2 == o
                &&& r.1.spec_bytes() == src.spec_bytes().subrange(o, src.spec_bytes().len() as int)
            },
            None => r.0 is None && r.1@ == src@ && r.2 == 0,
        },
        r.1@ == body_view(src@),
        r.2 == body_start(src@),
        r.1.spec_bytes().len() <= src.spec_bytes().len(),
{
    let bytes = src.as_bytes();
    proof {
        vstd::utf8::encode_utf8_valid_utf8(src@);
    }
    if bytes.len() < 3 || bytes[0] != 45u8 || bytes[1] != 45u8 || bytes[2] != 45u8 {
        proof {
            if bytes@.len() >= 3 {
                assert(bytes@.subrange(0, 3)[0] == bytes@[0]);
                assert(bytes@.subrange(0, 3)[1] == bytes@[1]);
                assert(bytes@.subrange(0, 3)[2] == bytes@[2]);
            }
        }
        return (None, src, 0);
    }
    assert(bytes@.subrange(0, 3) =~= dashes());
    let (raw, data) = front_matter_of(src);
    if raw.as_str().unicode_len() == 0 {
        return (None, src, 0);
    }
    match find_body_offset(bytes) {
        None => (None, src, 0),
        Some(off) => {
            proof {
                lemma_body_offset_boundary(bytes@);
                lemma_closing_bound(bytes@, first_line_start(bytes@)->0);
            }
            let (_, body) = src.split_at(off);
            proof {
                vstd::utf8::encode_utf8_decode_utf8(body@);
            }
            (Some(Frontmatter { raw, data }), body, off as u32)
        },
    }
}

} // verus!
