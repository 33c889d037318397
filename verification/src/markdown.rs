//! The markdown event stream every pass of the parser walks.
//!
//! The CommonMark parse itself is pulldown-cmark's. Its events are turned,
//! one for one, into plain `MdEvent` values that keep what the passes read
//! (heading levels, link destinations, code-block info strings, text) plus
//! each event's byte range in the parsed text.

use vstd::prelude::*;

verus! {

/// What a markdown event is, as far as Lore's passes care.
#[derive(Debug)]
pub enum MdKind {
    /// Start of a heading of the given level (1 to 6).
    HeadingStart(u8),
    HeadingEnd,
    /// Start of a link with the given destination.
    LinkStart(String),
    LinkEnd,
    /// Start of a fenced code block with the given info string.
    FencedCodeStart(String),
    /// Start of an indented code block.
    IndentedCodeStart,
    CodeBlockEnd,
    ParagraphEnd,
    Text(String),
    /// An inline code span.
    Code(String),
    /// A soft or hard line break.
    Break,
    /// Any other event.
    Other,
}

/// One event with its byte range `[start, end)` in the parsed text.
#[derive(Debug)]
pub struct MdEvent {
    pub kind: MdKind,
    pub start: usize,
    pub end: usize,
}

#[verifier::external_type_specification]
#[verifier::external_body]
pub struct ExOptions(pulldown_cmark::Options);

#[verifier::external_type_specification]
#[verifier::external_body]
pub struct ExEvent<'a>(pulldown_cmark::Event<'a>);

#[verifier::external_type_specification]
#[verifier::external_body]
pub struct ExTag<'a>(pulldown_cmark::Tag<'a>);

#[verifier::external_type_specification]
#[verifier::external_body]
pub struct ExTagEnd(pulldown_cmark::TagEnd);

/// The pulldown-cmark event stream of `text`, parsed with
/// [`parser_options`], each event converted to an `MdEvent`.
pub uninterp spec fn markdown_events(text: Seq<char>) -> Seq<MdEvent>;

/// The option set used for every markdown parse (tables, footnotes,
/// strikethrough, task lists), so that offsets from different passes agree.
#[verifier::external_body]
pub fn parser_options() -> pulldown_cmark::Options {
    let mut opts = pulldown_cmark::Options::empty();
    opts.insert(pulldown_cmark::Options::ENABLE_TABLES);
    opts.insert(pulldown_cmark::Options::ENABLE_FOOTNOTES);
    opts.insert(pulldown_cmark::Options::ENABLE_STRIKETHROUGH);
    opts.insert(pulldown_cmark::Options::ENABLE_TASKLISTS);
    opts
}

/// `pulldown_cmark::Parser::new_ext(text, parser_options()).into_offset_iter()`,
/// each `(event, range)` converted to an `MdEvent`. The contract only names
/// the result: what CommonMark parsing produces is not restated here.
#[verifier::external_body]
pub(crate) fn markdown_events_of(text: &str) -> (r: Vec<MdEvent>)
    ensures
        r@ == markdown_events(text@),
{
    let mut out = Vec::new();
    for (event, range) in pulldown_cmark::Parser::new_ext(text, parser_options()).into_offset_iter() {
        out.push(MdEvent { kind: kind_of_event(event), start: range.start, end: range.end });
    }
    out
}

/// Converts one pulldown-cmark event into its `MdKind`, variant for variant.
#[verifier::external_body]
fn kind_of_event(event: pulldown_cmark::Event<'_>) -> MdKind {
    match event {
        pulldown_cmark::Event::Start(tag) => kind_of_start(tag),
        pulldown_cmark::Event::End(tag) => kind_of_end(tag),
        pulldown_cmark::Event::Text(t) => MdKind::Text(t.into_string()),
        pulldown_cmark::Event::Code(t) => MdKind::Code(t.into_string()),
        pulldown_cmark::Event::SoftBreak => MdKind::Break,
        pulldown_cmark::Event::HardBreak => MdKind::Break,
        _ => MdKind::Other,
    }
}

/// Converts the tag of a start event into its `MdKind`.
#[verifier::external_body]
fn kind_of_start(tag: pulldown_cmark::Tag<'_>) -> MdKind {
    match tag {
        pulldown_cmark::Tag::Heading { level, .. } => MdKind::HeadingStart(level as u8),
        pulldown_cmark::Tag::Link { dest_url, .. } => MdKind::LinkStart(dest_url.into_string()),
        pulldown_cmark::Tag::CodeBlock(pulldown_cmark::CodeBlockKind::Fenced(info)) => MdKind::FencedCodeStart(info.into_string()),
        pulldown_cmark::Tag::CodeBlock(pulldown_cmark::CodeBlockKind::Indented) => MdKind::IndentedCodeStart,
        _ => MdKind::Other,
    }
}

/// Converts the tag of an end event into its `MdKind`.
#[verifier::external_body]
fn kind_of_end(tag: pulldown_cmark::TagEnd) -> MdKind {
    match tag {
        pulldown_cmark::TagEnd::Heading(_) => MdKind::HeadingEnd,
        pulldown_cmark::TagEnd::Link => MdKind::LinkEnd,
        pulldown_cmark::TagEnd::CodeBlock => MdKind::CodeBlockEnd,
        pulldown_cmark::TagEnd::Paragraph => MdKind::ParagraphEnd,
        _ => MdKind::Other,
    }
}

} // verus!
