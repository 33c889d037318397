//! Obsidian-specific extensions: Dataview code blocks.
//!
//! Fenced code blocks whose info string is `dataview` are dynamic queries,
//! not prose; their ranges are surfaced so the owning heading can be tagged.

use vstd::prelude::*;

use crate::headings::sat_add;
use crate::markdown::{markdown_events, markdown_events_of, MdEvent, MdKind};
use crate::text::{chars_eq_ignore_ascii_case, chars_of, eq_ignore_ascii_case, trim, trimmed};

verus! {

/// Summary token for a section whose only content is a Dataview query.
pub const DATAVIEW_MARKER: &'static str = "[dataview query]";

/// The info string that marks a Dataview block.
pub open spec fn dataview_word() -> Seq<char> {
    seq!['d', 'a', 't', 'a', 'v', 'i', 'e', 'w']
}

/// Dataview ranges found so far, and the fenced block still open (its start
/// and whether it is a Dataview block), after `evs`.
pub open spec fn dataview_scan(evs: Seq<MdEvent>, off: u32) -> (Seq<(u32, u32)>, Option<(usize, bool)>)
    decreases evs.len(),
{
    if evs.len() == 0 {
        (Seq::empty(), None)
    } else {
        let (out, open) = dataview_scan(evs.drop_last(), off);
        let ev = evs.last();
        match ev.kind {
            MdKind::FencedCodeStart(info) => (
                out,
                Some((ev.start, eq_ignore_ascii_case(trimmed(info@), dataview_word()))),
            ),
            MdKind::CodeBlockEnd => match open {
                Some(o) => if o.1 {
                    (out.push((sat_add(o.0 as u32, off), sat_add(ev.end as u32, off))), None)
                } else {
                    (out, None)
                },
                None => (out, None),
            },
            _ => (out, open),
        }
    }
}

/// The ranges (shifted by `off`) of the fenced code blocks whose trimmed
/// info string is `dataview`, ignoring ASCII case.
pub open spec fn dataview_ranges_of(evs: Seq<MdEvent>, off: u32) -> Seq<(u32, u32)> {
    dataview_scan(evs, off).0
}

/// Every Dataview code-block range in `body`, shifted by `body_offset`.
pub fn detect_dataview_ranges(body: &str, body_offset: u32) -> (r: Vec<(u32, u32)>)
    ensures
        r@ == dataview_ranges_of(markdown_events(body@), body_offset),
{
    let events = markdown_events_of(body);
    dataview_ranges_from_events(&events, body_offset)
}

/// Walks an event stream and records each Dataview block's range.
pub fn dataview_ranges_from_events(events: &Vec<MdEvent>, body_offset: u32) -> (r: Vec<(u32, u32)>)
    ensures
        r@ == dataview_ranges_of(events@, body_offset),
{
    let word: Vec<char> = vec!['d', 'a', 't', 'a', 'v', 'i', 'e', 'w'];
    let mut out: Vec<(u32, u32)> = Vec::new();
    let mut open: Option<(usize, bool)> = None;
    let mut i: usize = 0;
    while i < events.len()
        invariant
            i <= events@.len(),
            word@ == dataview_word(),
            (out@, open) == dataview_scan(events@.take(i as int), body_offset),
        decreases events@.len() - i,
    {
        proof {
            assert(events@.take(i + 1).drop_last() =~= events@.take(i as int));
            assert(events@.take(i + 1).last() == events@[i as int]);
        }
        let ev = &events[i];
        match &ev.kind {
            MdKind::FencedCodeStart(info) => {
                let lang = trim(info.as_str());
                let lang_chars = chars_of(lang.as_str());
                let is_dv = chars_eq_ignore_ascii_case(lang_chars.as_slice(), word.as_slice());
                open = Some((ev.start, is_dv));
            },
            MdKind::CodeBlockEnd => {
                match open {
                    Some((start, is_dv)) => {
                        if is_dv {
                            let s = (start as u32).saturating_add(body_offset);
                            let e = (ev.end as u32).saturating_add(body_offset);
                            out.push((s, e));
                        }
                    },
                    None => {},
                }
                open = None;
            },
            _ => {},
        }
        i = i + 1;
    }
    proof {
        assert(events@.take(events@.len() as int) =~= events@);
    }
    out
}

} // verus!
