//! Heading event extraction: one `HeadingEvent` per ATX or setext heading,
//! with offsets shifted so they reference the original source.

use vstd::prelude::*;

use crate::markdown::{markdown_events, markdown_events_of, MdEvent, MdKind};
use crate::parse::{HeadingEvent, HeadingEventView};
use crate::text::{collapse_whitespace, normalize_whitespace, push_char};

verus! {

/// `a + b`, saturating at `u32::MAX`.
pub open spec fn sat_add(a: u32, b: u32) -> u32 {
    if a + b > u32::MAX {
        u32::MAX
    } else {
        (a + b) as u32
    }
}

/// A heading that has started but not ended: level, range, text so far.
pub type OpenHeading = (u8, usize, usize, Seq<char>);

/// Headings emitted so far, and the heading still open, after `evs`.
pub open spec fn heading_scan(evs: Seq<MdEvent>, off: u32) -> (Seq<HeadingEventView>, Option<OpenHeading>)
    decreases evs.len(),
{
    if evs.len() == 0 {
        (Seq::empty(), None)
    } else {
        let (out, cur) = heading_scan(evs.drop_last(), off);
        let ev = evs.last();
        match ev.kind {
            MdKind::HeadingStart(level) => (out, Some((level, ev.start, ev.end, Seq::empty()))),
            MdKind::HeadingEnd => match cur {
                Some(c) => (
                    out.push(
                        HeadingEventView {
                            level: c.0,
                            text: collapse_whitespace(c.3),
                            offset: sat_add(c.1 as u32, off),
                            body_start: sat_add(c.2 as u32, off),
                        },
                    ),
                    None,
                ),
                None => (out, None),
            },
            MdKind::Text(t) => match cur {
                Some(c) => (out, Some((c.0, c.1, c.2, c.3 + t@))),
                None => (out, None),
            },
            MdKind::Code(t) => match cur {
                Some(c) => (out, Some((c.0, c.1, c.2, c.3 + t@))),
                None => (out, None),
            },
            MdKind::Break => match cur {
                Some(c) => (out, Some((c.0, c.1, c.2, c.3.push(' ')))),
                None => (out, None),
            },
            _ => (out, cur),
        }
    }
}

/// The headings of an event stream, each heading's text with whitespace
/// collapsed and its offsets shifted by `off` (saturating).
pub open spec fn headings_of_events(evs: Seq<MdEvent>, off: u32) -> Seq<HeadingEventView> {
    heading_scan(evs, off).0
}

pub open spec fn heading_views(hs: Seq<HeadingEvent>) -> Seq<HeadingEventView> {
    hs.map_values(|h: HeadingEvent| h@)
}

/// A heading whose start has been seen but not its end.
struct InProgress {
    level: u8,
    start: usize,
    end: usize,
    text: String,
}

/// Walks an event stream and emits one heading per heading start/end pair.
pub fn headings_from_events(events: &Vec<MdEvent>, body_offset: u32) -> (r: Vec<HeadingEvent>)
    ensures
        heading_views(r@) == headings_of_events(events@, body_offset),
{
    let mut out: Vec<HeadingEvent> = Vec::new();
    let mut current: Option<InProgress> = None;
    let mut i: usize = 0;
    while i < events.len()
        invariant
            i <= events@.len(),
            heading_views(out@) == heading_scan(events@.take(i as int), body_offset).0,
            match heading_scan(events@.take(i as int), body_offset).1 {
                Some(c) => current is Some && current->0.level == c.0 && current->0.start == c.1
                    && current->0.end == c.2 && current->0.text@ == c.3,
                None => current is None,
            },
        decreases events@.len() - i,
    {
        proof {
            assert(events@.take(i + 1).drop_last() =~= events@.take(i as int));
            assert(events@.take(i + 1).last() == events@[i as int]);
        }
        let ev = &events[i];
        match &ev.kind {
            MdKind::HeadingStart(level) => {
                current = Some(InProgress { level: *level, start: ev.start, end: ev.end, text: String::new() });
            },
            MdKind::HeadingEnd => {
                match current {
                    Some(cur) => {
                        let ghost before = out@;
                        out.push(
                            HeadingEvent {
                                level: cur.level,
                                text: normalize_whitespace(cur.text.as_str()),
                                offset: (cur.start as u32).saturating_add(body_offset),
                                body_start: (cur.end as u32).saturating_add(body_offset),
                            },
                        );
                        proof {
                            assert(heading_views(out@) =~= heading_views(before).push(out@.last()@));
                        }
                    },
                    None => {},
                }
                current = None;
            },
            MdKind::Text(t) => {
                match current {
                    Some(cur) => {
                        let mut text = cur.text;
                        text.append(t.as_str());
                        current = Some(InProgress { level: cur.level, start: cur.start, end: cur.end, text });
                    },
                    None => {},
                }
            },
            MdKind::Code(t) => {
                match current {
                    Some(cur) => {
                        let mut text = cur.text;
                        text.append(t.as_str());
                        current = Some(InProgress { level: cur.level, start: cur.start, end: cur.end, text });
                    },
                    None => {},
                }
            },
            MdKind::Break => {
                match current {
                    Some(cur) => {
                        let mut text = cur.text;
                        push_char(&mut text, ' ');
                        current = Some(InProgress { level: cur.level, start: cur.start, end: cur.end, text });
                    },
                    None => {},
                }
            },
            _ => {},
        }
        i = i + 1;
    }
    proof {
        assert(events@.take(events@.len() as int) =~= events@);
    }
    out
}

/// Collects every heading of `body`, offsets shifted by `body_offset`.
pub fn collect(body: &str, body_offset: u32) -> (r: Vec<HeadingEvent>)
    ensures
        heading_views(r@) == headings_of_events(markdown_events(body@), body_offset),
{
    let events = markdown_events_of(body);
    headings_from_events(&events, body_offset)
}

} // verus!
