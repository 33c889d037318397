//! What the file watcher does with one change: the decision, given what
//! the caller found out about the changed path on disk.

use vstd::prelude::*;

use crate::cli::WatchEvent;
use crate::config::{
    has_extension_in, is_ignore_file, is_markdown, markdown_extensions, names_ignore_file,
};

verus! {

/// The watcher's response to one change.
#[derive(Debug)]
pub enum WatchStep {
    /// An ignore file changed: drop the cached ignore rules.
    RefreshIgnoreRules,
    /// Nothing to do.
    Skip,
    /// Re-parse the document at `rel` in corpus `source`.
    Reindex { source: String, rel: String },
    /// Drop the document at `rel` from corpus `source`.
    Remove { source: String, rel: String },
}

/// The step for a change to `path`, given the corpus and relative path it
/// lies at (if any), whether the walk rules accept it, and whether it
/// exists now. A change reported as a write to a path that no longer
/// exists is a removal.
pub open spec fn step_is(
    r: WatchStep,
    path: Seq<char>,
    upsert: bool,
    located: Option<(String, String)>,
    accepted: bool,
    exists: bool,
) -> bool {
    if names_ignore_file(path) {
        r is RefreshIgnoreRules
    } else if !has_extension_in(path, markdown_extensions()) {
        r is Skip
    } else {
        match located {
            None => r is Skip,
            Some(loc) => if !accepted {
                r is Skip
            } else if upsert && exists {
                r matches WatchStep::Reindex { source, rel } && source@ == loc.0@ && rel@ == loc.1@
            } else {
                r matches WatchStep::Remove { source, rel } && source@ == loc.0@ && rel@ == loc.1@
            },
        }
    }
}

/// The path a change names.
pub open spec fn event_path(e: WatchEvent) -> Seq<char> {
    match e {
        WatchEvent::Upsert(p) => p@,
        WatchEvent::Remove(p) => p@,
    }
}

/// Decides what to do with one change.
pub fn watch_step(event: &WatchEvent, located: Option<(String, String)>, accepted: bool, exists: bool) -> (r: WatchStep)
    ensures
        step_is(r, event_path(*event), *event is Upsert, located, accepted, exists),
{
    let path = event.path();
    if is_ignore_file(path) {
        return WatchStep::RefreshIgnoreRules;
    }
    if !is_markdown(path) {
        return WatchStep::Skip;
    }
    let (source, rel) = match located {
        Some(loc) => loc,
        None => return WatchStep::Skip,
    };
    if !accepted {
        return WatchStep::Skip;
    }
    let upsert = match event {
        WatchEvent::Upsert(_) => true,
        WatchEvent::Remove(_) => false,
    };
    if upsert && exists {
        WatchStep::Reindex { source, rel }
    } else {
        WatchStep::Remove { source, rel }
    }
}

} // verus!
