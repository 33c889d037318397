//! In-memory data model of the index: heading nodes and documents.

use vstd::prelude::*;

use crate::access::AccessCounter;
use crate::json::Json;
use crate::okf::{opt_string_view, string_field_of};
use crate::types::{ByteRange, HeadingPath, Link, NodeId, SourceId};

verus! {

/// A single heading and its body range in a document.
#[derive(Debug)]
pub struct HeadingNode {
    pub id: NodeId,
    pub level: u8,
    pub title: String,
    pub path: HeadingPath,
    /// From the start of this heading's line through the start of the next
    /// heading at the same or a shallower level (or end of document).
    pub byte_range: ByteRange,
    /// Body of the section: excludes the heading line itself.
    pub content_range: ByteRange,
    /// First-sentence summary, plain text.
    pub summary: String,
    /// Links found inside this node's own body (not inside any child).
    pub outbound_links: Vec<Link>,
    /// Children of this node, in source order.
    pub children: Vec<NodeId>,
    /// Parent, if any. Root nodes have `None`.
    pub parent: Option<NodeId>,
    /// Structural kind, e.g. `"dataview"`; `None` for ordinary prose.
    pub kind: Option<String>,
    /// In-memory access counter.
    pub access_count: AccessCounter,
}

/// Index for a single markdown document.
#[derive(Debug)]
pub struct DocumentIndex {
    pub source: SourceId,
    /// Path relative to the corpus root, forward slashes, no leading `./`.
    pub rel_path: String,
    /// xxh3 of the original file bytes.
    pub file_hash: u64,
    /// Decoded frontmatter, if any.
    pub frontmatter: Option<Json>,
    /// File modification time as Unix epoch seconds, if known.
    pub modified_at: Option<u64>,
    /// Arena of nodes; the index into this vector equals the node id.
    pub nodes: Vec<HeadingNode>,
    /// Top-level nodes, in source order.
    pub roots: Vec<NodeId>,
    /// Total source length in bytes (including frontmatter).
    pub source_len: u32,
    /// Byte offset where the body starts.
    pub body_offset: u32,
}


/// Whole days from `modified` to `now`, saturating at zero below and at
/// `u32::MAX` above; `None` without a modification time.
pub open spec fn age_in_days(modified: Option<u64>, now: u64) -> Option<u32> {
    match modified {
        Some(m) => Some(
            (if now <= m {
                0
            } else if (now - m) / 86400 > u32::MAX {
                u32::MAX as int
            } else {
                (now - m) / 86400
            }) as u32,
        ),
        None => None,
    }
}

pub open spec fn description_key() -> Seq<char> {
    seq!['d', 'e', 's', 'c', 'r', 'i', 'p', 't', 'i', 'o', 'n']
}

impl DocumentIndex {
    /// The node with id `id`, if there is one.
    pub fn node(&self, id: NodeId) -> (r: Option<&HeadingNode>)
        ensures
            match r {
                Some(n) => id.0 < self.nodes@.len() && *n == self.nodes@[id.0 as int],
                None => id.0 >= self.nodes@.len(),
            },
    {
        let i = id.index();
        if i < self.nodes.len() {
            Some(&self.nodes[i])
        } else {
            None
        }
    }

    /// The node with id `id`, for changing in place, if there is one.
    pub fn node_mut(&mut self, id: NodeId) -> (r: Option<&mut HeadingNode>)
        ensures
            match r {
                Some(n) => id.0 < old(self).nodes@.len() && *n == old(self).nodes@[id.0 as int]
                    && final(self).nodes@ == old(self).nodes@.update(id.0 as int, *final(n))
                    && final(self).roots == old(self).roots && final(self).rel_path == old(self).rel_path
                    && final(self).source == old(self).source && final(self).file_hash == old(self).file_hash
                    && final(self).frontmatter == old(self).frontmatter && final(self).modified_at
                    == old(self).modified_at && final(self).source_len == old(self).source_len
                    && final(self).body_offset == old(self).body_offset,
                None => id.0 >= old(self).nodes@.len() && *final(self) == *old(self),
            },
    {
        let i = id.index();
        if i < self.nodes.len() {
            Some(&mut self.nodes[i])
        } else {
            None
        }
    }

    /// Age in whole days relative to `now_unix` (Unix epoch seconds),
    /// saturating at 0; `None` when no modification time was captured.
    pub fn age_days(&self, now_unix: u64) -> (r: Option<u32>)
        ensures
            r == age_in_days(self.modified_at, now_unix),
    {
        let modified = match self.modified_at {
            Some(m) => m,
            None => return None,
        };
        let secs = if now_unix <= modified {
            0
        } else {
            now_unix - modified
        };
        let days = secs / 86_400;
        Some(if days > 4294967295u64 {
            u32::MAX
        } else {
            days as u32
        })
    }

    /// The author-written `description` from the frontmatter, trimmed: only
    /// a non-empty top-level string counts.
    pub fn description(&self) -> (r: Option<String>)
        ensures
            opt_string_view(r) == string_field_of(self.frontmatter, description_key()),
    {
        let fm = match &self.frontmatter {
            Some(v) => v,
            None => return None,
        };
        proof {
            reveal_strlit("description");
            assert("description"@ =~= description_key());
        }
        let r = crate::okf::string_field(Some(fm), "description");
        r
    }
}

} // verus!
