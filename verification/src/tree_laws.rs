//! Structural laws of the heading tree that `build_document` produces:
//! sibling sections tile their parent, the roots tile the document, and a
//! node's heading path is as long as its depth in the tree.

use vstd::prelude::*;

use crate::builder::{
    id_ints, ids_with, is_parent_in, is_root_in, lemma_tree_parent, parent_idx, parents_of,
    section_end_from, section_range, tree_of, tree_parent,
};
use crate::model::HeadingNode;
use crate::parse::HeadingEvent;
use crate::types::NodeId;

verus! {

/// Heading offsets never decrease and never pass the end of the source.
pub open spec fn headings_ordered(hs: Seq<HeadingEvent>, source_len: u32) -> bool {
    &&& forall|a: int, b: int| 0 <= a <= b < hs.len() ==> #[trigger] hs[a].offset <= #[trigger] hs[b].offset
    &&& forall|a: int| 0 <= a < hs.len() ==> #[trigger] hs[a].offset <= source_len
}

/// Every node's `byte_range` is its section range.
pub open spec fn sections_of(hs: Seq<HeadingEvent>, nodes: Seq<HeadingNode>, source_len: u32) -> bool {
    &&& nodes.len() == hs.len()
    &&& forall|j: int|
        0 <= j < nodes.len() ==> (#[trigger] nodes[j]).byte_range == section_range(hs, j, source_len)
}

/// The depth of node `j`: one for a root, one more than its parent otherwise.
pub open spec fn node_depth(nodes: Seq<HeadingNode>, j: int) -> nat
    decreases j,
{
    if j < 0 || j >= nodes.len() {
        0
    } else {
        match parent_idx(nodes[j]) {
            Some(p) => if 0 <= p < j {
                1 + node_depth(nodes, p)
            } else {
                1
            },
            None => 1,
        }
    }
}

pub proof fn lemma_ids_sorted(parents: Seq<Option<int>>, parent: Option<int>)
    ensures
        forall|a: int, b: int|
            0 <= a < b < ids_with(parents, parent).len() ==> #[trigger] ids_with(parents, parent)[a]
                < #[trigger] ids_with(parents, parent)[b],
        forall|a: int|
            0 <= a < ids_with(parents, parent).len() ==> 0 <= #[trigger] ids_with(parents, parent)[a]
                < parents.len() && parents[ids_with(parents, parent)[a]] == parent,
        forall|j: int|
            0 <= j < parents.len() && parents[j] == parent ==> exists|a: int|
                0 <= a < ids_with(parents, parent).len() && #[trigger] ids_with(parents, parent)[a]
                    == j,
    decreases parents.len(),
{
    if parents.len() > 0 {
        let prev = ids_with(parents.drop_last(), parent);
        lemma_ids_sorted(parents.drop_last(), parent);
        let ids = ids_with(parents, parent);
        if parents.last() == parent {
            assert(ids == prev.push(parents.len() - 1));
        } else {
            assert(ids == prev);
        }
        assert forall|j: int| 0 <= j < parents.len() && parents[j] == parent implies exists|a: int|
            0 <= a < ids.len() && #[trigger] ids[a] == j by {
            if j == parents.len() - 1 {
                assert(ids[ids.len() - 1] == j);
            } else {
                assert(parents.drop_last()[j] == parent);
                let a = choose|a: int| 0 <= a < prev.len() && #[trigger] prev[a] == j;
                assert(ids[a] == j);
            }
        }
    }
}

/// A heading that follows `c` with nothing shallower-or-equal in between,
/// and is itself no deeper than `c`, shares `c`'s parent, provided it is
/// still deeper than that parent.
pub proof fn lemma_next_at_level(hs: Seq<HeadingEvent>, c: int, k: int)
    requires
        0 <= c < k < hs.len(),
        forall|m: int| c < m < k ==> #[trigger] hs[m].level > hs[c].level,
        hs[k].level <= hs[c].level,
        match tree_parent(hs, c) {
            Some(p) => hs[p].level < hs[k].level,
            None => true,
        },
    ensures
        tree_parent(hs, k) == tree_parent(hs, c),
{
    lemma_tree_parent(hs, c);
    lemma_tree_parent(hs, k);
    match tree_parent(hs, c) {
        Some(p) => {
            assert forall|m: int| p < m < k implies #[trigger] hs[m].level >= hs[k].level by {
                if m < c {
                    assert(hs[m].level >= hs[c].level);
                } else if m > c {
                    assert(hs[m].level > hs[c].level);
                }
            }
            assert(is_parent_in(hs, k, p));
        },
        None => {
            assert forall|m: int| 0 <= m < k implies #[trigger] hs[m].level >= hs[k].level by {
                if m < c {
                    assert(hs[m].level >= hs[c].level);
                } else if m > c {
                    assert(hs[m].level > hs[c].level);
                }
            }
            assert(is_root_in(hs, k));
        },
    }
}

proof fn lemma_scan_to(hs: Seq<HeadingEvent>, c: int, k: int, target: int, source_len: u32)
    requires
        0 <= c < k <= target < hs.len(),
        forall|m: int| k <= m < target ==> #[trigger] hs[m].level > hs[c].level,
        hs[target].level <= hs[c].level,
    ensures
        section_end_from(hs, c, k, source_len) == hs[target].offset,
    decreases target - k,
{
    if k < target {
        lemma_scan_to(hs, c, k + 1, target, source_len);
    }
}

proof fn lemma_scan_past(hs: Seq<HeadingEvent>, c: int, k: int, source_len: u32)
    requires
        0 <= c < k <= hs.len(),
        forall|m: int| k <= m < hs.len() ==> #[trigger] hs[m].level > hs[c].level,
    ensures
        section_end_from(hs, c, k, source_len) == source_len,
    decreases hs.len() - k,
{
    if k < hs.len() {
        lemma_scan_past(hs, c, k + 1, source_len);
    }
}

/// Among the nodes with parent `par`, no other one lies strictly between
/// the consecutive members `x = ids[a]` and `y = ids[a + 1]`.
pub proof fn lemma_no_member_between(parents: Seq<Option<int>>, par: Option<int>, a: int, j: int)
    requires
        0 <= a < ids_with(parents, par).len() - 1,
        ids_with(parents, par)[a] < j < ids_with(parents, par)[a + 1],
        0 <= j < parents.len(),
    ensures
        parents[j] != par,
{
    lemma_ids_sorted(parents, par);
    let ids = ids_with(parents, par);
    if parents[j] == par {
        let c = choose|c: int| 0 <= c < ids.len() && #[trigger] ids[c] == j;
        if c <= a {
            assert(ids[c] <= ids[a]) by {
                if c < a {
                    assert(ids[c] < ids[a]);
                }
            }
        } else {
            assert(ids[a + 1] <= ids[c]) by {
                if a + 1 < c {
                    assert(ids[a + 1] < ids[c]);
                }
            }
        }
    }
}

pub proof fn lemma_no_member_after(parents: Seq<Option<int>>, par: Option<int>, j: int)
    requires
        ids_with(parents, par).len() > 0,
        ids_with(parents, par).last() < j < parents.len(),
    ensures
        parents[j] != par,
{
    lemma_ids_sorted(parents, par);
    let ids = ids_with(parents, par);
    if parents[j] == par {
        let c = choose|c: int| 0 <= c < ids.len() && #[trigger] ids[c] == j;
        if c < ids.len() - 1 {
            assert(ids[c] < ids[ids.len() - 1]);
        }
    }
}

pub proof fn lemma_first_shallow(hs: Seq<HeadingEvent>, x: int, y: int, m: int, par: Option<int>)
    requires
        0 <= x < m < y < hs.len(),
        tree_parent(hs, x) == par,
        tree_parent(hs, y) == par,
        forall|j: int| x < j < y ==> tree_parent(hs, j) != par,
    ensures
        hs[m].level > hs[x].level,
    decreases m - x,
{
    assert forall|k: int| x < k < m implies #[trigger] hs[k].level > hs[x].level by {
        lemma_first_shallow(hs, x, y, k, par);
    }
    if hs[m].level <= hs[x].level {
        lemma_tree_parent(hs, y);
        lemma_tree_parent(hs, x);
        match par {
            Some(p) => {
                assert(is_parent_in(hs, x, p));
                assert(is_parent_in(hs, y, p));
                assert(p < m < y);
                assert(hs[m].level >= hs[y].level);
                assert(hs[p].level < hs[y].level);
            },
            None => {},
        }
        lemma_next_at_level(hs, x, m);
    }
}

/// Consecutive children of a node, and consecutive roots, are contiguous:
/// each section ends exactly where the next sibling's section starts.
pub proof fn law_siblings_contiguous(
    hs: Seq<HeadingEvent>,
    nodes: Seq<HeadingNode>,
    roots: Seq<NodeId>,
    source_len: u32,
)
    requires
        tree_of(hs, nodes, roots),
        sections_of(hs, nodes, source_len),
    ensures
        forall|p: int, a: int|
            0 <= p < nodes.len() && 0 <= a < nodes[p].children@.len() - 1 ==> nodes[nodes[p].children@[a].idx()].byte_range.end
                == #[trigger] nodes[nodes[p].children@[a + 1].idx()].byte_range.start,
        forall|a: int|
            0 <= a < roots.len() - 1 ==> nodes[roots[a].idx()].byte_range.end
                == #[trigger] nodes[roots[a + 1].idx()].byte_range.start,
{
    assert forall|p: int, a: int|
        0 <= p < nodes.len() && 0 <= a < nodes[p].children@.len() - 1 implies nodes[nodes[p].children@[a].idx()].byte_range.end
        == #[trigger] nodes[nodes[p].children@[a + 1].idx()].byte_range.start by {
        let ids = ids_with(parents_of(nodes), Some(p));
        assert(nodes[p].id.0 == p);
        assert(id_ints(nodes[p].children@) == ids);
        assert(ids[a] == nodes[p].children@[a].idx());
        assert(ids[a + 1] == nodes[p].children@[a + 1].idx());
        lemma_consecutive(hs, nodes, roots, source_len, Some(p), a);
    }
    assert forall|a: int| 0 <= a < roots.len() - 1 implies nodes[roots[a].idx()].byte_range.end
        == #[trigger] nodes[roots[a + 1].idx()].byte_range.start by {
        let ids = ids_with(parents_of(nodes), None);
        assert(ids[a] == roots[a].idx());
        assert(ids[a + 1] == roots[a + 1].idx());
        lemma_consecutive(hs, nodes, roots, source_len, None, a);
    }
}

proof fn lemma_consecutive(
    hs: Seq<HeadingEvent>,
    nodes: Seq<HeadingNode>,
    roots: Seq<NodeId>,
    source_len: u32,
    par: Option<int>,
    a: int,
)
    requires
        tree_of(hs, nodes, roots),
        sections_of(hs, nodes, source_len),
        0 <= a < ids_with(parents_of(nodes), par).len() - 1,
    ensures
        ({
            let ids = ids_with(parents_of(nodes), par);
            nodes[ids[a]].byte_range.end == nodes[ids[a + 1]].byte_range.start
        }),
{
    let parents = parents_of(nodes);
    let ids = ids_with(parents, par);
    lemma_ids_sorted(parents, par);
    let x = ids[a];
    let y = ids[a + 1];
    assert(x < y);
    assert(parents[x] == par && parents[y] == par);
    assert(parents[x] == parent_idx(nodes[x]));
    assert(parent_idx(nodes[x]) == tree_parent(hs, x));
    assert(parent_idx(nodes[y]) == tree_parent(hs, y));
    assert forall|j: int| x < j < y implies tree_parent(hs, j) != par by {
        lemma_no_member_between(parents, par, a, j);
        assert(parent_idx(nodes[j]) == tree_parent(hs, j));
    }
    lemma_gap_deeper_direct(hs, x, y, par);
    lemma_scan_to(hs, x, x + 1, y, source_len);
    assert(nodes[x].byte_range == section_range(hs, x, source_len));
    assert(nodes[y].byte_range == section_range(hs, y, source_len));
}

proof fn lemma_gap_deeper_direct(hs: Seq<HeadingEvent>, x: int, y: int, par: Option<int>)
    requires
        0 <= x < y < hs.len(),
        tree_parent(hs, x) == par,
        tree_parent(hs, y) == par,
        forall|j: int| x < j < y ==> tree_parent(hs, j) != par,
    ensures
        hs[y].level <= hs[x].level,
        forall|m: int| x < m < y ==> #[trigger] hs[m].level > hs[x].level,
{
    lemma_tree_parent(hs, y);
    lemma_tree_parent(hs, x);
    assert(hs[x].level >= hs[y].level);
    assert forall|m: int| x < m < y implies #[trigger] hs[m].level > hs[x].level by {
        lemma_first_shallow(hs, x, y, m, par);
    }
}

proof fn lemma_scan_skip(hs: Seq<HeadingEvent>, p: int, k: int, stop: int, source_len: u32)
    requires
        0 <= p < k <= stop <= hs.len(),
        forall|m: int| k <= m < stop ==> #[trigger] hs[m].level > hs[p].level,
    ensures
        section_end_from(hs, p, k, source_len) == section_end_from(hs, p, stop, source_len),
    decreases stop - k,
{
    if k < stop {
        lemma_scan_skip(hs, p, k + 1, stop, source_len);
    }
}

proof fn lemma_close_parent(hs: Seq<HeadingEvent>, p: int, c: int, k: int, source_len: u32)
    requires
        0 <= p < c < k <= hs.len(),
        tree_parent(hs, c) == Some(p),
        forall|j: int| c < j < hs.len() ==> tree_parent(hs, j) != Some(p),
        forall|m: int| c < m < k ==> #[trigger] hs[m].level > hs[c].level,
    ensures
        section_end_from(hs, c, k, source_len) == section_end_from(hs, p, k, source_len),
    decreases hs.len() - k,
{
    lemma_tree_parent(hs, c);
    if k < hs.len() {
        if hs[k].level > hs[p].level {
            if hs[k].level <= hs[c].level {
                lemma_next_at_level(hs, c, k);
            }
            lemma_close_parent(hs, p, c, k + 1, source_len);
        }
    }
}

proof fn lemma_close_root(hs: Seq<HeadingEvent>, r: int, k: int, source_len: u32)
    requires
        0 <= r < k <= hs.len(),
        tree_parent(hs, r) is None,
        forall|j: int| r < j < hs.len() ==> tree_parent(hs, j) is Some,
        forall|m: int| r < m < k ==> #[trigger] hs[m].level > hs[r].level,
    ensures
        section_end_from(hs, r, k, source_len) == source_len,
    decreases hs.len() - k,
{
    if k < hs.len() {
        if hs[k].level <= hs[r].level {
            lemma_next_at_level(hs, r, k);
        }
        lemma_close_root(hs, r, k + 1, source_len);
    }
}

/// The last child of a node closes its parent's range exactly.
pub proof fn law_last_child_closes_parent(
    hs: Seq<HeadingEvent>,
    nodes: Seq<HeadingNode>,
    roots: Seq<NodeId>,
    source_len: u32,
)
    requires
        tree_of(hs, nodes, roots),
        sections_of(hs, nodes, source_len),
    ensures
        forall|p: int|
            0 <= p < nodes.len() && (#[trigger] nodes[p]).children@.len() > 0 ==> nodes[nodes[p].children@.last().idx()].byte_range.end
                == nodes[p].byte_range.end,
{
    assert forall|p: int|
        0 <= p < nodes.len() && (#[trigger] nodes[p]).children@.len() > 0 implies nodes[nodes[p].children@.last().idx()].byte_range.end
        == nodes[p].byte_range.end by {
        let parents = parents_of(nodes);
        let ids = ids_with(parents, Some(p));
        lemma_ids_sorted(parents, Some(p));
        assert(id_ints(nodes[p].children@) == ids);
        let c = ids.last();
        assert(c == nodes[p].children@.last().idx());
        assert(parents[c] == Some(p));
        assert(parent_idx(nodes[c]) == tree_parent(hs, c));
        assert(p < c) by {
            lemma_tree_parent(hs, c);
        }
        assert forall|j: int| c < j < hs.len() implies tree_parent(hs, j) != Some(p) by {
            lemma_no_member_after(parents, Some(p), j);
            assert(parent_idx(nodes[j]) == tree_parent(hs, j));
        }
        lemma_close_parent(hs, p, c, c + 1, source_len);
        lemma_tree_parent(hs, c);
        assert forall|m: int| p + 1 <= m < c + 1 implies #[trigger] hs[m].level > hs[p].level by {
            if m < c {
                assert(hs[m].level >= hs[c].level);
            }
        }
        lemma_scan_skip(hs, p, p + 1, c + 1, source_len);
        assert(nodes[c].byte_range == section_range(hs, c, source_len));
        assert(nodes[p].byte_range == section_range(hs, p, source_len));
    }
}

/// The last root's section runs to the end of the source.
pub proof fn law_last_root_reaches_end(
    hs: Seq<HeadingEvent>,
    nodes: Seq<HeadingNode>,
    roots: Seq<NodeId>,
    source_len: u32,
)
    requires
        tree_of(hs, nodes, roots),
        sections_of(hs, nodes, source_len),
        roots.len() > 0,
    ensures
        nodes[roots.last().idx()].byte_range.end == source_len,
{
    let parents = parents_of(nodes);
    let ids = ids_with(parents, None);
    lemma_ids_sorted(parents, None);
    let r = ids.last();
    assert(r == roots.last().idx());
    assert(parents[r] is None);
    assert(parent_idx(nodes[r]) == tree_parent(hs, r));
    assert forall|j: int| r < j < hs.len() implies tree_parent(hs, j) is Some by {
        lemma_no_member_after(parents, None, j);
        assert(parent_idx(nodes[j]) == tree_parent(hs, j));
    }
    lemma_close_root(hs, r, r + 1, source_len);
    assert(nodes[r].byte_range == section_range(hs, r, source_len));
}

proof fn lemma_end_at_least(hs: Seq<HeadingEvent>, i: int, k: int, source_len: u32)
    requires
        headings_ordered(hs, source_len),
        0 <= i < k <= hs.len(),
    ensures
        hs[i].offset <= section_end_from(hs, i, k, source_len),
    decreases hs.len() - k,
{
    if k < hs.len() {
        assert(hs[i].offset <= hs[k].offset);
        lemma_end_at_least(hs, i, k + 1, source_len);
    }
}

/// With ordered heading offsets every section range is well formed, and the
/// body range lies inside the section range.
pub proof fn law_ranges_well_formed(hs: Seq<HeadingEvent>, source_len: u32)
    requires
        headings_ordered(hs, source_len),
    ensures
        forall|j: int|
            0 <= j < hs.len() ==> {
                &&& (#[trigger] section_range(hs, j, source_len)).start <= section_range(
                    hs,
                    j,
                    source_len,
                ).end
                &&& section_range(hs, j, source_len).end <= source_len
                &&& body_range_within(hs, j, source_len)
            },
{
    assert forall|j: int| 0 <= j < hs.len() implies {
        &&& (#[trigger] section_range(hs, j, source_len)).start <= section_range(hs, j, source_len).end
        &&& section_range(hs, j, source_len).end <= source_len
        &&& body_range_within(hs, j, source_len)
    } by {
        lemma_end_at_least(hs, j, j + 1, source_len);
        lemma_end_at_most(hs, j, j + 1, source_len);
    }
}

pub open spec fn body_range_within(hs: Seq<HeadingEvent>, j: int, source_len: u32) -> bool {
    let b = crate::builder::body_range(hs, j, source_len);
    b.start <= b.end && b.end == section_range(hs, j, source_len).end
}

proof fn lemma_end_at_most(hs: Seq<HeadingEvent>, i: int, k: int, source_len: u32)
    requires
        headings_ordered(hs, source_len),
        0 <= i < k <= hs.len(),
    ensures
        section_end_from(hs, i, k, source_len) <= source_len,
    decreases hs.len() - k,
{
    if k < hs.len() {
        lemma_end_at_most(hs, i, k + 1, source_len);
    }
}

proof fn lemma_roots_chain(
    hs: Seq<HeadingEvent>,
    nodes: Seq<HeadingNode>,
    roots: Seq<NodeId>,
    source_len: u32,
    a1: int,
    a2: int,
)
    requires
        tree_of(hs, nodes, roots),
        sections_of(hs, nodes, source_len),
        headings_ordered(hs, source_len),
        0 <= a1 < a2 < roots.len(),
    ensures
        nodes[roots[a1].idx()].byte_range.end <= nodes[roots[a2].idx()].byte_range.start,
    decreases a2 - a1,
{
    law_siblings_contiguous(hs, nodes, roots, source_len);
    law_ranges_well_formed(hs, source_len);
    lemma_root_index(hs, nodes, roots, a1);
    lemma_root_index(hs, nodes, roots, a1 + 1);
    assert(nodes[roots[a1].idx()].byte_range.end == nodes[roots[a1 + 1].idx()].byte_range.start);
    if a1 + 1 < a2 {
        lemma_roots_chain(hs, nodes, roots, source_len, a1 + 1, a2);
        let m = roots[a1 + 1].idx();
        assert(section_range(hs, m, source_len).start <= section_range(hs, m, source_len).end);
    }
}

proof fn lemma_root_index(hs: Seq<HeadingEvent>, nodes: Seq<HeadingNode>, roots: Seq<NodeId>, a: int)
    requires
        tree_of(hs, nodes, roots),
        0 <= a < roots.len(),
    ensures
        0 <= roots[a].idx() < nodes.len(),
{
    lemma_ids_sorted(parents_of(nodes), None);
    assert(id_ints(roots)[a] == roots[a].idx());
}

/// Byte `b` lies in the range of exactly one root.
pub open spec fn covered_once(nodes: Seq<HeadingNode>, roots: Seq<NodeId>, b: u32) -> bool {
    &&& exists|a: int|
        0 <= a < roots.len() && (#[trigger] nodes[roots[a].idx()]).byte_range.spec_contains(b)
    &&& forall|a1: int, a2: int|
        0 <= a1 < roots.len() && 0 <= a2 < roots.len() && (#[trigger] nodes[roots[a1].idx()]).byte_range.spec_contains(b)
            && (#[trigger] nodes[roots[a2].idx()]).byte_range.spec_contains(b) ==> a1 == a2
}

/// Every byte from the first root's start up to the end of the source lies
/// in exactly one root's range (given ordered heading offsets).
pub proof fn law_roots_cover_once(
    hs: Seq<HeadingEvent>,
    nodes: Seq<HeadingNode>,
    roots: Seq<NodeId>,
    source_len: u32,
)
    requires
        tree_of(hs, nodes, roots),
        sections_of(hs, nodes, source_len),
        headings_ordered(hs, source_len),
        roots.len() > 0,
    ensures
        forall|b: u32|
            nodes[roots[0].idx()].byte_range.start <= b < source_len ==> #[trigger] covered_once(
                nodes,
                roots,
                b,
            ),
{
    assert forall|b: u32| nodes[roots[0].idx()].byte_range.start <= b < source_len implies #[trigger] covered_once(
        nodes,
        roots,
        b,
    ) by {
        lemma_find_root(hs, nodes, roots, source_len, b, 0);
        assert forall|a1: int, a2: int|
            0 <= a1 < roots.len() && 0 <= a2 < roots.len() && nodes[roots[a1].idx()].byte_range.spec_contains(b)
                && nodes[roots[a2].idx()].byte_range.spec_contains(b) implies a1 == a2 by {
            if a1 < a2 {
                lemma_roots_chain(hs, nodes, roots, source_len, a1, a2);
            } else if a2 < a1 {
                lemma_roots_chain(hs, nodes, roots, source_len, a2, a1);
            }
        }
    }
}

proof fn lemma_find_root(
    hs: Seq<HeadingEvent>,
    nodes: Seq<HeadingNode>,
    roots: Seq<NodeId>,
    source_len: u32,
    b: u32,
    a: int,
)
    requires
        tree_of(hs, nodes, roots),
        sections_of(hs, nodes, source_len),
        headings_ordered(hs, source_len),
        0 <= a < roots.len(),
        nodes[roots[a].idx()].byte_range.start <= b < source_len,
    ensures
        exists|c: int| 0 <= c < roots.len() && (#[trigger] nodes[roots[c].idx()]).byte_range.spec_contains(b),
    decreases roots.len() - a,
{
    lemma_root_index(hs, nodes, roots, a);
    if b < nodes[roots[a].idx()].byte_range.end {
        assert(nodes[roots[a].idx()].byte_range.spec_contains(b));
    } else if a + 1 < roots.len() {
        law_siblings_contiguous(hs, nodes, roots, source_len);
        assert(nodes[roots[a].idx()].byte_range.end == nodes[roots[a + 1].idx()].byte_range.start);
        lemma_find_root(hs, nodes, roots, source_len, b, a + 1);
    } else {
        law_last_root_reaches_end(hs, nodes, roots, source_len);
        assert(roots.last() == roots[a]);
    }
}

/// A node's heading path is exactly as long as its depth in the tree.
pub proof fn law_depth_matches_path(hs: Seq<HeadingEvent>, nodes: Seq<HeadingNode>, roots: Seq<NodeId>)
    requires
        tree_of(hs, nodes, roots),
    ensures
        forall|j: int| 0 <= j < nodes.len() ==> (#[trigger] nodes[j]).path@.len() == node_depth(nodes, j),
{
    assert forall|j: int| 0 <= j < nodes.len() implies (#[trigger] nodes[j]).path@.len() == node_depth(
        nodes,
        j,
    ) by {
        lemma_depth(hs, nodes, roots, j);
    }
}

proof fn lemma_depth(hs: Seq<HeadingEvent>, nodes: Seq<HeadingNode>, roots: Seq<NodeId>, j: int)
    requires
        tree_of(hs, nodes, roots),
        0 <= j < nodes.len(),
    ensures
        nodes[j].path@.len() == node_depth(nodes, j),
    decreases j,
{
    assert(parent_idx(nodes[j]) == tree_parent(hs, j));
    assert(crate::builder::path_extends(nodes, j));
    lemma_tree_parent(hs, j);
    match parent_idx(nodes[j]) {
        Some(p) => {
            lemma_depth(hs, nodes, roots, p);
        },
        None => {},
    }
}

/// The laws of the heading tree hold of every document `build_document`
/// returns: each node is numbered by its position; consecutive siblings
/// (and consecutive roots) are contiguous; a parent's last child ends where
/// the parent ends; the last root reaches the end of the source; every byte
/// from the first root's start to the end lies in exactly one root; every
/// section range is well formed and inside the source; and a node's heading
/// path is as long as its depth.
pub proof fn law_built_document_tree(
    doc: crate::model::DocumentIndex,
    source: Seq<char>,
    rel_path: Seq<char>,
    src: Seq<char>,
    p: crate::parse::ParsedDoc,
)
    requires
        crate::document::built_from(doc, source, rel_path, src, p),
    ensures
        ({
            let nodes = doc.nodes@;
            let roots = doc.roots@;
            &&& forall|j: int| 0 <= j < nodes.len() ==> (#[trigger] nodes[j]).id.0 == j
            &&& forall|q: int, a: int|
                0 <= q < nodes.len() && 0 <= a < nodes[q].children@.len() - 1 ==> nodes[nodes[q].children@[a].idx()].byte_range.end
                    == #[trigger] nodes[nodes[q].children@[a + 1].idx()].byte_range.start
            &&& forall|a: int|
                0 <= a < roots.len() - 1 ==> nodes[roots[a].idx()].byte_range.end
                    == #[trigger] nodes[roots[a + 1].idx()].byte_range.start
            &&& forall|q: int|
                0 <= q < nodes.len() && (#[trigger] nodes[q]).children@.len() > 0 ==> nodes[nodes[q].children@.last().idx()].byte_range.end
                    == nodes[q].byte_range.end
            &&& roots.len() > 0 ==> nodes[roots.last().idx()].byte_range.end == doc.source_len
            &&& roots.len() > 0 ==> forall|b: u32|
                nodes[roots[0].idx()].byte_range.start <= b < doc.source_len ==> #[trigger] covered_once(
                    nodes,
                    roots,
                    b,
                )
            &&& forall|j: int|
                0 <= j < nodes.len() ==> (#[trigger] nodes[j]).byte_range.start <= nodes[j].byte_range.end
                    && nodes[j].byte_range.end <= doc.source_len
            &&& forall|j: int| 0 <= j < nodes.len() ==> (#[trigger] nodes[j]).path@.len() == node_depth(nodes, j)
        }),
{
    let hs = p.headings@;
    let nodes = doc.nodes@;
    let roots = doc.roots@;
    let n = doc.source_len;
    assert(sections_of(hs, nodes, n));
    law_siblings_contiguous(hs, nodes, roots, n);
    law_last_child_closes_parent(hs, nodes, roots, n);
    if roots.len() > 0 {
        law_last_root_reaches_end(hs, nodes, roots, n);
        law_roots_cover_once(hs, nodes, roots, n);
    }
    law_ranges_well_formed(hs, n);
    assert forall|j: int| 0 <= j < nodes.len() implies (#[trigger] nodes[j]).byte_range.start
        <= nodes[j].byte_range.end && nodes[j].byte_range.end <= n by {
        assert(nodes[j].byte_range == section_range(hs, j, n));
        assert(section_range(hs, j, n).start <= section_range(hs, j, n).end);
    }
    law_depth_matches_path(hs, nodes, roots);
}

} // verus!
