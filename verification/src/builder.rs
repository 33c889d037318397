//! Turning a parsed document into a heading tree.
//!
//! A single linear walk over the heading stream keeps a stack of open
//! ancestors: a new heading pops every ancestor that is not strictly
//! shallower, then links in as the child of the one left on top. Byte ranges
//! are closed afterwards: each section runs from its heading line to the next
//! heading at the same or a shallower level (or the end of the document).

use vstd::prelude::*;

use crate::access::AccessCounter;
use crate::model::HeadingNode;
use crate::parse::{HeadingEvent, LinkEvent};
use crate::types::{clone_strings, ByteRange, HeadingPath, Link, NodeId};

verus! {

// ---------------------------------------------------------------------------
// Tree shape, as a function of the heading levels
// ---------------------------------------------------------------------------

/// `p` is the parent of heading `i`: the nearest earlier heading that is
/// strictly shallower.
pub open spec fn is_parent_in(hs: Seq<HeadingEvent>, i: int, p: int) -> bool {
    &&& 0 <= p < i
    &&& hs[p].level < hs[i].level
    &&& forall|k: int| p < k < i ==> #[trigger] hs[k].level >= hs[i].level
}

/// Heading `i` has no strictly shallower heading before it: it is a root.
pub open spec fn is_root_in(hs: Seq<HeadingEvent>, i: int) -> bool {
    forall|k: int| 0 <= k < i ==> #[trigger] hs[k].level >= hs[i].level
}

/// The nearest index at or below `j` whose heading is strictly shallower
/// than heading `i`.
pub open spec fn nearest_shallower(hs: Seq<HeadingEvent>, i: int, j: int) -> Option<int>
    decreases j + 1,
{
    if j < 0 {
        None
    } else if hs[j].level < hs[i].level {
        Some(j)
    } else {
        nearest_shallower(hs, i, j - 1)
    }
}

/// The parent of heading `i` in the tree built from `hs` (`None` for roots).
pub open spec fn tree_parent(hs: Seq<HeadingEvent>, i: int) -> Option<int> {
    nearest_shallower(hs, i, i - 1)
}

proof fn lemma_nearest(hs: Seq<HeadingEvent>, i: int, j: int)
    requires
        0 <= i < hs.len(),
        -1 <= j < i,
    ensures
        match nearest_shallower(hs, i, j) {
            Some(p) => 0 <= p <= j && hs[p].level < hs[i].level && forall|k: int|
                p < k <= j ==> #[trigger] hs[k].level >= hs[i].level,
            None => forall|k: int| 0 <= k <= j ==> #[trigger] hs[k].level >= hs[i].level,
        },
    decreases j + 1,
{
    if j >= 0 && hs[j].level >= hs[i].level {
        lemma_nearest(hs, i, j - 1);
    }
}

/// The tree parent is characterised by `is_parent_in` / `is_root_in`.
pub proof fn lemma_tree_parent(hs: Seq<HeadingEvent>, i: int)
    requires
        0 <= i < hs.len(),
    ensures
        match tree_parent(hs, i) {
            Some(p) => is_parent_in(hs, i, p),
            None => is_root_in(hs, i),
        },
        forall|p: int| is_parent_in(hs, i, p) ==> tree_parent(hs, i) == Some(p),
        is_root_in(hs, i) ==> tree_parent(hs, i) is None,
{
    lemma_nearest(hs, i, i - 1);
    assert forall|p: int| is_parent_in(hs, i, p) implies tree_parent(hs, i) == Some(p) by {
        match tree_parent(hs, i) {
            Some(q) => {
                if q < p {
                    assert(hs[p].level >= hs[i].level);
                } else if p < q {
                    assert(hs[q].level >= hs[i].level);
                }
            },
            None => {
                assert(hs[p].level >= hs[i].level);
            },
        }
    }
    if is_root_in(hs, i) {
        match tree_parent(hs, i) {
            Some(q) => {
                assert(hs[q].level >= hs[i].level);
            },
            None => {},
        }
    }
}

/// The parent of a node, as an index.
pub open spec fn parent_idx(n: HeadingNode) -> Option<int> {
    match n.parent {
        Some(p) => Some(p.0 as int),
        None => None,
    }
}

pub open spec fn parents_of(nodes: Seq<HeadingNode>) -> Seq<Option<int>> {
    nodes.map_values(|n: HeadingNode| parent_idx(n))
}

/// The indices `j` (ascending) with `parents[j] == parent`.
pub open spec fn ids_with(parents: Seq<Option<int>>, parent: Option<int>) -> Seq<int>
    decreases parents.len(),
{
    if parents.len() == 0 {
        Seq::empty()
    } else if parents.last() == parent {
        ids_with(parents.drop_last(), parent).push(parents.len() - 1)
    } else {
        ids_with(parents.drop_last(), parent)
    }
}

pub open spec fn id_ints(ids: Seq<NodeId>) -> Seq<int> {
    ids.map_values(|x: NodeId| x.0 as int)
}

/// The heading path a node gets: its parent's path plus its own title.
pub open spec fn path_extends(nodes: Seq<HeadingNode>, j: int) -> bool {
    nodes[j].path@ == match parent_idx(nodes[j]) {
        Some(p) => nodes[p].path@.push(nodes[j].title@),
        None => seq![nodes[j].title@],
    }
}

/// The shape of `nodes` / `roots` is the tree of `hs`: one node per heading,
/// each linked under its tree parent, child and root lists complete and in
/// source order, and heading paths built root to leaf.
pub open spec fn tree_of(hs: Seq<HeadingEvent>, nodes: Seq<HeadingNode>, roots: Seq<NodeId>) -> bool {
    &&& nodes.len() == hs.len()
    &&& forall|j: int|
        0 <= j < nodes.len() ==> {
            &&& (#[trigger] nodes[j]).id.0 == j
            &&& nodes[j].level == hs[j].level
            &&& nodes[j].title@ == hs[j].text@
            &&& parent_idx(nodes[j]) == tree_parent(hs, j)
            &&& id_ints(nodes[j].children@) == ids_with(parents_of(nodes), Some(j))
            &&& path_extends(nodes, j)
        }
    &&& id_ints(roots) == ids_with(parents_of(nodes), None)
}

// ---------------------------------------------------------------------------
// Stack of open ancestors
// ---------------------------------------------------------------------------

spec fn stack_ok(hs: Seq<HeadingEvent>, st: Seq<(NodeId, u8)>, i: int) -> bool {
    &&& (i == 0) == (st.len() == 0)
    &&& i > 0 ==> st.last().0.idx() == i - 1
    &&& forall|a: int|
        0 <= a < st.len() ==> (#[trigger] st[a]).0.idx() < i && st[a].1 == hs[st[a].0.idx()].level
    &&& forall|a: int, b: int|
        0 <= a < b < st.len() ==> (#[trigger] st[a]).0.idx() < (#[trigger] st[b]).0.idx() && st[a].1
            < st[b].1
    &&& forall|a: int|
        0 <= a < st.len() ==> if a == 0 {
            is_root_in(hs, (#[trigger] st[a]).0.idx())
        } else {
            is_parent_in(hs, st[a].0.idx(), st[a - 1].0.idx())
        }
}

spec fn below(st: Seq<(NodeId, u8)>, b: int) -> int {
    if b == 0 {
        -1
    } else {
        st[b - 1].0.idx()
    }
}

/// Every heading after `below(st, b)` and before `i` is at least as deep as
/// `lvl` when every stacked heading from `b` on is.
proof fn lemma_tail_levels(hs: Seq<HeadingEvent>, st: Seq<(NodeId, u8)>, b: int, i: int, lvl: u8)
    requires
        0 < i <= hs.len(),
        stack_ok(hs, st, i),
        0 <= b <= st.len(),
        forall|c: int| b <= c < st.len() ==> (#[trigger] st[c]).1 >= lvl,
    ensures
        forall|k: int| below(st, b) < k < i ==> #[trigger] hs[k].level >= lvl,
    decreases st.len() - b,
{
    if b < st.len() {
        lemma_tail_levels(hs, st, b + 1, i, lvl);
        let s = st[b].0.idx();
        assert(st[b].1 >= lvl);
        if b == 0 {
            assert(is_root_in(hs, s));
        } else {
            assert(is_parent_in(hs, s, st[b - 1].0.idx()));
        }
        assert forall|k: int| below(st, b) < k < i implies #[trigger] hs[k].level >= lvl by {
            if k < s {
                assert(hs[k].level >= hs[s].level);
            } else if k > s {
                assert(below(st, b + 1) == s);
            }
        }
    }
}

/// `parent`'s path plus `title`.
fn build_path(nodes: &[HeadingNode], parent: Option<NodeId>, title: &str) -> (r: HeadingPath)
    requires
        parent is Some ==> parent->0.idx() < nodes@.len(),
    ensures
        r@ == match parent {
            Some(p) => nodes@[p.0 as int].path@.push(title@),
            None => seq![title@],
        },
{
    let mut segments: Vec<String> = match parent {
        Some(pid) => clone_strings(&nodes[pid.index()].path.0),
        None => Vec::new(),
    };
    segments.push(title.to_owned());
    let r = HeadingPath(segments);
    assert(r@ =~= match parent {
        Some(p) => nodes@[p.0 as int].path@.push(title@),
        None => seq![title@],
    });
    r
}

proof fn lemma_ids_push(parents: Seq<Option<int>>, x: Option<int>, parent: Option<int>)
    ensures
        ids_with(parents.push(x), parent) == if x == parent {
            ids_with(parents, parent).push(parents.len() as int)
        } else {
            ids_with(parents, parent)
        },
{
    assert(parents.push(x).drop_last() =~= parents);
}

proof fn lemma_ids_bound(parents: Seq<Option<int>>, parent: Option<int>)
    ensures
        forall|a: int|
            0 <= a < ids_with(parents, parent).len() ==> 0 <= #[trigger] ids_with(parents, parent)[a]
                < parents.len(),
    decreases parents.len(),
{
    if parents.len() > 0 {
        lemma_ids_bound(parents.drop_last(), parent);
        let prev = ids_with(parents.drop_last(), parent);
        if parents.last() == parent {
            assert(ids_with(parents, parent) == prev.push(parents.len() - 1));
        } else {
            assert(ids_with(parents, parent) == prev);
        }
    }
}

proof fn lemma_ids_absent(parents: Seq<Option<int>>, parent: Option<int>)
    requires
        forall|j: int| 0 <= j < parents.len() ==> parents[j] != parent,
    ensures
        ids_with(parents, parent) == Seq::<int>::empty(),
    decreases parents.len(),
{
    if parents.len() > 0 {
        lemma_ids_absent(parents.drop_last(), parent);
    }
}

/// The per-node facts `build_tree` establishes, apart from the child list.
spec fn built_node(hs: Seq<HeadingEvent>, nodes: Seq<HeadingNode>, j: int) -> bool {
    &&& nodes[j].id.0 == j
    &&& nodes[j].level == hs[j].level
    &&& nodes[j].title@ == hs[j].text@
    &&& parent_idx(nodes[j]) == tree_parent(hs, j)
    &&& path_extends(nodes, j)
    &&& nodes[j].byte_range == (ByteRange { start: hs[j].offset, end: hs[j].offset })
    &&& nodes[j].content_range == (ByteRange { start: hs[j].body_start, end: hs[j].body_start })
    &&& nodes[j].summary@ == Seq::<char>::empty()
    &&& nodes[j].outbound_links@.len() == 0
    &&& nodes[j].kind is None
}

spec fn children_listed(nodes: Seq<HeadingNode>, j: int) -> bool {
    id_ints(nodes[j].children@) == ids_with(parents_of(nodes), Some(j))
}

spec fn parents_before(nodes: Seq<HeadingNode>) -> bool {
    forall|j: int|
        0 <= j < nodes.len() ==> match #[trigger] parent_idx(nodes[j]) {
            Some(p) => 0 <= p < j,
            None => true,
        }
}

/// Appending a node keeps every earlier node built, and extends exactly the
/// child list of its parent (or the root list) by its index.
#[verifier::spinoff_prover]
proof fn lemma_append_node(
    hs: Seq<HeadingEvent>,
    before: Seq<HeadingNode>,
    node: HeadingNode,
    roots: Seq<NodeId>,
)
    requires
        before.len() < hs.len(),
        forall|j: int|
            0 <= j < before.len() ==> #[trigger] built_node(hs, before, j) && children_listed(
                before,
                j,
            ),
        parents_before(before),
        id_ints(roots) == ids_with(parents_of(before), None),
        built_node(hs, before.push(node), before.len() as int),
        node.children@.len() == 0,
        match parent_idx(node) {
            Some(p) => 0 <= p < before.len(),
            None => true,
        },
    ensures
        ({
            let after = before.push(node);
            let n = before.len() as int;
            &&& forall|j: int| 0 <= j <= n ==> #[trigger] built_node(hs, after, j)
            &&& parents_before(after)
            &&& children_listed(after, n)
            &&& forall|j: int|
                0 <= j < n && parent_idx(node) != Some(j) ==> #[trigger] children_listed(after, j)
            &&& match parent_idx(node) {
                Some(p) => ids_with(parents_of(after), Some(p)) == id_ints(
                    before[p].children@,
                ).push(n),
                None => id_ints(roots).push(n) == ids_with(parents_of(after), None),
            }
            &&& match parent_idx(node) {
                Some(p) => id_ints(roots) == ids_with(parents_of(after), None),
                None => true,
            }
        }),
{
    let after = before.push(node);
    let n = before.len() as int;
    assert(parents_of(after) =~= parents_of(before).push(parent_idx(node)));
    assert forall|j: int| 0 <= j <= n implies #[trigger] built_node(hs, after, j) by {
        if j < n {
            assert(built_node(hs, before, j));
            assert(after[j] == before[j]);
            match parent_idx(before[j]) {
                Some(p) => {
                    assert(parents_before(before) ==> 0 <= p < j) by {
                        assert(parent_idx(before[j]) == Some(p));
                    }
                    assert(after[p] == before[p]);
                },
                None => {},
            }
        }
    }
    assert forall|j: int| 0 <= j < after.len() implies match #[trigger] parent_idx(after[j]) {
        Some(p) => 0 <= p < j,
        None => true,
    } by {
        if j < n {
            assert(after[j] == before[j]);
            assert(match parent_idx(before[j]) {
                Some(p) => 0 <= p < j,
                None => true,
            });
        }
    }
    assert forall|j: int|
        0 <= j < n && parent_idx(node) != Some(j) implies #[trigger] children_listed(after, j) by {
        assert(built_node(hs, before, j) && children_listed(before, j));
        lemma_ids_push(parents_of(before), parent_idx(node), Some(j));
        assert(after[j] == before[j]);
    }
    assert forall|j: int| 0 <= j < after.len() implies parents_of(after)[j] != Some(n) by {
        assert(parents_of(after)[j] == parent_idx(after[j]));
        assert(match parent_idx(after[j]) {
            Some(p) => 0 <= p < j,
            None => true,
        });
    }
    lemma_ids_absent(parents_of(after), Some(n));
    assert(id_ints(after[n].children@) =~= Seq::<int>::empty());
    lemma_ids_push(parents_of(before), parent_idx(node), None);
    match parent_idx(node) {
        Some(p) => {
            assert(built_node(hs, before, p));
            assert(children_listed(before, p));
            lemma_ids_push(parents_of(before), parent_idx(node), Some(p));
        },
        None => {},
    }
}

/// Pushing `id` onto the child list of node `p` completes that list and
/// leaves every other node's facts alone.
proof fn lemma_link_child(
    hs: Seq<HeadingEvent>,
    mid: Seq<HeadingNode>,
    after: Seq<HeadingNode>,
    p: int,
    n: int,
)
    requires
        0 <= p < n,
        n + 1 == mid.len(),
        mid.len() == after.len(),
        forall|j: int| 0 <= j <= n ==> #[trigger] built_node(hs, mid, j),
        parents_before(mid),
        forall|j: int| 0 <= j <= n && j != p ==> #[trigger] children_listed(mid, j),
        ids_with(parents_of(mid), Some(p)) == id_ints(mid[p].children@).push(n),
        forall|j: int| 0 <= j <= n && j != p ==> after[j] == mid[j],
        after[p].children@ == mid[p].children@.push(NodeId(n as u32)),
        after[p].id == mid[p].id,
        after[p].level == mid[p].level,
        after[p].title == mid[p].title,
        after[p].path == mid[p].path,
        after[p].parent == mid[p].parent,
        after[p].byte_range == mid[p].byte_range,
        after[p].content_range == mid[p].content_range,
        after[p].summary == mid[p].summary,
        after[p].outbound_links == mid[p].outbound_links,
        after[p].kind == mid[p].kind,
        n <= u32::MAX,
    ensures
        forall|j: int| 0 <= j <= n ==> #[trigger] built_node(hs, after, j) && children_listed(after, j),
        parents_before(after),
        parents_of(after) == parents_of(mid),
{
    assert(parents_of(after) =~= parents_of(mid));
    assert(id_ints(after[p].children@) =~= id_ints(mid[p].children@).push(n));
    assert forall|j: int| 0 <= j <= n implies #[trigger] built_node(hs, after, j) && children_listed(
        after,
        j,
    ) by {
        assert(built_node(hs, mid, j));
        if j != p {
            assert(children_listed(mid, j));
        }
        match parent_idx(mid[j]) {
            Some(q) => {
                assert(parents_before(mid) ==> 0 <= q < j) by {
                    assert(parent_idx(mid[j]) == Some(q));
                }
            },
            None => {},
        }
    }
    assert forall|j: int| 0 <= j < after.len() implies match #[trigger] parent_idx(after[j]) {
        Some(q) => 0 <= q < j,
        None => true,
    } by {
        assert(parent_idx(after[j]) == parent_idx(mid[j]));
        assert(match parent_idx(mid[j]) {
            Some(q) => 0 <= q < j,
            None => true,
        });
    }
}

/// Links every heading under its parent: one node per heading, with parent,
/// children, roots and heading paths filled in; ranges are left empty at
/// the heading's offsets and the remaining fields blank.
#[verifier::rlimit(80)]
#[verifier::spinoff_prover]
pub(crate) fn build_tree(headings: &Vec<HeadingEvent>) -> (r: (Vec<HeadingNode>, Vec<NodeId>))
    requires
        headings@.len() <= u32::MAX,
    ensures
        tree_of(headings@, r.0@, r.1@),
        forall|j: int|
            0 <= j < r.0@.len() ==> {
                &&& (#[trigger] r.0@[j]).byte_range == (ByteRange {
                    start: headings@[j].offset,
                    end: headings@[j].offset,
                })
                &&& r.0@[j].content_range == (ByteRange {
                    start: headings@[j].body_start,
                    end: headings@[j].body_start,
                })
                &&& r.0@[j].summary@ == Seq::<char>::empty()
                &&& r.0@[j].outbound_links@.len() == 0
                &&& r.0@[j].kind is None
            },
{
    let ghost hs = headings@;
    let mut nodes: Vec<HeadingNode> = Vec::new();
    let mut roots: Vec<NodeId> = Vec::new();
    let mut stack: Vec<(NodeId, u8)> = Vec::new();
    let mut idx: usize = 0;
    while idx < headings.len()
        invariant
            hs == headings@,
            hs.len() <= u32::MAX,
            idx <= hs.len(),
            nodes@.len() == idx,
            stack_ok(hs, stack@, idx as int),
            forall|j: int|
                0 <= j < idx ==> #[trigger] built_node(hs, nodes@, j) && children_listed(
                    nodes@,
                    j,
                ),
            parents_before(nodes@),
            id_ints(roots@) == ids_with(parents_of(nodes@), None),
        decreases hs.len() - idx,
    {
        let h = &headings[idx];
        let id = NodeId(idx as u32);
        let ghost st0 = stack@;

        // Pop ancestors that are not strictly shallower than this heading.
        while stack.len() > 0 && stack[stack.len() - 1].1 >= h.level
            invariant
                stack@.len() <= st0.len(),
                stack@ == st0.subrange(0, stack@.len() as int),
                forall|c: int| stack@.len() <= c < st0.len() ==> (#[trigger] st0[c]).1 >= h.level,
            decreases stack@.len(),
        {
            stack.pop();
        }
        proof {
            if idx > 0 {
                lemma_tail_levels(hs, st0, stack@.len() as int, idx as int, h.level);
            }
            lemma_tree_parent(hs, idx as int);
            if stack@.len() > 0 {
                let p = stack@.last().0.idx();
                assert(stack@.last() == st0[stack@.len() - 1]);
                assert(is_parent_in(hs, idx as int, p));
            } else {
                assert(is_root_in(hs, idx as int));
            }
        }
        let parent: Option<NodeId> = if stack.len() > 0 {
            Some(stack[stack.len() - 1].0)
        } else {
            None
        };
        let path = build_path(nodes.as_slice(), parent, h.text.as_str());
        let node = HeadingNode {
            id,
            level: h.level,
            title: h.text.clone(),
            path,
            byte_range: ByteRange::empty(h.offset),
            content_range: ByteRange::empty(h.body_start),
            summary: String::new(),
            outbound_links: Vec::new(),
            children: Vec::new(),
            parent,
            kind: None,
            access_count: AccessCounter::new(),
        };
        let ghost before = nodes@;
        let ghost roots0 = roots@;
        nodes.push(node);
        proof {
            assert(built_node(hs, nodes@, idx as int));
            lemma_append_node(hs, before, node, roots0);
        }
        let ghost mid = nodes@;
        match parent {
            Some(pid) => {
                nodes[pid.index()].children.push(id);
                proof {
                    lemma_link_child(hs, mid, nodes@, pid.idx(), idx as int);
                }
            },
            None => {
                roots.push(id);
                proof {
                    assert(id_ints(roots@) =~= id_ints(roots0).push(idx as int));
                }
            },
        }
        let ghost st1 = stack@;
        stack.push((id, h.level));
        proof {
            assert(stack@ == st1.push((id, h.level)));
        }
        idx = idx + 1;
    }
    proof {
        assert forall|j: int| 0 <= j < nodes@.len() implies {
            &&& (#[trigger] nodes@[j]).id.0 == j
            &&& nodes@[j].level == hs[j].level
            &&& nodes@[j].title@ == hs[j].text@
            &&& parent_idx(nodes@[j]) == tree_parent(hs, j)
            &&& id_ints(nodes@[j].children@) == ids_with(parents_of(nodes@), Some(j))
            &&& path_extends(nodes@, j)
            &&& nodes@[j].byte_range == (ByteRange { start: hs[j].offset, end: hs[j].offset })
            &&& nodes@[j].content_range == (ByteRange {
                start: hs[j].body_start,
                end: hs[j].body_start,
            })
            &&& nodes@[j].summary@ == Seq::<char>::empty()
            &&& nodes@[j].outbound_links@.len() == 0
            &&& nodes@[j].kind is None
        } by {
            assert(built_node(hs, nodes@, j) && children_listed(nodes@, j));
        }
    }
    (nodes, roots)
}


// ---------------------------------------------------------------------------
// Section ranges
// ---------------------------------------------------------------------------

/// Where section `i` ends, scanning from heading `k`: the offset of the first
/// heading at the same or a shallower level, else the end of the source.
pub open spec fn section_end_from(hs: Seq<HeadingEvent>, i: int, k: int, source_len: u32) -> u32
    decreases hs.len() - k,
{
    if k >= hs.len() || k < 0 {
        source_len
    } else if hs[k].level <= hs[i].level {
        hs[k].offset
    } else {
        section_end_from(hs, i, k + 1, source_len)
    }
}

pub open spec fn section_end(hs: Seq<HeadingEvent>, i: int, source_len: u32) -> u32 {
    section_end_from(hs, i, i + 1, source_len)
}

/// The byte range of section `i`: heading line through the section end.
pub open spec fn section_range(hs: Seq<HeadingEvent>, i: int, source_len: u32) -> ByteRange {
    ByteRange { start: hs[i].offset, end: section_end(hs, i, source_len) }
}

/// The body range of section `i`: after the heading line through the end.
pub open spec fn body_range(hs: Seq<HeadingEvent>, i: int, source_len: u32) -> ByteRange {
    let end = section_end(hs, i, source_len);
    ByteRange {
        start: if hs[i].body_start <= end {
            hs[i].body_start
        } else {
            end
        },
        end,
    }
}

/// Two node arenas agree on everything but ranges, summaries, links and kind.
pub open spec fn same_shape(a: Seq<HeadingNode>, b: Seq<HeadingNode>) -> bool {
    &&& a.len() == b.len()
    &&& forall|j: int|
        0 <= j < a.len() ==> {
            &&& (#[trigger] a[j]).id == b[j].id
            &&& a[j].level == b[j].level
            &&& a[j].title@ == b[j].title@
            &&& a[j].path@ == b[j].path@
            &&& a[j].parent == b[j].parent
            &&& a[j].children@ == b[j].children@
        }
}

pub proof fn lemma_same_shape_tree(
    hs: Seq<HeadingEvent>,
    a: Seq<HeadingNode>,
    b: Seq<HeadingNode>,
    roots: Seq<NodeId>,
)
    requires
        tree_of(hs, a, roots),
        same_shape(a, b),
    ensures
        tree_of(hs, b, roots),
{
    assert(parents_of(a) =~= parents_of(b));
    assert forall|j: int| 0 <= j < b.len() implies path_extends(b, j) by {
        assert(path_extends(a, j));
        assert(a[j] == a[j]);
        match parent_idx(a[j]) {
            Some(p) => {
                assert(0 <= p < j) by {
                    lemma_tree_parent(hs, j);
                }
                assert(a[p] == a[p]);
            },
            None => {},
        }
    }
    assert forall|j: int| 0 <= j < b.len() implies {
        &&& (#[trigger] b[j]).id.0 == j
        &&& b[j].level == hs[j].level
        &&& b[j].title@ == hs[j].text@
        &&& parent_idx(b[j]) == tree_parent(hs, j)
        &&& id_ints(b[j].children@) == ids_with(parents_of(b), Some(j))
        &&& path_extends(b, j)
    } by {
        let x = a[j];
        assert(x.id.0 == j && x.level == hs[j].level && x.title@ == hs[j].text@);
        assert(parent_idx(x) == tree_parent(hs, j));
        assert(id_ints(x.children@) == ids_with(parents_of(a), Some(j)));
        assert(path_extends(b, j));
    }
}

pub open spec fn ranges_of(nodes: Seq<HeadingNode>) -> Seq<ByteRange> {
    nodes.map_values(|n: HeadingNode| n.byte_range)
}

/// Closes each node's `byte_range` at the next heading of equal or
/// shallower level (or end of document), and its `content_range` likewise.
pub(crate) fn finalise_ranges(nodes: &mut Vec<HeadingNode>, headings: &Vec<HeadingEvent>, source_len: u32)
    requires
        old(nodes)@.len() == headings@.len(),
        forall|j: int|
            0 <= j < old(nodes)@.len() ==> (#[trigger] old(nodes)@[j]).level == headings@[j].level
                && old(nodes)@[j].byte_range.start == headings@[j].offset
                && old(nodes)@[j].content_range.start == headings@[j].body_start,
    ensures
        same_shape(old(nodes)@, final(nodes)@),
        forall|j: int|
            0 <= j < final(nodes)@.len() ==> {
                &&& (#[trigger] final(nodes)@[j]).byte_range == section_range(
                    headings@,
                    j,
                    source_len,
                )
                &&& final(nodes)@[j].content_range == body_range(headings@, j, source_len)
                &&& final(nodes)@[j].summary == old(nodes)@[j].summary
                &&& final(nodes)@[j].outbound_links == old(nodes)@[j].outbound_links
                &&& final(nodes)@[j].kind == old(nodes)@[j].kind
            },
{
    let ghost hs = headings@;
    let ghost orig = nodes@;
    let n = nodes.len();
    for i in 0..n
        invariant
            n == nodes@.len(),
            n == hs.len(),
            hs == headings@,
            same_shape(orig, nodes@),
            forall|j: int|
                0 <= j < n ==> (#[trigger] nodes@[j]).summary == orig[j].summary
                    && nodes@[j].outbound_links == orig[j].outbound_links && nodes@[j].kind
                    == orig[j].kind,
            forall|j: int|
                0 <= j < i ==> (#[trigger] nodes@[j]).byte_range == section_range(hs, j, source_len)
                    && nodes@[j].content_range == body_range(hs, j, source_len),
            forall|j: int|
                i <= j < n ==> (#[trigger] nodes@[j]).byte_range.start == hs[j].offset
                    && nodes@[j].content_range.start == hs[j].body_start,
            forall|j: int| 0 <= j < n ==> (#[trigger] orig[j]).level == hs[j].level,
    {
        let my_level = nodes[i].level;
        let mut end = source_len;
        let mut k = i + 1;
        while k < headings.len()
            invariant_except_break
                i < k <= hs.len(),
                hs == headings@,
                n == hs.len(),
                my_level == hs[i as int].level,
                section_end(hs, i as int, source_len) == section_end_from(hs, i as int, k as int, source_len),
                end == source_len,
            ensures
                end == section_end(hs, i as int, source_len),
            decreases hs.len() - k,
        {
            if headings[k].level <= my_level {
                end = headings[k].offset;
                break;
            }
            k = k + 1;
        }
        let start = nodes[i].byte_range.start;
        nodes[i].byte_range = ByteRange::new(start, end);
        let body_start = if nodes[i].content_range.start <= end {
            nodes[i].content_range.start
        } else {
            end
        };
        nodes[i].content_range = ByteRange::new(body_start, end);
    }
}

/// The last node scanned from `i` on whose range contains `offset`; the scan
/// stops at the first node that starts after `offset`.
pub open spec fn containing_from(ranges: Seq<ByteRange>, offset: u32, i: int, best: Option<int>) -> Option<int>
    decreases ranges.len() - i,
{
    if i >= ranges.len() || i < 0 {
        best
    } else if ranges[i].spec_contains(offset) {
        containing_from(ranges, offset, i + 1, Some(i))
    } else if offset < ranges[i].start {
        best
    } else {
        containing_from(ranges, offset, i + 1, best)
    }
}

/// The node a byte offset belongs to: the deepest section containing it.
pub open spec fn node_at(ranges: Seq<ByteRange>, offset: u32) -> Option<int> {
    containing_from(ranges, offset, 0, None)
}

proof fn lemma_containing_bound(ranges: Seq<ByteRange>, offset: u32, i: int, best: Option<int>)
    requires
        0 <= i,
        match best {
            Some(b) => 0 <= b < ranges.len(),
            None => true,
        },
    ensures
        match containing_from(ranges, offset, i, best) {
            Some(b) => 0 <= b < ranges.len(),
            None => true,
        },
    decreases ranges.len() - i,
{
    if i < ranges.len() {
        if ranges[i].spec_contains(offset) {
            lemma_containing_bound(ranges, offset, i + 1, Some(i));
        } else if offset >= ranges[i].start {
            lemma_containing_bound(ranges, offset, i + 1, best);
        }
    }
}

/// Index of the deepest node whose `byte_range` contains `offset`.
pub(crate) fn node_containing(nodes: &[HeadingNode], offset: u32) -> (r: Option<usize>)
    ensures
        match r {
            Some(b) => node_at(ranges_of(nodes@), offset) == Some(b as int) && b < nodes@.len(),
            None => node_at(ranges_of(nodes@), offset) is None,
        },
{
    let ghost rs = ranges_of(nodes@);
    let mut best: Option<usize> = None;
    let mut i: usize = 0;
    let mut stop = false;
    while i < nodes.len() && !stop
        invariant
            i <= nodes@.len(),
            stop ==> i < nodes@.len() && !rs[i as int].spec_contains(offset) && offset < rs[i as int].start,
            rs == ranges_of(nodes@),
            match best {
                Some(b) => b < i,
                None => true,
            },
            node_at(rs, offset) == containing_from(
                rs,
                offset,
                i as int,
                match best {
                    Some(b) => Some(b as int),
                    None => None,
                },
            ),
        decreases nodes@.len() - i + (if stop { 0int } else { 1int }),
    {
        let n = &nodes[i];
        if n.byte_range.contains(offset) {
            best = Some(i);
            i = i + 1;
        } else if offset < n.byte_range.start {
            stop = true;
        } else {
            i = i + 1;
        }
    }
    proof {
        lemma_containing_bound(rs, offset, i as int, match best {
            Some(b) => Some(b as int),
            None => None,
        });
    }
    best
}

pub open spec fn opt_view(o: Option<String>) -> Option<Seq<char>> {
    match o {
        Some(s) => Some(s@),
        None => None,
    }
}

/// `l` carries exactly what link event `e` found.
pub open spec fn link_from_event(l: Link, e: LinkEvent) -> bool {
    &&& l.target@ == e.target@
    &&& opt_view(l.text) == opt_view(e.text)
    &&& l.kind == e.kind
    &&& l.offset == e.offset
}

/// Indices (in order) of the links that belong to node `j`.
pub open spec fn links_for(ranges: Seq<ByteRange>, links: Seq<LinkEvent>, j: int) -> Seq<int>
    decreases links.len(),
{
    if links.len() == 0 {
        Seq::empty()
    } else if node_at(ranges, links.last().offset) == Some(j) {
        links_for(ranges, links.drop_last(), j).push(links.len() - 1)
    } else {
        links_for(ranges, links.drop_last(), j)
    }
}

/// Node `j`'s outbound links are exactly the link events that belong to it.
pub open spec fn links_attached(ls: Seq<Link>, ranges: Seq<ByteRange>, links: Seq<LinkEvent>, j: int) -> bool {
    let ids = links_for(ranges, links, j);
    &&& ls.len() == ids.len()
    &&& forall|a: int| 0 <= a < ids.len() ==> link_from_event(#[trigger] ls[a], links[ids[a]])
}

pub fn clone_opt_string(o: &Option<String>) -> (r: Option<String>)
    ensures
        opt_view(r) == opt_view(*o),
{
    match o {
        Some(s) => Some(s.clone()),
        None => None,
    }
}

proof fn lemma_links_for_take(ranges: Seq<ByteRange>, links: Seq<LinkEvent>, li: int, j: int)
    requires
        0 <= li < links.len(),
    ensures
        links_for(ranges, links.take(li + 1), j) == if node_at(ranges, links[li].offset) == Some(j) {
            links_for(ranges, links.take(li), j).push(li)
        } else {
            links_for(ranges, links.take(li), j)
        },
{
    assert(links.take(li + 1).drop_last() =~= links.take(li));
}

proof fn lemma_links_for_bound(ranges: Seq<ByteRange>, links: Seq<LinkEvent>, j: int)
    ensures
        forall|a: int|
            0 <= a < links_for(ranges, links, j).len() ==> 0 <= #[trigger] links_for(
                ranges,
                links,
                j,
            )[a] < links.len(),
    decreases links.len(),
{
    if links.len() > 0 {
        lemma_links_for_bound(ranges, links.drop_last(), j);
        let prev = links_for(ranges, links.drop_last(), j);
        if node_at(ranges, links.last().offset) == Some(j) {
            assert(links_for(ranges, links, j) == prev.push(links.len() - 1));
        } else {
            assert(links_for(ranges, links, j) == prev);
        }
    }
}

/// Attaches each link to the deepest node whose `byte_range` contains it.
pub(crate) fn attach_links(nodes: &mut Vec<HeadingNode>, links: &Vec<LinkEvent>)
    requires
        forall|j: int| 0 <= j < old(nodes)@.len() ==> (#[trigger] old(nodes)@[j]).outbound_links@.len() == 0,
    ensures
        same_shape(old(nodes)@, final(nodes)@),
        ranges_of(final(nodes)@) == ranges_of(old(nodes)@),
        forall|j: int|
            0 <= j < final(nodes)@.len() ==> {
                &&& links_attached(
                    (#[trigger] final(nodes)@[j]).outbound_links@,
                    ranges_of(old(nodes)@),
                    links@,
                    j,
                )
                &&& final(nodes)@[j].content_range == old(nodes)@[j].content_range
                &&& final(nodes)@[j].summary == old(nodes)@[j].summary
                &&& final(nodes)@[j].kind == old(nodes)@[j].kind
            },
{
    let ghost orig = nodes@;
    let ghost rs = ranges_of(nodes@);
    if nodes.len() == 0 {
        assert(ranges_of(nodes@) =~= ranges_of(orig));
        return;
    }
    let mut li: usize = 0;
    while li < links.len()
        invariant
            li <= links@.len(),
            same_shape(orig, nodes@),
            ranges_of(nodes@) == rs,
            rs == ranges_of(orig),
            forall|j: int|
                0 <= j < nodes@.len() ==> {
                    &&& links_attached(
                        (#[trigger] nodes@[j]).outbound_links@,
                        rs,
                        links@.take(li as int),
                        j,
                    )
                    &&& nodes@[j].content_range == orig[j].content_range
                    &&& nodes@[j].summary == orig[j].summary
                    &&& nodes@[j].kind == orig[j].kind
                },
        decreases links@.len() - li,
    {
        let l = &links[li];
        let found = node_containing(nodes.as_slice(), l.offset);
        let ghost before = nodes@;
        match found {
            Some(idx) => {
                let link = Link {
                    target: l.target.clone(),
                    text: clone_opt_string(&l.text),
                    kind: l.kind,
                    offset: l.offset,
                };
                nodes[idx].outbound_links.push(link);
                proof {
                    assert(ranges_of(nodes@) =~= ranges_of(before));
                }
            },
            None => {},
        }
        proof {
            assert forall|j: int| 0 <= j < nodes@.len() implies {
                &&& links_attached(
                    (#[trigger] nodes@[j]).outbound_links@,
                    rs,
                    links@.take(li + 1),
                    j,
                )
                &&& nodes@[j].content_range == orig[j].content_range
                &&& nodes@[j].summary == orig[j].summary
                &&& nodes@[j].kind == orig[j].kind
            } by {
                lemma_links_for_take(rs, links@, li as int, j);
                lemma_links_for_bound(rs, links@.take(li as int), j);
                assert(links@.take(li + 1)[li as int] == links@[li as int]);
                let ids0 = links_for(rs, links@.take(li as int), j);
                assert forall|a: int| 0 <= a < ids0.len() implies links@.take(li + 1)[ids0[a]]
                    == links@.take(li as int)[ids0[a]] by {}
                assert(links_attached(before[j].outbound_links@, rs, links@.take(li as int), j));
            }
        }
        li = li + 1;
    }
    assert(links@.take(links@.len() as int) =~= links@);
}


} // verus!
