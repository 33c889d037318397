//! Walking a built document visits its headings in source order, each at
//! its depth in the heading tree.

use vstd::prelude::*;

use crate::builder::{id_ints, ids_with, is_parent_in, is_root_in, lemma_tree_parent, parent_idx, parents_of, tree_of, tree_parent};
use crate::document::built_from;
use crate::model::{DocumentIndex, HeadingNode};
use crate::parse::{HeadingEvent, ParsedDoc};
use crate::query::{forest, from_roots, subtree, walk};
use crate::tree_laws::{lemma_first_shallow, lemma_ids_sorted, lemma_next_at_level, lemma_no_member_after, node_depth};

verus! {

/// The first heading at or after `k` that is no deeper than heading `i`
/// (the number of headings when there is none).
pub open spec fn scan_end(hs: Seq<HeadingEvent>, i: int, k: int) -> int
    decreases hs.len() - k,
{
    if k < 0 || k >= hs.len() {
        hs.len() as int
    } else if hs[k].level <= hs[i].level {
        k
    } else {
        scan_end(hs, i, k + 1)
    }
}

/// Where the block of heading `i` (itself and its descendants) ends.
pub open spec fn end_of(hs: Seq<HeadingEvent>, i: int) -> int {
    scan_end(hs, i, i + 1)
}

/// The nodes `lo .. hi`, each with its depth less `shift`.
pub open spec fn block(nodes: Seq<HeadingNode>, lo: int, hi: int, shift: int) -> Seq<(int, nat)> {
    Seq::new((hi - lo) as nat, |t: int| (lo + t, (node_depth(nodes, lo + t) - shift) as nat))
}

proof fn lemma_scan_end(hs: Seq<HeadingEvent>, i: int, k: int)
    requires
        0 <= i < k <= hs.len(),
    ensures
        k <= scan_end(hs, i, k) <= hs.len(),
        forall|m: int| k <= m < scan_end(hs, i, k) ==> #[trigger] hs[m].level > hs[i].level,
        scan_end(hs, i, k) < hs.len() ==> hs[scan_end(hs, i, k)].level <= hs[i].level,
    decreases hs.len() - k,
{
    if k < hs.len() && hs[k].level > hs[i].level {
        lemma_scan_end(hs, i, k + 1);
    }
}

proof fn lemma_end_is(hs: Seq<HeadingEvent>, i: int, t: int)
    requires
        0 <= i < t <= hs.len(),
        forall|m: int| i < m < t ==> #[trigger] hs[m].level > hs[i].level,
        t < hs.len() ==> hs[t].level <= hs[i].level,
    ensures
        end_of(hs, i) == t,
{
    lemma_scan_end(hs, i, i + 1);
    let e = end_of(hs, i);
    if e < t {
        assert(hs[e].level > hs[i].level);
    } else if t < e {
        assert(hs[t].level > hs[i].level);
    }
}

proof fn lemma_block_concat(nodes: Seq<HeadingNode>, a: int, b: int, c: int, s: int)
    requires
        a <= b <= c,
    ensures
        block(nodes, a, b, s) + block(nodes, b, c, s) == block(nodes, a, c, s),
{
    assert(block(nodes, a, b, s) + block(nodes, b, c, s) =~= block(nodes, a, c, s));
}

/// Node `j` is a child of node `i` exactly when heading `i` is its tree
/// parent.
proof fn lemma_kids(hs: Seq<HeadingEvent>, nodes: Seq<HeadingNode>, roots: Seq<crate::types::NodeId>, i: int)
    requires
        tree_of(hs, nodes, roots),
        0 <= i < nodes.len(),
    ensures
        id_ints(nodes[i].children@) == ids_with(parents_of(nodes), Some(i)),
        forall|j: int| 0 <= j < nodes.len() ==> #[trigger] parents_of(nodes)[j] == tree_parent(hs, j),
{
    assert forall|j: int| 0 <= j < nodes.len() implies #[trigger] parents_of(nodes)[j] == tree_parent(hs, j) by {
        assert(parent_idx(nodes[j]) == tree_parent(hs, j));
    }
}

/// The first child of a node directly follows it; a node without children
/// ends right after itself.
proof fn lemma_first_child(hs: Seq<HeadingEvent>, nodes: Seq<HeadingNode>, roots: Seq<crate::types::NodeId>, i: int)
    requires
        tree_of(hs, nodes, roots),
        0 <= i < nodes.len(),
    ensures
        ({
            let cs = ids_with(parents_of(nodes), Some(i));
            &&& cs.len() > 0 ==> cs[0] == i + 1 && i + 1 < end_of(hs, i)
            &&& cs.len() == 0 ==> end_of(hs, i) == i + 1
        }),
{
    let ps = parents_of(nodes);
    let cs = ids_with(ps, Some(i));
    lemma_kids(hs, nodes, roots, i);
    lemma_ids_sorted(ps, Some(i));
    if i + 1 < nodes.len() && hs[i + 1].level > hs[i].level {
        assert(is_parent_in(hs, i + 1, i));
        lemma_tree_parent(hs, i + 1);
        assert(ps[i + 1] == Some(i));
        let a = choose|a: int| 0 <= a < cs.len() && #[trigger] cs[a] == i + 1;
        if a > 0 {
            assert(cs[0] < cs[a]);
            assert(ps[cs[0]] == Some(i));
            lemma_tree_parent(hs, cs[0]);
        }
        lemma_scan_end(hs, i, i + 1);
    } else {
        if cs.len() > 0 {
            let c = cs[0];
            assert(ps[c] == Some(i));
            lemma_tree_parent(hs, c);
            assert(is_parent_in(hs, c, i));
            if c > i + 1 {
                assert(hs[i + 1].level >= hs[c].level);
            }
        }
        lemma_end_is(hs, i, i + 1);
    }
}

/// Consecutive children: the block of one ends where the next begins.
proof fn lemma_next_child(
    hs: Seq<HeadingEvent>,
    nodes: Seq<HeadingNode>,
    roots: Seq<crate::types::NodeId>,
    par: Option<int>,
    m: int,
)
    requires
        tree_of(hs, nodes, roots),
        forall|j: int| 0 <= j < nodes.len() ==> #[trigger] parents_of(nodes)[j] == tree_parent(hs, j),
        0 <= m < ids_with(parents_of(nodes), par).len() - 1,
    ensures
        end_of(hs, ids_with(parents_of(nodes), par)[m]) == ids_with(parents_of(nodes), par)[m + 1],
{
    let ps = parents_of(nodes);
    let cs = ids_with(ps, par);
    lemma_ids_sorted(ps, par);
    let x = cs[m];
    let y = cs[m + 1];
    assert(x < y);
    assert(ps[x] == par && ps[y] == par);
    assert forall|j: int| x < j < y implies tree_parent(hs, j) != par by {
        crate::tree_laws::lemma_no_member_between(ps, par, m, j);
        assert(ps[j] == tree_parent(hs, j));
    }
    assert forall|k: int| x < k < y implies #[trigger] hs[k].level > hs[x].level by {
        lemma_first_shallow(hs, x, y, k, par);
    }
    lemma_tree_parent(hs, y);
    match par {
        Some(p) => {
            assert(is_parent_in(hs, y, p));
            lemma_tree_parent(hs, x);
            assert(is_parent_in(hs, x, p));
            assert(p < x);
            assert(hs[x].level >= hs[y].level);
        },
        None => {
            assert(is_root_in(hs, y));
            assert(hs[x].level >= hs[y].level);
        },
    }
    lemma_end_is(hs, x, y);
}

/// The block of the last child ends with its parent's block (the last
/// root's, with the document).
proof fn lemma_last_child(
    hs: Seq<HeadingEvent>,
    nodes: Seq<HeadingNode>,
    roots: Seq<crate::types::NodeId>,
    par: Option<int>,
)
    requires
        tree_of(hs, nodes, roots),
        forall|j: int| 0 <= j < nodes.len() ==> #[trigger] parents_of(nodes)[j] == tree_parent(hs, j),
        ids_with(parents_of(nodes), par).len() > 0,
        par matches Some(p) ==> 0 <= p < nodes.len(),
    ensures
        end_of(hs, ids_with(parents_of(nodes), par).last()) == match par {
            Some(p) => end_of(hs, p),
            None => nodes.len() as int,
        },
{
    let ps = parents_of(nodes);
    let cs = ids_with(ps, par);
    lemma_ids_sorted(ps, par);
    let c = cs.last();
    assert(cs[cs.len() - 1] == c);
    assert(ps[c] == par);
    lemma_tree_parent(hs, c);
    let e = match par {
        Some(p) => end_of(hs, p),
        None => nodes.len() as int,
    };
    match par {
        Some(p) => {
            assert(is_parent_in(hs, c, p));
            lemma_scan_end(hs, p, p + 1);
            assert(c < e) by {
                if e <= c {
                    if e < c {
                        assert(hs[e].level >= hs[c].level);
                    }
                }
            }
        },
        None => {},
    }
    lemma_scan_end(hs, c, c + 1);
    let f = end_of(hs, c);
    if f < e {
        // The first heading no deeper than `c` would be another child.
        assert forall|k: int| c < k < f implies #[trigger] hs[k].level > hs[c].level by {}
        match par {
            Some(p) => {
                lemma_scan_end(hs, p, p + 1);
                assert(hs[f].level > hs[p].level);
                lemma_next_at_level(hs, c, f);
            },
            None => {
                lemma_next_at_level(hs, c, f);
            },
        }
        lemma_no_member_after(ps, par, f);
        assert(ps[f] == tree_parent(hs, f));
    }
    assert forall|k: int| c < k < e implies #[trigger] hs[k].level > hs[c].level by {
        lemma_scan_end(hs, c, c + 1);
        if f < e {
        } else {
            assert(k < f);
        }
    }
    if e < nodes.len() {
        match par {
            Some(p) => {
                lemma_scan_end(hs, p, p + 1);
                assert(hs[e].level <= hs[p].level);
                assert(hs[p].level < hs[c].level);
            },
            None => {},
        }
    }
    lemma_end_is(hs, c, e);
}

proof fn lemma_subtree_block(hs: Seq<HeadingEvent>, doc: DocumentIndex, i: int, d: nat)
    requires
        tree_of(hs, doc.nodes@, doc.roots@),
        0 <= i < doc.nodes@.len(),
    ensures
        subtree(doc, i, d) == block(doc.nodes@, i, end_of(hs, i), node_depth(doc.nodes@, i) - d),
    decreases doc.nodes@.len() - i, 1int, 0int,
{
    let nodes = doc.nodes@;
    let kids = nodes[i].children@;
    let s = node_depth(nodes, i) - d;
    lemma_kids(hs, nodes, doc.roots@, i);
    lemma_first_child(hs, nodes, doc.roots@, i);
    lemma_scan_end(hs, i, i + 1);
    lemma_forest_block(hs, doc, i, 0, d + 1);
    let e = end_of(hs, i);
    assert(id_ints(kids).len() == kids.len());
    if kids.len() == 0 {
        assert(block(nodes, i, e, s) =~= seq![(i, d)]);
    } else {
        assert(id_ints(kids)[0] == kids[0].0 as int);
        assert(kids[0].0 as int == i + 1);
        assert(seq![(i, d)] + block(nodes, i + 1, e, s) =~= block(nodes, i, e, s));
    }
    assert(subtree(doc, i, d) == seq![(i, d)] + forest(doc, i, 0, d + 1));
}

proof fn lemma_forest_block(hs: Seq<HeadingEvent>, doc: DocumentIndex, i: int, m: int, d: nat)
    requires
        tree_of(hs, doc.nodes@, doc.roots@),
        0 <= i < doc.nodes@.len(),
        0 <= m <= doc.nodes@[i].children@.len(),
    ensures
        forest(doc, i, m, d) == if m < doc.nodes@[i].children@.len() {
            block(
                doc.nodes@,
                doc.nodes@[i].children@[m].0 as int,
                end_of(hs, i),
                node_depth(doc.nodes@, i) + 1 - d,
            )
        } else {
            Seq::empty()
        },
    decreases doc.nodes@.len() - i, 0int, doc.nodes@[i].children@.len() - m,
{
    let nodes = doc.nodes@;
    let kids = nodes[i].children@;
    if m < kids.len() {
        let ps = parents_of(nodes);
        let cs = ids_with(ps, Some(i));
        lemma_kids(hs, nodes, doc.roots@, i);
        lemma_ids_sorted(ps, Some(i));
        assert(id_ints(kids)[m] == kids[m].0 as int);
        let c = kids[m].0 as int;
        assert(cs[m] == c);
        assert(ps[c] == Some(i));
        lemma_tree_parent(hs, c);
        assert(i < c < nodes.len());
        assert(parent_idx(nodes[c]) == Some(i));
        assert(node_depth(nodes, c) == 1 + node_depth(nodes, i));
        lemma_subtree_block(hs, doc, c, d);
        lemma_forest_block(hs, doc, i, m + 1, d);
        let s = node_depth(nodes, i) + 1 - d;
        lemma_scan_end(hs, c, c + 1);
        if m + 1 < kids.len() {
            lemma_next_child(hs, nodes, doc.roots@, Some(i), m);
            assert(id_ints(kids)[m + 1] == kids[m + 1].0 as int);
            let c2 = kids[m + 1].0 as int;
            assert(end_of(hs, c) == c2);
            lemma_scan_end(hs, i, i + 1);
            lemma_last_child(hs, nodes, doc.roots@, Some(i));
            assert(c2 <= end_of(hs, i)) by {
                let last = cs.last();
                assert(cs[cs.len() - 1] == last);
                if m + 1 < cs.len() - 1 {
                    assert(cs[m + 1] < cs[cs.len() - 1]);
                }
                lemma_scan_end(hs, last, last + 1);
            }
            lemma_block_concat(nodes, c, c2, end_of(hs, i), s);
        } else {
            lemma_last_child(hs, nodes, doc.roots@, Some(i));
            assert(cs.last() == c);
            assert(block(nodes, c, end_of(hs, i), s) + Seq::<(int, nat)>::empty() =~= block(
                nodes,
                c,
                end_of(hs, i),
                s,
            ));
        }
    }
}

proof fn lemma_roots_block(hs: Seq<HeadingEvent>, doc: DocumentIndex, k: int)
    requires
        tree_of(hs, doc.nodes@, doc.roots@),
        0 <= k <= doc.roots@.len(),
    ensures
        from_roots(doc, k) == if k < doc.roots@.len() {
            block(doc.nodes@, doc.roots@[k].0 as int, doc.nodes@.len() as int, 1)
        } else {
            Seq::empty()
        },
    decreases doc.roots@.len() - k,
{
    let nodes = doc.nodes@;
    let roots = doc.roots@;
    if k < roots.len() {
        let ps = parents_of(nodes);
        let rs = ids_with(ps, None);
        assert forall|j: int| 0 <= j < nodes.len() implies #[trigger] ps[j] == tree_parent(hs, j) by {
            assert(parent_idx(nodes[j]) == tree_parent(hs, j));
        }
        lemma_ids_sorted(ps, None);
        assert(id_ints(roots)[k] == roots[k].0 as int);
        let r = roots[k].0 as int;
        assert(rs[k] == r);
        assert(ps[r] == None::<int>);
        assert(parent_idx(nodes[r]) is None);
        assert(node_depth(nodes, r) == 1);
        lemma_subtree_block(hs, doc, r, 0);
        lemma_roots_block(hs, doc, k + 1);
        lemma_scan_end(hs, r, r + 1);
        if k + 1 < roots.len() {
            lemma_next_child(hs, nodes, roots, None, k);
            assert(id_ints(roots)[k + 1] == roots[k + 1].0 as int);
            let r2 = roots[k + 1].0 as int;
            lemma_block_concat(nodes, r, r2, nodes.len() as int, 1);
        } else {
            lemma_last_child(hs, nodes, roots, None);
            assert(rs.last() == r);
            assert(block(nodes, r, nodes.len() as int, 1) + Seq::<(int, nat)>::empty() =~= block(
                nodes,
                r,
                nodes.len() as int,
                1,
            ));
        }
    }
}

/// Walking a built document visits every heading once, in source order,
/// each at its depth below the roots: one less than the length of its
/// heading path.
pub proof fn law_walk_in_source_order(
    doc: DocumentIndex,
    source: Seq<char>,
    rel_path: Seq<char>,
    src: Seq<char>,
    p: ParsedDoc,
)
    requires
        built_from(doc, source, rel_path, src, p),
    ensures
        walk(doc).len() == doc.nodes@.len(),
        forall|j: int|
            0 <= j < doc.nodes@.len() ==> (#[trigger] walk(doc)[j]).0 == j && walk(doc)[j].1
                == doc.nodes@[j].path@.len() - 1,
{
    let hs = p.headings@;
    let nodes = doc.nodes@;
    let roots = doc.roots@;
    assert(tree_of(hs, nodes, roots));
    crate::tree_laws::law_depth_matches_path(hs, nodes, roots);
    lemma_roots_block(hs, doc, 0);
    let ps = parents_of(nodes);
    lemma_ids_sorted(ps, None);
    if nodes.len() > 0 {
        assert forall|j: int| 0 <= j < nodes.len() implies #[trigger] ps[j] == tree_parent(hs, j) by {
            assert(parent_idx(nodes[j]) == tree_parent(hs, j));
        }
        assert(is_root_in(hs, 0));
        lemma_tree_parent(hs, 0);
        assert(ps[0] == None::<int>);
        let rs = ids_with(ps, None);
        let a = choose|a: int| 0 <= a < rs.len() && #[trigger] rs[a] == 0;
        if a > 0 {
            assert(rs[0] < rs[a]);
        }
        assert(id_ints(roots)[0] == roots[0].0 as int);
        assert(roots[0].0 == 0);
        assert forall|j: int| 0 <= j < nodes.len() implies (#[trigger] walk(doc)[j]).0 == j && walk(doc)[j].1
            == nodes[j].path@.len() - 1 by {
            assert(walk(doc)[j] == (j, (node_depth(nodes, j) - 1) as nat));
            assert(node_depth(nodes, j) >= 1) by {
                lemma_node_depth_positive(nodes, j);
            }
        }
    } else {
        assert(ids_with(ps, None).len() == 0);
        assert(id_ints(roots).len() == 0);
    }
}

proof fn lemma_node_depth_positive(nodes: Seq<HeadingNode>, j: int)
    requires
        0 <= j < nodes.len(),
    ensures
        node_depth(nodes, j) >= 1,
{
}

} // verus!
