//! Query primitives over a corpus: resolving a heading path to the nodes
//! that carry it, and walking one document's heading tree depth-first.

use vstd::prelude::*;

use crate::corpus::{heading_entries, CorpusIndex, DocId};
use crate::builder::{id_ints, parent_idx, parents_of, tree_of};
use crate::model::{DocumentIndex, HeadingNode};
use crate::document::built_from;
use crate::parse::{HeadingEvent, ParsedDoc};
use crate::tokens::{lowercase, str_lowercase};
use crate::types::{HeadingPath, NodeId};

verus! {

/// A node of the corpus together with its document and the document's id.
#[derive(Debug, Clone, Copy)]
pub struct NodeRef<'a> {
    pub doc: &'a DocumentIndex,
    pub node: &'a HeadingNode,
    pub doc_id: DocId,
}

/// Traversal helpers over one corpus.
pub struct Traversal<'a> {
    pub corpus: &'a CorpusIndex,
}

// ---------------------------------------------------------------------------
// Resolving heading paths
// ---------------------------------------------------------------------------

/// The pair `(doc, node)` names a node of `c`.
pub open spec fn resolves(c: CorpusIndex, p: (u32, u32)) -> bool {
    &&& p.0 < c.documents@.len()
    &&& p.1 < c.documents@[p.0 as int].nodes@.len()
}

/// The pairs of `ps` that name a node of `c`, in order.
pub open spec fn resolved(c: CorpusIndex, ps: Seq<(u32, u32)>) -> Seq<(u32, u32)>
    decreases ps.len(),
{
    if ps.len() == 0 {
        Seq::empty()
    } else if resolves(c, ps.last()) {
        resolved(c, ps.drop_last()).push(ps.last())
    } else {
        resolved(c, ps.drop_last())
    }
}

/// `r` is the node that `p` names.
pub open spec fn names(c: CorpusIndex, r: NodeRef, p: (u32, u32)) -> bool {
    &&& r.doc_id.0 == p.0
    &&& *r.doc == c.documents@[p.0 as int]
    &&& *r.node == c.documents@[p.0 as int].nodes@[p.1 as int]
}

/// `rs` are the nodes named by `ps`, one for one.
pub open spec fn refs_for(c: CorpusIndex, rs: Seq<NodeRef>, ps: Seq<(u32, u32)>) -> bool {
    &&& rs.len() == ps.len()
    &&& forall|k: int| 0 <= k < rs.len() ==> names(c, #[trigger] rs[k], ps[k])
}

/// Two heading paths agree segment by segment once lowercased.
pub open spec fn same_ignoring_case(a: Seq<Seq<char>>, b: Seq<Seq<char>>) -> bool {
    &&& a.len() == b.len()
    &&& forall|i: int| 0 <= i < a.len() ==> str_lowercase(#[trigger] a[i]) == str_lowercase(b[i])
}

/// `es` lists the entries of `table`, each key once.
pub open spec fn lists(
    es: Seq<(Seq<Seq<char>>, Seq<(u32, u32)>)>,
    table: Map<Seq<Seq<char>>, Seq<(u32, u32)>>,
) -> bool {
    &&& forall|i: int, j: int| 0 <= i < j < es.len() ==> (#[trigger] es[i]).0 != (#[trigger] es[j]).0
    &&& forall|i: int|
        0 <= i < es.len() ==> table.dom().contains((#[trigger] es[i]).0) && table[es[i].0]
            == es[i].1
    &&& forall|k: Seq<Seq<char>>|
        table.dom().contains(k) ==> exists|i: int| 0 <= i < es.len() && (#[trigger] es[i]).0 == k
}

/// The resolvable pairs of every listed entry whose key matches `path`
/// ignoring case, entry by entry.
pub open spec fn case_matches(
    c: CorpusIndex,
    es: Seq<(Seq<Seq<char>>, Seq<(u32, u32)>)>,
    path: Seq<Seq<char>>,
) -> Seq<(u32, u32)>
    decreases es.len(),
{
    if es.len() == 0 {
        Seq::empty()
    } else {
        case_matches(c, es.drop_last(), path) + if same_ignoring_case(es.last().0, path) {
            resolved(c, es.last().1)
        } else {
            Seq::empty()
        }
    }
}

/// What `resolve_path` finds for `path`: the nodes under every heading path
/// equal to it ignoring case (the exact path among them), taken entry by
/// entry in the listing `es`.
pub open spec fn resolution(
    c: CorpusIndex,
    es: Seq<(Seq<Seq<char>>, Seq<(u32, u32)>)>,
    path: Seq<Seq<char>>,
) -> Seq<(u32, u32)> {
    case_matches(c, es, path)
}

// ---------------------------------------------------------------------------
// Walking a document
// ---------------------------------------------------------------------------

/// Every child id that names a node is greater than its parent's, so that
/// a walk down the tree ends. (Ids that name no node are skipped.)
pub open spec fn walkable(doc: DocumentIndex) -> bool {
    let n = doc.nodes@.len();
    forall|i: int, k: int|
        0 <= i < n && 0 <= k < doc.nodes@[i].children@.len() && (
        #[trigger] doc.nodes@[i].children@[k]).0 < n ==> i < doc.nodes@[i].children@[k].0
}

/// Node `i` at depth `d`, then its subtrees in child order.
pub open spec fn subtree(doc: DocumentIndex, i: int, d: nat) -> Seq<(int, nat)>
    decreases doc.nodes@.len() - i, 1int, 0int,
{
    if 0 <= i < doc.nodes@.len() {
        seq![(i, d)] + forest(doc, i, 0, d + 1)
    } else {
        Seq::empty()
    }
}

/// The subtrees, at depth `d`, of the children of `i` from the `k`-th on.
pub open spec fn forest(doc: DocumentIndex, i: int, k: int, d: nat) -> Seq<(int, nat)>
    decreases doc.nodes@.len() - i, 0int, doc.nodes@[i].children@.len() - k,
{
    if 0 <= i < doc.nodes@.len() && 0 <= k < doc.nodes@[i].children@.len() {
        let c = doc.nodes@[i].children@[k].0 as int;
        (if i < c < doc.nodes@.len() {
            subtree(doc, c, d)
        } else {
            Seq::empty()
        }) + forest(doc, i, k + 1, d)
    } else {
        Seq::empty()
    }
}

/// The subtrees of the roots from the `k`-th on, each at depth zero.
pub open spec fn from_roots(doc: DocumentIndex, k: int) -> Seq<(int, nat)>
    decreases doc.roots@.len() - k,
{
    if 0 <= k < doc.roots@.len() {
        subtree(doc, doc.roots@[k].0 as int, 0) + from_roots(doc, k + 1)
    } else {
        Seq::empty()
    }
}

/// The depth-first, source-order walk of a document: each node with its
/// depth below the roots.
pub open spec fn walk(doc: DocumentIndex) -> Seq<(int, nat)> {
    from_roots(doc, 0)
}

/// What is left to visit when `stack` holds `(node, depth)` pairs, the top
/// last.
spec fn pending(doc: DocumentIndex, stack: Seq<(NodeId, usize)>) -> Seq<(int, nat)>
    decreases stack.len(),
{
    if stack.len() == 0 {
        Seq::empty()
    } else {
        subtree(doc, stack.last().0.0 as int, stack.last().1 as nat) + pending(
            doc,
            stack.drop_last(),
        )
    }
}

/// Stacked pairs name nodes, and no depth exceeds its node's id.
spec fn stack_ok(doc: DocumentIndex, stack: Seq<(NodeId, usize)>) -> bool {
    forall|a: int|
        0 <= a < stack.len() ==> (#[trigger] stack[a]).0.0 < doc.nodes@.len() && stack[a].1
            <= stack[a].0.0
}

/// Whether `doc` can be walked: see `walkable`.
pub fn is_walkable(doc: &DocumentIndex) -> (r: bool)
    ensures
        r == walkable(*doc),
{
    let n = doc.nodes.len();
    let mut i: usize = 0;
    while i < n
        invariant
            i <= n,
            n == doc.nodes@.len(),
            forall|x: int, k: int|
                0 <= x < i && 0 <= k < doc.nodes@[x].children@.len() && (
                #[trigger] doc.nodes@[x].children@[k]).0 < n ==> x < doc.nodes@[x].children@[k].0,
        decreases n - i,
    {
        let kids = &doc.nodes[i].children;
        let mut k: usize = 0;
        while k < kids.len()
            invariant
                k <= kids@.len(),
                i < n,
                n == doc.nodes@.len(),
                *kids == doc.nodes@[i as int].children,
                forall|t: int| 0 <= t < k && (#[trigger] kids@[t]).0 < n ==> i < kids@[t].0,
            decreases kids@.len() - k,
        {
            let c = kids[k].index();
            if c <= i && c < n {
                return false;
            }
            k = k + 1;
        }
        i = i + 1;
    }
    true
}

/// Every document tree the builder produces can be walked.
pub proof fn lemma_tree_walkable(hs: Seq<HeadingEvent>, doc: DocumentIndex)
    requires
        tree_of(hs, doc.nodes@, doc.roots@),
    ensures
        walkable(doc),
{
    let nodes = doc.nodes@;
    assert forall|i: int, k: int|
        0 <= i < nodes.len() && 0 <= k < nodes[i].children@.len() && (
        #[trigger] nodes[i].children@[k]).0 < nodes.len() implies i < nodes[i].children@[k].0 by {
        crate::tree_laws::lemma_ids_sorted(parents_of(nodes), Some(i));
        let c = nodes[i].children@[k].0 as int;
        assert(id_ints(nodes[i].children@)[k] == c);
        assert(parents_of(nodes)[c] == Some(i));
        assert(parent_idx(nodes[c]) == Some(i));
        crate::builder::lemma_tree_parent(hs, c);
    }
}

/// Every document that `build_document` returns can be walked.
pub proof fn law_built_documents_walkable(
    doc: DocumentIndex,
    source: Seq<char>,
    rel_path: Seq<char>,
    src: Seq<char>,
    p: ParsedDoc,
)
    requires
        built_from(doc, source, rel_path, src, p),
    ensures
        walkable(doc),
{
    lemma_tree_walkable(p.headings@, doc);
}

impl<'a> Traversal<'a> {
    pub fn new(corpus: &'a CorpusIndex) -> (r: Self)
        ensures
            r.corpus == corpus,
    {
        Traversal { corpus }
    }

    /// The node `(did, nid)` names, with its document, if both exist.
    fn as_ref(&self, did: DocId, nid: NodeId) -> (r: Option<NodeRef<'a>>)
        ensures
            match r {
                Some(x) => resolves(*self.corpus, (did.0, nid.0)) && names(
                    *self.corpus,
                    x,
                    (did.0, nid.0),
                ),
                None => !resolves(*self.corpus, (did.0, nid.0)),
            },
    {
        let doc = match self.corpus.doc(did) {
            Some(d) => d,
            None => return None,
        };
        let node = match doc.node(nid) {
            Some(n) => n,
            None => return None,
        };
        Some(NodeRef { doc, node, doc_id: did })
    }

    /// Appends the nodes that the pairs of `hits` name to `out`, in order.
    fn push_resolved(&self, hits: &Vec<(DocId, NodeId)>, out: &mut Vec<NodeRef<'a>>)
        ensures
            final(out)@.len() >= old(out)@.len(),
            final(out)@.take(old(out)@.len() as int) == old(out)@,
            refs_for(
                *self.corpus,
                final(out)@.skip(old(out)@.len() as int),
                resolved(*self.corpus, crate::corpus::at_views(hits@)),
            ),
    {
        let ghost start = out@.len();
        let ghost c = *self.corpus;
        let mut i: usize = 0;
        while i < hits.len()
            invariant
                i <= hits@.len(),
                c == *self.corpus,
                out@.len() >= start,
                out@.take(start as int) == old(out)@,
                refs_for(
                    c,
                    out@.skip(start as int),
                    resolved(c, crate::corpus::at_views(hits@.take(i as int))),
                ),
            decreases hits@.len() - i,
        {
            let (did, nid) = hits[i];
            let ghost before = out@;
            proof {
                let v = crate::corpus::at_views(hits@.take(i + 1));
                assert(v.drop_last() =~= crate::corpus::at_views(hits@.take(i as int)));
                assert(v.last() == (did.0, nid.0));
            }
            match self.as_ref(did, nid) {
                Some(r) => {
                    out.push(r);
                    proof {
                        assert(out@.take(start as int) =~= before.take(start as int));
                        let prev = resolved(c, crate::corpus::at_views(hits@.take(i as int)));
                        assert(out@.skip(start as int) =~= before.skip(start as int).push(r));
                        assert forall|k: int| 0 <= k < out@.skip(start as int).len() implies names(
                            c,
                            #[trigger] out@.skip(start as int)[k],
                            prev.push((did.0, nid.0))[k],
                        ) by {
                            if k < prev.len() {
                                assert(out@.skip(start as int)[k] == before.skip(start as int)[k]);
                            }
                        }
                    }
                },
                None => {},
            }
            i = i + 1;
        }
        assert(hits@.take(i as int) =~= hits@);
    }

    /// Every node whose heading path equals `path` segment by segment once
    /// both are lowercased (the exact path among them), entry by entry of
    /// the heading table.
    pub fn resolve_path(&self, path: &HeadingPath) -> (r: Vec<NodeRef<'a>>)
        ensures
            exists|es: Seq<(Seq<Seq<char>>, Seq<(u32, u32)>)>|
                lists(es, heading_entries(self.corpus.heading_lookup)) && refs_for(
                    *self.corpus,
                    r@,
                    resolution(*self.corpus, es, path@),
                ),
    {
        let ghost c = *self.corpus;
        let ghost table = heading_entries(c.heading_lookup);
        let mut out: Vec<NodeRef<'a>> = Vec::new();
        let entries = self.corpus.heading_lookup.entries();
        let ghost es = entries@.map_values(
            |e: (HeadingPath, Vec<(DocId, NodeId)>)| (e.0@, crate::corpus::at_views(e.1@)),
        );
        proof {
            assert forall|i: int, j: int| 0 <= i < j < es.len() implies (#[trigger] es[i]).0 != (
            #[trigger] es[j]).0 by {
                assert(entries@[i].0@ != entries@[j].0@);
            }
            assert forall|i: int| 0 <= i < es.len() implies table.dom().contains(
                (#[trigger] es[i]).0,
            ) && table[es[i].0] == es[i].1 by {
                assert(es[i].0 == entries@[i].0@);
            }
            assert forall|k: Seq<Seq<char>>| table.dom().contains(k) implies exists|i: int|
                0 <= i < es.len() && (#[trigger] es[i]).0 == k by {
                let i = choose|i: int| 0 <= i < entries@.len() && (#[trigger] entries@[i]).0@ == k;
                assert(es[i].0 == k);
            }
            assert(lists(es, table));
        }
        let mut lower: Vec<String> = Vec::new();
        let mut s: usize = 0;
        while s < path.0.len()
            invariant
                s <= path.0@.len(),
                lower@.len() == s,
                forall|k: int| 0 <= k < s ==> (#[trigger] lower@[k])@ == str_lowercase(path@[k]),
            decreases path.0@.len() - s,
        {
            lower.push(lowercase(path.0[s].as_str()));
            s = s + 1;
        }
        let mut i: usize = 0;
        while i < entries.len()
            invariant
                i <= entries@.len(),
                c == *self.corpus,
                es == entries@.map_values(
                    |e: (HeadingPath, Vec<(DocId, NodeId)>)| (e.0@, crate::corpus::at_views(e.1@)),
                ),
                lower@.len() == path@.len(),
                forall|k: int| 0 <= k < lower@.len() ==> (#[trigger] lower@[k])@ == str_lowercase(path@[k]),
                refs_for(c, out@, case_matches(c, es.take(i as int), path@)),
            decreases entries@.len() - i,
        {
            let key = &entries[i].0;
            let mut equal = key.0.len() == lower.len();
            let mut k: usize = 0;
            while equal && k < key.0.len()
                invariant
                    k <= key.0@.len(),
                    equal ==> key.0@.len() == lower@.len(),
                    equal ==> forall|t: int| 0 <= t < k ==> str_lowercase(key@[t]) == lower@[t]@,
                    !equal ==> !same_ignoring_case(key@, path@),
                    lower@.len() == path@.len(),
                    forall|t: int| 0 <= t < lower@.len() ==> (#[trigger] lower@[t])@ == str_lowercase(path@[t]),
                decreases key.0@.len() - k,
            {
                let a = lowercase(key.0[k].as_str());
                if a != lower[k] {
                    assert(str_lowercase(key@[k as int]) != str_lowercase(path@[k as int]));
                    equal = false;
                }
                k = k + 1;
            }
            proof {
                if equal {
                    assert(same_ignoring_case(key@, path@));
                }
                assert(es.take(i + 1).drop_last() =~= es.take(i as int));
                assert(es.take(i + 1).last() == es[i as int]);
            }
            let ghost before = out@;
            if equal {
                self.push_resolved(&entries[i].1, &mut out);
                proof {
                    let prev = case_matches(c, es.take(i as int), path@);
                    let more = resolved(c, es[i as int].1);
                    assert(out@ =~= before + out@.skip(before.len() as int));
                    assert forall|t: int| 0 <= t < out@.len() implies names(
                        c,
                        #[trigger] out@[t],
                        (prev + more)[t],
                    ) by {
                        if t < before.len() {
                            assert(out@[t] == out@.take(before.len() as int)[t]);
                        } else {
                            assert(out@[t] == out@.skip(before.len() as int)[t - before.len()]);
                        }
                    }
                }
            } else {
                proof {
                    assert(case_matches(c, es.take(i + 1), path@) =~= case_matches(
                        c,
                        es.take(i as int),
                        path@,
                    ));
                }
            }
            i = i + 1;
        }
        proof {
            assert(es.take(i as int) =~= es);
        }
        out
    }

    /// The heading tree of `doc`, depth-first in source order: each node
    /// with its depth below the roots.
    pub fn walk_doc<'b>(&self, doc: &'b DocumentIndex) -> (r: Vec<(&'b HeadingNode, usize)>)
        requires
            walkable(*doc),
        ensures
            r@.len() == walk(*doc).len(),
            forall|k: int|
                0 <= k < r@.len() ==> *(#[trigger] r@[k]).0 == doc.nodes@[walk(*doc)[k].0] && r@[k].1
                    == walk(*doc)[k].1,
    {
        let mut stack: Vec<(NodeId, usize)> = Vec::new();
        let mut j = doc.roots.len();
        while j > 0
            invariant
                j <= doc.roots@.len(),
                walkable(*doc),
                stack_ok(*doc, stack@),
                pending(*doc, stack@) == from_roots(*doc, j as int),
            decreases j,
        {
            j = j - 1;
            if doc.roots[j].index() < doc.nodes.len() {
                let ghost before = stack@;
                stack.push((doc.roots[j], 0));
                proof {
                    assert(stack@.drop_last() =~= before);
                }
            } else {
                proof {
                    assert(from_roots(*doc, j as int) =~= from_roots(*doc, j + 1));
                }
            }
        }
        let ghost total = walk(*doc);
        let ghost mut done: Seq<(int, nat)> = Seq::empty();
        let mut out: Vec<(&'b HeadingNode, usize)> = Vec::new();
        while stack.len() > 0
            invariant
                walkable(*doc),
                stack_ok(*doc, stack@),
                total == walk(*doc),
                total == done + pending(*doc, stack@),
                out@.len() == done.len(),
                forall|k: int|
                    0 <= k < out@.len() ==> *(#[trigger] out@[k]).0 == doc.nodes@[done[k].0]
                        && out@[k].1 == done[k].1,
            decreases pending(*doc, stack@).len(),
        {
            let ghost full = stack@;
            let (nid, depth) = stack.pop().unwrap();
            let ghost rest = stack@;
            proof {
                assert(full.drop_last() == rest);
                assert(full.last() == (nid, depth));
                assert(full[full.len() - 1] == (nid, depth));
            }
            let node = &doc.nodes[nid.0 as usize];
            let mut k = node.children.len();
            while k > 0
                invariant
                    k <= node.children@.len(),
                    *node == doc.nodes@[nid.0 as int],
                    nid.0 < doc.nodes@.len(),
                    depth <= nid.0,
                    walkable(*doc),
                    stack_ok(*doc, stack@),
                    pending(*doc, stack@) == forest(*doc, nid.0 as int, k as int, (depth + 1) as nat)
                        + pending(*doc, rest),
                decreases k,
            {
                k = k - 1;
                let c = node.children[k];
                if c.index() < doc.nodes.len() {
                    proof {
                        assert(nid.0 < doc.nodes@[nid.0 as int].children@[k as int].0);
                    }
                    let ghost before = stack@;
                    stack.push((c, depth + 1));
                    proof {
                        assert(stack@.drop_last() =~= before);
                        assert(forest(*doc, nid.0 as int, k as int, (depth + 1) as nat) =~= subtree(
                            *doc,
                            c.0 as int,
                            (depth + 1) as nat,
                        ) + forest(*doc, nid.0 as int, k + 1, (depth + 1) as nat));
                    }
                } else {
                    proof {
                        assert(forest(*doc, nid.0 as int, k as int, (depth + 1) as nat) =~= forest(
                            *doc,
                            nid.0 as int,
                            k + 1,
                            (depth + 1) as nat,
                        ));
                    }
                }
            }
            proof {
                let s = subtree(*doc, nid.0 as int, depth as nat);
                assert(s =~= seq![(nid.0 as int, depth as nat)] + forest(
                    *doc,
                    nid.0 as int,
                    0,
                    (depth + 1) as nat,
                ));
                assert(pending(*doc, full) == s + pending(*doc, rest));
                done = done.push((nid.0 as int, depth as nat));
                assert(total =~= done + pending(*doc, stack@));
            }
            out.push((node, depth));
        }
        out
    }
}

} // verus!
