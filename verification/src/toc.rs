//! Tables of contents: a document's heading tree projected into nested
//! entries, optionally capped at a heading level.

use vstd::prelude::*;

use crate::builder::{clone_opt_string, opt_view};
use crate::corpus::CorpusIndex;
use crate::json::{json_same, Json};
use crate::model::DocumentIndex;
use crate::query::walkable;
use crate::service::{doc_named, doc_not_found_message, find_doc, RequestError};
use crate::text::has_prefix;
use crate::tokens::string_views;
use crate::tools::{TocDocument, TocEntry, TocRequest, TocResponse};
use crate::types::{clone_strings, NodeId};

verus! {

/// Node `i` exists and is no deeper than the cap `max_depth`.
pub open spec fn within_depth(doc: DocumentIndex, i: int, max_depth: Option<u8>) -> bool {
    &&& 0 <= i < doc.nodes@.len()
    &&& match max_depth {
        Some(l) => doc.nodes@[i].level <= l,
        None => true,
    }
}

/// The ids of `ids` that pass the cap, in order.
pub open spec fn kept(doc: DocumentIndex, ids: Seq<NodeId>, max_depth: Option<u8>) -> Seq<int>
    decreases ids.len(),
{
    if ids.len() == 0 {
        Seq::empty()
    } else {
        let rest = kept(doc, ids.drop_last(), max_depth);
        if within_depth(doc, ids.last().0 as int, max_depth) {
            rest.push(ids.last().0 as int)
        } else {
            rest
        }
    }
}

/// `e` describes node `i` (children apart).
pub open spec fn entry_of(doc: DocumentIndex, e: TocEntry, i: int) -> bool {
    let n = doc.nodes@[i];
    &&& e.node_id == n.id.0
    &&& e.level == n.level
    &&& e.title@ == n.title@
    &&& string_views(e.heading_path@) == n.path@
    &&& e.has_children == (n.children@.len() > 0)
    &&& opt_view(e.kind) == opt_view(n.kind)
}

/// `e` is the entry of node `i` under the cap: its own fields, then one
/// entry per child that passes the cap, in child order.
pub open spec fn toc_entry(doc: DocumentIndex, e: TocEntry, i: int, max_depth: Option<u8>) -> bool
    decreases doc.nodes@.len() - i,
{
    let ks = kept(doc, doc.nodes@[i].children@, max_depth);
    &&& 0 <= i < doc.nodes@.len()
    &&& entry_of(doc, e, i)
    &&& e.children@.len() == ks.len()
    &&& forall|k: int|
        0 <= k < ks.len() ==> (i < ks[k] < doc.nodes@.len() ==> toc_entry(
            doc,
            #[trigger] e.children@[k],
            ks[k],
            max_depth,
        ))
}

/// `es` are the entries, under the cap, of the nodes `ks`.
pub open spec fn toc_entries(doc: DocumentIndex, es: Seq<TocEntry>, ks: Seq<int>, max_depth: Option<u8>) -> bool {
    &&& es.len() == ks.len()
    &&& forall|k: int| 0 <= k < es.len() ==> toc_entry(doc, #[trigger] es[k], ks[k], max_depth)
}

proof fn lemma_kept_push(doc: DocumentIndex, ids: Seq<NodeId>, k: int, max_depth: Option<u8>)
    requires
        0 <= k < ids.len(),
    ensures
        kept(doc, ids.take(k + 1), max_depth) == if within_depth(doc, ids[k].0 as int, max_depth) {
            kept(doc, ids.take(k), max_depth).push(ids[k].0 as int)
        } else {
            kept(doc, ids.take(k), max_depth)
        },
{
    assert(ids.take(k + 1).drop_last() =~= ids.take(k));
    assert(ids.take(k + 1).last() == ids[k]);
}

proof fn lemma_kept_bound(doc: DocumentIndex, ids: Seq<NodeId>, max_depth: Option<u8>)
    ensures
        forall|k: int|
            0 <= k < kept(doc, ids, max_depth).len() ==> within_depth(
                doc,
                #[trigger] kept(doc, ids, max_depth)[k],
                max_depth,
            ),
        forall|k: int|
            0 <= k < kept(doc, ids, max_depth).len() ==> exists|t: int|
                0 <= t < ids.len() && ids[t].0 == #[trigger] kept(doc, ids, max_depth)[k],
    decreases ids.len(),
{
    if ids.len() > 0 {
        lemma_kept_bound(doc, ids.drop_last(), max_depth);
        let rest = kept(doc, ids.drop_last(), max_depth);
        assert forall|k: int| 0 <= k < kept(doc, ids, max_depth).len() implies exists|t: int|
            0 <= t < ids.len() && ids[t].0 == #[trigger] kept(doc, ids, max_depth)[k] by {
            if k < rest.len() {
                let t = choose|t: int| 0 <= t < ids.drop_last().len() && ids.drop_last()[t].0 == rest[k];
                assert(ids[t] == ids.drop_last()[t]);
            } else {
                assert(ids[ids.len() - 1] == ids.last());
            }
        }
    }
}

/// The entry of node `node_id` under the cap, or `None` when the node does
/// not exist or lies below the cap.
pub fn toc_subtree(doc: &DocumentIndex, node_id: NodeId, max_depth: Option<u8>) -> (r: Option<TocEntry>)
    requires
        walkable(*doc),
    ensures
        match r {
            Some(e) => within_depth(*doc, node_id.0 as int, max_depth) && toc_entry(
                *doc,
                e,
                node_id.0 as int,
                max_depth,
            ),
            None => !within_depth(*doc, node_id.0 as int, max_depth),
        },
    decreases doc.nodes@.len() - node_id.0,
{
    let node = match doc.node(node_id) {
        Some(n) => n,
        None => return None,
    };
    match max_depth {
        Some(limit) => {
            if node.level > limit {
                return None;
            }
        },
        None => {},
    }
    let ghost i = node_id.0 as int;
    let mut children: Vec<TocEntry> = Vec::new();
    let mut k: usize = 0;
    while k < node.children.len()
        invariant
            walkable(*doc),
            0 <= i < doc.nodes@.len(),
            i == node_id.0,
            *node == doc.nodes@[i],
            k <= node.children@.len(),
            toc_entries(*doc, children@, kept(*doc, node.children@.take(k as int), max_depth), max_depth),
        decreases node.children@.len() - k,
    {
        let cid = node.children[k];
        proof {
            lemma_kept_push(*doc, node.children@, k as int, max_depth);
        }
        if cid.index() >= doc.nodes.len() {
            k = k + 1;
            continue;
        }
        proof {
            assert(i < doc.nodes@[i].children@[k as int].0);
        }
        match toc_subtree(doc, cid, max_depth) {
            Some(e) => {
                let ghost before = children@;
                children.push(e);
                proof {
                    let ks = kept(*doc, node.children@.take(k + 1), max_depth);
                    assert forall|t: int| 0 <= t < children@.len() implies toc_entry(
                        *doc,
                        #[trigger] children@[t],
                        ks[t],
                        max_depth,
                    ) by {
                        if t < before.len() {
                            assert(children@[t] == before[t]);
                        }
                    }
                }
            },
            None => {},
        }
        k = k + 1;
    }
    proof {
        assert(node.children@.take(k as int) =~= node.children@);
        let ks = kept(*doc, node.children@, max_depth);
        lemma_kept_bound(*doc, node.children@, max_depth);
    }
    let e = TocEntry {
        node_id: node.id.0,
        level: node.level,
        title: node.title.clone(),
        heading_path: clone_strings(&node.path.0),
        has_children: node.children.len() > 0,
        kind: clone_opt_string(&node.kind),
        children,
    };
    proof {
        assert(string_views(e.heading_path@) =~= node.path@);
    }
    Some(e)
}

/// The heading tree of `doc` under the cap: one entry per root that passes
/// it, each with its subtree.
pub fn toc_tree(doc: &DocumentIndex, max_depth: Option<u8>) -> (r: Vec<TocEntry>)
    requires
        walkable(*doc),
    ensures
        toc_entries(*doc, r@, kept(*doc, doc.roots@, max_depth), max_depth),
{
    let mut out: Vec<TocEntry> = Vec::new();
    let mut k: usize = 0;
    while k < doc.roots.len()
        invariant
            walkable(*doc),
            k <= doc.roots@.len(),
            toc_entries(*doc, out@, kept(*doc, doc.roots@.take(k as int), max_depth), max_depth),
        decreases doc.roots@.len() - k,
    {
        proof {
            lemma_kept_push(*doc, doc.roots@, k as int, max_depth);
        }
        match toc_subtree(doc, doc.roots[k], max_depth) {
            Some(e) => {
                let ghost before = out@;
                out.push(e);
                proof {
                    let ks = kept(*doc, doc.roots@.take(k + 1), max_depth);
                    assert forall|t: int| 0 <= t < out@.len() implies toc_entry(
                        *doc,
                        #[trigger] out@[t],
                        ks[t],
                        max_depth,
                    ) by {
                        if t < before.len() {
                            assert(out@[t] == before[t]);
                        }
                    }
                }
            },
            None => {},
        }
        k = k + 1;
    }
    assert(doc.roots@.take(k as int) =~= doc.roots@);
    out
}

/// `r` is the heading preview of `doc` (see `doc_headings`).
pub open spec fn headings_preview(doc: DocumentIndex, r: Seq<TocEntry>, max_depth: Option<u8>) -> bool {
    &&& max_depth is Some ==> toc_entries(doc, r, kept(doc, doc.roots@, max_depth), max_depth)
    &&& max_depth is None ==> {
        let ks = kept(doc, doc.roots@, None);
        &&& r.len() == ks.len()
        &&& forall|k: int|
            0 <= k < r.len() ==> entry_of(doc, #[trigger] r[k], ks[k]) && r[k].children@.len() == 0
    }
}

/// The heading preview of a document: the capped tree when a cap is
/// given; otherwise each root alone, without children.
pub fn doc_headings(doc: &DocumentIndex, max_depth: Option<u8>) -> (r: Vec<TocEntry>)
    requires
        walkable(*doc),
    ensures
        headings_preview(*doc, r@, max_depth),
{
    if max_depth.is_some() {
        return toc_tree(doc, max_depth);
    }
    let mut out: Vec<TocEntry> = Vec::new();
    let mut k: usize = 0;
    while k < doc.roots.len()
        invariant
            walkable(*doc),
            max_depth is None,
            k <= doc.roots@.len(),
            out@.len() == kept(*doc, doc.roots@.take(k as int), None).len(),
            forall|t: int|
                0 <= t < out@.len() ==> entry_of(
                    *doc,
                    #[trigger] out@[t],
                    kept(*doc, doc.roots@.take(k as int), None)[t],
                ) && out@[t].children@.len() == 0,
        decreases doc.roots@.len() - k,
    {
        proof {
            lemma_kept_push(*doc, doc.roots@, k as int, None);
        }
        let nid = doc.roots[k];
        match doc.node(nid) {
            Some(n) => {
                let e = TocEntry {
                    node_id: n.id.0,
                    level: n.level,
                    title: n.title.clone(),
                    heading_path: clone_strings(&n.path.0),
                    has_children: n.children.len() > 0,
                    kind: clone_opt_string(&n.kind),
                    children: Vec::new(),
                };
                proof {
                    assert(string_views(e.heading_path@) =~= n.path@);
                }
                let ghost before = out@;
                out.push(e);
                proof {
                    let ks = kept(*doc, doc.roots@.take(k + 1), None);
                    assert forall|t: int| 0 <= t < out@.len() implies entry_of(
                        *doc,
                        #[trigger] out@[t],
                        ks[t],
                    ) && out@[t].children@.len() == 0 by {
                        if t < before.len() {
                            assert(out@[t] == before[t]);
                        }
                    }
                }
            },
            None => {},
        }
        k = k + 1;
    }
    assert(doc.roots@.take(k as int) =~= doc.roots@);
    out
}

/// A copy of `fm` when `wanted` is set.
pub open spec fn attached(fm: Option<Json>, r: Option<Json>, wanted: bool) -> bool {
    match r {
        Some(v) => wanted && (fm matches Some(f) && json_same(f, v)),
        None => !wanted || fm is None,
    }
}

fn copy_frontmatter(fm: &Option<Json>, wanted: bool) -> (r: Option<Json>)
    ensures
        attached(*fm, r, wanted),
{
    if wanted {
        match fm {
            Some(v) => Some(v.copy()),
            None => None,
        }
    } else {
        None
    }
}

/// The table of contents of one document.
pub fn doc_to_toc(doc_id: u32, doc: &DocumentIndex, max_depth: Option<u8>, include_frontmatter: bool) -> (r: TocDocument)
    requires
        walkable(*doc),
    ensures
        r.rel_path@ == doc.rel_path@,
        r.doc_id == doc_id,
        toc_entries(*doc, r.roots@, kept(*doc, doc.roots@, max_depth), max_depth),
        attached(doc.frontmatter, r.frontmatter, include_frontmatter),
{
    TocDocument {
        rel_path: doc.rel_path.clone(),
        doc_id,
        roots: toc_tree(doc, max_depth),
        frontmatter: copy_frontmatter(&doc.frontmatter, include_frontmatter),
    }
}

/// Every document of the corpus can be walked.
pub open spec fn corpus_walkable(c: CorpusIndex) -> bool {
    forall|i: int| 0 <= i < c.documents@.len() ==> walkable(#[trigger] c.documents@[i])
}

/// `d` is the table of contents of document `i` for the request.
pub open spec fn toc_document_for(c: CorpusIndex, d: TocDocument, i: int, req: TocRequest) -> bool {
    let doc = c.documents@[i];
    &&& d.rel_path@ == doc.rel_path@
    &&& d.doc_id == i
    &&& toc_entries(doc, d.roots@, kept(doc, doc.roots@, req.max_depth), req.max_depth)
    &&& attached(doc.frontmatter, d.frontmatter, req.include_frontmatter)
}

/// The documents, by index, whose path starts with `prefix` (all of them
/// without one).
pub open spec fn under_prefix(docs: Seq<DocumentIndex>, prefix: Option<Seq<char>>, n: int) -> Seq<int>
    decreases n,
{
    if n <= 0 {
        Seq::empty()
    } else {
        let rest = under_prefix(docs, prefix, n - 1);
        let keep = match prefix {
            Some(p) => p.is_prefix_of(docs[n - 1].rel_path@),
            None => true,
        };
        if keep {
            rest.push(n - 1)
        } else {
            rest
        }
    }
}

pub open spec fn opt_str_view(o: Option<String>) -> Option<Seq<char>> {
    match o {
        Some(s) => Some(s@),
        None => None,
    }
}

/// The `table_of_contents` tool: the named document's tree, or the trees
/// of every document under the path prefix. Fails when a named document
/// does not exist.
pub fn table_of_contents(corpus: &CorpusIndex, req: &TocRequest) -> (r: Result<TocResponse, RequestError>)
    requires
        corpus_walkable(*corpus),
        corpus.documents@.len() <= u32::MAX + 1,
    ensures
        match req.rel_path {
            Some(rel) => match r {
                Ok(resp) => doc_named(corpus.documents@, rel@) matches Some(i) && resp.documents@.len()
                    == 1 && toc_document_for(*corpus, resp.documents@[0], i, *req)
                    && resp.source_id@ == corpus.source.0@,
                Err(e) => doc_named(corpus.documents@, rel@) is None && (e matches RequestError::InvalidParams(
                    msg,
                ) && msg@ == doc_not_found_message(req.source_id@, rel@)),
            },
            None => r matches Ok(resp) && resp.source_id@ == corpus.source.0@ && {
                let ids = under_prefix(corpus.documents@, opt_str_view(req.path_prefix), corpus.documents@.len() as int);
                &&& resp.documents@.len() == ids.len()
                &&& forall|k: int|
                    0 <= k < ids.len() ==> toc_document_for(
                        *corpus,
                        #[trigger] resp.documents@[k],
                        ids[k],
                        *req,
                    )
            },
        },
{
    let source_id = corpus.source.0.clone();
    match &req.rel_path {
        Some(rel) => {
            let i = match find_doc(corpus, req.source_id.as_str(), rel.as_str()) {
                Ok(i) => i,
                Err(e) => return Err(e),
            };
            let d = doc_to_toc(i as u32, &corpus.documents[i], req.max_depth, req.include_frontmatter);
            let mut documents: Vec<TocDocument> = Vec::new();
            documents.push(d);
            Ok(TocResponse { source_id, documents })
        },
        None => {
            let mut documents: Vec<TocDocument> = Vec::new();
            let mut i: usize = 0;
            while i < corpus.documents.len()
                invariant
                    i <= corpus.documents@.len(),
                    corpus_walkable(*corpus),
                    corpus.documents@.len() <= u32::MAX + 1,
                    req.rel_path is None,
                    ({
                        let ids = under_prefix(corpus.documents@, opt_str_view(req.path_prefix), i as int);
                        &&& documents@.len() == ids.len()
                        &&& forall|k: int|
                            0 <= k < ids.len() ==> toc_document_for(
                                *corpus,
                                #[trigger] documents@[k],
                                ids[k],
                                *req,
                            )
                    }),
                decreases corpus.documents@.len() - i,
            {
                let doc = &corpus.documents[i];
                let keep = match &req.path_prefix {
                    Some(p) => has_prefix(doc.rel_path.as_str(), p.as_str()),
                    None => true,
                };
                if keep {
                    let d = doc_to_toc(i as u32, doc, req.max_depth, req.include_frontmatter);
                    let ghost before = documents@;
                    documents.push(d);
                    proof {
                        let ids = under_prefix(corpus.documents@, opt_str_view(req.path_prefix), i + 1);
                        assert forall|k: int| 0 <= k < ids.len() implies toc_document_for(
                            *corpus,
                            #[trigger] documents@[k],
                            ids[k],
                            *req,
                        ) by {
                            if k < before.len() {
                                assert(documents@[k] == before[k]);
                            }
                        }
                    }
                }
                i = i + 1;
            }
            Ok(TocResponse { source_id, documents })
        },
    }
}

} // verus!
