//! The query tools' logic over a loaded corpus: locating documents and
//! sections, backlinks, neighbours and section contents. Transport, locking
//! and file mapping stay with the caller; these functions take the loaded
//! values and return the response values.

use vstd::prelude::*;
use std::collections::HashSet;

use crate::candidates::{key_of, lemma_pair_key_injective, pair_key};

use crate::corpus::{at_views, backlink_entries, path_entries, CorpusIndex, DocId};
use crate::model::{DocumentIndex, HeadingNode};
use crate::tokens::{canonical_link_keys, link_keys, push_chars, string_views};
use crate::okf::{declared_stale, deref_opt, opt_string_view, string_field_of, stale_after_key, status_key, trust_tier_of, type_key};
use crate::tools::{
    strings_eq, to_ref, Backlink, GetSectionRequest, LinkInfo, NeighborRef, NeighborsRequest,
    NeighborsResponse, SectionResponse,
};
use crate::types::{Link, LinkKind};
use vstd::string::StringSliceAdditionalSpecFns;
use vstd::utf8::decode_utf8;
use crate::types::{clone_strings, ByteRange, NodeId};
use crate::text::chars_of;
use vstd::utf8::valid_utf8;

verus! {

broadcast use vstd::std_specs::hash::group_hash_axioms;

/// Why a request could not be answered.
#[derive(Debug)]
pub enum RequestError {
    /// The request names something that is not there, or is malformed.
    InvalidParams(String),
    /// The stored data could not be served.
    Internal(String),
}

/// `a` followed by `b`.
pub fn concat(a: &str, b: &str) -> (r: String)
    ensures
        r@ == a@ + b@,
{
    let mut s = String::new();
    let ca = chars_of(a);
    let cb = chars_of(b);
    push_chars(&mut s, ca.as_slice());
    push_chars(&mut s, cb.as_slice());
    s
}

// ---------------------------------------------------------------------------
// Locating documents and nodes
// ---------------------------------------------------------------------------

/// The first document at or after `i` whose path is `rel`.
pub open spec fn doc_from(docs: Seq<DocumentIndex>, rel: Seq<char>, i: int) -> Option<int>
    decreases docs.len() - i,
{
    if i < 0 || i >= docs.len() {
        None
    } else if docs[i].rel_path@ == rel {
        Some(i)
    } else {
        doc_from(docs, rel, i + 1)
    }
}

/// The first document whose path is `rel`.
pub open spec fn doc_named(docs: Seq<DocumentIndex>, rel: Seq<char>) -> Option<int> {
    doc_from(docs, rel, 0)
}

proof fn lemma_doc_from(docs: Seq<DocumentIndex>, rel: Seq<char>, i: int)
    requires
        0 <= i,
    ensures
        match doc_from(docs, rel, i) {
            Some(k) => i <= k < docs.len() && docs[k].rel_path@ == rel && forall|j: int|
                i <= j < k ==> (#[trigger] docs[j]).rel_path@ != rel,
            None => forall|j: int| i <= j < docs.len() ==> (#[trigger] docs[j]).rel_path@ != rel,
        },
    decreases docs.len() - i,
{
    if i < docs.len() && docs[i].rel_path@ != rel {
        lemma_doc_from(docs, rel, i + 1);
    }
}

/// `doc_named` finds the first document with the path, and only misses
/// when none has it.
pub proof fn lemma_doc_named(docs: Seq<DocumentIndex>, rel: Seq<char>)
    ensures
        match doc_named(docs, rel) {
            Some(k) => 0 <= k < docs.len() && docs[k].rel_path@ == rel && forall|j: int|
                0 <= j < k ==> (#[trigger] docs[j]).rel_path@ != rel,
            None => forall|j: int| 0 <= j < docs.len() ==> (#[trigger] docs[j]).rel_path@ != rel,
        },
{
    lemma_doc_from(docs, rel, 0);
}

/// A document with path `rel` at `k`, with none before it, is the one
/// `doc_named` finds.
pub proof fn lemma_doc_named_at(docs: Seq<DocumentIndex>, rel: Seq<char>, k: int)
    requires
        0 <= k < docs.len(),
        docs[k].rel_path@ == rel,
        forall|j: int| 0 <= j < k ==> (#[trigger] docs[j]).rel_path@ != rel,
    ensures
        doc_named(docs, rel) == Some(k),
{
    lemma_doc_named(docs, rel);
    match doc_named(docs, rel) {
        Some(m) => {
            if m < k {
                assert(docs[m].rel_path@ != rel);
            } else if k < m {
                assert(docs[k].rel_path@ != rel);
            }
        },
        None => {
            assert(docs[k].rel_path@ != rel);
        },
    }
}

proof fn lemma_doc_from_bound(docs: Seq<DocumentIndex>, rel: Seq<char>, i: int)
    requires
        0 <= i,
    ensures
        match doc_from(docs, rel, i) {
            Some(k) => i <= k < docs.len() && docs[k].rel_path@ == rel,
            None => true,
        },
    decreases docs.len() - i,
{
    if i < docs.len() && docs[i].rel_path@ != rel {
        lemma_doc_from_bound(docs, rel, i + 1);
    }
}

pub open spec fn doc_not_found_message(source: Seq<char>, rel: Seq<char>) -> Seq<char> {
    "no document `"@ + rel + "` in source `"@ + source + "`"@
}

/// The index of the first document whose path is `rel_path`.
pub fn find_doc(corpus: &CorpusIndex, source_id: &str, rel_path: &str) -> (r: Result<usize, RequestError>)
    ensures
        match r {
            Ok(i) => doc_named(corpus.documents@, rel_path@) == Some(i as int) && i < corpus.documents@.len(),
            Err(e) => doc_named(corpus.documents@, rel_path@) is None && (e matches RequestError::InvalidParams(
                msg,
            ) && msg@ == doc_not_found_message(source_id@, rel_path@)),
        },
{
    let rel = rel_path.to_owned();
    let mut i: usize = 0;
    while i < corpus.documents.len()
        invariant
            i <= corpus.documents@.len(),
            rel@ == rel_path@,
            doc_named(corpus.documents@, rel_path@) == doc_from(corpus.documents@, rel_path@, i as int),
        decreases corpus.documents@.len() - i,
    {
        if corpus.documents[i].rel_path == rel {
            return Ok(i);
        }
        i = i + 1;
    }
    let a = concat("no document `", rel_path);
    let b = concat(a.as_str(), "` in source `");
    let c = concat(b.as_str(), source_id);
    let m = concat(c.as_str(), "`");
    Err(RequestError::InvalidParams(m))
}

/// The first node at or after `i` whose heading path is `p`.
pub open spec fn node_from(nodes: Seq<HeadingNode>, p: Seq<Seq<char>>, i: int) -> Option<int>
    decreases nodes.len() - i,
{
    if i < 0 || i >= nodes.len() {
        None
    } else if nodes[i].path@ == p {
        Some(i)
    } else {
        node_from(nodes, p, i + 1)
    }
}

pub open spec fn opt_segments(o: Option<Vec<String>>) -> Option<Seq<Seq<char>>> {
    match o {
        Some(v) => Some(string_views(v@)),
        None => None,
    }
}

/// How a request picks a node of a document: by id when given, else by
/// heading path; `Err(true)` when neither is given, `Err(false)` when the
/// one given names no node.
pub open spec fn node_choice(nodes: Seq<HeadingNode>, heading_path: Option<Seq<Seq<char>>>, node_id: Option<u32>) -> Result<int, bool> {
    match node_id {
        Some(nid) => if nid < nodes.len() {
            Ok(nid as int)
        } else {
            Err(false)
        },
        None => match heading_path {
            Some(p) => match node_from(nodes, p, 0) {
                Some(i) => Ok(i),
                None => Err(false),
            },
            None => Err(true),
        },
    }
}

proof fn lemma_node_from_first(nodes: Seq<HeadingNode>, p: Seq<Seq<char>>, j: int, k: int)
    requires
        0 <= k <= j < nodes.len(),
        nodes[j].path@ == p,
        forall|q: int| 0 <= q < j ==> nodes[q].path@ != p,
    ensures
        node_from(nodes, p, k) == Some(j),
    decreases j - k,
{
    if k < j {
        lemma_node_from_first(nodes, p, j, k + 1);
    }
}

proof fn lemma_node_from_none(nodes: Seq<HeadingNode>, p: Seq<Seq<char>>, k: int)
    requires
        0 <= k,
        forall|q: int| 0 <= q < nodes.len() ==> nodes[q].path@ != p,
    ensures
        node_from(nodes, p, k) is None,
    decreases nodes.len() - k,
{
    if k < nodes.len() {
        lemma_node_from_none(nodes, p, k + 1);
    }
}

/// A request by heading path alone picks the first node, in source order,
/// whose heading path is exactly the one asked for.
pub proof fn law_path_picks_first_match(nodes: Seq<HeadingNode>, p: Seq<Seq<char>>, j: int)
    requires
        0 <= j < nodes.len(),
        nodes[j].path@ == p,
        forall|q: int| 0 <= q < j ==> nodes[q].path@ != p,
    ensures
        node_choice(nodes, Some(p), None) == Ok::<int, bool>(j),
{
    lemma_node_from_first(nodes, p, j, 0);
}

/// A request naming a node id picks that node when the document has it and
/// fails otherwise, whatever heading path comes with it.
pub proof fn law_node_id_picks_that_node(nodes: Seq<HeadingNode>, p: Option<Seq<Seq<char>>>, nid: u32)
    ensures
        nid < nodes.len() ==> node_choice(nodes, p, Some(nid)) == Ok::<int, bool>(nid as int),
        nid >= nodes.len() ==> node_choice(nodes, p, Some(nid)) is Err,
{
}

/// A request by heading path alone fails exactly when no node of the
/// document has that heading path.
pub proof fn law_path_fails_only_without_match(nodes: Seq<HeadingNode>, p: Seq<Seq<char>>)
    ensures
        node_choice(nodes, Some(p), None) is Err <==> forall|q: int|
            0 <= q < nodes.len() ==> nodes[q].path@ != p,
{
    if forall|q: int| 0 <= q < nodes.len() ==> nodes[q].path@ != p {
        lemma_node_from_none(nodes, p, 0);
    } else {
        let w = choose|q: int| 0 <= q < nodes.len() && nodes[q].path@ == p;
        lemma_first_path(nodes, p, w);
    }
}

/// When some node has path `p`, a search from the first node finds one.
proof fn lemma_first_path(nodes: Seq<HeadingNode>, p: Seq<Seq<char>>, w: int)
    requires
        0 <= w < nodes.len(),
        nodes[w].path@ == p,
    ensures
        node_from(nodes, p, 0) is Some,
    decreases w,
{
    if exists|q: int| 0 <= q < w && nodes[q].path@ == p {
        let q = choose|q: int| 0 <= q < w && nodes[q].path@ == p;
        lemma_first_path(nodes, p, q);
    } else {
        lemma_node_from_first(nodes, p, w, 0);
    }
}

/// Resolves a node within one document by `node_id`, else by
/// `heading_path`.
pub fn resolve_in_doc(doc: &DocumentIndex, heading_path: &Option<Vec<String>>, node_id: Option<u32>) -> (r: Result<usize, RequestError>)
    ensures
        match r {
            Ok(i) => (node_choice(doc.nodes@, opt_segments(*heading_path), node_id) matches Ok(k) && k
                == i) && i < doc.nodes@.len(),
            Err(e) => node_choice(doc.nodes@, opt_segments(*heading_path), node_id) is Err && e is InvalidParams,
        },
{
    match node_id {
        Some(nid) => {
            if (nid as usize) < doc.nodes.len() {
                return Ok(nid as usize);
            }
            let a = concat("node_id ", crate::text::decimal_string(nid as u64).as_str());
            return Err(RequestError::InvalidParams(concat(a.as_str(), " out of range")));
        },
        None => {},
    }
    match heading_path {
        Some(segs) => {
            let mut i: usize = 0;
            while i < doc.nodes.len()
                invariant
                    i <= doc.nodes@.len(),
                    node_id is None,
                    opt_segments(*heading_path) == Some(string_views(segs@)),
                    node_from(doc.nodes@, string_views(segs@), 0) == node_from(
                        doc.nodes@,
                        string_views(segs@),
                        i as int,
                    ),
                decreases doc.nodes@.len() - i,
            {
                if strings_eq(&doc.nodes[i].path.0, segs) {
                    proof {
                        assert(doc.nodes@[i as int].path@ =~= string_views(doc.nodes@[i as int].path.0@));
                    }
                    return Ok(i);
                }
                proof {
                    assert(doc.nodes@[i as int].path@ =~= string_views(doc.nodes@[i as int].path.0@));
                }
                i = i + 1;
            }
            let shown = crate::types::HeadingPath(clone_strings(segs)).to_string();
            let a = concat("no heading `", shown.as_str());
            Err(RequestError::InvalidParams(concat(a.as_str(), "`")))
        },
        None => Err(
            RequestError::InvalidParams(
                "one of `node_id` or `heading_path` is required".to_owned(),
            ),
        ),
    }
}

// ---------------------------------------------------------------------------
// Backlinks
// ---------------------------------------------------------------------------

/// `(d, n)` names an existing node of the corpus.
pub open spec fn names_node(docs: Seq<DocumentIndex>, x: (u32, u32)) -> bool {
    x.0 < docs.len() && x.1 < docs[x.0 as int].nodes@.len()
}

/// The postings filed under each key, key by key.
pub open spec fn postings_under(m: Map<Seq<char>, Seq<(u32, u32)>>, keys: Seq<Seq<char>>) -> Seq<(u32, u32)>
    decreases keys.len(),
{
    if keys.len() == 0 {
        Seq::empty()
    } else {
        postings_under(m, keys.drop_last()) + if m.dom().contains(keys.last()) {
            m[keys.last()]
        } else {
            Seq::empty()
        }
    }
}

/// The pairs kept from `cand`: first occurrences that name a node, until
/// `cap` are kept.
pub open spec fn picked(docs: Seq<DocumentIndex>, cand: Seq<(u32, u32)>, cap: nat) -> Seq<(u32, u32)>
    decreases cand.len(),
{
    if cand.len() == 0 {
        Seq::empty()
    } else {
        let p = picked(docs, cand.drop_last(), cap);
        let x = cand.last();
        if !cand.drop_last().contains(x) && names_node(docs, x) && p.len() < cap {
            p.push(x)
        } else {
            p
        }
    }
}

/// The sections linking to `target` under any of its canonical keys, each
/// once, in filing order, at most `max(limit, 1)` of them.
pub open spec fn backlinks_of(c: CorpusIndex, target: Seq<char>, limit: usize) -> Seq<(u32, u32)> {
    picked(
        c.documents@,
        postings_under(backlink_entries(c.backlinks), link_keys(target)),
        if limit == 0 {
            1
        } else {
            limit as nat
        },
    )
}

/// `b` describes node `x` of the corpus, with ages measured at `now`.
pub open spec fn backlink_describes(b: Backlink, docs: Seq<DocumentIndex>, x: (u32, u32), now: u64) -> bool {
    let doc = docs[x.0 as int];
    let node = doc.nodes@[x.1 as int];
    &&& b.rel_path@ == doc.rel_path@
    &&& b.doc_id == x.0
    &&& b.node_id == x.1
    &&& b.level == node.level
    &&& string_views(b.heading_path@) == node.path@
    &&& b.summary@ == node.summary@
    &&& b.age_days == crate::model::age_in_days(doc.modified_at, now)
}

fn make_backlink(corpus: &CorpusIndex, x: (u32, u32), now: u64) -> (b: Backlink)
    requires
        names_node(corpus.documents@, x),
    ensures
        backlink_describes(b, corpus.documents@, x, now),
{
    let doc = &corpus.documents[x.0 as usize];
    let node = &doc.nodes[x.1 as usize];
    Backlink {
        rel_path: doc.rel_path.clone(),
        doc_id: x.0,
        node_id: x.1,
        level: node.level,
        heading_path: clone_strings(&node.path.0),
        summary: node.summary.clone(),
        age_days: doc.age_days(now),
    }
}

proof fn lemma_picked_len(docs: Seq<DocumentIndex>, cand: Seq<(u32, u32)>, cap: nat)
    ensures
        picked(docs, cand, cap).len() <= cap,
        picked(docs, cand, cap).len() <= cand.len(),
    decreases cand.len(),
{
    if cand.len() > 0 {
        lemma_picked_len(docs, cand.drop_last(), cap);
    }
}

proof fn lemma_picked_members(docs: Seq<DocumentIndex>, cand: Seq<(u32, u32)>, cap: nat)
    ensures
        picked(docs, cand, cap).no_duplicates(),
        forall|i: int|
            0 <= i < picked(docs, cand, cap).len() ==> names_node(docs, #[trigger] picked(docs, cand, cap)[i])
                && cand.contains(picked(docs, cand, cap)[i]),
    decreases cand.len(),
{
    if cand.len() > 0 {
        let init = cand.drop_last();
        lemma_picked_members(docs, init, cap);
        let p = picked(docs, init, cap);
        let x = cand.last();
        let r = picked(docs, cand, cap);
        assert forall|i: int| 0 <= i < r.len() implies names_node(docs, #[trigger] r[i]) && cand.contains(r[i]) by {
            if i < p.len() {
                assert(r[i] == p[i]);
                let j = choose|j: int| 0 <= j < init.len() && init[j] == p[i];
                assert(cand[j] == p[i]);
            } else {
                assert(r[i] == x);
                assert(cand[cand.len() - 1] == x);
            }
        }
        if r != p {
            assert forall|a: int, b: int| 0 <= a < b < r.len() implies r[a] != r[b] by {
                if b == p.len() {
                    assert(r[a] == p[a]);
                    assert(init.contains(p[a]));
                } else {
                    assert(r[a] == p[a] && r[b] == p[b]);
                }
            }
        }
    }
}

/// A backlinks answer names each section at most once, never more than
/// the limit (one for a zero limit), and only sections that exist and that
/// the backlink table files under one of the target's canonical keys.
pub proof fn law_backlinks_each_once(c: CorpusIndex, target: Seq<char>, limit: usize)
    ensures
        backlinks_of(c, target, limit).no_duplicates(),
        backlinks_of(c, target, limit).len() <= if limit == 0 {
            1
        } else {
            limit as nat
        },
        forall|i: int|
            0 <= i < backlinks_of(c, target, limit).len() ==> names_node(
                c.documents@,
                #[trigger] backlinks_of(c, target, limit)[i],
            ) && postings_under(backlink_entries(c.backlinks), link_keys(target)).contains(
                backlinks_of(c, target, limit)[i],
            ),
{
    let cand = postings_under(backlink_entries(c.backlinks), link_keys(target));
    let cap: nat = if limit == 0 {
        1
    } else {
        limit as nat
    };
    lemma_picked_members(c.documents@, cand, cap);
    lemma_picked_len(c.documents@, cand, cap);
}

/// Once `cap` pairs are kept, later candidates change nothing.
proof fn lemma_picked_full(docs: Seq<DocumentIndex>, cand: Seq<(u32, u32)>, more: Seq<(u32, u32)>, cap: nat)
    requires
        picked(docs, cand, cap).len() >= cap,
    ensures
        picked(docs, cand + more, cap) == picked(docs, cand, cap),
    decreases more.len(),
{
    if more.len() == 0 {
        assert(cand + more =~= cand);
    } else {
        lemma_picked_full(docs, cand, more.drop_last(), cap);
        assert((cand + more).drop_last() =~= cand + more.drop_last());
    }
}

/// The postings under each of `keys`, in order.
fn collect_postings(corpus: &CorpusIndex, keys: &Vec<String>) -> (r: Vec<(u32, u32)>)
    ensures
        r@ == postings_under(backlink_entries(corpus.backlinks), string_views(keys@)),
{
    let ghost m = backlink_entries(corpus.backlinks);
    let ghost kv = string_views(keys@);
    let mut cand: Vec<(u32, u32)> = Vec::new();
    let mut ki: usize = 0;
    while ki < keys.len()
        invariant
            ki <= keys@.len(),
            kv == string_views(keys@),
            m == backlink_entries(corpus.backlinks),
            cand@ == postings_under(m, kv.take(ki as int)),
        decreases keys@.len() - ki,
    {
        proof {
            assert(kv.take(ki + 1).drop_last() =~= kv.take(ki as int));
            assert(kv.take(ki + 1).last() == kv[ki as int]);
        }
        match corpus.backlinks.get(keys[ki].as_str()) {
            Some(postings) => {
                let ghost c0 = cand@;
                let ghost pv = at_views(postings@);
                let mut pi: usize = 0;
                while pi < postings.len()
                    invariant
                        pi <= postings@.len(),
                        pv == at_views(postings@),
                        cand@ == c0 + pv.take(pi as int),
                    decreases postings@.len() - pi,
                {
                    cand.push((postings[pi].0.0, postings[pi].1.0));
                    proof {
                        assert(c0 + pv.take(pi + 1) =~= (c0 + pv.take(pi as int)).push(pv[pi as int]));
                    }
                    pi = pi + 1;
                }
                assert(pv.take(pi as int) =~= pv);
            },
            None => {
                assert(cand@ =~= cand@ + Seq::<(u32, u32)>::empty());
            },
        }
        ki = ki + 1;
    }
    assert(kv.take(ki as int) =~= kv);
    cand
}

/// Document-level backlinks: every section with a link filed under any
/// canonical key of `target`, each once, in filing order, stopping once
/// `limit` are collected (a zero limit still yields the first one).
pub fn backlinks_in(corpus: &CorpusIndex, target: &str, limit: usize, now: u64) -> (r: Vec<Backlink>)
    ensures
        r@.len() == backlinks_of(*corpus, target@, limit).len(),
        forall|i: int|
            0 <= i < r@.len() ==> backlink_describes(
                #[trigger] r@[i],
                corpus.documents@,
                backlinks_of(*corpus, target@, limit)[i],
                now,
            ),
{
    let ghost docs = corpus.documents@;
    let ghost cap: nat = if limit == 0 {
        1
    } else {
        limit as nat
    };
    let keys = canonical_link_keys(target);
    let cand = collect_postings(corpus, &keys);
    // The pairs met so far, by their table key.
    let mut seen: HashSet<u64> = HashSet::new();
    let mut picks: Vec<(u32, u32)> = Vec::new();
    let mut out: Vec<Backlink> = Vec::new();
    let mut ci: usize = 0;
    let mut full = false;
    while ci < cand.len() && !full
        invariant
            ci <= cand@.len(),
            docs == corpus.documents@,
            cap == (if limit == 0 {
                1nat
            } else {
                limit as nat
            }),
            forall|k: u64| seen@.contains(k) <==> exists|j: int| 0 <= j < ci && pair_key(#[trigger] cand@[j]) == k,
            picks@ == picked(docs, cand@.take(ci as int), cap),
            out@.len() == picks@.len(),
            forall|i: int| 0 <= i < out@.len() ==> backlink_describes(#[trigger] out@[i], docs, picks@[i], now),
            full == (picks@.len() >= cap),
        decreases cand@.len() - ci + (if full {
            0int
        } else {
            1int
        }),
    {
        let x = cand[ci];
        proof {
            assert(cand@.take(ci + 1).drop_last() =~= cand@.take(ci as int));
            assert(cand@.take(ci + 1).last() == x);
            lemma_picked_len(docs, cand@.take(ci as int), cap);
        }
        let key = key_of(DocId(x.0), NodeId(x.1));
        let dup = seen.contains(&key);
        proof {
            let pre = cand@.take(ci as int);
            if dup {
                let j = choose|j: int| 0 <= j < ci && pair_key(cand@[j]) == key;
                lemma_pair_key_injective(cand@[j], x);
                assert(pre[j] == x);
            }
            if pre.contains(x) {
                let j = choose|j: int| 0 <= j < pre.len() && pre[j] == x;
                assert(cand@[j] == x);
                assert(pair_key(cand@[j]) == key);
            }
            assert(dup == pre.contains(x));
        }
        if !dup && (x.0 as usize) < corpus.documents.len() && (x.1 as usize) < corpus.documents[x.0
            as usize].nodes.len() {
            let b = make_backlink(corpus, x, now);
            out.push(b);
            picks.push(x);
            if picks.len() >= limit {
                full = true;
            }
        }
        seen.insert(key);
        proof {
            assert forall|k: u64| seen@.contains(k) <==> exists|j: int| 0 <= j < ci + 1 && pair_key(
                #[trigger] cand@[j],
            ) == k by {
                if k == key {
                    assert(pair_key(cand@[ci as int]) == k);
                }
            }
        }
        ci = ci + 1;
    }
    proof {
        if full {
            lemma_picked_full(docs, cand@.take(ci as int), cand@.skip(ci as int), cap);
            assert(cand@.take(ci as int) + cand@.skip(ci as int) =~= cand@);
        } else {
            assert(cand@.take(ci as int) =~= cand@);
        }
    }
    out
}

// ---------------------------------------------------------------------------
// Neighbours
// ---------------------------------------------------------------------------

/// The node an id names, when it is in range.
pub open spec fn valid_id(nodes: Seq<HeadingNode>, id: NodeId) -> Option<int> {
    if id.0 < nodes.len() {
        Some(id.0 as int)
    } else {
        None
    }
}

/// The ids that share node `i`'s parent (the roots for a root).
pub open spec fn siblings_of(nodes: Seq<HeadingNode>, roots: Seq<NodeId>, i: int) -> Seq<NodeId> {
    match nodes[i].parent {
        Some(p) => match valid_id(nodes, p) {
            Some(q) => nodes[q].children@,
            None => Seq::empty(),
        },
        None => roots,
    }
}

/// The first position of `id` in `s` from `k` on.
pub open spec fn position_from(s: Seq<NodeId>, id: NodeId, k: int) -> Option<int>
    decreases s.len() - k,
{
    if k < 0 || k >= s.len() {
        None
    } else if s[k] == id {
        Some(k)
    } else {
        position_from(s, id, k + 1)
    }
}

/// The node before (`step == -1`) or after (`step == 1`) node `i` among its
/// siblings.
pub open spec fn sibling_at(nodes: Seq<HeadingNode>, roots: Seq<NodeId>, i: int, step: int) -> Option<int> {
    let sib = siblings_of(nodes, roots, i);
    match position_from(sib, nodes[i].id, 0) {
        Some(p) => if 0 <= p + step < sib.len() {
            valid_id(nodes, sib[p + step])
        } else {
            None
        },
        None => None,
    }
}

proof fn lemma_first_position(s: Seq<NodeId>, id: NodeId, p: int, k: int)
    requires
        0 <= k <= p < s.len(),
        s[p] == id,
        forall|q: int| 0 <= q < p ==> s[q] != id,
    ensures
        position_from(s, id, k) == Some(p),
    decreases p - k,
{
    if k < p {
        lemma_first_position(s, id, p, k + 1);
    }
}

/// Among siblings `sib`, where node `i` first stands at position `p`, the
/// node before it is the one at `p - 1` and the node after it the one at
/// `p + 1`, when those positions exist and name nodes.
pub open spec fn adjacent_in(nodes: Seq<HeadingNode>, roots: Seq<NodeId>, i: int, sib: Seq<NodeId>, p: int) -> bool {
    &&& (p > 0 && sib[p - 1].0 < nodes.len() ==> sibling_at(nodes, roots, i, -1) == Some(sib[p - 1].0 as int))
    &&& (p == 0 ==> sibling_at(nodes, roots, i, -1) is None)
    &&& (p + 1 < sib.len() && sib[p + 1].0 < nodes.len() ==> sibling_at(nodes, roots, i, 1) == Some(
        sib[p + 1].0 as int,
    ))
    &&& (p + 1 == sib.len() ==> sibling_at(nodes, roots, i, 1) is None)
}

/// The roots of a document are each other's siblings: the neighbours of a
/// root are the roots just before and just after it.
pub proof fn law_roots_are_siblings(nodes: Seq<HeadingNode>, roots: Seq<NodeId>, i: int, p: int)
    requires
        0 <= i < nodes.len(),
        nodes[i].parent is None,
        0 <= p < roots.len(),
        roots[p] == nodes[i].id,
        forall|q: int| 0 <= q < p ==> roots[q] != nodes[i].id,
    ensures
        adjacent_in(nodes, roots, i, roots, p),
{
    lemma_first_position(roots, nodes[i].id, p, 0);
}

/// The children of one parent are each other's siblings: the neighbours of
/// a child are the children just before and just after it.
pub proof fn law_children_are_siblings(nodes: Seq<HeadingNode>, roots: Seq<NodeId>, i: int, p: int)
    requires
        0 <= i < nodes.len(),
        nodes[i].parent matches Some(q) && q.0 < nodes.len(),
        0 <= p < nodes[nodes[i].parent->Some_0.0 as int].children@.len(),
        nodes[nodes[i].parent->Some_0.0 as int].children@[p] == nodes[i].id,
        forall|q: int|
            0 <= q < p ==> nodes[nodes[i].parent->Some_0.0 as int].children@[q] != nodes[i].id,
    ensures
        adjacent_in(nodes, roots, i, nodes[nodes[i].parent->Some_0.0 as int].children@, p),
{
    lemma_first_position(nodes[nodes[i].parent->Some_0.0 as int].children@, nodes[i].id, p, 0);
}

/// `r` refers to node `n`.
pub open spec fn ref_of(r: NeighborRef, n: HeadingNode) -> bool {
    &&& r.node_id == n.id.0
    &&& r.level == n.level
    &&& r.title@ == n.title@
    &&& string_views(r.heading_path@) == n.path@
}

pub open spec fn opt_ref_of(r: Option<NeighborRef>, nodes: Seq<HeadingNode>, i: Option<int>) -> bool {
    match i {
        Some(k) => r matches Some(x) && ref_of(x, nodes[k]),
        None => r is None,
    }
}

/// The in-range children of node `i`, in order.
pub open spec fn child_ids(nodes: Seq<HeadingNode>, cs: Seq<NodeId>) -> Seq<int>
    decreases cs.len(),
{
    if cs.len() == 0 {
        Seq::empty()
    } else {
        let prev = child_ids(nodes, cs.drop_last());
        match valid_id(nodes, cs.last()) {
            Some(k) => prev.push(k),
            None => prev,
        }
    }
}

fn opt_ref(doc: &DocumentIndex, id: NodeId) -> (r: Option<NeighborRef>)
    ensures
        opt_ref_of(r, doc.nodes@, valid_id(doc.nodes@, id)),
{
    if (id.0 as usize) < doc.nodes.len() {
        Some(to_ref(&doc.nodes[id.0 as usize]))
    } else {
        None
    }
}

fn position_of(s: &Vec<NodeId>, id: NodeId) -> (r: Option<usize>)
    ensures
        match r {
            Some(p) => position_from(s@, id, 0) == Some(p as int) && p < s@.len(),
            None => position_from(s@, id, 0) is None,
        },
{
    let mut k: usize = 0;
    while k < s.len()
        invariant
            k <= s@.len(),
            position_from(s@, id, 0) == position_from(s@, id, k as int),
        decreases s@.len() - k,
    {
        if s[k].0 == id.0 {
            return Some(k);
        }
        k = k + 1;
    }
    None
}

/// The neighbours of node `i`: parent, previous and next sibling, and the
/// children, each as a reference.
pub fn neighbors_in(doc: &DocumentIndex, i: usize) -> (r: (Option<NeighborRef>, Option<NeighborRef>, Option<NeighborRef>, Vec<NeighborRef>))
    requires
        i < doc.nodes@.len(),
    ensures
        opt_ref_of(
            r.0,
            doc.nodes@,
            match doc.nodes@[i as int].parent {
                Some(p) => valid_id(doc.nodes@, p),
                None => None,
            },
        ),
        opt_ref_of(r.1, doc.nodes@, sibling_at(doc.nodes@, doc.roots@, i as int, -1)),
        opt_ref_of(r.2, doc.nodes@, sibling_at(doc.nodes@, doc.roots@, i as int, 1)),
        r.3@.len() == child_ids(doc.nodes@, doc.nodes@[i as int].children@).len(),
        forall|k: int|
            0 <= k < r.3@.len() ==> ref_of(
                #[trigger] r.3@[k],
                doc.nodes@[child_ids(doc.nodes@, doc.nodes@[i as int].children@)[k]],
            ),
{
    let node = &doc.nodes[i];
    let parent = match node.parent {
        Some(pid) => opt_ref(doc, pid),
        None => None,
    };
    let empty: Vec<NodeId> = Vec::new();
    let siblings: &Vec<NodeId> = match node.parent {
        Some(pid) => if (pid.0 as usize) < doc.nodes.len() {
            &doc.nodes[pid.0 as usize].children
        } else {
            &empty
        },
        None => &doc.roots,
    };
    assert(siblings@ == siblings_of(doc.nodes@, doc.roots@, i as int));
    let pos = position_of(siblings, node.id);
    let prev = match pos {
        Some(p) => if p >= 1 {
            opt_ref(doc, siblings[p - 1])
        } else {
            None
        },
        None => None,
    };
    let next = match pos {
        Some(p) => if p < siblings.len() - 1 {
            opt_ref(doc, siblings[p + 1])
        } else {
            None
        },
        None => None,
    };
    let ghost ids = child_ids(doc.nodes@, node.children@);
    let mut children: Vec<NeighborRef> = Vec::new();
    let mut k: usize = 0;
    while k < node.children.len()
        invariant
            k <= node.children@.len(),
            *node == doc.nodes@[i as int],
            children@.len() == child_ids(doc.nodes@, node.children@.take(k as int)).len(),
            forall|j: int|
                0 <= j < children@.len() ==> ref_of(
                    #[trigger] children@[j],
                    doc.nodes@[child_ids(doc.nodes@, node.children@.take(k as int))[j]],
                ),
        decreases node.children@.len() - k,
    {
        let cid = node.children[k];
        proof {
            assert(node.children@.take(k + 1).drop_last() =~= node.children@.take(k as int));
            assert(node.children@.take(k + 1).last() == cid);
        }
        if (cid.0 as usize) < doc.nodes.len() {
            children.push(to_ref(&doc.nodes[cid.0 as usize]));
        }
        k = k + 1;
    }
    assert(node.children@.take(k as int) =~= node.children@);
    (parent, prev, next, children)
}

/// The `neighbors` tool: the neighbours of the node a request names.
pub fn neighbors_response(corpus: &CorpusIndex, req: &NeighborsRequest) -> (r: Result<NeighborsResponse, RequestError>)
    ensures
        match r {
            Ok(resp) => {
                &&& doc_named(corpus.documents@, req.rel_path@) matches Some(d)
                &&& node_choice(
                    corpus.documents@[d].nodes@,
                    opt_segments(req.heading_path),
                    req.node_id,
                ) matches Ok(n)
                &&& resp.source_id@ == corpus.source.0@
                &&& resp.rel_path@ == req.rel_path@
                &&& resp.node_id == corpus.documents@[d].nodes@[n].id.0
                &&& opt_ref_of(
                    resp.parent,
                    corpus.documents@[d].nodes@,
                    match corpus.documents@[d].nodes@[n].parent {
                        Some(p) => valid_id(corpus.documents@[d].nodes@, p),
                        None => None,
                    },
                )
                &&& opt_ref_of(
                    resp.prev_sibling,
                    corpus.documents@[d].nodes@,
                    sibling_at(corpus.documents@[d].nodes@, corpus.documents@[d].roots@, n, -1),
                )
                &&& opt_ref_of(
                    resp.next_sibling,
                    corpus.documents@[d].nodes@,
                    sibling_at(corpus.documents@[d].nodes@, corpus.documents@[d].roots@, n, 1),
                )
                &&& resp.children@.len() == child_ids(
                    corpus.documents@[d].nodes@,
                    corpus.documents@[d].nodes@[n].children@,
                ).len()
                &&& forall|k: int|
                    0 <= k < resp.children@.len() ==> ref_of(
                        #[trigger] resp.children@[k],
                        corpus.documents@[d].nodes@[child_ids(
                            corpus.documents@[d].nodes@,
                            corpus.documents@[d].nodes@[n].children@,
                        )[k]],
                    )
            },
            Err(e) => e is InvalidParams && (doc_named(corpus.documents@, req.rel_path@) is None || node_choice(
                corpus.documents@[doc_named(corpus.documents@, req.rel_path@)->0].nodes@,
                opt_segments(req.heading_path),
                req.node_id,
            ) is Err),
        },
{
    let d = match find_doc(corpus, req.source_id.as_str(), req.rel_path.as_str()) {
        Ok(d) => d,
        Err(e) => return Err(e),
    };
    let doc = &corpus.documents[d];
    let n = match resolve_in_doc(doc, &req.heading_path, req.node_id) {
        Ok(n) => n,
        Err(e) => return Err(e),
    };
    let (parent, prev_sibling, next_sibling, children) = neighbors_in(doc, n);
    Ok(NeighborsResponse {
        source_id: corpus.source.0.clone(),
        rel_path: req.rel_path.clone(),
        node_id: doc.nodes[n].id.0,
        parent,
        prev_sibling,
        next_sibling,
        children,
    })
}

// ---------------------------------------------------------------------------
// Sections
// ---------------------------------------------------------------------------

/// The document and node a section request names; no node (`None`) when
/// the request names neither a node id nor a heading path, which asks for
/// the whole document.
pub fn resolve_section(corpus: &CorpusIndex, req: &GetSectionRequest) -> (r: Result<(usize, Option<usize>), RequestError>)
    ensures
        match r {
            Ok((d, None)) => doc_named(corpus.documents@, req.rel_path@) == Some(d as int) && d
                < corpus.documents@.len() && req.heading_path is None && req.node_id is None,
            Ok((d, Some(n))) => doc_named(corpus.documents@, req.rel_path@) == Some(d as int) && d
                < corpus.documents@.len() && (node_choice(
                corpus.documents@[d as int].nodes@,
                opt_segments(req.heading_path),
                req.node_id,
            ) matches Ok(k) && k == n) && n < corpus.documents@[d as int].nodes@.len(),
            Err(e) => e is InvalidParams && (doc_named(corpus.documents@, req.rel_path@) is None || node_choice(
                corpus.documents@[doc_named(corpus.documents@, req.rel_path@)->0].nodes@,
                opt_segments(req.heading_path),
                req.node_id,
            ) == Err::<int, bool>(false)),
        },
{
    let d = match find_doc(corpus, req.source_id.as_str(), req.rel_path.as_str()) {
        Ok(d) => d,
        Err(e) => return Err(e),
    };
    if req.heading_path.is_none() && req.node_id.is_none() {
        return Ok((d, None));
    }
    let n = match resolve_in_doc(&corpus.documents[d], &req.heading_path, req.node_id) {
        Ok(n) => n,
        Err(e) => return Err(e),
    };
    Ok((d, Some(n)))
}

/// The whole of document `d` as a section: no heading, the full byte range
/// of its source, and its frontmatter facts.
pub fn document_response(corpus: &CorpusIndex, d: usize, rel_path: &str, content: String, now: u64) -> (r: SectionResponse)
    requires
        d < corpus.documents@.len(),
    ensures
        ({
            let doc = corpus.documents@[d as int];
            &&& r.source_id@ == corpus.source.0@
            &&& r.rel_path@ == rel_path@
            &&& r.node_id == 0
            &&& r.level == 0
            &&& r.heading_path@.len() == 0
            &&& r.byte_range@ == seq![0u32, doc.source_len]
            &&& r.content == content
            &&& r.outbound_links@.len() == 0
            &&& opt_string_view(r.concept_type) == string_field_of(doc.frontmatter, type_key())
            &&& opt_string_view(r.status) == string_field_of(doc.frontmatter, status_key())
            &&& opt_string_view(r.trust) == crate::okf::trust_label(doc.frontmatter)
            &&& r.age_days == crate::model::age_in_days(doc.modified_at, now)
            &&& r.stale == if declared_stale(doc.frontmatter, now) {
                Some(true)
            } else {
                None::<bool>
            }
        }),
{
    let doc = &corpus.documents[d];
    let fm = match &doc.frontmatter {
        Some(v) => Some(v),
        None => None,
    };
    assert(deref_opt(fm) == doc.frontmatter);
    let stale = if crate::okf::is_declared_stale(fm, now) {
        Some(true)
    } else {
        None
    };
    let byte_range: [u32; 2] = [0, doc.source_len];
    assert(byte_range@ =~= seq![0u32, doc.source_len]);
    SectionResponse {
        source_id: corpus.source.0.clone(),
        rel_path: rel_path.to_owned(),
        node_id: 0,
        level: 0,
        heading_path: Vec::new(),
        byte_range,
        content,
        outbound_links: Vec::new(),
        concept_type: crate::okf::concept_type(fm),
        status: crate::okf::status(fm),
        trust: crate::okf::trust_name(fm),
        age_days: doc.age_days(now),
        stale,
    }
}

/// The bytes a section request reads: the body only, or the whole section.
pub open spec fn served_range(node: HeadingNode, body_only: bool) -> ByteRange {
    if body_only {
        node.content_range
    } else {
        node.byte_range
    }
}

/// `bytes[range]`, clipped at the end of `bytes`, as text.
pub fn section_text(bytes: &[u8], range: ByteRange) -> (r: Result<String, RequestError>)
    requires
        range.start <= range.end,
        range.start <= bytes@.len(),
    ensures
        ({
            let end = if range.end <= bytes@.len() {
                range.end as int
            } else {
                bytes@.len() as int
            };
            let slice = bytes@.subrange(range.start as int, end);
            match r {
                Ok(s) => valid_utf8(slice) && s@ == decode_utf8(slice),
                Err(e) => !valid_utf8(slice) && e is Internal,
            }
        }),
{
    let end = if (range.end as usize) <= bytes.len() {
        range.end as usize
    } else {
        bytes.len()
    };
    let (head, _) = bytes.split_at(end);
    let (_, slice) = head.split_at(range.start as usize);
    assert(slice@ =~= bytes@.subrange(range.start as int, end as int));
    match crate::document::utf8_text(slice) {
        Some(s) => {
            proof {
                vstd::utf8::encode_utf8_decode_utf8(s@);
            }
            Ok(s.to_owned())
        },
        None => Err(RequestError::Internal("utf8: invalid UTF-8 in section".to_owned())),
    }
}

/// `info` reports link `l`.
pub open spec fn link_info_of(info: LinkInfo, l: Link) -> bool {
    &&& info.target@ == l.target@
    &&& info.kind@ == match l.kind {
        LinkKind::Inline => "inline"@,
        LinkKind::Wiki => "wiki"@,
    }
    &&& opt_string_view(info.text) == opt_string_view(l.text)
}

fn link_infos(links: &Vec<Link>) -> (r: Vec<LinkInfo>)
    ensures
        r@.len() == links@.len(),
        forall|k: int| 0 <= k < r@.len() ==> link_info_of(#[trigger] r@[k], links@[k]),
{
    let mut out: Vec<LinkInfo> = Vec::new();
    let mut k: usize = 0;
    while k < links.len()
        invariant
            k <= links@.len(),
            out@.len() == k,
            forall|j: int| 0 <= j < k ==> link_info_of(#[trigger] out@[j], links@[j]),
        decreases links@.len() - k,
    {
        let l = &links[k];
        let kind = match l.kind {
            LinkKind::Inline => "inline".to_owned(),
            LinkKind::Wiki => "wiki".to_owned(),
        };
        let text = match &l.text {
            Some(t) => Some(t.clone()),
            None => None,
        };
        out.push(LinkInfo { target: l.target.clone(), kind, text });
        k = k + 1;
    }
    out
}

/// The `get_section` response for node `n` of document `d`, given the
/// section's text and the current time.
pub fn section_response(
    corpus: &CorpusIndex,
    d: usize,
    n: usize,
    rel_path: &str,
    body_only: bool,
    content: String,
    now: u64,
) -> (r: SectionResponse)
    requires
        d < corpus.documents@.len(),
        n < corpus.documents@[d as int].nodes@.len(),
    ensures
        ({
            let doc = corpus.documents@[d as int];
            let node = doc.nodes@[n as int];
            let range = served_range(node, body_only);
            &&& r.source_id@ == corpus.source.0@
            &&& r.rel_path@ == rel_path@
            &&& r.node_id == node.id.0
            &&& r.level == node.level
            &&& string_views(r.heading_path@) == node.path@
            &&& r.byte_range@ == seq![range.start, range.end]
            &&& r.content == content
            &&& r.outbound_links@.len() == node.outbound_links@.len()
            &&& forall|k: int|
                0 <= k < r.outbound_links@.len() ==> link_info_of(
                    #[trigger] r.outbound_links@[k],
                    node.outbound_links@[k],
                )
            &&& opt_string_view(r.concept_type) == string_field_of(doc.frontmatter, type_key())
            &&& opt_string_view(r.status) == string_field_of(doc.frontmatter, status_key())
            &&& opt_string_view(r.trust) == crate::okf::trust_label(doc.frontmatter)
            &&& r.age_days == crate::model::age_in_days(doc.modified_at, now)
            &&& r.stale == if declared_stale(doc.frontmatter, now) {
                Some(true)
            } else {
                None::<bool>
            }
        }),
{
    let doc = &corpus.documents[d];
    let node = &doc.nodes[n];
    let range = if body_only {
        node.content_range
    } else {
        node.byte_range
    };
    let fm = match &doc.frontmatter {
        Some(v) => Some(v),
        None => None,
    };
    assert(deref_opt(fm) == doc.frontmatter);
    let trust = crate::okf::trust_name(fm);
    let stale = if crate::okf::is_declared_stale(fm, now) {
        Some(true)
    } else {
        None
    };
    let byte_range: [u32; 2] = [range.start, range.end];
    assert(byte_range@ =~= seq![range.start, range.end]);
    SectionResponse {
        source_id: corpus.source.0.clone(),
        rel_path: rel_path.to_owned(),
        node_id: node.id.0,
        level: node.level,
        heading_path: clone_strings(&node.path.0),
        byte_range,
        content,
        outbound_links: link_infos(&node.outbound_links),
        concept_type: crate::okf::concept_type(fm),
        status: crate::okf::status(fm),
        trust,
        age_days: doc.age_days(now),
        stale,
    }
}

/// What a search hit reports about its document.
#[derive(Debug)]
pub struct DocFacts {
    pub description: Option<String>,
    pub concept_type: Option<String>,
    pub status: Option<String>,
    pub trust: Option<String>,
    pub age_days: Option<u32>,
    /// `true` once the author's declared `stale_after` date has passed;
    /// otherwise the verdict of the caller's age threshold, if one was given.
    pub stale: Option<bool>,
}

/// The facts a search hit reports about document `doc` at time `now`, with
/// the caller's optional age threshold in days.
pub fn doc_facts(doc: &DocumentIndex, now: u64, stale_after_days: Option<u32>) -> (r: DocFacts)
    ensures
        opt_string_view(r.description) == string_field_of(doc.frontmatter, crate::model::description_key()),
        opt_string_view(r.concept_type) == string_field_of(doc.frontmatter, type_key()),
        opt_string_view(r.status) == string_field_of(doc.frontmatter, status_key()),
        opt_string_view(r.trust) == crate::okf::trust_label(doc.frontmatter),
        r.age_days == crate::model::age_in_days(doc.modified_at, now),
        r.stale == if declared_stale(doc.frontmatter, now) {
            Some(true)
        } else {
            match stale_after_days {
                Some(t) => Some(
                    match crate::model::age_in_days(doc.modified_at, now) {
                        Some(a) => a > t,
                        None => false,
                    },
                ),
                None => None::<bool>,
            }
        },
{
    let fm = match &doc.frontmatter {
        Some(v) => Some(v),
        None => None,
    };
    assert(deref_opt(fm) == doc.frontmatter);
    let age_days = doc.age_days(now);
    let stale = if crate::okf::is_declared_stale(fm, now) {
        Some(true)
    } else {
        crate::tools::stale_flag(age_days, stale_after_days)
    };
    DocFacts {
        description: doc.description(),
        concept_type: crate::okf::concept_type(fm),
        status: crate::okf::status(fm),
        trust: crate::okf::trust_name(fm),
        age_days,
        stale,
    }
}

/// The section of document `rel_path` whose heading path is
/// `heading_path`: the document the path table files `rel_path` under, and
/// its first node with that heading path. `None` when the table has no
/// such document or the document no such heading.
pub fn locate_section(corpus: &CorpusIndex, rel_path: &str, heading_path: &Vec<String>) -> (r: Option<(usize, usize)>)
    ensures
        match r {
            Some((d, n)) => {
                &&& path_entries(corpus.path_to_doc).dom().contains(rel_path@)
                &&& d == path_entries(corpus.path_to_doc)[rel_path@]
                &&& d < corpus.documents@.len()
                &&& n < corpus.documents@[d as int].nodes@.len()
                &&& corpus.documents@[d as int].nodes@[n as int].path@ == string_views(heading_path@)
                &&& forall|k: int|
                    0 <= k < n ==> (#[trigger] corpus.documents@[d as int].nodes@[k]).path@ != string_views(
                        heading_path@,
                    )
            },
            None => {
                ||| !path_entries(corpus.path_to_doc).dom().contains(rel_path@)
                ||| path_entries(corpus.path_to_doc)[rel_path@] >= corpus.documents@.len()
                ||| forall|k: int|
                    0 <= k < corpus.documents@[path_entries(corpus.path_to_doc)[rel_path@] as int].nodes@.len()
                        ==> (#[trigger] corpus.documents@[path_entries(
                        corpus.path_to_doc,
                    )[rel_path@] as int].nodes@[k]).path@ != string_views(heading_path@)
            },
        },
{
    let did = match corpus.path_to_doc.get(rel_path) {
        Some(d) => d,
        None => return None,
    };
    let doc = match corpus.doc(did) {
        Some(doc) => doc,
        None => return None,
    };
    let d = did.index();
    let mut n: usize = 0;
    while n < doc.nodes.len()
        invariant
            n <= doc.nodes@.len(),
            d < corpus.documents@.len(),
            path_entries(corpus.path_to_doc).dom().contains(rel_path@),
            d == path_entries(corpus.path_to_doc)[rel_path@],
            *doc == corpus.documents@[d as int],
            forall|k: int| 0 <= k < n ==> (#[trigger] doc.nodes@[k]).path@ != string_views(heading_path@),
        decreases doc.nodes@.len() - n,
    {
        if crate::tools::strings_eq(&doc.nodes[n].path.0, heading_path) {
            return Some((d, n));
        }
        n = n + 1;
    }
    None
}

} // verus!
