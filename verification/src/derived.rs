//! The lookup tables a corpus derives from its documents, as functions of
//! the documents, and the code that builds them.

use vstd::prelude::*;

use crate::corpus::{
    add_postings, backlink_entries, grouped_onto, heading_entries, inverted_entries,
    lemma_grouped_concat, path_entries, push_to, sat_u16, trigram_entries, with_postings,
    BacklinkIndex, DocId, Field, HeadingLookup, InvertedIndex, PathIndex, TrigramIndex,
};
use crate::model::{DocumentIndex, HeadingNode};
use crate::tokens::{
    canonical_link_keys, link_keys, string_views, tokenize, tokens, trigram_views, trigrams,
    trigrams_of,
};
use crate::types::{Link, NodeId};

verus! {

// ---------------------------------------------------------------------------
// The tables as functions of the documents
// ---------------------------------------------------------------------------

/// The concatenation of `ss`, in order.
pub open spec fn flatten_seqs<T>(ss: Seq<Seq<T>>) -> Seq<T>
    decreases ss.len(),
{
    if ss.len() == 0 {
        Seq::empty()
    } else {
        flatten_seqs(ss.drop_last()) + ss.last()
    }
}

/// Each key paired with the same `(document, node)`.
pub open spec fn pairs_with<K>(ks: Seq<K>, v: (u32, u32)) -> Seq<(K, (u32, u32))> {
    ks.map_values(|k: K| (k, v))
}

/// The tokens of every segment of a heading path, in order.
pub open spec fn path_tokens(p: Seq<Seq<char>>) -> Seq<Seq<char>> {
    flatten_seqs(p.map_values(|s: Seq<char>| tokens(s)))
}

/// The trigrams a node is filed under: its title's, then each path
/// segment's.
pub open spec fn node_trigrams(n: HeadingNode) -> Seq<Seq<u8>> {
    trigrams(n.title@) + flatten_seqs(n.path@.map_values(|s: Seq<char>| trigrams(s)))
}

/// The backlink keys of a node's outbound links, link by link.
pub open spec fn node_link_keys(n: HeadingNode) -> Seq<Seq<char>> {
    flatten_seqs(n.outbound_links@.map_values(|l: Link| link_keys(l.target@)))
}

pub open spec fn heading_pairs_of(d: u32, n: HeadingNode) -> Seq<(Seq<Seq<char>>, (u32, u32))> {
    seq![(n.path@, (d, n.id.0))]
}

pub open spec fn trigram_pairs_of(d: u32, n: HeadingNode) -> Seq<(Seq<u8>, (u32, u32))> {
    pairs_with(node_trigrams(n), (d, n.id.0))
}

pub open spec fn backlink_pairs_of(d: u32, n: HeadingNode) -> Seq<(Seq<char>, (u32, u32))> {
    pairs_with(node_link_keys(n), (d, n.id.0))
}

/// The pairs `f` files for each node of `ns`, in order.
pub open spec fn nodes_pairs<K>(f: spec_fn(u32, HeadingNode) -> Seq<(K, (u32, u32))>, d: u32, ns: Seq<HeadingNode>) -> Seq<(K, (u32, u32))>
    decreases ns.len(),
{
    if ns.len() == 0 {
        Seq::empty()
    } else {
        nodes_pairs(f, d, ns.drop_last()) + f(d, ns.last())
    }
}

/// The pairs `f` files for each node of each document, in order.
pub open spec fn docs_pairs<K>(f: spec_fn(u32, HeadingNode) -> Seq<(K, (u32, u32))>, docs: Seq<DocumentIndex>) -> Seq<(K, (u32, u32))>
    decreases docs.len(),
{
    if docs.len() == 0 {
        Seq::empty()
    } else {
        docs_pairs(f, docs.drop_last()) + nodes_pairs(f, (docs.len() - 1) as u32, docs.last().nodes@)
    }
}

/// The tokens of one field of a node.
pub open spec fn field_tokens(n: HeadingNode, f: Field) -> Seq<Seq<char>> {
    match f {
        Field::Title => tokens(n.title@),
        Field::Path => path_tokens(n.path@),
        Field::Summary => tokens(n.summary@),
        Field::Description => Seq::empty(),
    }
}

/// The tokens of a document's frontmatter `description`; none without one.
pub open spec fn description_tokens(doc: DocumentIndex) -> Seq<Seq<char>> {
    match crate::okf::string_field_of(doc.frontmatter, crate::model::description_key()) {
        Some(d) => tokens(d),
        None => Seq::empty(),
    }
}

/// `m` with the postings of every node of document `doc` (number `d`), then
/// those of its description on its first heading.
pub open spec fn doc_inverted(m: Map<Seq<char>, Seq<crate::corpus::Posting>>, d: u32, doc: DocumentIndex) -> Map<Seq<char>, Seq<crate::corpus::Posting>> {
    let m1 = nodes_inverted(m, d, doc.nodes@);
    if doc.nodes@.len() > 0 {
        with_postings(m1, DocId(d), doc.nodes@[0].id, Field::Description, description_tokens(doc))
    } else {
        m1
    }
}

/// `m` with the postings of every field of node `n` of document `d`.
pub open spec fn node_inverted(m: Map<Seq<char>, Seq<crate::corpus::Posting>>, d: u32, n: HeadingNode) -> Map<Seq<char>, Seq<crate::corpus::Posting>> {
    let m1 = with_postings(m, DocId(d), n.id, Field::Title, field_tokens(n, Field::Title));
    let m2 = with_postings(m1, DocId(d), n.id, Field::Path, field_tokens(n, Field::Path));
    with_postings(m2, DocId(d), n.id, Field::Summary, field_tokens(n, Field::Summary))
}

pub open spec fn nodes_inverted(m: Map<Seq<char>, Seq<crate::corpus::Posting>>, d: u32, ns: Seq<HeadingNode>) -> Map<Seq<char>, Seq<crate::corpus::Posting>>
    decreases ns.len(),
{
    if ns.len() == 0 {
        m
    } else {
        node_inverted(nodes_inverted(m, d, ns.drop_last()), d, ns.last())
    }
}

/// The inverted index of the documents.
pub open spec fn docs_inverted(docs: Seq<DocumentIndex>) -> Map<Seq<char>, Seq<crate::corpus::Posting>>
    decreases docs.len(),
{
    if docs.len() == 0 {
        Map::empty()
    } else {
        doc_inverted(docs_inverted(docs.drop_last()), (docs.len() - 1) as u32, docs.last())
    }
}

/// Relative path → the last document with that path.
pub open spec fn docs_paths(docs: Seq<DocumentIndex>) -> Map<Seq<char>, u32>
    decreases docs.len(),
{
    if docs.len() == 0 {
        Map::empty()
    } else {
        docs_paths(docs.drop_last()).insert(docs.last().rel_path@, (docs.len() - 1) as u32)
    }
}

/// The token length of one field of every node, by document then node.
pub open spec fn lengths_of(docs: Seq<DocumentIndex>, f: Field) -> Seq<Seq<u16>> {
    Seq::new(
        docs.len(),
        |i: int|
            Seq::new(docs[i].nodes@.len(), |j: int| sat_u16(field_tokens(docs[i].nodes@[j], f).len())),
    )
}

pub open spec fn nodes_token_total(ns: Seq<HeadingNode>, f: Field) -> nat
    decreases ns.len(),
{
    if ns.len() == 0 {
        0
    } else {
        nodes_token_total(ns.drop_last(), f) + field_tokens(ns.last(), f).len()
    }
}

/// The number of tokens in one field over all nodes.
pub open spec fn token_total(docs: Seq<DocumentIndex>, f: Field) -> nat
    decreases docs.len(),
{
    if docs.len() == 0 {
        0
    } else {
        token_total(docs.drop_last(), f) + nodes_token_total(docs.last().nodes@, f)
    }
}

/// The number of nodes over all documents.
pub open spec fn node_count(docs: Seq<DocumentIndex>) -> nat
    decreases docs.len(),
{
    if docs.len() == 0 {
        0
    } else {
        node_count(docs.drop_last()) + docs.last().nodes@.len()
    }
}

pub open spec fn heading_fn() -> spec_fn(u32, HeadingNode) -> Seq<(Seq<Seq<char>>, (u32, u32))> {
    |d: u32, n: HeadingNode| heading_pairs_of(d, n)
}

pub open spec fn trigram_fn() -> spec_fn(u32, HeadingNode) -> Seq<(Seq<u8>, (u32, u32))> {
    |d: u32, n: HeadingNode| trigram_pairs_of(d, n)
}

pub open spec fn backlink_fn() -> spec_fn(u32, HeadingNode) -> Seq<(Seq<char>, (u32, u32))> {
    |d: u32, n: HeadingNode| backlink_pairs_of(d, n)
}

/// Heading path → nodes with that path, in document and node order.
pub open spec fn heading_table(docs: Seq<DocumentIndex>) -> Map<Seq<Seq<char>>, Seq<(u32, u32)>> {
    grouped_onto(Map::empty(), docs_pairs(heading_fn(), docs))
}

/// Trigram → nodes whose title or path carries it, in filing order.
pub open spec fn trigram_table(docs: Seq<DocumentIndex>) -> Map<Seq<u8>, Seq<(u32, u32)>> {
    grouped_onto(Map::empty(), docs_pairs(trigram_fn(), docs))
}

/// Link key → nodes with an outbound link filed under it, in filing order.
pub open spec fn backlink_table(docs: Seq<DocumentIndex>) -> Map<Seq<char>, Seq<(u32, u32)>> {
    grouped_onto(Map::empty(), docs_pairs(backlink_fn(), docs))
}

/// `n`, saturating at `u32::MAX`.
pub open spec fn sat_u32(n: int) -> u32 {
    if n > u32::MAX {
        u32::MAX
    } else {
        n as u32
    }
}

/// `n`, saturating at `u64::MAX`.
pub open spec fn sat_u64(n: int) -> u64 {
    if n > u64::MAX {
        u64::MAX
    } else {
        n as u64
    }
}

pub open spec fn lens_view(v: Seq<Vec<u16>>) -> Seq<Seq<u16>> {
    v.map_values(|x: Vec<u16>| x@)
}

// ---------------------------------------------------------------------------
// Per-node indexing
// ---------------------------------------------------------------------------

proof fn lemma_pairs_with_push<K>(ks: Seq<K>, k: K, v: (u32, u32))
    ensures
        pairs_with(ks.push(k), v) == pairs_with(ks, v).push((k, v)),
{
    assert(pairs_with(ks.push(k), v) =~= pairs_with(ks, v).push((k, v)));
}

proof fn lemma_pairs_with_concat<K>(a: Seq<K>, b: Seq<K>, v: (u32, u32))
    ensures
        pairs_with(a + b, v) == pairs_with(a, v) + pairs_with(b, v),
{
    assert(pairs_with(a + b, v) =~= pairs_with(a, v) + pairs_with(b, v));
}

/// Files `(did, nid)` under each trigram of `s`.
fn add_trigrams(tri: &mut TrigramIndex, did: DocId, nid: NodeId, s: &str)
    ensures
        trigram_entries(*final(tri)) == grouped_onto(
            trigram_entries(*old(tri)),
            pairs_with(trigrams(s@), (did.0, nid.0)),
        ),
{
    let ts = trigrams_of(s);
    let ghost v = (did.0, nid.0);
    let ghost tv = trigram_views(ts@);
    let ghost m0 = trigram_entries(*tri);
    let mut i: usize = 0;
    while i < ts.len()
        invariant
            i <= ts@.len(),
            tv == trigram_views(ts@),
            v == (did.0, nid.0),
            trigram_entries(*tri) == grouped_onto(m0, pairs_with(tv.take(i as int), v)),
        decreases ts@.len() - i,
    {
        tri.push(ts[i], did, nid);
        proof {
            assert(tv.take(i + 1) =~= tv.take(i as int).push(tv[i as int]));
            lemma_pairs_with_push(tv.take(i as int), tv[i as int], v);
            assert(pairs_with(tv.take(i + 1), v).drop_last() =~= pairs_with(tv.take(i as int), v));
        }
        i = i + 1;
    }
    assert(tv.take(i as int) =~= tv);
}

proof fn lemma_flatten_push<T>(ss: Seq<Seq<T>>, s: Seq<T>)
    ensures
        flatten_seqs(ss.push(s)) == flatten_seqs(ss) + s,
{
    assert(ss.push(s).drop_last() =~= ss);
}

/// Files `(did, node.id)` under every trigram of the node's title and path.
fn add_node_trigrams(tri: &mut TrigramIndex, did: DocId, node: &HeadingNode)
    ensures
        trigram_entries(*final(tri)) == grouped_onto(trigram_entries(*old(tri)), trigram_pairs_of(did.0, *node)),
{
    let ghost v = (did.0, node.id.0);
    let ghost m0 = trigram_entries(*tri);
    add_trigrams(tri, did, node.id, node.title.as_str());
    let ghost m1 = trigram_entries(*tri);
    let ghost segs = node.path@;
    let ghost per = segs.map_values(|s: Seq<char>| trigrams(s));
    let mut k: usize = 0;
    while k < node.path.0.len()
        invariant
            k <= segs.len(),
            segs == node.path@,
            segs.len() == node.path.0@.len(),
            per == segs.map_values(|s: Seq<char>| trigrams(s)),
            v == (did.0, node.id.0),
            trigram_entries(*tri) == grouped_onto(m1, pairs_with(flatten_seqs(per.take(k as int)), v)),
        decreases segs.len() - k,
    {
        let ghost before = trigram_entries(*tri);
        add_trigrams(tri, did, node.id, node.path.0[k].as_str());
        proof {
            assert(node.path.0@[k as int]@ == segs[k as int]);
            assert(per.take(k + 1) =~= per.take(k as int).push(per[k as int]));
            lemma_flatten_push(per.take(k as int), per[k as int]);
            lemma_pairs_with_concat(flatten_seqs(per.take(k as int)), per[k as int], v);
            lemma_grouped_concat(
                m1,
                pairs_with(flatten_seqs(per.take(k as int)), v),
                pairs_with(per[k as int], v),
            );
        }
        k = k + 1;
    }
    proof {
        assert(per.take(k as int) =~= per);
        lemma_pairs_with_concat(trigrams(node.title@), flatten_seqs(per), v);
        lemma_grouped_concat(m0, pairs_with(trigrams(node.title@), v), pairs_with(flatten_seqs(per), v));
    }
}

/// Files `(did, node.id)` under every canonical key of every outbound link.
fn add_node_backlinks(back: &mut BacklinkIndex, did: DocId, node: &HeadingNode)
    ensures
        backlink_entries(*final(back)) == grouped_onto(backlink_entries(*old(back)), backlink_pairs_of(did.0, *node)),
{
    let ghost v = (did.0, node.id.0);
    let ghost m0 = backlink_entries(*back);
    let ghost per = node.outbound_links@.map_values(|l: Link| link_keys(l.target@));
    let mut k: usize = 0;
    while k < node.outbound_links.len()
        invariant
            k <= node.outbound_links@.len(),
            per == node.outbound_links@.map_values(|l: Link| link_keys(l.target@)),
            v == (did.0, node.id.0),
            backlink_entries(*back) == grouped_onto(m0, pairs_with(flatten_seqs(per.take(k as int)), v)),
        decreases node.outbound_links@.len() - k,
    {
        let keys = canonical_link_keys(node.outbound_links[k].target.as_str());
        let ghost kv = string_views(keys@);
        let ghost m1 = backlink_entries(*back);
        let mut i: usize = 0;
        while i < keys.len()
            invariant
                i <= keys@.len(),
                kv == string_views(keys@),
                v == (did.0, node.id.0),
                backlink_entries(*back) == grouped_onto(m1, pairs_with(kv.take(i as int), v)),
            decreases keys@.len() - i,
        {
            back.push(keys[i].clone(), did, node.id);
            proof {
                assert(kv.take(i + 1) =~= kv.take(i as int).push(kv[i as int]));
                lemma_pairs_with_push(kv.take(i as int), kv[i as int], v);
                assert(pairs_with(kv.take(i + 1), v).drop_last() =~= pairs_with(kv.take(i as int), v));
            }
            i = i + 1;
        }
        proof {
            assert(kv.take(i as int) =~= kv);
            assert(kv == per[k as int]);
            assert(per.take(k + 1) =~= per.take(k as int).push(per[k as int]));
            lemma_flatten_push(per.take(k as int), per[k as int]);
            lemma_pairs_with_concat(flatten_seqs(per.take(k as int)), per[k as int], v);
            lemma_grouped_concat(m0, pairs_with(flatten_seqs(per.take(k as int)), v), pairs_with(kv, v));
        }
        k = k + 1;
    }
    assert(per.take(k as int) =~= per);
}

/// The tokens of every segment of a heading path, in order.
fn tokenize_path(segs: &Vec<String>) -> (r: Vec<String>)
    ensures
        string_views(r@) == path_tokens(segs@.map_values(|s: String| s@)),
{
    let ghost sv = segs@.map_values(|s: String| s@);
    let ghost per = sv.map_values(|s: Seq<char>| tokens(s));
    let mut out: Vec<String> = Vec::new();
    let mut k: usize = 0;
    while k < segs.len()
        invariant
            k <= segs@.len(),
            sv == segs@.map_values(|s: String| s@),
            per == sv.map_values(|s: Seq<char>| tokens(s)),
            string_views(out@) == flatten_seqs(per.take(k as int)),
        decreases segs@.len() - k,
    {
        let mut ts = tokenize(segs[k].as_str());
        let ghost before = string_views(out@);
        let ghost tv = string_views(ts@);
        out.append(&mut ts);
        proof {
            assert(string_views(out@) =~= before + tv);
            assert(per.take(k + 1) =~= per.take(k as int).push(per[k as int]));
            lemma_flatten_push(per.take(k as int), per[k as int]);
        }
        k = k + 1;
    }
    assert(per.take(k as int) =~= per);
    out
}


// ---------------------------------------------------------------------------
// All tables
// ---------------------------------------------------------------------------

/// Every derived table of a corpus, under construction.
pub struct Tables {
    pub heading: HeadingLookup,
    pub trigrams: TrigramIndex,
    pub paths: PathIndex,
    pub backlinks: BacklinkIndex,
    pub inverted: InvertedIndex,
    pub title: Vec<Vec<u16>>,
    pub path: Vec<Vec<u16>>,
    pub summary: Vec<Vec<u16>>,
    pub total_nodes: u32,
    pub title_total: u64,
    pub path_total: u64,
    pub summary_total: u64,
}

/// `t` holds the tables derived from `docs`.
pub open spec fn tables_for(t: Tables, docs: Seq<DocumentIndex>) -> bool {
    &&& heading_entries(t.heading) == heading_table(docs)
    &&& trigram_entries(t.trigrams) == trigram_table(docs)
    &&& path_entries(t.paths) == docs_paths(docs)
    &&& backlink_entries(t.backlinks) == backlink_table(docs)
    &&& inverted_entries(t.inverted) == docs_inverted(docs)
    &&& lens_view(t.title@) == lengths_of(docs, Field::Title)
    &&& lens_view(t.path@) == lengths_of(docs, Field::Path)
    &&& lens_view(t.summary@) == lengths_of(docs, Field::Summary)
    &&& t.total_nodes == sat_u32(node_count(docs) as int)
    &&& t.title_total == sat_u64(token_total(docs, Field::Title) as int)
    &&& t.path_total == sat_u64(token_total(docs, Field::Path) as int)
    &&& t.summary_total == sat_u64(token_total(docs, Field::Summary) as int)
}

fn sat_len_u16(n: usize) -> (r: u16)
    ensures
        r == sat_u16(n as nat),
{
    if n > 65535 {
        65535
    } else {
        n as u16
    }
}

fn sat_add_u64(a: u64, n: usize) -> (r: u64)
    ensures
        r == sat_u64(a + n),
{
    if n as u64 > u64::MAX - a {
        u64::MAX
    } else {
        a + n as u64
    }
}

/// Files one node in every table; returns its field lengths.
fn index_node(t: &mut Tables, did: DocId, node: &HeadingNode) -> (r: (u16, u16, u16))
    ensures
        heading_entries(final(t).heading) == grouped_onto(
            heading_entries(old(t).heading),
            heading_pairs_of(did.0, *node),
        ),
        trigram_entries(final(t).trigrams) == grouped_onto(
            trigram_entries(old(t).trigrams),
            trigram_pairs_of(did.0, *node),
        ),
        backlink_entries(final(t).backlinks) == grouped_onto(
            backlink_entries(old(t).backlinks),
            backlink_pairs_of(did.0, *node),
        ),
        inverted_entries(final(t).inverted) == node_inverted(
            inverted_entries(old(t).inverted),
            did.0,
            *node,
        ),
        path_entries(final(t).paths) == path_entries(old(t).paths),
        final(t).title@ == old(t).title@,
        final(t).path@ == old(t).path@,
        final(t).summary@ == old(t).summary@,
        final(t).total_nodes == sat_u32(old(t).total_nodes + 1),
        final(t).title_total == sat_u64(old(t).title_total + field_tokens(*node, Field::Title).len()),
        final(t).path_total == sat_u64(old(t).path_total + field_tokens(*node, Field::Path).len()),
        final(t).summary_total == sat_u64(
            old(t).summary_total + field_tokens(*node, Field::Summary).len(),
        ),
        r.0 == sat_u16(field_tokens(*node, Field::Title).len()),
        r.1 == sat_u16(field_tokens(*node, Field::Path).len()),
        r.2 == sat_u16(field_tokens(*node, Field::Summary).len()),
{
    let ghost h0 = heading_entries(t.heading);
    t.heading.push(&node.path, did, node.id);
    proof {
        let hp = heading_pairs_of(did.0, *node);
        assert(hp.drop_last() =~= Seq::<(Seq<Seq<char>>, (u32, u32))>::empty());
        assert(grouped_onto(h0, hp.drop_last()) == h0);
        assert(heading_entries(t.heading) == grouped_onto(h0, hp));
    }
    let ghost h1 = heading_entries(t.heading);
    add_node_trigrams(&mut t.trigrams, did, node);
    add_node_backlinks(&mut t.backlinks, did, node);
    let title_tokens = tokenize(node.title.as_str());
    let path_tokens = tokenize_path(&node.path.0);
    let summary_tokens = tokenize(node.summary.as_str());
    proof {
        assert(node.path.0@.map_values(|s: String| s@) == node.path@);
    }
    add_postings(&mut t.inverted, did, node.id, Field::Title, &title_tokens);
    add_postings(&mut t.inverted, did, node.id, Field::Path, &path_tokens);
    add_postings(&mut t.inverted, did, node.id, Field::Summary, &summary_tokens);
    assert(heading_entries(t.heading) == h1);
    t.total_nodes = if t.total_nodes < u32::MAX {
        t.total_nodes + 1
    } else {
        u32::MAX
    };
    t.title_total = sat_add_u64(t.title_total, title_tokens.len());
    t.path_total = sat_add_u64(t.path_total, path_tokens.len());
    t.summary_total = sat_add_u64(t.summary_total, summary_tokens.len());
    (
        sat_len_u16(title_tokens.len()),
        sat_len_u16(path_tokens.len()),
        sat_len_u16(summary_tokens.len()),
    )
}


pub open spec fn node_lengths(ns: Seq<HeadingNode>, f: Field, k: int) -> Seq<u16> {
    Seq::new(k as nat, |j: int| sat_u16(field_tokens(ns[j], f).len()))
}

proof fn lemma_docs_step(docs: Seq<DocumentIndex>, di: int)
    requires
        0 <= di < docs.len(),
    ensures
        docs.take(di + 1).drop_last() == docs.take(di),
        docs.take(di + 1).last() == docs[di],
        docs.take(di + 1).len() == di + 1,
{
    assert(docs.take(di + 1).drop_last() =~= docs.take(di));
}

proof fn lemma_nodes_step(ns: Seq<HeadingNode>, ni: int)
    requires
        0 <= ni < ns.len(),
    ensures
        ns.take(ni + 1).drop_last() == ns.take(ni),
        ns.take(ni + 1).last() == ns[ni],
{
    assert(ns.take(ni + 1).drop_last() =~= ns.take(ni));
}

proof fn lemma_lengths_step(ds: Seq<DocumentIndex>, di: int, f: Field, lens: Seq<Seq<u16>>, row: Seq<u16>)
    requires
        0 <= di < ds.len(),
        lens == lengths_of(ds.take(di), f),
        row == node_lengths(ds[di].nodes@, f, ds[di].nodes@.len() as int),
    ensures
        lens.push(row) == lengths_of(ds.take(di + 1), f),
{
    let next = ds.take(di + 1);
    assert forall|k: int| 0 <= k < next.len() implies #[trigger] lens.push(row)[k] == lengths_of(next, f)[k] by {
        if k < di {
            assert(next[k] == ds.take(di)[k]);
            assert(lens[k] == lengths_of(ds.take(di), f)[k]);
            assert(lengths_of(next, f)[k] =~= lengths_of(ds.take(di), f)[k]);
        } else {
            assert(next[k] == ds[di]);
            assert(lengths_of(next, f)[k] =~= row);
        }
    }
    assert(lens.push(row) =~= lengths_of(next, f));
}

/// Files every node of document `di` (and its path) in the tables.
#[verifier::rlimit(60)]
fn index_doc(t: &mut Tables, docs: &Vec<DocumentIndex>, di: usize)
    requires
        di < docs@.len(),
        docs@.len() <= u32::MAX,
        tables_for(*old(t), docs@.take(di as int)),
    ensures
        tables_for(*final(t), docs@.take(di + 1)),
{
    let ghost ds = docs@;
    let ghost prev = ds.take(di as int);
    let did = DocId(di as u32);
    let doc = &docs[di];
    let ghost ns = doc.nodes@;
    t.paths.insert(doc.rel_path.clone(), did);
    let mut dt: Vec<u16> = Vec::new();
    let mut dp: Vec<u16> = Vec::new();
    let mut dsum: Vec<u16> = Vec::new();
    let ghost hp0 = docs_pairs(heading_fn(), prev);
    let ghost tp0 = docs_pairs(trigram_fn(), prev);
    let ghost bp0 = docs_pairs(backlink_fn(), prev);
    let ghost inv0 = docs_inverted(prev);
    proof {
        assert(ns.take(0) =~= Seq::<HeadingNode>::empty());
        assert(hp0 + nodes_pairs(heading_fn(), did.0, ns.take(0)) =~= hp0);
        assert(tp0 + nodes_pairs(trigram_fn(), did.0, ns.take(0)) =~= tp0);
        assert(bp0 + nodes_pairs(backlink_fn(), did.0, ns.take(0)) =~= bp0);
        assert(dt@ =~= node_lengths(ns, Field::Title, 0));
        assert(dp@ =~= node_lengths(ns, Field::Path, 0));
        assert(dsum@ =~= node_lengths(ns, Field::Summary, 0));
    }
    let mut ni: usize = 0;
    while ni < doc.nodes.len()
        invariant
            ni <= ns.len(),
            ns == doc.nodes@,
            did.0 == di,
            hp0 == docs_pairs(heading_fn(), prev),
            tp0 == docs_pairs(trigram_fn(), prev),
            bp0 == docs_pairs(backlink_fn(), prev),
            inv0 == docs_inverted(prev),
            heading_entries(t.heading) == grouped_onto(
                Map::empty(),
                hp0 + nodes_pairs(heading_fn(), did.0, ns.take(ni as int)),
            ),
            trigram_entries(t.trigrams) == grouped_onto(
                Map::empty(),
                tp0 + nodes_pairs(trigram_fn(), did.0, ns.take(ni as int)),
            ),
            backlink_entries(t.backlinks) == grouped_onto(
                Map::empty(),
                bp0 + nodes_pairs(backlink_fn(), did.0, ns.take(ni as int)),
            ),
            inverted_entries(t.inverted) == nodes_inverted(inv0, did.0, ns.take(ni as int)),
            path_entries(t.paths) == docs_paths(prev).insert(doc.rel_path@, did.0),
            lens_view(t.title@) == lengths_of(prev, Field::Title),
            lens_view(t.path@) == lengths_of(prev, Field::Path),
            lens_view(t.summary@) == lengths_of(prev, Field::Summary),
            dt@ == node_lengths(ns, Field::Title, ni as int),
            dp@ == node_lengths(ns, Field::Path, ni as int),
            dsum@ == node_lengths(ns, Field::Summary, ni as int),
            t.total_nodes == sat_u32(node_count(prev) + ni),
            t.title_total == sat_u64((token_total(prev, Field::Title) + nodes_token_total(
                ns.take(ni as int),
                Field::Title,
            )) as int),
            t.path_total == sat_u64((token_total(prev, Field::Path) + nodes_token_total(
                ns.take(ni as int),
                Field::Path,
            )) as int),
            t.summary_total == sat_u64((token_total(prev, Field::Summary) + nodes_token_total(
                ns.take(ni as int),
                Field::Summary,
            )) as int),
        decreases ns.len() - ni,
    {
        let node = &doc.nodes[ni];
        let (lt, lp, ls) = index_node(t, did, node);
        dt.push(lt);
        dp.push(lp);
        dsum.push(ls);
        proof {
            lemma_nodes_step(ns, ni as int);
            let hs = ns.take(ni as int);
            assert(nodes_pairs(heading_fn(), did.0, ns.take(ni + 1)) == nodes_pairs(heading_fn(), did.0, hs)
                + heading_pairs_of(did.0, ns[ni as int]));
            assert(nodes_pairs(trigram_fn(), did.0, ns.take(ni + 1)) == nodes_pairs(trigram_fn(), did.0, hs)
                + trigram_pairs_of(did.0, ns[ni as int]));
            assert(nodes_pairs(backlink_fn(), did.0, ns.take(ni + 1)) == nodes_pairs(backlink_fn(), did.0, hs)
                + backlink_pairs_of(did.0, ns[ni as int]));
            lemma_grouped_concat(
                Map::empty(),
                hp0 + nodes_pairs(heading_fn(), did.0, hs),
                heading_pairs_of(did.0, ns[ni as int]),
            );
            assert(hp0 + nodes_pairs(heading_fn(), did.0, ns.take(ni + 1)) =~= hp0 + nodes_pairs(
                heading_fn(),
                did.0,
                hs,
            ) + heading_pairs_of(did.0, ns[ni as int]));
            lemma_grouped_concat(
                Map::empty(),
                tp0 + nodes_pairs(trigram_fn(), did.0, hs),
                trigram_pairs_of(did.0, ns[ni as int]),
            );
            assert(tp0 + nodes_pairs(trigram_fn(), did.0, ns.take(ni + 1)) =~= tp0 + nodes_pairs(
                trigram_fn(),
                did.0,
                hs,
            ) + trigram_pairs_of(did.0, ns[ni as int]));
            lemma_grouped_concat(
                Map::empty(),
                bp0 + nodes_pairs(backlink_fn(), did.0, hs),
                backlink_pairs_of(did.0, ns[ni as int]),
            );
            assert(bp0 + nodes_pairs(backlink_fn(), did.0, ns.take(ni + 1)) =~= bp0 + nodes_pairs(
                backlink_fn(),
                did.0,
                hs,
            ) + backlink_pairs_of(did.0, ns[ni as int]));
            assert(dt@ =~= node_lengths(ns, Field::Title, ni + 1));
            assert(dp@ =~= node_lengths(ns, Field::Path, ni + 1));
            assert(dsum@ =~= node_lengths(ns, Field::Summary, ni + 1));
        }
        ni = ni + 1;
    }
    let ghost inv_nodes = inverted_entries(t.inverted);
    if doc.nodes.len() > 0 {
        let toks = match doc.description() {
            Some(d) => tokenize(d.as_str()),
            None => Vec::new(),
        };
        proof {
            assert(string_views(toks@) =~= description_tokens(*doc));
        }
        add_postings(&mut t.inverted, did, doc.nodes[0].id, Field::Description, &toks);
    }
    let ghost lt0 = lens_view(t.title@);
    let ghost lp0 = lens_view(t.path@);
    let ghost ls0 = lens_view(t.summary@);
    let ghost rt = dt@;
    let ghost rp = dp@;
    let ghost rs = dsum@;
    t.title.push(dt);
    t.path.push(dp);
    t.summary.push(dsum);
    proof {
        assert(lens_view(t.title@) =~= lt0.push(rt));
        assert(lens_view(t.path@) =~= lp0.push(rp));
        assert(lens_view(t.summary@) =~= ls0.push(rs));
        lemma_lengths_step(ds, di as int, Field::Title, lt0, rt);
        lemma_lengths_step(ds, di as int, Field::Path, lp0, rp);
        lemma_lengths_step(ds, di as int, Field::Summary, ls0, rs);
        lemma_docs_step(ds, di as int);
        let next = ds.take(di + 1);
        assert(ns.take(ns.len() as int) =~= ns);
        assert(docs_paths(next) == docs_paths(prev).insert(doc.rel_path@, did.0));
        assert(docs_pairs(heading_fn(), next) == hp0 + nodes_pairs(heading_fn(), did.0, ns));
        assert(docs_pairs(trigram_fn(), next) == tp0 + nodes_pairs(trigram_fn(), did.0, ns));
        assert(docs_pairs(backlink_fn(), next) == bp0 + nodes_pairs(backlink_fn(), did.0, ns));
        assert(inv_nodes == nodes_inverted(inv0, did.0, ns));
        assert(docs_inverted(next) == doc_inverted(inv0, did.0, *doc));
        assert(lens_view(t.title@) =~= lengths_of(next, Field::Title));
        assert(lens_view(t.path@) =~= lengths_of(next, Field::Path));
        assert(lens_view(t.summary@) =~= lengths_of(next, Field::Summary));
    }
}

/// Every derived table of `docs`, built from scratch.
pub fn build_tables(docs: &Vec<DocumentIndex>) -> (t: Tables)
    requires
        docs@.len() <= u32::MAX,
    ensures
        tables_for(t, docs@),
{
    let mut t = Tables {
        heading: HeadingLookup::new(),
        trigrams: TrigramIndex::new(),
        paths: PathIndex::new(),
        backlinks: BacklinkIndex::new(),
        inverted: InvertedIndex::new(),
        title: Vec::new(),
        path: Vec::new(),
        summary: Vec::new(),
        total_nodes: 0,
        title_total: 0,
        path_total: 0,
        summary_total: 0,
    };
    proof {
        let e = docs@.take(0);
        assert(e =~= Seq::<DocumentIndex>::empty());
        assert(heading_entries(t.heading) =~= heading_table(e));
        assert(trigram_entries(t.trigrams) =~= trigram_table(e));
        assert(path_entries(t.paths) =~= docs_paths(e));
        assert(backlink_entries(t.backlinks) =~= backlink_table(e));
        assert(inverted_entries(t.inverted) =~= docs_inverted(e));
        assert(lens_view(t.title@) =~= lengths_of(e, Field::Title));
        assert(lens_view(t.path@) =~= lengths_of(e, Field::Path));
        assert(lens_view(t.summary@) =~= lengths_of(e, Field::Summary));
    }
    let mut di: usize = 0;
    while di < docs.len()
        invariant
            di <= docs@.len(),
            docs@.len() <= u32::MAX,
            tables_for(t, docs@.take(di as int)),
        decreases docs@.len() - di,
    {
        index_doc(&mut t, docs, di);
        di = di + 1;
    }
    assert(docs@.take(di as int) =~= docs@);
    t
}

} // verus!
