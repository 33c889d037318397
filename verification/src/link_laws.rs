//! What the rebuilt lookup tables find. Links are found whatever shape
//! they were written in: a link to a page written bare, inside a folder,
//! with a `.md` / `.markdown` extension or with a `#fragment` is filed under
//! the page's own key, and a backlinks lookup for the page reads it. Every
//! node is filed under its heading path, and the node count is the
//! documents' own.

use vstd::prelude::*;

use crate::corpus::{
    backlink_entries, grouped_onto, heading_entries, inverted_entries, nodes_in, path_entries, push_to,
    tables_current, trigram_entries, CorpusIndex,
};
use crate::derived::{
    backlink_fn, backlink_pairs_of, backlink_table, docs_pairs, flatten_seqs, heading_fn,
    heading_pairs_of, heading_table, node_count, node_link_keys, nodes_pairs, pairs_with, sat_u32,
};
use crate::model::{DocumentIndex, HeadingNode};
use crate::service::{backlinks_of, postings_under};
use crate::text::first_index_of;
use crate::tokens::{
    after_last, before_first, candidates_from, lemma_link_keys_members, lemma_sorted_unique,
    last_index_of, link_key_candidates, link_keys, markdown_ext, md_ext, stems, str_lowercase,
    strictly_sorted, strip_suffix,
};
use crate::types::Link;

verus! {

/// No `c` in `s`.
pub open spec fn no_char(s: Seq<char>, c: char) -> bool {
    forall|i: int| 0 <= i < s.len() ==> s[i] != c
}

/// A link target to page `p` in one of its shapes: optionally inside
/// folder `f`, with extension `e`, optionally with fragment `h`.
pub open spec fn link_shape(f: Seq<char>, p: Seq<char>, e: Seq<char>, h: Seq<char>, in_folder: bool, with_fragment: bool) -> Seq<char> {
    (if in_folder {
        f + seq!['/']
    } else {
        Seq::empty()
    }) + p + e + (if with_fragment {
        seq!['#'] + h
    } else {
        Seq::empty()
    })
}

/// The extensions a page may be linked with.
pub open spec fn page_extension(e: Seq<char>) -> bool {
    e == Seq::<char>::empty() || e == md_ext() || e == markdown_ext()
}

/// A page name as a query names it: lowercase `p`, with no folder or
/// fragment separator and no markdown extension of its own.
pub open spec fn bare_page(q: Seq<char>, p: Seq<char>) -> bool {
    &&& str_lowercase(q) == p
    &&& no_char(p, '/')
    &&& no_char(p, '#')
    &&& strip_suffix(p, md_ext()) is None
    &&& strip_suffix(p, markdown_ext()) is None
}

/// Link target `t` points at page `p` in one of the shapes.
pub open spec fn points_at(t: Seq<char>, p: Seq<char>, f: Seq<char>, e: Seq<char>, h: Seq<char>, in_folder: bool, with_fragment: bool) -> bool {
    &&& no_char(f, '#')
    &&& page_extension(e)
    &&& str_lowercase(t) == link_shape(f, p, e, h, in_folder, with_fragment)
}

proof fn lemma_first_none(s: Seq<char>, c: char)
    requires
        no_char(s, c),
    ensures
        first_index_of(s, c) is None,
{
}

proof fn lemma_first_at(s: Seq<char>, c: char, n: int)
    requires
        0 <= n < s.len(),
        s[n] == c,
        forall|j: int| 0 <= j < n ==> s[j] != c,
    ensures
        first_index_of(s, c) == Some(n),
{
    let i = choose|i: int| 0 <= i < s.len() && s[i] == c && forall|j: int| 0 <= j < i ==> s[j] != c;
    assert(0 <= i < s.len() && s[i] == c);
    if i < n {
        assert(s[i] != c);
    }
    if i > n {
        assert(s[n] != c);
    }
}

proof fn lemma_last_none(s: Seq<char>, c: char)
    requires
        no_char(s, c),
    ensures
        last_index_of(s, c) is None,
    decreases s.len(),
{
    if s.len() > 0 {
        lemma_last_none(s.drop_last(), c);
    }
}

proof fn lemma_last_at(x: Seq<char>, c: char, y: Seq<char>)
    requires
        no_char(y, c),
    ensures
        last_index_of(x + seq![c] + y, c) == Some(x.len() as int),
    decreases y.len(),
{
    let s = x + seq![c] + y;
    if y.len() == 0 {
        assert(s.last() == c);
    } else {
        assert(s.last() == y.last());
        assert(s.drop_last() =~= x + seq![c] + y.drop_last());
        lemma_last_at(x, c, y.drop_last());
    }
}

proof fn lemma_extension_chars(e: Seq<char>)
    requires
        page_extension(e),
    ensures
        no_char(e, '/'),
        no_char(e, '#'),
{
    assert forall|i: int| 0 <= i < e.len() implies e[i] != '/' && e[i] != '#' by {
        if e == md_ext() {
            assert(i == 0 || i == 1 || i == 2);
        } else if e == markdown_ext() {
            assert(0 <= i < 9);
        }
    }
}

proof fn lemma_concat_no_char(a: Seq<char>, b: Seq<char>, c: char)
    requires
        no_char(a, c),
        no_char(b, c),
    ensures
        no_char(a + b, c),
{
    assert forall|i: int| 0 <= i < (a + b).len() implies (a + b)[i] != c by {
        if i < a.len() {
            assert((a + b)[i] == a[i]);
        } else {
            assert((a + b)[i] == b[i - a.len()]);
        }
    }
}

/// The page's stem is among the keys of `p + e`.
proof fn lemma_stem_key(p: Seq<char>, e: Seq<char>, k3: Seq<Seq<char>>, nf: Seq<char>)
    requires
        page_extension(e),
        e != Seq::<char>::empty(),
    ensures
        (k3 + stems(p + e) + stems(nf)).contains(p),
{
    let bn = p + e;
    if e == md_ext() {
        assert(bn.skip(bn.len() - 3) =~= md_ext());
        assert(bn.take(bn.len() - 3) =~= p);
        assert(stems(bn)[0] == p);
    } else {
        assert(e == markdown_ext());
        assert(bn.skip(bn.len() - 3)[0] == 'o');
        assert(md_ext()[0] == '.');
        assert(strip_suffix(bn, md_ext()) is None);
        assert(bn.skip(bn.len() - 9) =~= markdown_ext());
        assert(bn.take(bn.len() - 9) =~= p);
        assert(stems(bn) =~= seq![p]);
    }
    let all = k3 + stems(bn) + stems(nf);
    assert(all[k3.len() as int] == p);
}

/// Every shape of a link to page `p` is filed under the key `p`, and a
/// query naming the page has `p` as its only key.
///
/// `[[Page]]`, `[[notes/Page]]`, `[[Page.md]]`, `[[Page#Intro]]` and
/// `[Page](notes/Page.markdown#Intro)` all reach a lookup for `Page`.
pub proof fn law_link_shapes_share_key(
    t: Seq<char>,
    q: Seq<char>,
    p: Seq<char>,
    f: Seq<char>,
    e: Seq<char>,
    h: Seq<char>,
    in_folder: bool,
    with_fragment: bool,
)
    requires
        bare_page(q, p),
        points_at(t, p, f, e, h, in_folder, with_fragment),
    ensures
        link_keys(q) == seq![p],
        link_keys(t).contains(p),
{
    // The query's keys.
    lemma_first_none(p, '#');
    lemma_last_none(p, '/');
    assert(before_first(p, '#') == p);
    assert(after_last(p, '/') == p);
    assert(stems(p) =~= Seq::<Seq<char>>::empty());
    assert(link_key_candidates(q) =~= seq![p]);
    lemma_link_keys_members(q);
    assert(strictly_sorted(seq![p]));
    assert forall|k: Seq<char>| link_keys(q).contains(k) <==> seq![p].contains(k) by {
        if k == p {
            assert(seq![p][0] == k);
        }
    }
    lemma_sorted_unique(link_keys(q), seq![p]);

    // The link's keys.
    lemma_extension_chars(e);
    let folder = if in_folder {
        f + seq!['/']
    } else {
        Seq::<char>::empty()
    };
    let stem = folder + p + e;
    let base = str_lowercase(t);
    assert(no_char(folder, '#'));
    lemma_concat_no_char(folder, p, '#');
    lemma_concat_no_char(folder + p, e, '#');
    if with_fragment {
        assert(base =~= stem + (seq!['#'] + h));
        assert(base[stem.len() as int] == '#');
        assert forall|j: int| 0 <= j < stem.len() implies base[j] != '#' by {
            assert(base[j] == stem[j]);
        }
        lemma_first_at(base, '#', stem.len() as int);
        assert(base.take(stem.len() as int) =~= stem);
    } else {
        assert(base =~= stem);
        lemma_first_none(base, '#');
    }
    let nf = before_first(base, '#');
    assert(nf == stem);
    lemma_concat_no_char(p, e, '/');
    if in_folder {
        assert(stem =~= f + seq!['/'] + (p + e));
        lemma_last_at(f, '/', p + e);
        assert(stem.skip(f.len() as int + 1) =~= p + e);
    } else {
        assert(stem =~= p + e);
        lemma_last_none(stem, '/');
    }
    let bn = after_last(nf, '/');
    assert(bn == p + e);
    let c = link_key_candidates(t);
    assert(c == candidates_from(base, nf, bn));
    let k1 = seq![base];
    let k2 = if nf != base {
        k1.push(nf)
    } else {
        k1
    };
    let k3 = if bn != nf {
        k2.push(bn)
    } else {
        k2
    };
    assert(c == k3 + stems(bn) + stems(nf));
    if e == Seq::<char>::empty() {
        assert(bn =~= p);
        assert(k3.contains(bn)) by {
            if bn != nf {
                assert(k3[k2.len() as int] == bn);
            } else if nf != base {
                assert(k3[1] == bn);
            } else {
                assert(k3[0] == bn);
            }
        }
        let j = choose|j: int| 0 <= j < k3.len() && k3[j] == bn;
        assert(c[j] == p);
    } else {
        lemma_stem_key(p, e, k3, nf);
    }
    assert(c.contains(p));
    lemma_link_keys_members(t);
}

// ---------------------------------------------------------------------------
// From keys to the backlink table
// ---------------------------------------------------------------------------

proof fn lemma_grouped_contains<K, V>(m: Map<K, Seq<V>>, pairs: Seq<(K, V)>, idx: int)
    requires
        0 <= idx < pairs.len(),
    ensures
        grouped_onto(m, pairs).dom().contains(pairs[idx].0),
        grouped_onto(m, pairs)[pairs[idx].0].contains(pairs[idx].1),
    decreases pairs.len(),
{
    let init = pairs.drop_last();
    let g0 = grouped_onto(m, init);
    let (k, v) = pairs.last();
    assert(grouped_onto(m, pairs) == push_to(g0, k, v));
    let key = pairs[idx].0;
    let val = pairs[idx].1;
    if idx == pairs.len() - 1 {
        if g0.dom().contains(k) {
            assert(g0[k].push(v)[g0[k].len() as int] == v);
        } else {
            assert(seq![v][0] == v);
        }
    } else {
        assert(init[idx] == pairs[idx]);
        lemma_grouped_contains(m, init, idx);
        if key == k {
            let w = choose|w: int| 0 <= w < g0[key].len() && g0[key][w] == val;
            assert(g0[key].push(v)[w] == val);
        }
    }
}

proof fn lemma_nodes_pairs_contains<K>(f: spec_fn(u32, HeadingNode) -> Seq<(K, (u32, u32))>, d: u32, ns: Seq<HeadingNode>, i: int, x: (K, (u32, u32)))
    requires
        0 <= i < ns.len(),
        f(d, ns[i]).contains(x),
    ensures
        nodes_pairs(f, d, ns).contains(x),
    decreases ns.len(),
{
    let init = ns.drop_last();
    let a = nodes_pairs(f, d, init);
    let b = f(d, ns.last());
    assert(nodes_pairs(f, d, ns) == a + b);
    if i == ns.len() - 1 {
        let w = choose|w: int| 0 <= w < b.len() && b[w] == x;
        assert((a + b)[a.len() + w] == x);
    } else {
        assert(init[i] == ns[i]);
        lemma_nodes_pairs_contains(f, d, init, i, x);
        let w = choose|w: int| 0 <= w < a.len() && a[w] == x;
        assert((a + b)[w] == x);
    }
}

proof fn lemma_docs_pairs_contains<K>(f: spec_fn(u32, HeadingNode) -> Seq<(K, (u32, u32))>, docs: Seq<DocumentIndex>, d: int, x: (K, (u32, u32)))
    requires
        0 <= d < docs.len(),
        nodes_pairs(f, d as u32, docs[d].nodes@).contains(x),
    ensures
        docs_pairs(f, docs).contains(x),
    decreases docs.len(),
{
    let init = docs.drop_last();
    let a = docs_pairs(f, init);
    let b = nodes_pairs(f, (docs.len() - 1) as u32, docs.last().nodes@);
    assert(docs_pairs(f, docs) == a + b);
    if d == docs.len() - 1 {
        let w = choose|w: int| 0 <= w < b.len() && b[w] == x;
        assert((a + b)[a.len() + w] == x);
    } else {
        assert(init[d] == docs[d]);
        lemma_docs_pairs_contains(f, init, d, x);
        let w = choose|w: int| 0 <= w < a.len() && a[w] == x;
        assert((a + b)[w] == x);
    }
}

proof fn lemma_flatten_contains<T>(ss: Seq<Seq<T>>, j: int, k: T)
    requires
        0 <= j < ss.len(),
        ss[j].contains(k),
    ensures
        flatten_seqs(ss).contains(k),
    decreases ss.len(),
{
    let init = ss.drop_last();
    let a = flatten_seqs(init);
    let b = ss.last();
    assert(flatten_seqs(ss) == a + b);
    if j == ss.len() - 1 {
        let w = choose|w: int| 0 <= w < b.len() && b[w] == k;
        assert((a + b)[a.len() + w] == k);
    } else {
        assert(init[j] == ss[j]);
        lemma_flatten_contains(init, j, k);
        let w = choose|w: int| 0 <= w < a.len() && a[w] == k;
        assert((a + b)[w] == k);
    }
}

/// A section with a link to page `p`, in any of the shapes, is among the
/// sections that a backlinks lookup for the page reads: the postings filed
/// under the query's keys hold it.
pub proof fn law_backlinks_any_shape(
    c: CorpusIndex,
    d: int,
    i: int,
    j: int,
    q: Seq<char>,
    p: Seq<char>,
    f: Seq<char>,
    e: Seq<char>,
    h: Seq<char>,
    in_folder: bool,
    with_fragment: bool,
)
    requires
        tables_current(c),
        0 <= d < c.documents@.len(),
        d <= u32::MAX,
        0 <= i < c.documents@[d].nodes@.len(),
        0 <= j < c.documents@[d].nodes@[i].outbound_links@.len(),
        bare_page(q, p),
        points_at(
            c.documents@[d].nodes@[i].outbound_links@[j].target@,
            p,
            f,
            e,
            h,
            in_folder,
            with_fragment,
        ),
    ensures
        postings_under(backlink_entries(c.backlinks), link_keys(q)).contains(
            (d as u32, c.documents@[d].nodes@[i].id.0),
        ),
{
    let docs = c.documents@;
    let n = docs[d].nodes@[i];
    let l: Link = n.outbound_links@[j];
    law_link_shapes_share_key(l.target@, q, p, f, e, h, in_folder, with_fragment);
    // The node files its link under `p`.
    let per_link = n.outbound_links@.map_values(|x: Link| link_keys(x.target@));
    assert(per_link[j] == link_keys(l.target@));
    lemma_flatten_contains(per_link, j, p);
    assert(node_link_keys(n).contains(p));
    let keys = node_link_keys(n);
    let at = (d as u32, n.id.0);
    let w = choose|w: int| 0 <= w < keys.len() && keys[w] == p;
    let pairs = pairs_with(keys, at);
    assert(pairs[w] == (p, at));
    assert(backlink_pairs_of(d as u32, n).contains((p, at)));
    assert(backlink_fn()(d as u32, n) == backlink_pairs_of(d as u32, n));
    lemma_nodes_pairs_contains(backlink_fn(), d as u32, docs[d].nodes@, i, (p, at));
    lemma_docs_pairs_contains(backlink_fn(), docs, d, (p, at));
    let all = docs_pairs(backlink_fn(), docs);
    let idx = choose|idx: int| 0 <= idx < all.len() && all[idx] == (p, at);
    lemma_grouped_contains(Map::empty(), all, idx);
    let m = backlink_entries(c.backlinks);
    assert(m == backlink_table(docs));
    assert(m.dom().contains(p) && m[p].contains(at));
    let ks = seq![p];
    assert(ks.drop_last() =~= Seq::<Seq<char>>::empty());
    assert(ks.last() == p);
    assert(postings_under(m, Seq::<Seq<char>>::empty()) == Seq::<(u32, u32)>::empty());
    let under = postings_under(m, ks);
    assert(under == postings_under(m, ks.drop_last()) + m[p]);
    assert(under =~= m[p]);
}

/// After `rebuild_indices`, the heading table files every node of every
/// document under its heading path.
pub proof fn law_heading_lookup_finds_every_node(c: CorpusIndex, d: int, i: int)
    requires
        tables_current(c),
        0 <= d < c.documents@.len(),
        d <= u32::MAX,
        0 <= i < c.documents@[d].nodes@.len(),
    ensures
        heading_entries(c.heading_lookup).dom().contains(c.documents@[d].nodes@[i].path@),
        heading_entries(c.heading_lookup)[c.documents@[d].nodes@[i].path@].contains(
            (d as u32, c.documents@[d].nodes@[i].id.0),
        ),
{
    let docs = c.documents@;
    let n = docs[d].nodes@[i];
    let x = (n.path@, (d as u32, n.id.0));
    assert(heading_fn()(d as u32, n) == heading_pairs_of(d as u32, n));
    assert(heading_pairs_of(d as u32, n)[0] == x);
    lemma_nodes_pairs_contains(heading_fn(), d as u32, docs[d].nodes@, i, x);
    lemma_docs_pairs_contains(heading_fn(), docs, d, x);
    let all = docs_pairs(heading_fn(), docs);
    let idx = choose|idx: int| 0 <= idx < all.len() && all[idx] == x;
    lemma_grouped_contains(Map::empty(), all, idx);
    assert(heading_entries(c.heading_lookup) == heading_table(docs));
}

proof fn lemma_node_counts_agree(docs: Seq<DocumentIndex>)
    ensures
        nodes_in(docs) == node_count(docs),
    decreases docs.len(),
{
    if docs.len() > 0 {
        lemma_node_counts_agree(docs.drop_last());
    }
}

/// After `rebuild_indices`, the ranking's node count is the number of
/// nodes over all documents (saturating at `u32::MAX`).
pub proof fn law_node_count_is_the_documents(c: CorpusIndex)
    requires
        tables_current(c),
    ensures
        c.field_lengths.total_nodes == sat_u32(nodes_in(c.documents@) as int),
{
    lemma_node_counts_agree(c.documents@);
}

/// Two spellings of a target that differ only in case find the same
/// backlinks.
pub proof fn law_backlinks_ignore_case(c: CorpusIndex, t1: Seq<char>, t2: Seq<char>, limit: usize)
    requires
        str_lowercase(t1) == str_lowercase(t2),
    ensures
        backlinks_of(c, t1, limit) == backlinks_of(c, t2, limit),
{
    assert(link_key_candidates(t1) == link_key_candidates(t2));
    assert(link_keys(t1) == link_keys(t2));
}

/// The lookup tables depend on the documents alone: two corpora with the
/// same documents, each with its tables rebuilt, hold the same tables.
pub proof fn law_tables_depend_on_documents(c1: CorpusIndex, c2: CorpusIndex)
    requires
        tables_current(c1),
        tables_current(c2),
        c1.documents@ == c2.documents@,
    ensures
        heading_entries(c1.heading_lookup) == heading_entries(c2.heading_lookup),
        trigram_entries(c1.title_trigrams) == trigram_entries(c2.title_trigrams),
        path_entries(c1.path_to_doc) == path_entries(c2.path_to_doc),
        backlink_entries(c1.backlinks) == backlink_entries(c2.backlinks),
        inverted_entries(c1.inverted) == inverted_entries(c2.inverted),
        c1.field_lengths.total_nodes == c2.field_lengths.total_nodes,
        c1.field_lengths.title_total == c2.field_lengths.title_total,
        c1.field_lengths.path_total == c2.field_lengths.path_total,
        c1.field_lengths.summary_total == c2.field_lengths.summary_total,
{
}

} // verus!
