//! The corpus map: the folder hierarchy implied by document paths, each
//! folder with its subfolders (by name) and the documents directly in it
//! (by path), each document with its curated hooks and a heading preview.

use vstd::prelude::*;

use crate::corpus::CorpusIndex;
use crate::export::{keys_ok, order_view, ranked_before, sort_ids, sort_keys, str_less, str_lt};
use crate::model::{age_in_days, description_key, DocumentIndex};
use crate::okf::{deref_opt, opt_string_view, status_key, string_field_of, type_key};
use crate::text::{chars_of, has_prefix};
use crate::toc::{corpus_walkable, doc_headings, headings_preview, opt_str_view, under_prefix};
use crate::service::concat;
use crate::tokens::{chars_eq, string_of_chars, string_views};
use crate::tools::{pieces, split_pieces, CorpusFolder, CorpusMapDoc, CorpusMapRequest, CorpusMapResponse};

verus! {

// ---------------------------------------------------------------------------
// The shape of the map
// ---------------------------------------------------------------------------

/// The folder segments of a path: every `/`-separated piece but the last.
pub open spec fn dir_of(rel: Seq<char>) -> Seq<Seq<char>> {
    pieces(rel, '/').drop_last()
}

pub open spec fn dir_at(docs: Seq<DocumentIndex>, x: int) -> Seq<Seq<char>> {
    dir_of(docs[x].rel_path@)
}

/// A folder's path: each segment followed by `/` (empty for the root).
pub open spec fn folder_path(p: Seq<Seq<char>>) -> Seq<char>
    decreases p.len(),
{
    if p.len() == 0 {
        Seq::empty()
    } else {
        folder_path(p.drop_last()) + p.last() + seq!['/']
    }
}

/// The documents of `ids`, in order, whose folder continues with `name`
/// after `depth` segments.
pub open spec fn under_name(docs: Seq<DocumentIndex>, ids: Seq<int>, depth: int, name: Seq<char>) -> Seq<int>
    decreases ids.len(),
{
    if ids.len() == 0 {
        Seq::empty()
    } else {
        let x = ids.last();
        under_name(docs, ids.drop_last(), depth, name) + if dir_at(docs, x).len() > depth && dir_at(
            docs,
            x,
        )[depth] == name {
            seq![x]
        } else {
            Seq::empty()
        }
    }
}

/// Some document of `ids` lies in a folder `name` below the first `depth`
/// segments.
pub open spec fn has_subfolder(docs: Seq<DocumentIndex>, ids: Seq<int>, depth: int, name: Seq<char>) -> bool {
    exists|k: int|
        0 <= k < ids.len() && dir_at(docs, #[trigger] ids[k]).len() > depth && dir_at(docs, ids[k])[depth]
            == name
}

/// `ns` lists the subfolder names, each once, in increasing order.
pub open spec fn subfolder_names(ns: Seq<Seq<char>>, docs: Seq<DocumentIndex>, ids: Seq<int>, depth: int) -> bool {
    &&& forall|a: int, b: int| 0 <= a < b < ns.len() ==> str_lt(#[trigger] ns[a], #[trigger] ns[b])
    &&& forall|name: Seq<char>| ns.contains(name) <==> has_subfolder(docs, ids, depth, name)
}

/// `ord` lists the documents of `ids` that lie directly in the folder (no
/// further segments), by path.
pub open spec fn direct_docs(ord: Seq<int>, docs: Seq<DocumentIndex>, ids: Seq<int>, depth: int) -> bool {
    &&& forall|x: int| ord.contains(x) <==> (ids.contains(x) && dir_at(docs, x).len() == depth)
    &&& forall|a: int, b: int|
        0 <= a < b < ord.len() ==> ranked_before(docs, false, #[trigger] ord[a], #[trigger] ord[b])
}

/// `m` is the map entry of document `i`.
pub open spec fn map_doc_is(m: CorpusMapDoc, doc: DocumentIndex, i: int, max_depth: Option<u8>, now: u64) -> bool {
    &&& m.rel_path@ == doc.rel_path@
    &&& m.doc_id == i
    &&& opt_str_view(m.title) == if doc.nodes@.len() > 0 {
        Some(doc.nodes@[0].title@)
    } else {
        None::<Seq<char>>
    }
    &&& opt_string_view(m.description) == string_field_of(doc.frontmatter, description_key())
    &&& opt_string_view(m.concept_type) == string_field_of(doc.frontmatter, type_key())
    &&& opt_string_view(m.status) == string_field_of(doc.frontmatter, status_key())
    &&& m.age_days == age_in_days(doc.modified_at, now)
    &&& headings_preview(doc, m.headings@, max_depth)
}

/// `f` is the folder at segments `p` holding the documents `ids` (those of
/// its subtree): its path, its recursive document count, the documents
/// directly in it by path, and one subfolder per name, by name.
pub open spec fn folder_is(
    f: CorpusFolder,
    docs: Seq<DocumentIndex>,
    ids: Seq<int>,
    p: Seq<Seq<char>>,
    max_depth: Option<u8>,
    now: u64,
) -> bool
    decreases f,
{
    &&& f.path@ == folder_path(p)
    &&& f.doc_count == ids.len()
    &&& exists|ord: Seq<int>|
        #![trigger direct_docs(ord, docs, ids, p.len() as int)]
        direct_docs(ord, docs, ids, p.len() as int) && f.documents@.len() == ord.len() && forall|k: int|
            0 <= k < ord.len() ==> map_doc_is(
                #[trigger] f.documents@[k],
                docs[ord[k]],
                ord[k],
                max_depth,
                now,
            )
    &&& exists|ns: Seq<Seq<char>>|
        #![trigger subfolder_names(ns, docs, ids, p.len() as int)]
        subfolder_names(ns, docs, ids, p.len() as int) && f.folders@.len() == ns.len() && forall|k: int|
            0 <= k < ns.len() ==> folder_is(
                #[trigger] f.folders@[k],
                docs,
                under_name(docs, ids, p.len() as int, ns[k]),
                p.push(ns[k]),
                max_depth,
                now,
            )
}

// ---------------------------------------------------------------------------
// Building the map
// ---------------------------------------------------------------------------

pub open spec fn char_views(s: Seq<Vec<char>>) -> Seq<Seq<char>> {
    s.map_values(|v: Vec<char>| v@)
}

/// The folder segments of every document.
fn dirs_of(docs: &Vec<DocumentIndex>) -> (r: Vec<Vec<String>>)
    ensures
        r@.len() == docs@.len(),
        forall|x: int| 0 <= x < docs@.len() ==> string_views((#[trigger] r@[x])@) == dir_at(docs@, x),
{
    let mut out: Vec<Vec<String>> = Vec::new();
    let mut i: usize = 0;
    while i < docs.len()
        invariant
            i <= docs@.len(),
            out@.len() == i,
            forall|x: int| 0 <= x < i ==> string_views((#[trigger] out@[x])@) == dir_at(docs@, x),
        decreases docs@.len() - i,
    {
        let cs = chars_of(docs[i].rel_path.as_str());
        let mut ps = split_pieces(cs.as_slice(), '/');
        proof {
            crate::tools::lemma_pieces_nonempty(cs@, '/');
        }
        let ghost full = ps@;
        ps.pop();
        proof {
            assert(ps@ =~= full.drop_last());
            assert(string_views(ps@) =~= string_views(full).drop_last());
        }
        let ghost before = out@;
        out.push(ps);
        proof {
            assert forall|x: int| 0 <= x < i + 1 implies string_views((#[trigger] out@[x])@) == dir_at(
                docs@,
                x,
            ) by {
                if x < i {
                    assert(out@[x] == before[x]);
                }
            }
        }
        i = i + 1;
    }
    out
}

/// Adds `name` to the strictly increasing list `names`, unless present.
fn insert_name(names: &mut Vec<Vec<char>>, name: Vec<char>)
    requires
        forall|a: int, b: int|
            0 <= a < b < old(names)@.len() ==> str_lt(
                #[trigger] old(names)@[a]@,
                #[trigger] old(names)@[b]@,
            ),
    ensures
        forall|a: int, b: int|
            0 <= a < b < final(names)@.len() ==> str_lt(
                #[trigger] final(names)@[a]@,
                #[trigger] final(names)@[b]@,
            ),
        char_views(final(names)@).to_set() == char_views(old(names)@).to_set().insert(name@),
{
    let ghost prev = names@;
    let mut p: usize = 0;
    while p < names.len() && str_less(names[p].as_slice(), name.as_slice())
        invariant
            p <= names@.len(),
            names@ == prev,
            forall|a: int| 0 <= a < p ==> str_lt(#[trigger] names@[a]@, name@),
        decreases names@.len() - p,
    {
        p = p + 1;
    }
    if p < names.len() && chars_eq(names[p].as_slice(), name.as_slice()) {
        proof {
            assert(char_views(prev)[p as int] == name@);
            assert(char_views(prev).contains(name@));
            assert(char_views(prev).to_set() =~= char_views(prev).to_set().insert(name@));
        }
        return;
    }
    proof {
        if p < prev.len() {
            crate::export::lemma_str_lt_total(prev[p as int]@, name@);
        }
    }
    let ghost nv = name@;
    names.insert(p, name);
    proof {
        assert(names@ == prev.insert(p as int, name));
        assert forall|a: int, b: int| 0 <= a < b < names@.len() implies str_lt(
            #[trigger] names@[a]@,
            #[trigger] names@[b]@,
        ) by {
            if b < p {
                assert(names@[a] == prev[a] && names@[b] == prev[b]);
            } else if b == p {
                assert(names@[a] == prev[a]);
            } else if a == p {
                assert(names@[b] == prev[b - 1]);
                if b - 1 > p {
                    crate::export::lemma_str_lt_transitive(nv, prev[p as int]@, prev[b - 1]@);
                }
            } else if a < p {
                assert(names@[a] == prev[a] && names@[b] == prev[b - 1]);
            } else {
                assert(names@[a] == prev[a - 1] && names@[b] == prev[b - 1]);
            }
        }
        assert forall|t: Seq<char>| #[trigger] char_views(names@).to_set().contains(t) <==> char_views(prev).to_set().insert(nv).contains(t) by {
            if char_views(prev).contains(t) {
                let a = choose|a: int| 0 <= a < prev.len() && char_views(prev)[a] == t;
                if a < p {
                    assert(char_views(names@)[a] == t);
                } else {
                    assert(char_views(names@)[a + 1] == t);
                }
            }
            if t == nv {
                assert(char_views(names@)[p as int] == t);
            }
            if char_views(names@).contains(t) {
                let a = choose|a: int| 0 <= a < names@.len() && char_views(names@)[a] == t;
                if a < p {
                    assert(char_views(prev)[a] == t);
                } else if a > p {
                    assert(char_views(prev)[a - 1] == t);
                }
            }
        }
        assert(char_views(names@).to_set() =~= char_views(prev).to_set().insert(nv));
    }
}

/// The map entry of document `i`.
fn map_doc(doc: &DocumentIndex, i: usize, max_depth: Option<u8>, now: u64) -> (r: CorpusMapDoc)
    requires
        crate::query::walkable(*doc),
        i <= u32::MAX,
    ensures
        map_doc_is(r, *doc, i as int, max_depth, now),
{
    let fm = match &doc.frontmatter {
        Some(v) => Some(v),
        None => None,
    };
    assert(deref_opt(fm) == doc.frontmatter);
    let title = if doc.nodes.len() > 0 {
        Some(doc.nodes[0].title.clone())
    } else {
        None
    };
    CorpusMapDoc {
        rel_path: doc.rel_path.clone(),
        doc_id: i as u32,
        title,
        description: doc.description(),
        concept_type: crate::okf::concept_type(fm),
        status: crate::okf::status(fm),
        age_days: doc.age_days(now),
        headings: doc_headings(doc, max_depth),
    }
}

proof fn lemma_view_contains(s: Seq<usize>, x: usize)
    ensures
        order_view(s).contains(x as int) <==> s.contains(x),
{
    if s.contains(x) {
        let a = choose|a: int| 0 <= a < s.len() && s[a] == x;
        assert(order_view(s)[a] == x as int);
    }
    if order_view(s).contains(x as int) {
        let a = choose|a: int| 0 <= a < order_view(s).len() && order_view(s)[a] == x as int;
        assert(s[a] == x);
    }
}

/// `under_name` keeps, in order and once each, exactly the documents of
/// `ids` in folder `name` below `depth` segments.
proof fn lemma_under_name(docs: Seq<DocumentIndex>, ids: Seq<int>, depth: int, name: Seq<char>)
    ensures
        forall|x: int|
            under_name(docs, ids, depth, name).contains(x) <==> (ids.contains(x) && dir_at(docs, x).len()
                > depth && dir_at(docs, x)[depth] == name),
        ids.no_duplicates() ==> under_name(docs, ids, depth, name).no_duplicates(),
    decreases ids.len(),
{
    if ids.len() > 0 {
        let d = ids.drop_last();
        lemma_under_name(docs, d, depth, name);
        let u = under_name(docs, d, depth, name);
        let x = ids.last();
        let keep = dir_at(docs, x).len() > depth && dir_at(docs, x)[depth] == name;
        assert(ids =~= d.push(x));
        assert forall|y: int|
            under_name(docs, ids, depth, name).contains(y) <==> (ids.contains(y) && dir_at(docs, y).len()
                > depth && dir_at(docs, y)[depth] == name) by {
            if keep {
                assert(under_name(docs, ids, depth, name) =~= u.push(x));
                if u.push(x).contains(y) {
                    let a = choose|a: int| 0 <= a < u.push(x).len() && u.push(x)[a] == y;
                    if a < u.len() {
                        assert(u[a] == y);
                        assert(u.contains(y));
                        assert(d.contains(y));
                        let b = choose|b: int| 0 <= b < d.len() && d[b] == y;
                        assert(ids[b] == y);
                    } else {
                        assert(ids[ids.len() - 1] == y);
                    }
                }
                if ids.contains(y) && dir_at(docs, y).len() > depth && dir_at(docs, y)[depth] == name {
                    let a = choose|a: int| 0 <= a < ids.len() && ids[a] == y;
                    if a < d.len() {
                        assert(d[a] == y);
                        assert(d.contains(y));
                        assert(u.contains(y));
                        let b = choose|b: int| 0 <= b < u.len() && u[b] == y;
                        assert(u.push(x)[b] == y);
                    } else {
                        assert(u.push(x)[u.len() as int] == y);
                    }
                }
            } else {
                assert(under_name(docs, ids, depth, name) =~= u);
                if u.contains(y) {
                    assert(d.contains(y));
                    let b = choose|b: int| 0 <= b < d.len() && d[b] == y;
                    assert(ids[b] == y);
                }
                if ids.contains(y) && dir_at(docs, y).len() > depth && dir_at(docs, y)[depth] == name {
                    let a = choose|a: int| 0 <= a < ids.len() && ids[a] == y;
                    if a == d.len() {
                        assert(y == x);
                    }
                    assert(d[a] == y);
                    assert(d.contains(y));
                }
            }
        }
        if ids.no_duplicates() {
            assert(d.no_duplicates()) by {
                assert forall|a: int, b: int| 0 <= a < d.len() && 0 <= b < d.len() && a != b implies d[a]
                    != d[b] by {
                    assert(d[a] == ids[a] && d[b] == ids[b]);
                }
            }
            if keep {
                assert(!u.contains(x)) by {
                    if u.contains(x) {
                        assert(d.contains(x));
                        let b = choose|b: int| 0 <= b < d.len() && d[b] == x;
                        assert(ids[b] == ids[ids.len() - 1]);
                    }
                }
                let w = u.push(x);
                assert(under_name(docs, ids, depth, name) =~= w);
                assert forall|a: int, b: int| 0 <= a < w.len() && 0 <= b < w.len() && a != b implies w[a]
                    != w[b] by {
                    if a < u.len() && b < u.len() {
                    } else if a < u.len() {
                        assert(u.contains(u[a]));
                    } else if b < u.len() {
                        assert(u.contains(u[b]));
                    }
                }
            } else {
                assert(under_name(docs, ids, depth, name) =~= u);
            }
        }
    }
}

proof fn lemma_folder_path_push(p: Seq<Seq<char>>, name: Seq<char>)
    ensures
        folder_path(p.push(name)) == folder_path(p) + name + seq!['/'],
{
    assert(p.push(name).drop_last() =~= p);
}

/// The folder at segments `p`, holding the documents `ids` of its subtree.
#[verifier::rlimit(60)]
#[verifier::spinoff_prover]
fn build_folder(
    corpus: &CorpusIndex,
    dirs: &Vec<Vec<String>>,
    folders: &Vec<Vec<char>>,
    paths: &Vec<Vec<char>>,
    ids: &Vec<usize>,
    depth: usize,
    path: String,
    max_depth: Option<u8>,
    now: u64,
    bound: usize,
    Ghost(p): Ghost<Seq<Seq<char>>>,
) -> (r: CorpusFolder)
    requires
        corpus.documents@.len() <= u32::MAX + 1,
        corpus_walkable(*corpus),
        dirs@.len() == corpus.documents@.len(),
        forall|x: int|
            0 <= x < corpus.documents@.len() ==> string_views((#[trigger] dirs@[x])@) == dir_at(
                corpus.documents@,
                x,
            ),
        forall|x: int|
            0 <= x < corpus.documents@.len() ==> (#[trigger] dirs@[x])@.len() <= bound,
        folders@.len() == corpus.documents@.len(),
        paths@.len() == corpus.documents@.len(),
        keys_ok(corpus.documents@, false, folders@, paths@, corpus.documents@.len() as int),
        forall|a: int|
            0 <= a < ids@.len() ==> #[trigger] ids@[a] < corpus.documents@.len() && dirs@[ids@[a] as int]@.len()
                >= depth,
        ids@.no_duplicates(),
        p.len() == depth,
        path@ == folder_path(p),
        depth <= bound,
    ensures
        folder_is(r, corpus.documents@, order_view(ids@), p, max_depth, now),
    decreases bound - depth,
{
    let ghost docs = corpus.documents@;
    let ghost iv = order_view(ids@);
    let mut direct: Vec<usize> = Vec::new();
    let mut names: Vec<Vec<char>> = Vec::new();
    let mut i: usize = 0;
    while i < ids.len()
        invariant
            i <= ids@.len(),
            docs == corpus.documents@,
            iv == order_view(ids@),
            dirs@.len() == docs.len(),
            forall|x: int| 0 <= x < docs.len() ==> string_views((#[trigger] dirs@[x])@) == dir_at(docs, x),
            forall|a: int|
                0 <= a < ids@.len() ==> #[trigger] ids@[a] < docs.len() && dirs@[ids@[a] as int]@.len()
                    >= depth,
            ids@.no_duplicates(),
            forall|x: usize|
                direct@.contains(x) <==> (ids@.take(i as int).contains(x) && dir_at(docs, x as int).len()
                    == depth),
            direct@.no_duplicates(),
            forall|a: int, b: int|
                0 <= a < b < names@.len() ==> str_lt(#[trigger] names@[a]@, #[trigger] names@[b]@),
            forall|t: Seq<char>|
                #[trigger] char_views(names@).to_set().contains(t) <==> has_subfolder(
                    docs,
                    iv.take(i as int),
                    depth as int,
                    t,
                ),
        decreases ids@.len() - i,
    {
        let x = ids[i];
        let ghost dx = dir_at(docs, x as int);
        let ghost next = ids@.take(i + 1);
        let ghost cur = ids@.take(i as int);
        proof {
            assert(next =~= cur.push(x));
            assert(iv.take(i + 1) =~= iv.take(i as int).push(x as int));
            assert(string_views(dirs@[x as int]@) == dx);
            assert forall|t: Seq<char>|
                has_subfolder(docs, iv.take(i + 1), depth as int, t) <==> (has_subfolder(
                    docs,
                    iv.take(i as int),
                    depth as int,
                    t,
                ) || (dx.len() > depth && dx[depth as int] == t)) by {
                let s = iv.take(i as int);
                if has_subfolder(docs, iv.take(i + 1), depth as int, t) {
                    let k = choose|k: int|
                        0 <= k < iv.take(i + 1).len() && dir_at(docs, #[trigger] iv.take(i + 1)[k]).len()
                            > depth && dir_at(docs, iv.take(i + 1)[k])[depth as int] == t;
                    if k < i {
                        assert(s[k] == iv.take(i + 1)[k]);
                    }
                }
                if has_subfolder(docs, s, depth as int, t) {
                    let k = choose|k: int|
                        0 <= k < s.len() && dir_at(docs, #[trigger] s[k]).len() > depth && dir_at(
                            docs,
                            s[k],
                        )[depth as int] == t;
                    assert(iv.take(i + 1)[k] == s[k]);
                }
                if dx.len() > depth && dx[depth as int] == t {
                    assert(iv.take(i + 1)[i as int] == x as int);
                }
            }
        }
        if dirs[x].len() == depth {
            proof {
                assert(!direct@.contains(x)) by {
                    if direct@.contains(x) {
                        let a = choose|a: int| 0 <= a < i && cur[a] == x;
                        assert(ids@[a] == ids@[i as int]);
                    }
                }
            }
            let ghost before = direct@;
            direct.push(x);
            proof {
                let nxt = iv.take(i + 1);
                assert forall|t: Seq<char>|
                    #[trigger] char_views(names@).to_set().contains(t) <==> has_subfolder(
                        docs,
                        nxt,
                        depth as int,
                        t,
                    ) by {}
                assert forall|y: usize|
                    direct@.contains(y) <==> (next.contains(y) && dir_at(docs, y as int).len()
                        == depth) by {
                    if direct@.contains(y) {
                        let a = choose|a: int| 0 <= a < direct@.len() && direct@[a] == y;
                        if a < before.len() {
                            assert(before[a] == y);
                            assert(before.contains(y));
                            assert(cur.contains(y));
                            let b = choose|b: int| 0 <= b < i && cur[b] == y;
                            assert(next[b] == y);
                        } else {
                            assert(next[i as int] == y);
                        }
                    }
                    if next.contains(y) && dir_at(docs, y as int).len() == depth {
                        let b = choose|b: int| 0 <= b < i + 1 && next[b] == y;
                        if b < i {
                            assert(cur[b] == y);
                            assert(cur.contains(y));
                            assert(before.contains(y));
                            let a = choose|a: int| 0 <= a < before.len() && before[a] == y;
                            assert(direct@[a] == y);
                        } else {
                            assert(direct@[before.len() as int] == y);
                        }
                    }
                }
                assert forall|a: int, b: int|
                    0 <= a < direct@.len() && 0 <= b < direct@.len() && a != b implies direct@[a]
                        != direct@[b] by {
                    if a < before.len() && b < before.len() {
                    } else if a < before.len() {
                        assert(before.contains(before[a]));
                    } else if b < before.len() {
                        assert(before.contains(before[b]));
                    }
                }
            }
        } else {
            let name = chars_of(dirs[x][depth].as_str());
            proof {
                assert(name@ == dx[depth as int]);
            }
            let ghost old_names = char_views(names@).to_set();
            insert_name(&mut names, name);
            proof {
                let nxt = iv.take(i + 1);
                assert forall|t: Seq<char>|
                    #[trigger] char_views(names@).to_set().contains(t) <==> has_subfolder(
                        docs,
                        nxt,
                        depth as int,
                        t,
                    ) by {
                    assert(char_views(names@).to_set().contains(t) <==> (old_names.contains(t) || t
                        == dx[depth as int]));
                }
                assert forall|y: usize|
                    direct@.contains(y) <==> (next.contains(y) && dir_at(docs, y as int).len()
                        == depth) by {
                    if next.contains(y) {
                        let b = choose|b: int| 0 <= b < i + 1 && next[b] == y;
                        if b < i {
                            assert(cur[b] == y);
                        }
                    }
                    if cur.contains(y) {
                        let b = choose|b: int| 0 <= b < i && cur[b] == y;
                        assert(next[b] == y);
                    }
                }
            }
        }
        i = i + 1;
    }
    proof {
        assert(ids@.take(i as int) =~= ids@);
        assert(iv.take(i as int) =~= iv);
        assert forall|a: int| 0 <= a < direct@.len() implies #[trigger] direct@[a] < docs.len() by {
            assert(direct@.contains(direct@[a]));
            let b = choose|b: int| 0 <= b < ids@.len() && ids@.take(i as int)[b] == direct@[a];
        }
    }
    let sorted = sort_ids(&corpus.documents, false, folders, paths, &direct);
    let mut documents: Vec<CorpusMapDoc> = Vec::new();
    let mut k: usize = 0;
    while k < sorted.len()
        invariant
            k <= sorted@.len(),
            docs == corpus.documents@,
            docs.len() <= u32::MAX + 1,
            corpus_walkable(*corpus),
            forall|x: usize| sorted@.contains(x) <==> direct@.contains(x),
            forall|a: int| 0 <= a < direct@.len() ==> #[trigger] direct@[a] < docs.len(),
            documents@.len() == k,
            forall|t: int|
                0 <= t < k ==> map_doc_is(
                    #[trigger] documents@[t],
                    docs[sorted@[t] as int],
                    sorted@[t] as int,
                    max_depth,
                    now,
                ),
        decreases sorted@.len() - k,
    {
        let x = sorted[k];
        proof {
            assert(sorted@.contains(x));
            let a = choose|a: int| 0 <= a < direct@.len() && direct@[a] == x;
        }
        let m = map_doc(&corpus.documents[x], x, max_depth, now);
        documents.push(m);
        k = k + 1;
    }
    let mut sub_folders: Vec<CorpusFolder> = Vec::new();
    let mut j: usize = 0;
    while j < names.len()
        invariant
            j <= names@.len(),
            docs == corpus.documents@,
            iv == order_view(ids@),
            docs.len() <= u32::MAX + 1,
            corpus_walkable(*corpus),
            dirs@.len() == docs.len(),
            forall|x: int| 0 <= x < docs.len() ==> string_views((#[trigger] dirs@[x])@) == dir_at(docs, x),
            forall|x: int| 0 <= x < docs.len() ==> (#[trigger] dirs@[x])@.len() <= bound,
            folders@.len() == docs.len(),
            paths@.len() == docs.len(),
            keys_ok(docs, false, folders@, paths@, docs.len() as int),
            forall|a: int|
                0 <= a < ids@.len() ==> #[trigger] ids@[a] < docs.len() && dirs@[ids@[a] as int]@.len()
                    >= depth,
            ids@.no_duplicates(),
            p.len() == depth,
            path@ == folder_path(p),
            depth <= bound,
            forall|t: Seq<char>|
                #[trigger] char_views(names@).to_set().contains(t) <==> has_subfolder(docs, iv, depth as int, t),
            sub_folders@.len() == j,
            forall|t: int|
                0 <= t < j ==> folder_is(
                    #[trigger] sub_folders@[t],
                    docs,
                    under_name(docs, iv, depth as int, names@[t]@),
                    p.push(names@[t]@),
                    max_depth,
                    now,
                ),
        decreases names@.len() - j,
    {
        let name = string_of_chars(names[j].as_slice());
        let ghost nv = names@[j as int]@;
        proof {
            assert(char_views(names@)[j as int] == nv);
            assert(char_views(names@).to_set().contains(nv));
            let w = choose|w: int|
                0 <= w < iv.len() && dir_at(docs, #[trigger] iv[w]).len() > depth && dir_at(docs, iv[w])[depth as int]
                    == nv;
            assert(iv[w] == ids@[w] as int);
            assert(dirs@[iv[w]]@.len() <= bound);
            assert(string_views(dirs@[iv[w]]@).len() == dirs@[iv[w]]@.len());
        }
        let mut sub: Vec<usize> = Vec::new();
        let mut t: usize = 0;
        while t < ids.len()
            invariant
                t <= ids@.len(),
                docs == corpus.documents@,
                iv == order_view(ids@),
                name@ == nv,
                dirs@.len() == docs.len(),
                forall|x: int| 0 <= x < docs.len() ==> string_views((#[trigger] dirs@[x])@) == dir_at(docs, x),
                forall|a: int|
                    0 <= a < ids@.len() ==> #[trigger] ids@[a] < docs.len() && dirs@[ids@[a] as int]@.len()
                        >= depth,
                order_view(sub@) == under_name(docs, iv.take(t as int), depth as int, nv),
            decreases ids@.len() - t,
        {
            let x = ids[t];
            proof {
                assert(iv.take(t + 1).drop_last() =~= iv.take(t as int));
                assert(iv.take(t + 1).last() == x as int);
                assert(string_views(dirs@[x as int]@) == dir_at(docs, x as int));
            }
            let ds = &dirs[x];
            let keep = ds.len() > depth && ds[depth] == name;
            proof {
                if ds@.len() > depth {
                    assert(string_views(ds@)[depth as int] == ds@[depth as int]@);
                }
            }
            if keep {
                let ghost before = sub@;
                sub.push(x);
                proof {
                    assert(order_view(sub@) =~= order_view(before).push(x as int));
                }
            }
            t = t + 1;
        }
        proof {
            assert(iv.take(t as int) =~= iv);
            lemma_under_name(docs, iv, depth as int, nv);
            let u = under_name(docs, iv, depth as int, nv);
            assert forall|a: int| 0 <= a < sub@.len() implies #[trigger] sub@[a] < docs.len() && dirs@[sub@[a] as int]@.len()
                >= depth + 1 by {
                assert(order_view(sub@)[a] == sub@[a] as int);
                assert(u[a] == sub@[a] as int);
                assert(u.contains(u[a]));
                assert(iv.contains(sub@[a] as int));
                let b = choose|b: int| 0 <= b < iv.len() && iv[b] == sub@[a] as int;
                assert(iv[b] == ids@[b] as int);
                assert(ids@[b] == sub@[a]);
                assert(string_views(dirs@[sub@[a] as int]@).len() == dirs@[sub@[a] as int]@.len());
            }
            assert(sub@.no_duplicates()) by {
                assert(iv.no_duplicates()) by {
                    assert forall|a: int, b: int| 0 <= a < iv.len() && 0 <= b < iv.len() && a != b implies iv[a]
                        != iv[b] by {
                        assert(ids@[a] != ids@[b]);
                    }
                }
                assert forall|a: int, b: int| 0 <= a < sub@.len() && 0 <= b < sub@.len() && a != b implies sub@[a]
                    != sub@[b] by {
                    assert(u[a] == sub@[a] as int && u[b] == sub@[b] as int);
                }
            }
            lemma_folder_path_push(p, nv);
        }
        let mut sub_path = path.clone();
        let tail = concat(name.as_str(), "/");
        let tail_chars = chars_of(tail.as_str());
        crate::tokens::push_chars(&mut sub_path, tail_chars.as_slice());
        proof {
            reveal_strlit("/");
            assert("/"@ =~= seq!['/']);
            assert(sub_path@ =~= folder_path(p.push(nv)));
        }
        let f = build_folder(
            corpus,
            dirs,
            folders,
            paths,
            &sub,
            depth + 1,
            sub_path,
            max_depth,
            now,
            bound,
            Ghost(p.push(nv)),
        );
        sub_folders.push(f);
        j = j + 1;
    }
    let r = CorpusFolder { path, doc_count: ids.len(), folders: sub_folders, documents };
    proof {
        let ord = order_view(sorted@);
        assert forall|x: int| ord.contains(x) <==> (iv.contains(x) && dir_at(docs, x).len() == depth) by {
            if ord.contains(x) {
                let a = choose|a: int| 0 <= a < ord.len() && ord[a] == x;
                lemma_view_contains(sorted@, sorted@[a]);
                lemma_view_contains(ids@, sorted@[a]);
                assert(sorted@.contains(sorted@[a]));
                assert(ids@.take(i as int).contains(sorted@[a]));
            }
            if iv.contains(x) && dir_at(docs, x).len() == depth {
                let a = choose|a: int| 0 <= a < iv.len() && iv[a] == x;
                let y = ids@[a];
                assert(y as int == x);
                assert(ids@.take(i as int).contains(y));
                assert(direct@.contains(y));
                lemma_view_contains(sorted@, y);
            }
        }
        assert(direct_docs(ord, docs, iv, p.len() as int));
        let ns = char_views(names@);
        assert forall|name: Seq<char>| ns.contains(name) <==> has_subfolder(docs, iv, p.len() as int, name) by {
            assert(ns.contains(name) <==> ns.to_set().contains(name));
        }
        assert(subfolder_names(ns, docs, iv, p.len() as int));
        assert forall|t: int| 0 <= t < ns.len() implies folder_is(
            #[trigger] r.folders@[t],
            docs,
            under_name(docs, iv, p.len() as int, ns[t]),
            p.push(ns[t]),
            max_depth,
            now,
        ) by {
            assert(ns[t] == names@[t]@);
        }
    }
    r
}

pub open spec fn opt_str_ref_view(o: Option<&str>) -> Option<Seq<char>> {
    match o {
        Some(s) => Some(s@),
        None => None,
    }
}

/// Build the corpus map: every document under the path prefix placed in
/// the folder tree its path implies, with a heading preview capped at
/// `max_depth` (roots only without a cap).
pub fn build_corpus_map(corpus: &CorpusIndex, path_prefix: Option<&str>, max_depth: Option<u8>, now: u64) -> (r: CorpusFolder)
    requires
        corpus_walkable(*corpus),
        corpus.documents@.len() <= u32::MAX + 1,
    ensures
        folder_is(
            r,
            corpus.documents@,
            under_prefix(corpus.documents@, opt_str_ref_view(path_prefix), corpus.documents@.len() as int),
            Seq::empty(),
            max_depth,
            now,
        ),
{
    let ghost docs = corpus.documents@;
    let ghost pv = opt_str_ref_view(path_prefix);
    let n = corpus.documents.len();
    let mut sel: Vec<usize> = Vec::new();
    let mut i: usize = 0;
    while i < n
        invariant
            i <= n,
            n == docs.len(),
            docs == corpus.documents@,
            pv == opt_str_ref_view(path_prefix),
            order_view(sel@) == under_prefix(docs, pv, i as int),
            forall|a: int| 0 <= a < sel@.len() ==> #[trigger] sel@[a] < i,
            forall|a: int, b: int| 0 <= a < b < sel@.len() ==> #[trigger] sel@[a] < #[trigger] sel@[b],
        decreases n - i,
    {
        let keep = match path_prefix {
            Some(p) => has_prefix(corpus.documents[i].rel_path.as_str(), p),
            None => true,
        };
        if keep {
            let ghost before = sel@;
            sel.push(i);
            proof {
                assert(order_view(sel@) =~= order_view(before).push(i as int));
            }
        }
        i = i + 1;
    }
    let dirs = dirs_of(&corpus.documents);
    let mut bound: usize = 0;
    let mut k: usize = 0;
    while k < n
        invariant
            k <= n,
            n == docs.len(),
            dirs@.len() == n,
            forall|x: int| 0 <= x < k ==> (#[trigger] dirs@[x])@.len() <= bound,
        decreases n - k,
    {
        if dirs[k].len() > bound {
            bound = dirs[k].len();
        }
        k = k + 1;
    }
    let (folders, paths) = sort_keys(&corpus.documents, false);
    proof {
        assert forall|a: int, b: int| 0 <= a < sel@.len() && 0 <= b < sel@.len() && a != b implies sel@[a]
            != sel@[b] by {
            if a < b {
                assert(sel@[a] < sel@[b]);
            } else {
                assert(sel@[b] < sel@[a]);
            }
        }
        assert(folder_path(Seq::<Seq<char>>::empty()) =~= Seq::<char>::empty());
    }
    build_folder(
        corpus,
        &dirs,
        &folders,
        &paths,
        &sel,
        0,
        String::new(),
        max_depth,
        now,
        bound,
        Ghost(Seq::empty()),
    )
}

/// The `corpus_map` tool.
pub fn corpus_map(corpus: &CorpusIndex, req: &CorpusMapRequest, now: u64) -> (r: CorpusMapResponse)
    requires
        corpus_walkable(*corpus),
        corpus.documents@.len() <= u32::MAX + 1,
    ensures
        r.source_id@ == corpus.source.0@,
        folder_is(
            r.root,
            corpus.documents@,
            under_prefix(corpus.documents@, opt_str_view(req.path_prefix), corpus.documents@.len() as int),
            Seq::empty(),
            req.max_depth,
            now,
        ),
{
    let prefix: Option<&str> = match &req.path_prefix {
        Some(p) => Some(p.as_str()),
        None => None,
    };
    assert(opt_str_ref_view(prefix) == opt_str_view(req.path_prefix));
    let root = build_corpus_map(corpus, prefix, req.max_depth, now);
    CorpusMapResponse { source_id: corpus.source.0.clone(), root }
}

} // verus!
