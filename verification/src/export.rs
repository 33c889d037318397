//! `llms.txt` rendering: a title, a one-line blurb, then the corpus's
//! documents grouped by top-level folder, each a link with a short note.

use vstd::prelude::*;

use crate::builder::opt_view;
use crate::corpus::CorpusIndex;
use crate::model::{description_key, DocumentIndex};
use crate::okf::{opt_string_view, string_field_of};
use crate::service::concat;
use crate::text::{
    chars_eq_ignore_ascii_case, chars_of, collapse_whitespace, decimal_string, eq_ignore_ascii_case,
    find_char, first_index_of, normalize_whitespace, push_char, string_of_range, trim_end,
};
use crate::tokens::{after_last, last_index_of, push_chars, rfind_char, string_of_chars};
use crate::types::decimal_digits;

verus! {

// ---------------------------------------------------------------------------
// Ordering documents
// ---------------------------------------------------------------------------

/// Strict lexicographic order of character sequences, by code point (the
/// order of their UTF-8 bytes).
pub open spec fn str_lt(a: Seq<char>, b: Seq<char>) -> bool
    decreases a.len(),
{
    if a.len() == 0 {
        b.len() > 0
    } else if b.len() == 0 {
        false
    } else if a[0] != b[0] {
        (a[0] as u32) < (b[0] as u32)
    } else {
        str_lt(a.drop_first(), b.drop_first())
    }
}

pub proof fn lemma_str_lt_irreflexive(a: Seq<char>)
    ensures
        !str_lt(a, a),
    decreases a.len(),
{
    if a.len() > 0 {
        lemma_str_lt_irreflexive(a.drop_first());
    }
}

pub proof fn lemma_str_lt_total(a: Seq<char>, b: Seq<char>)
    ensures
        a == b || str_lt(a, b) || str_lt(b, a),
        !(str_lt(a, b) && str_lt(b, a)),
    decreases a.len(),
{
    if a.len() > 0 && b.len() > 0 {
        if a[0] == b[0] {
            lemma_str_lt_total(a.drop_first(), b.drop_first());
            if a.drop_first() == b.drop_first() {
                assert(a =~= seq![a[0]] + a.drop_first());
                assert(b =~= seq![b[0]] + b.drop_first());
            }
        } else {
            vstd::utf8::char_u32_cast(a[0], a[0] as u32);
            vstd::utf8::char_u32_cast(b[0], b[0] as u32);
            assert((a[0] as u32) != (b[0] as u32));
        }
    } else if a.len() == 0 && b.len() == 0 {
        assert(a =~= b);
    }
}

pub proof fn lemma_str_lt_transitive(a: Seq<char>, b: Seq<char>, c: Seq<char>)
    requires
        str_lt(a, b),
        str_lt(b, c),
    ensures
        str_lt(a, c),
    decreases a.len(),
{
    if a.len() > 0 && b.len() > 0 && c.len() > 0 {
        if a[0] == b[0] && b[0] == c[0] {
            lemma_str_lt_transitive(a.drop_first(), b.drop_first(), c.drop_first());
        } else if a[0] == b[0] {
            assert((b[0] as u32) < (c[0] as u32));
        } else if b[0] == c[0] {
            assert((a[0] as u32) < (b[0] as u32));
        } else {
            assert((a[0] as u32) < (b[0] as u32));
            assert((b[0] as u32) < (c[0] as u32));
        }
    }
}

/// `str_lt` on character slices.
pub fn str_less(a: &[char], b: &[char]) -> (r: bool)
    ensures
        r == str_lt(a@, b@),
{
    let mut i: usize = 0;
    assert(a@.skip(0) =~= a@);
    assert(b@.skip(0) =~= b@);
    while i < a.len() && i < b.len() && a[i] == b[i]
        invariant
            i <= a@.len(),
            i <= b@.len(),
            str_lt(a@, b@) == str_lt(a@.skip(i as int), b@.skip(i as int)),
        decreases a@.len() - i,
    {
        proof {
            assert(a@.skip(i as int).drop_first() =~= a@.skip(i + 1));
            assert(b@.skip(i as int).drop_first() =~= b@.skip(i + 1));
            assert(a@.skip(i as int)[0] == a@[i as int]);
            assert(b@.skip(i as int)[0] == b@[i as int]);
        }
        i = i + 1;
    }
    if i == a.len() {
        i < b.len()
    } else if i == b.len() {
        false
    } else {
        proof {
            assert(a@.skip(i as int)[0] == a@[i as int]);
            assert(b@.skip(i as int)[0] == b@[i as int]);
        }
        (a[i] as u32) < (b[i] as u32)
    }
}

/// The top-level folder of a path: the text before its first `/`, empty
/// for a path with none (the root section).
pub open spec fn folder_of(rel: Seq<char>) -> Seq<char> {
    match first_index_of(rel, '/') {
        Some(i) => rel.take(i),
        None => Seq::empty(),
    }
}

/// The folder a document is grouped under: its top-level folder when
/// grouping by folder, nothing otherwise.
pub open spec fn group_key(docs: Seq<DocumentIndex>, by_folder: bool, i: int) -> Seq<char> {
    if by_folder {
        folder_of(docs[i].rel_path@)
    } else {
        Seq::empty()
    }
}

/// Documents are ordered by group, then path, then position.
pub open spec fn ranked_before(docs: Seq<DocumentIndex>, by_folder: bool, i: int, j: int) -> bool {
    let fi = group_key(docs, by_folder, i);
    let fj = group_key(docs, by_folder, j);
    let pi = docs[i].rel_path@;
    let pj = docs[j].rel_path@;
    ||| str_lt(fi, fj)
    ||| fi == fj && str_lt(pi, pj)
    ||| fi == fj && pi == pj && i < j
}

pub proof fn lemma_ranked_before_irreflexive(docs: Seq<DocumentIndex>, by_folder: bool, i: int)
    ensures
        !ranked_before(docs, by_folder, i, i),
{
    lemma_ranked_before_total(docs, by_folder, i, i);
}

proof fn lemma_ranked_before_total(docs: Seq<DocumentIndex>, by_folder: bool, i: int, j: int)
    ensures
        i != j ==> ranked_before(docs, by_folder, i, j) || ranked_before(docs, by_folder, j, i),
        !(ranked_before(docs, by_folder, i, j) && ranked_before(docs, by_folder, j, i)),
        !ranked_before(docs, by_folder, i, i),
{
    lemma_str_lt_total(group_key(docs, by_folder, i), group_key(docs, by_folder, j));
    lemma_str_lt_total(docs[i].rel_path@, docs[j].rel_path@);
    lemma_str_lt_irreflexive(group_key(docs, by_folder, i));
    lemma_str_lt_irreflexive(docs[i].rel_path@);
}

proof fn lemma_ranked_before_transitive(docs: Seq<DocumentIndex>, by_folder: bool, i: int, j: int, k: int)
    requires
        ranked_before(docs, by_folder, i, j),
        ranked_before(docs, by_folder, j, k),
    ensures
        ranked_before(docs, by_folder, i, k),
{
    let (fi, fj, fk) = (
        group_key(docs, by_folder, i),
        group_key(docs, by_folder, j),
        group_key(docs, by_folder, k),
    );
    let (pi, pj, pk) = (docs[i].rel_path@, docs[j].rel_path@, docs[k].rel_path@);
    if str_lt(fi, fj) && str_lt(fj, fk) {
        lemma_str_lt_transitive(fi, fj, fk);
    }
    if fi == fj && fj == fk && str_lt(pi, pj) && str_lt(pj, pk) {
        lemma_str_lt_transitive(pi, pj, pk);
    }
}

/// `folders` and `paths` hold the group keys and paths of the first `n`
/// documents.
pub(crate) open spec fn keys_ok(
    docs: Seq<DocumentIndex>,
    by_folder: bool,
    folders: Seq<Vec<char>>,
    paths: Seq<Vec<char>>,
    n: int,
) -> bool {
    forall|k: int|
        0 <= k < n ==> (#[trigger] paths[k])@ == docs[k].rel_path@ && folders[k]@ == group_key(
            docs,
            by_folder,
            k,
        )
}

/// `order` lists every document, in `ranked_before` order.
pub open spec fn ranked_order(docs: Seq<DocumentIndex>, by_folder: bool, order: Seq<int>) -> bool {
    &&& order.len() == docs.len()
    &&& forall|a: int| 0 <= a < order.len() ==> 0 <= #[trigger] order[a] < docs.len()
    &&& forall|a: int, b: int|
        0 <= a < b < order.len() ==> ranked_before(docs, by_folder, #[trigger] order[a], #[trigger] order[b])
}

/// An order of the documents names each of them (exactly once).
pub proof fn lemma_ranked_order_covers(docs: Seq<DocumentIndex>, by_folder: bool, order: Seq<int>)
    requires
        ranked_order(docs, by_folder, order),
    ensures
        order.no_duplicates(),
        forall|x: int| 0 <= x < docs.len() ==> order.contains(x),
{
    assert forall|a: int, b: int| 0 <= a < order.len() && 0 <= b < order.len() && a != b implies order[a]
        != order[b] by {
        if a < b {
            lemma_ranked_before_irreflexive(docs, by_folder, order[a]);
        } else {
            lemma_ranked_before_irreflexive(docs, by_folder, order[b]);
        }
    }
    order.unique_seq_to_set();
    vstd::seq_lib::seq_to_set_is_finite(order);
    let all = vstd::set_lib::set_int_range(0, docs.len() as int);
    vstd::set_lib::lemma_int_range(0, docs.len() as int);
    assert(order.to_set().subset_of(all)) by {
        assert forall|x: int| order.to_set().contains(x) implies all.contains(x) by {
            let a = choose|a: int| 0 <= a < order.len() && order[a] == x;
        }
    }
    vstd::set_lib::lemma_subset_equality(order.to_set(), all);
    assert forall|x: int| 0 <= x < docs.len() implies order.contains(x) by {
        assert(all.contains(x));
        assert(order.to_set().contains(x));
    }
}

proof fn lemma_orders_agree_up_to(docs: Seq<DocumentIndex>, by_folder: bool, o1: Seq<int>, o2: Seq<int>, a: int)
    requires
        ranked_order(docs, by_folder, o1),
        ranked_order(docs, by_folder, o2),
        0 <= a < o1.len(),
    ensures
        forall|j: int| 0 <= j <= a ==> o1[j] == o2[j],
    decreases a,
{
    if a > 0 {
        lemma_orders_agree_up_to(docs, by_folder, o1, o2, a - 1);
    }
    lemma_ranked_order_covers(docs, by_folder, o1);
    lemma_ranked_order_covers(docs, by_folder, o2);
    let x = o1[a];
    let y = o2[a];
    if x != y {
        assert(o2.contains(x));
        let b = choose|b: int| 0 <= b < o2.len() && o2[b] == x;
        assert(o1.contains(y));
        let c = choose|c: int| 0 <= c < o1.len() && o1[c] == y;
        if b < a {
            assert(o1[b] == o2[b]);
            assert(o1[b] == o1[a]);
        } else {
            assert(b != a);
            assert(ranked_before(docs, by_folder, o2[a], o2[b]));
            if c < a {
                assert(o1[c] == o2[c]);
                assert(o2[c] == o2[a]);
            } else {
                assert(c != a);
                assert(ranked_before(docs, by_folder, o1[a], o1[c]));
                lemma_ranked_before_total(docs, by_folder, x, y);
            }
        }
    }
}

/// There is exactly one way to list the documents in `ranked_before`
/// order, so the order behind `llms.txt` (and its full text) is
/// determined by the corpus.
pub proof fn law_ranked_order_unique(docs: Seq<DocumentIndex>, by_folder: bool, o1: Seq<int>, o2: Seq<int>)
    requires
        ranked_order(docs, by_folder, o1),
        ranked_order(docs, by_folder, o2),
    ensures
        o1 == o2,
{
    if o1.len() > 0 {
        lemma_orders_agree_up_to(docs, by_folder, o1, o2, o1.len() - 1);
    }
    assert(o1 =~= o2);
}

/// In `llms.txt` order, documents at the corpus root come before every
/// document inside a folder, so the root section leads the file.
pub proof fn law_root_documents_first(docs: Seq<DocumentIndex>, order: Seq<int>, a: int, b: int)
    requires
        listing_order(docs, order),
        0 <= a < b < order.len(),
        folder_of(docs[order[b]].rel_path@) == Seq::<char>::empty(),
    ensures
        folder_of(docs[order[a]].rel_path@) == Seq::<char>::empty(),
{
    assert(ranked_before(docs, true, order[a], order[b]));
}

/// In `llms.txt` order, the documents of one top-level folder stand
/// together: anything listed between two documents of a folder is in that
/// folder too, so each folder gets one section.
pub proof fn law_folder_sections_contiguous(docs: Seq<DocumentIndex>, order: Seq<int>, a: int, m: int, b: int)
    requires
        listing_order(docs, order),
        0 <= a < m < b < order.len(),
        folder_of(docs[order[a]].rel_path@) == folder_of(docs[order[b]].rel_path@),
    ensures
        folder_of(docs[order[m]].rel_path@) == folder_of(docs[order[a]].rel_path@),
{
    let fa = folder_of(docs[order[a]].rel_path@);
    let fm = folder_of(docs[order[m]].rel_path@);
    assert(ranked_before(docs, true, order[a], order[m]));
    assert(ranked_before(docs, true, order[m], order[b]));
    if fa != fm {
        assert(str_lt(fa, fm));
        assert(str_lt(fm, fa));
        lemma_str_lt_transitive(fa, fm, fa);
        lemma_str_lt_irreflexive(fa);
    }
}

/// `order` lists every document by folder, then path.
pub open spec fn listing_order(docs: Seq<DocumentIndex>, order: Seq<int>) -> bool {
    ranked_order(docs, true, order)
}

/// `order` lists every document by path.
pub open spec fn path_order(docs: Seq<DocumentIndex>, order: Seq<int>) -> bool {
    ranked_order(docs, false, order)
}

pub open spec fn order_view(v: Seq<usize>) -> Seq<int> {
    v.map_values(|x: usize| x as int)
}

/// The documents' indices in listing order.
/// The sort keys of every document: its group key and its path.
pub(crate) fn sort_keys(docs: &Vec<DocumentIndex>, by_folder: bool) -> (r: (Vec<Vec<char>>, Vec<Vec<char>>))
    ensures
        r.0@.len() == docs@.len(),
        r.1@.len() == docs@.len(),
        keys_ok(docs@, by_folder, r.0@, r.1@, docs@.len() as int),
{
    let n = docs.len();
    let mut folders: Vec<Vec<char>> = Vec::new();
    let mut paths: Vec<Vec<char>> = Vec::new();
    let mut i: usize = 0;
    while i < n
        invariant
            i <= n,
            n == docs@.len(),
            folders@.len() == i,
            paths@.len() == i,
            keys_ok(docs@, by_folder, folders@, paths@, i as int),
        decreases n - i,
    {
        let p = chars_of(docs[i].rel_path.as_str());
        let f = if !by_folder {
            Vec::new()
        } else {
            match find_char(p.as_slice(), '/') {
            Some(j) => {
                proof {
                    assert(p@.subrange(0, j as int) =~= p@.take(j as int));
                }
                let mut f: Vec<char> = Vec::new();
                let mut t: usize = 0;
                while t < j
                    invariant
                        t <= j,
                        j < p@.len(),
                        f@ == p@.take(t as int),
                    decreases j - t,
                {
                    proof {
                        assert(p@.take(t + 1) =~= p@.take(t as int).push(p@[t as int]));
                    }
                    f.push(p[t]);
                    t = t + 1;
                }
                f
            },
            None => Vec::new(),
        }
        };
        let ghost fs = folders@;
        let ghost ps = paths@;
        let ghost fv = f@;
        folders.push(f);
        paths.push(p);
        proof {
            assert(fv == group_key(docs@, by_folder, i as int));
            assert forall|k: int|
                0 <= k < i + 1 implies (#[trigger] paths@[k])@ == docs@[k].rel_path@ && folders@[k]@
                    == group_key(docs@, by_folder, k) by {
                if k < i {
                    assert(paths@[k] == ps[k] && folders@[k] == fs[k]);
                }
            }
            assert(keys_ok(docs@, by_folder, folders@, paths@, i + 1));
        }
        i = i + 1;
    }
    (folders, paths)
}

pub(crate) fn ranked_order_of(docs: &Vec<DocumentIndex>, by_folder: bool) -> (r: Vec<usize>)
    ensures
        ranked_order(docs@, by_folder, order_view(r@)),
{
    let n = docs.len();
    let (folders, paths) = sort_keys(docs, by_folder);
    let mut all: Vec<usize> = Vec::new();
    let mut k: usize = 0;
    while k < n
        invariant
            k <= n,
            all@.len() == k,
            forall|a: int| 0 <= a < k ==> #[trigger] all@[a] == a,
        decreases n - k,
    {
        all.push(k);
        k = k + 1;
    }
    proof {
        assert forall|a: int, b: int| 0 <= a < all@.len() && 0 <= b < all@.len() && a != b implies all@[a]
            != all@[b] by {}
    }
    let order = sort_ids(docs, by_folder, &folders, &paths, &all);
    proof {
        assert forall|a: int, b: int| 0 <= a < b < order_view(order@).len() implies ranked_before(
            docs@,
            by_folder,
            #[trigger] order_view(order@)[a],
            #[trigger] order_view(order@)[b],
        ) by {
            assert(order@[a] as int == order_view(order@)[a]);
            assert(order@[b] as int == order_view(order@)[b]);
        }
        assert forall|a: int| 0 <= a < order_view(order@).len() implies 0 <= #[trigger] order_view(order@)[a] < docs@.len() by {
            assert(order@.contains(order@[a]));
            assert(all@.contains(order@[a]));
        }
    }
    order
}

/// `ids` sorted by `ranked_before`.
pub(crate) fn sort_ids(
    docs: &Vec<DocumentIndex>,
    by_folder: bool,
    folders: &Vec<Vec<char>>,
    paths: &Vec<Vec<char>>,
    ids: &Vec<usize>,
) -> (r: Vec<usize>)
    requires
        folders@.len() == docs@.len(),
        paths@.len() == docs@.len(),
        keys_ok(docs@, by_folder, folders@, paths@, docs@.len() as int),
        forall|a: int| 0 <= a < ids@.len() ==> #[trigger] ids@[a] < docs@.len(),
        ids@.no_duplicates(),
    ensures
        r@.len() == ids@.len(),
        forall|x: usize| r@.contains(x) <==> ids@.contains(x),
        forall|a: int, b: int|
            0 <= a < b < r@.len() ==> ranked_before(
                docs@,
                by_folder,
                #[trigger] r@[a] as int,
                #[trigger] r@[b] as int,
            ),
{
    let n = docs.len();
    let mut order: Vec<usize> = Vec::new();
    let mut k: usize = 0;
    while k < ids.len()
        invariant
            k <= ids@.len(),
            n == docs@.len(),
            folders@.len() == n,
            paths@.len() == n,
            keys_ok(docs@, by_folder, folders@, paths@, n as int),
            forall|a: int| 0 <= a < ids@.len() ==> #[trigger] ids@[a] < n,
            ids@.no_duplicates(),
            order@.len() == k,
            forall|a: int| 0 <= a < k ==> #[trigger] order@[a] < n,
            forall|a: int| 0 <= a < k ==> order@.contains(#[trigger] ids@[a]),
            forall|a: int| 0 <= a < k ==> ids@.take(k as int).contains(#[trigger] order@[a]),
            forall|a: int, b: int|
                0 <= a < b < k ==> ranked_before(
                    docs@,
                    by_folder,
                    #[trigger] order@[a] as int,
                    #[trigger] order@[b] as int,
                ),
        decreases ids@.len() - k,
    {
        let x = ids[k];
        proof {
            assert forall|a: int| 0 <= a < k implies #[trigger] order@[a] != x by {
                let t = choose|t: int| 0 <= t < k && ids@.take(k as int)[t] == order@[a];
                assert(ids@[t] == order@[a]);
                assert(ids@[k as int] == x);
            }
        }
        // Insert `x` after the last entry that should precede it (scanning
        // from the end, so already ordered input inserts at once).
        let mut p: usize = order.len();
        while p > 0 && !key_before(docs, by_folder, folders, paths, order[p - 1], x)
            invariant
                p <= order@.len(),
                x < n,
                n == docs@.len(),
                folders@.len() == n,
                paths@.len() == n,
                keys_ok(docs@, by_folder, folders@, paths@, n as int),
                order@.len() == k,
                forall|a: int| 0 <= a < k ==> #[trigger] order@[a] < n,
                forall|a: int| 0 <= a < k ==> #[trigger] order@[a] != x,
                forall|a: int| p <= a < k ==> ranked_before(docs@, by_folder, x as int, #[trigger] order@[a] as int),
            decreases p,
        {
            proof {
                lemma_ranked_before_total(docs@, by_folder, order@[p - 1] as int, x as int);
            }
            p = p - 1;
        }
        let ghost prev = order@;
        proof {
            assert forall|a: int| 0 <= a < k + 1 implies #[trigger] prev.insert(p as int, x)[a] < n by {
                if a < p {
                    assert(prev.insert(p as int, x)[a] == prev[a]);
                } else if a > p {
                    assert(prev.insert(p as int, x)[a] == prev[a - 1]);
                }
            }
        }
        order.insert(p, x);
        proof {
            assert(order@ == prev.insert(p as int, x));
            assert forall|a: int, b: int| 0 <= a < b < k + 1 implies ranked_before(
                docs@,
                by_folder,
                #[trigger] order@[a] as int,
                #[trigger] order@[b] as int,
            ) by {
                if b < p {
                    assert(order@[a] == prev[a] && order@[b] == prev[b]);
                } else if b == p {
                    assert(order@[a] == prev[a]);
                    if a < p - 1 {
                        lemma_ranked_before_transitive(
                            docs@,
                            by_folder,
                            prev[a] as int,
                            prev[p - 1] as int,
                            x as int,
                        );
                    }
                } else if a == p {
                    assert(order@[b] == prev[b - 1]);
                } else if a < p {
                    assert(order@[a] == prev[a] && order@[b] == prev[b - 1]);
                } else {
                    assert(order@[a] == prev[a - 1] && order@[b] == prev[b - 1]);
                }
            }
            assert forall|a: int| 0 <= a < k + 1 implies order@.contains(#[trigger] ids@[a]) by {
                if a == k {
                    assert(order@[p as int] == x);
                } else {
                    let t = choose|t: int| 0 <= t < prev.len() && prev[t] == ids@[a];
                    if t < p {
                        assert(order@[t] == prev[t]);
                    } else {
                        assert(order@[t + 1] == prev[t]);
                    }
                }
            }
            assert forall|a: int| 0 <= a < k + 1 implies ids@.take(k + 1).contains(#[trigger] order@[a]) by {
                if a == p {
                    assert(ids@.take(k + 1)[k as int] == x);
                } else {
                    let pa = if a < p { a } else { a - 1 };
                    assert(order@[a] == prev[pa]);
                    let t = choose|t: int| 0 <= t < k && ids@.take(k as int)[t] == prev[pa];
                    assert(ids@.take(k + 1)[t] == prev[pa]);
                }
            }
        }
        k = k + 1;
    }
    proof {
        assert(ids@.take(k as int) =~= ids@);
        assert forall|x: usize| order@.contains(x) <==> ids@.contains(x) by {
            if ids@.contains(x) {
                let a = choose|a: int| 0 <= a < ids@.len() && ids@[a] == x;
                assert(order@.contains(ids@[a]));
            }
            if order@.contains(x) {
                let a = choose|a: int| 0 <= a < order@.len() && order@[a] == x;
                assert(ids@.take(k as int).contains(order@[a]));
            }
        }
    }
    order
}

/// Whether document `a` is listed before document `b`.
fn key_before(
    docs: &Vec<DocumentIndex>,
    by_folder: bool,
    folders: &Vec<Vec<char>>,
    paths: &Vec<Vec<char>>,
    a: usize,
    b: usize,
) -> (r: bool)
    requires
        a < docs@.len(),
        b < docs@.len(),
        folders@.len() == docs@.len(),
        paths@.len() == docs@.len(),
        keys_ok(docs@, by_folder, folders@, paths@, docs@.len() as int),
    ensures
        r == ranked_before(docs@, by_folder, a as int, b as int),
{
    let fa = folders[a].as_slice();
    let fb = folders[b].as_slice();
    proof {
        lemma_str_lt_total(fa@, fb@);
        lemma_str_lt_total(paths@[a as int]@, paths@[b as int]@);
        lemma_str_lt_irreflexive(fa@);
        lemma_str_lt_irreflexive(paths@[a as int]@);
    }
    if str_less(fa, fb) {
        return true;
    }
    if str_less(fb, fa) {
        return false;
    }
    if str_less(paths[a].as_slice(), paths[b].as_slice()) {
        return true;
    }
    if str_less(paths[b].as_slice(), paths[a].as_slice()) {
        return false;
    }
    a < b
}

// ---------------------------------------------------------------------------
// Rendering
// ---------------------------------------------------------------------------

/// `t` appended to `s`.
fn append(s: &mut String, t: &str)
    ensures
        final(s)@ == old(s)@ + t@,
{
    let cs = chars_of(t);
    push_chars(s, cs.as_slice());
}

/// A file name without its last extension; a name whose only dot leads it
/// (such as `.profile`) is its own stem.
pub open spec fn file_stem(name: Seq<char>) -> Seq<char> {
    match last_index_of(name, '.') {
        Some(i) => if i > 0 {
            name.take(i)
        } else {
            name
        },
        None => name,
    }
}

/// A document's link text: its first heading's title, else the file's
/// stem (`docs/notes.md` gives `notes`).
pub open spec fn doc_title_of(doc: DocumentIndex) -> Seq<char> {
    if doc.nodes@.len() > 0 && doc.nodes@[0].title@.len() > 0 {
        doc.nodes@[0].title@
    } else {
        file_stem(after_last(doc.rel_path@, '/'))
    }
}

/// The note's source text: the frontmatter description, else the first
/// section's summary; nothing when that is empty.
pub open spec fn raw_note(doc: DocumentIndex) -> Option<Seq<char>> {
    let raw = match string_field_of(doc.frontmatter, description_key()) {
        Some(d) => Some(d),
        None => if doc.nodes@.len() > 0 {
            Some(doc.nodes@[0].summary@)
        } else {
            None
        },
    };
    match raw {
        Some(t) => if t.len() > 0 {
            Some(t)
        } else {
            None
        },
        None => None,
    }
}

/// At most `max` characters of `s`: longer text keeps `max - 1` of them
/// and ends in an ellipsis.
pub open spec fn truncated(s: Seq<char>, max: nat) -> Seq<char> {
    if s.len() <= max {
        s
    } else {
        s.take(if max > 0 { max - 1 } else { 0 }).push('\u{2026}')
    }
}

/// The longest note, in characters.
pub const NOTE_MAX: usize = 160;

/// The note after a document's link: its note text with whitespace
/// collapsed, capped at `NOTE_MAX` characters.
pub open spec fn doc_note_of(doc: DocumentIndex) -> Option<Seq<char>> {
    match raw_note(doc) {
        Some(t) => Some(truncated(collapse_whitespace(t), NOTE_MAX as nat)),
        None => None,
    }
}

/// The list line of a document.
pub open spec fn doc_line(doc: DocumentIndex) -> Seq<char> {
    "- ["@ + doc_title_of(doc) + "]("@ + doc.rel_path@ + match doc_note_of(doc) {
        Some(n) => "): "@ + n + "\n"@,
        None => ")\n"@,
    }
}

/// The heading that opens a folder's section.
pub open spec fn section_header(folder: Seq<char>) -> Seq<char> {
    "\n## "@ + (if folder.len() == 0 {
        "Documents"@
    } else {
        folder + "/"@
    }) + "\n\n"@
}

/// The sections for the documents of `order`, in that order: a header
/// wherever the folder changes, then one line per document.
pub open spec fn sections(docs: Seq<DocumentIndex>, order: Seq<int>) -> Seq<char>
    decreases order.len(),
{
    if order.len() == 0 {
        Seq::empty()
    } else {
        let prev = order.drop_last();
        let d = docs[order.last()];
        let opens = prev.len() == 0 || folder_of(docs[prev.last()].rel_path@) != folder_of(d.rel_path@);
        sections(docs, prev) + (if opens {
            section_header(folder_of(d.rel_path@))
        } else {
            Seq::empty()
        }) + doc_line(d)
    }
}

/// A root README or index document names the corpus.
pub open spec fn is_readme_name(rel: Seq<char>) -> bool {
    ||| eq_ignore_ascii_case(rel, "readme.md"@)
    ||| eq_ignore_ascii_case(rel, "index.md"@)
    ||| eq_ignore_ascii_case(rel, "readme.markdown"@)
}

/// The first README or index document at or after `i`.
pub open spec fn readme_from(docs: Seq<DocumentIndex>, i: int) -> Option<int>
    decreases docs.len() - i,
{
    if i < 0 || i >= docs.len() {
        None
    } else if is_readme_name(docs[i].rel_path@) {
        Some(i)
    } else {
        readme_from(docs, i + 1)
    }
}

pub open spec fn generic_blurb(n: nat) -> Seq<char> {
    "A Lore-indexed corpus of "@ + decimal_digits(n) + " documents."@
}

/// The blurb: the README's description, else its first summary when that
/// is not empty, else a count of the documents.
pub open spec fn blurb_of(docs: Seq<DocumentIndex>) -> Seq<char> {
    match readme_from(docs, 0) {
        Some(i) => match string_field_of(docs[i].frontmatter, description_key()) {
            Some(d) => d,
            None => if docs[i].nodes@.len() > 0 && docs[i].nodes@[0].summary@.len() > 0 {
                docs[i].nodes@[0].summary@
            } else {
                generic_blurb(docs.len())
            },
        },
        None => generic_blurb(docs.len()),
    }
}

/// The whole `llms.txt` when the documents are listed in `order`.
pub open spec fn llms_txt(c: CorpusIndex, order: Seq<int>) -> Seq<char> {
    let docs = c.documents@;
    "# "@ + c.source.0@ + "\n\n"@ + "> "@ + blurb_of(docs) + "\n\n"@ + "Index of "@ + decimal_digits(
        docs.len(),
    ) + " documents. Each link is a path relative to the corpus root.\n"@ + sections(docs, order)
}

/// `s` capped at `max` characters (see `truncated`).
pub fn truncate_chars(s: &str, max: usize) -> (r: String)
    ensures
        r@ == truncated(s@, max as nat),
{
    let cs = chars_of(s);
    if cs.len() <= max {
        return string_of_chars(cs.as_slice());
    }
    let keep = if max > 0 {
        max - 1
    } else {
        0
    };
    let mut out = string_of_range(cs.as_slice(), 0, keep);
    push_char(&mut out, '\u{2026}');
    proof {
        assert(cs@.subrange(0, keep as int) =~= s@.take(keep as int));
    }
    out
}

/// A document's link text.
pub fn doc_title(doc: &DocumentIndex) -> (r: String)
    ensures
        r@ == doc_title_of(*doc),
{
    if doc.nodes.len() > 0 && doc.nodes[0].title.unicode_len() > 0 {
        return doc.nodes[0].title.clone();
    }
    let cs = chars_of(doc.rel_path.as_str());
    let n = cs.len();
    let start = match rfind_char(cs.as_slice(), '/') {
        Some(i) => i + 1,
        None => 0,
    };
    let ghost name = after_last(doc.rel_path@, '/');
    assert(cs@.subrange(start as int, n as int) =~= name);
    let base = string_of_range(cs.as_slice(), start, n);
    let bs = chars_of(base.as_str());
    match rfind_char(bs.as_slice(), '.') {
        Some(j) => if j > 0 {
            assert(bs@.subrange(0, j as int) =~= name.take(j as int));
            string_of_range(bs.as_slice(), 0, j)
        } else {
            base
        },
        None => base,
    }
}

/// The note after a document's link, if it has one.
pub fn doc_note(doc: &DocumentIndex) -> (r: Option<String>)
    ensures
        opt_view(r) == doc_note_of(*doc),
{
    let raw = match doc.description() {
        Some(d) => d,
        None => {
            if doc.nodes.len() > 0 {
                doc.nodes[0].summary.clone()
            } else {
                return None;
            }
        },
    };
    if raw.unicode_len() == 0 {
        return None;
    }
    let collapsed = normalize_whitespace(raw.as_str());
    Some(truncate_chars(collapsed.as_str(), NOTE_MAX))
}

/// Whether the path names a root README or index document.
fn readme_name(rel: &str) -> (r: bool)
    ensures
        r == is_readme_name(rel@),
{
    let cs = chars_of(rel);
    let a = chars_of("readme.md");
    let b = chars_of("index.md");
    let c = chars_of("readme.markdown");
    chars_eq_ignore_ascii_case(cs.as_slice(), a.as_slice()) || chars_eq_ignore_ascii_case(
        cs.as_slice(),
        b.as_slice(),
    ) || chars_eq_ignore_ascii_case(cs.as_slice(), c.as_slice())
}

fn generic_blurb_text(n: usize) -> (r: String)
    ensures
        r@ == generic_blurb(n as nat),
{
    let mut out = String::new();
    append(&mut out, "A Lore-indexed corpus of ");
    let d = decimal_string(n as u64);
    append(&mut out, d.as_str());
    append(&mut out, " documents.");
    proof {
        assert(out@ =~= generic_blurb(n as nat));
    }
    out
}

/// The blockquote blurb of the corpus.
pub fn corpus_blurb(corpus: &CorpusIndex) -> (r: String)
    ensures
        r@ == blurb_of(corpus.documents@),
{
    let ghost docs = corpus.documents@;
    let mut i: usize = 0;
    while i < corpus.documents.len()
        invariant
            i <= docs.len(),
            docs == corpus.documents@,
            readme_from(docs, 0) == readme_from(docs, i as int),
        decreases docs.len() - i,
    {
        if readme_name(corpus.documents[i].rel_path.as_str()) {
            let doc = &corpus.documents[i];
            match doc.description() {
                Some(d) => return d,
                None => {},
            }
            if doc.nodes.len() > 0 && doc.nodes[0].summary.unicode_len() > 0 {
                return doc.nodes[0].summary.clone();
            }
            return generic_blurb_text(corpus.documents.len());
        }
        i = i + 1;
    }
    generic_blurb_text(corpus.documents.len())
}

/// The list line of a document.
fn line_for(doc: &DocumentIndex) -> (r: String)
    ensures
        r@ == doc_line(*doc),
{
    let mut out = String::new();
    append(&mut out, "- [");
    let t = doc_title(doc);
    append(&mut out, t.as_str());
    append(&mut out, "](");
    append(&mut out, doc.rel_path.as_str());
    match doc_note(doc) {
        Some(n) => {
            append(&mut out, "): ");
            append(&mut out, n.as_str());
            append(&mut out, "\n");
        },
        None => {
            append(&mut out, ")\n");
        },
    }
    proof {
        assert(out@ =~= doc_line(*doc));
    }
    out
}

proof fn lemma_sections_step(docs: Seq<DocumentIndex>, ov: Seq<int>, k: int)
    requires
        0 <= k < ov.len(),
    ensures
        sections(docs, ov.take(k + 1)) == sections(docs, ov.take(k)) + (if k == 0 || folder_of(
            docs[ov[k - 1]].rel_path@,
        ) != folder_of(docs[ov[k]].rel_path@) {
            section_header(folder_of(docs[ov[k]].rel_path@))
        } else {
            Seq::empty()
        }) + doc_line(docs[ov[k]]),
{
    assert(ov.take(k + 1).drop_last() =~= ov.take(k));
    assert(ov.take(k + 1).last() == ov[k]);
    if k > 0 {
        assert(ov.take(k).last() == ov[k - 1]);
    }
}

/// Whether the document `i` opens a new section after document `prev`.
fn opens_section(docs: &Vec<DocumentIndex>, prev: Option<usize>, i: usize) -> (r: bool)
    requires
        i < docs@.len(),
        prev matches Some(p) ==> p < docs@.len(),
    ensures
        r == match prev {
            Some(p) => folder_of(docs@[p as int].rel_path@) != folder_of(docs@[i as int].rel_path@),
            None => true,
        },
{
    match prev {
        Some(p) => {
            let fa = folder_text(docs[p].rel_path.as_str());
            let fb = folder_text(docs[i].rel_path.as_str());
            let ca = chars_of(fa.as_str());
            let cb = chars_of(fb.as_str());
            !crate::tokens::chars_eq(ca.as_slice(), cb.as_slice())
        },
        None => true,
    }
}

/// The section heading for the folder of `rel`.
fn header_text(rel: &str) -> (r: String)
    ensures
        r@ == section_header(folder_of(rel@)),
{
    let f = folder_text(rel);
    let mut out = String::new();
    append(&mut out, "\n## ");
    if f.unicode_len() == 0 {
        append(&mut out, "Documents");
    } else {
        append(&mut out, f.as_str());
        append(&mut out, "/");
    }
    append(&mut out, "\n\n");
    proof {
        assert(out@ =~= section_header(folder_of(rel@)));
    }
    out
}

/// Render `llms.txt` for a corpus: a title, the blurb, a count line, then
/// one section per top-level folder (root documents first, under
/// "Documents"), each listing its documents by path.
#[verifier::rlimit(40)]
pub fn render_llms_txt(corpus: &CorpusIndex) -> (r: String)
    ensures
        exists|order: Seq<int>|
            listing_order(corpus.documents@, order) && r@ == llms_txt(*corpus, order),
{
    let ghost docs = corpus.documents@;
    let mut out = String::new();
    append(&mut out, "# ");
    append(&mut out, corpus.source.0.as_str());
    append(&mut out, "\n\n");
    append(&mut out, "> ");
    let blurb = corpus_blurb(corpus);
    append(&mut out, blurb.as_str());
    append(&mut out, "\n\n");
    append(&mut out, "Index of ");
    let count = decimal_string(corpus.documents.len() as u64);
    append(&mut out, count.as_str());
    append(&mut out, " documents. Each link is a path relative to the corpus root.\n");
    let ghost head = out@;
    let order = ranked_order_of(&corpus.documents, true);
    let ghost ov = order_view(order@);
    let mut k: usize = 0;
    while k < order.len()
        invariant
            k <= order@.len(),
            docs == corpus.documents@,
            ov == order_view(order@),
            listing_order(docs, ov),
            out@ == head + sections(docs, ov.take(k as int)),
        decreases order@.len() - k,
    {
        let i = order[k];
        proof {
            assert(ov[k as int] == i as int);
            if k > 0 {
                assert(ov[k - 1] == order@[k - 1] as int);
            }
            lemma_sections_step(docs, ov, k as int);
        }
        let doc = &corpus.documents[i];
        let prev = if k == 0 {
            None
        } else {
            Some(order[k - 1])
        };
        let opens = opens_section(&corpus.documents, prev, i);
        let ghost before = out@;
        if opens {
            let h = header_text(doc.rel_path.as_str());
            append(&mut out, h.as_str());
        }
        let line = line_for(doc);
        append(&mut out, line.as_str());
        proof {
            assert(out@ =~= head + sections(docs, ov.take(k + 1)));
        }
        k = k + 1;
    }
    proof {
        assert(ov.take(k as int) =~= ov);
        assert(out@ =~= llms_txt(*corpus, ov));
    }
    out
}

/// The top-level folder of a path, as text.
fn folder_text(rel: &str) -> (r: String)
    ensures
        r@ == folder_of(rel@),
{
    let cs = chars_of(rel);
    match find_char(cs.as_slice(), '/') {
        Some(j) => {
            proof {
                assert(cs@.subrange(0, j as int) =~= cs@.take(j as int));
            }
            string_of_range(cs.as_slice(), 0, j)
        },
        None => String::new(),
    }
}

// ---------------------------------------------------------------------------
// Full text
// ---------------------------------------------------------------------------

/// The documents' indices by path: the order of `llms-full.txt`.
pub fn full_text_order(corpus: &CorpusIndex) -> (r: Vec<usize>)
    ensures
        path_order(corpus.documents@, order_view(r@)),
{
    ranked_order_of(&corpus.documents, false)
}

/// One document's part of the full text: a rule, its path as a heading,
/// then its text without trailing whitespace.
pub open spec fn full_section(rel: Seq<char>, content: Seq<char>) -> Seq<char> {
    "\n\n---\n\n# "@ + rel + "\n\n"@ + trim_end(content) + "\n"@
}

pub open spec fn full_sections(parts: Seq<(String, String)>) -> Seq<char>
    decreases parts.len(),
{
    if parts.len() == 0 {
        Seq::empty()
    } else {
        full_sections(parts.drop_last()) + full_section(parts.last().0@, parts.last().1@)
    }
}

/// `llms-full.txt` for corpus `source`, given each document's path and text
/// in output order.
pub open spec fn llms_full(source: Seq<char>, parts: Seq<(String, String)>) -> Seq<char> {
    "# "@ + source + " \u{2014} full text\n\n"@ + full_sections(parts)
}

/// `s` without trailing whitespace.
fn trim_end_text(s: &str) -> (r: String)
    ensures
        r@ == trim_end(s@),
{
    let cs = chars_of(s);
    let mut j = cs.len();
    assert(cs@.take(j as int) =~= cs@);
    while j > 0 && crate::text::is_whitespace(cs[j - 1])
        invariant
            j <= cs@.len(),
            cs@ == s@,
            trim_end(s@) == trim_end(cs@.take(j as int)),
        decreases j,
    {
        proof {
            assert(cs@.take(j as int).drop_last() =~= cs@.take(j - 1));
            assert(cs@.take(j as int).last() == cs@[j - 1]);
        }
        j = j - 1;
    }
    proof {
        if j > 0 {
            assert(cs@.take(j as int).last() == cs@[j - 1]);
        }
        assert(cs@.subrange(0, j as int) =~= cs@.take(j as int));
    }
    string_of_range(cs.as_slice(), 0, j)
}

/// Render `llms-full.txt` from the documents' paths and texts, in order.
pub fn render_llms_full(source: &str, parts: &Vec<(String, String)>) -> (r: String)
    ensures
        r@ == llms_full(source@, parts@),
{
    let mut out = String::new();
    append(&mut out, "# ");
    append(&mut out, source);
    append(&mut out, " \u{2014} full text\n\n");
    let ghost head = out@;
    let mut k: usize = 0;
    while k < parts.len()
        invariant
            k <= parts@.len(),
            out@ == head + full_sections(parts@.take(k as int)),
        decreases parts@.len() - k,
    {
        proof {
            assert(parts@.take(k + 1).drop_last() =~= parts@.take(k as int));
            assert(parts@.take(k + 1).last() == parts@[k as int]);
        }
        append(&mut out, "\n\n---\n\n# ");
        append(&mut out, parts[k].0.as_str());
        append(&mut out, "\n\n");
        let body = trim_end_text(parts[k].1.as_str());
        append(&mut out, body.as_str());
        append(&mut out, "\n");
        proof {
            assert(out@ =~= head + full_sections(parts@.take(k + 1)));
        }
        k = k + 1;
    }
    proof {
        assert(parts@.take(k as int) =~= parts@);
    }
    out
}

} // verus!
