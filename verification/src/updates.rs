//! Incremental updates of a loaded corpus: splicing in a re-parsed
//! document and dropping a deleted one, each followed by a rebuild of the
//! lookup tables.

use vstd::prelude::*;

use crate::corpus::{tables_current, CorpusIndex};
use crate::export::{lemma_ranked_order_covers, order_view, path_order, ranked_order_of};
use crate::model::DocumentIndex;
use crate::service::{doc_named, lemma_doc_named, lemma_doc_named_at};

verus! {

/// `new` is `all` rearranged by `order`.
pub open spec fn arranged(all: Seq<DocumentIndex>, order: Seq<int>, new: Seq<DocumentIndex>) -> bool {
    &&& new.len() == order.len()
    &&& forall|k: int| 0 <= k < new.len() ==> #[trigger] new[k] == all[order[k]]
}

/// `new` is `docs` with `doc` added and then everything ordered by path,
/// documents with equal paths keeping their relative order.
pub open spec fn added_in_path_order(docs: Seq<DocumentIndex>, doc: DocumentIndex, new: Seq<DocumentIndex>) -> bool {
    exists|order: Seq<int>| path_order(docs.push(doc), order) && arranged(docs.push(doc), order, new)
}

/// `docs` without the documents whose path is `rel`, in order.
pub open spec fn without_path(docs: Seq<DocumentIndex>, rel: Seq<char>) -> Seq<DocumentIndex>
    decreases docs.len(),
{
    if docs.len() == 0 {
        Seq::empty()
    } else {
        let rest = without_path(docs.drop_last(), rel);
        if docs.last().rel_path@ == rel {
            rest
        } else {
            rest.push(docs.last())
        }
    }
}

/// All of `v`, moved out in reverse order.
fn drain_reversed(v: &mut Vec<DocumentIndex>) -> (r: Vec<DocumentIndex>)
    ensures
        r@ == old(v)@.reverse(),
        final(v)@.len() == 0,
{
    let ghost orig = v@;
    let mut out: Vec<DocumentIndex> = Vec::new();
    while v.len() > 0
        invariant
            orig.len() == v@.len() + out@.len(),
            v@ == orig.take(v@.len() as int),
            out@ == orig.skip(v@.len() as int).reverse(),
        decreases v@.len(),
    {
        let ghost before = v@;
        let d = v.pop().unwrap();
        proof {
            assert(v@ =~= orig.take(v@.len() as int));
            assert(d == orig[v@.len() as int]);
        }
        let ghost prev = out@;
        out.push(d);
        proof {
            assert(orig.skip(v@.len() as int) =~= seq![d] + orig.skip(v@.len() as int + 1));
            assert(out@ =~= orig.skip(v@.len() as int).reverse());
        }
    }
    assert(orig.skip(0) =~= orig);
    out
}

impl CorpusIndex {
    /// Drops every document whose path is `rel_path` (a deleted file). The
    /// lookup tables are rebuilt when anything was dropped; returns whether
    /// anything was.
    pub fn remove_document(&mut self, rel_path: &str) -> (r: bool)
        requires
            old(self).documents@.len() <= u32::MAX,
        ensures
            final(self).documents@ == without_path(old(self).documents@, rel_path@),
            r == (without_path(old(self).documents@, rel_path@).len() != old(self).documents@.len()),
            final(self).source == old(self).source,
            final(self).root_dir == old(self).root_dir,
            r ==> tables_current(*final(self)),
            !r ==> final(self).heading_lookup == old(self).heading_lookup && final(self).title_trigrams
                == old(self).title_trigrams && final(self).path_to_doc == old(self).path_to_doc
                && final(self).backlinks == old(self).backlinks && final(self).inverted
                == old(self).inverted && final(self).field_lengths == old(self).field_lengths,
    {
        let ghost orig = self.documents@;
        let mut moved: Vec<DocumentIndex> = Vec::new();
        std::mem::swap(&mut moved, &mut self.documents);
        let mut rev = drain_reversed(&mut moved);
        let n = rev.len();
        let mut out: Vec<DocumentIndex> = Vec::new();
        let mut removed = false;
        let rel = rel_path.to_owned();
        while rev.len() > 0
            invariant
                n == orig.len(),
                rev@.len() <= n,
                rel@ == rel_path@,
                rev@ == orig.skip(n - rev@.len()).reverse(),
                out@ == without_path(orig.take(n - rev@.len()), rel_path@),
                removed == (out@.len() != n - rev@.len()),
                out@.len() <= n - rev@.len(),
            decreases rev@.len(),
        {
            let ghost k = n - rev@.len();
            let ghost before = rev@;
            let d = rev.pop().unwrap();
            proof {
                assert(before.last() == d);
                assert(before.reverse()[0] == before.last());
                assert(orig.skip(k)[0] == d);
                assert(orig[k] == d);
                assert(rev@ =~= orig.skip(k + 1).reverse());
                assert(orig.take(k + 1).drop_last() =~= orig.take(k));
                assert(orig.take(k + 1).last() == d);
            }
            if d.rel_path == rel {
                removed = true;
            } else {
                out.push(d);
            }
        }
        proof {
            assert(orig.take(n as int) =~= orig);
        }
        self.documents = out;
        if removed {
            self.rebuild_indices();
        }
        removed
    }

    /// Splices in a re-parsed document: it replaces the first document with
    /// the same path, or, when there is none, joins the documents, which are
    /// then ordered by path. The lookup tables are rebuilt.
    pub fn upsert_document(&mut self, doc: DocumentIndex)
        requires
            old(self).documents@.len() < u32::MAX,
        ensures
            match doc_named(old(self).documents@, doc.rel_path@) {
                Some(i) => final(self).documents@ == old(self).documents@.update(i, doc),
                None => added_in_path_order(old(self).documents@, doc, final(self).documents@),
            },
            final(self).source == old(self).source,
            final(self).root_dir == old(self).root_dir,
            tables_current(*final(self)),
    {
        let ghost docs0 = self.documents@;
        let found = crate::service::find_doc(self, "", doc.rel_path.as_str());
        match found {
            Ok(i) => {
                self.documents.set(i, doc);
            },
            Err(_) => {
                self.documents.push(doc);
                let ghost all = self.documents@;
                let n = self.documents.len();
                let order = ranked_order_of(&self.documents, false);
                let ghost ov = order_view(order@);
                proof {
                    assert forall|a: int, b: int| 0 <= a < b < n implies order@[a] != order@[b] by {
                        assert(ov[a] == order@[a] as int && ov[b] == order@[b] as int);
                        assert(crate::export::ranked_before(all, false, ov[a], ov[b]));
                        crate::export::lemma_ranked_before_irreflexive(all, false, ov[a]);
                    }
                }
                let mut moved: Vec<DocumentIndex> = Vec::new();
                std::mem::swap(&mut moved, &mut self.documents);
                let mut rev = drain_reversed(&mut moved);
                // Slot `j` holds document `j` until it is placed.
                let mut slots: Vec<Option<DocumentIndex>> = Vec::new();
                while rev.len() > 0
                    invariant
                        rev@.len() + slots@.len() == n,
                        all.len() == n,
                        rev@ == all.skip(slots@.len() as int).reverse(),
                        forall|j: int| 0 <= j < slots@.len() ==> #[trigger] slots@[j] == Some(all[j]),
                        order@.len() == n,
                        ov == order_view(order@),
                        path_order(all, ov),
                        forall|a: int, b: int| 0 <= a < b < n ==> order@[a] != order@[b],
                    decreases rev@.len(),
                {
                    let ghost before = rev@;
                    let d = rev.pop().unwrap();
                    proof {
                        assert(all.skip(slots@.len() as int)[0] == d) by {
                            assert(before.last() == d);
                            assert(before.reverse()[0] == before.last());
                        }
                        assert(rev@ =~= all.skip(slots@.len() as int + 1).reverse());
                    }
                    let ghost m = slots@.len();
                    slots.push(Some(d));
                    proof {
                        assert(slots@[m as int] == Some(all[m as int]));
                    }
                }
                proof {
                    assert forall|a: int| 0 <= a < n implies slots@[#[trigger] order@[a] as int] == Some(all[order@[a] as int]) by {
                        assert(ov[a] == order@[a] as int);
                    }
                }
                let mut out: Vec<DocumentIndex> = Vec::new();
                let mut t: usize = 0;
                while t < n
                    invariant
                        t <= n,
                        n == all.len(),
                        slots@.len() == n,
                        order@.len() == n,
                        ov == order_view(order@),
                        path_order(all, ov),
                        forall|a: int, b: int| 0 <= a < b < n ==> order@[a] != order@[b],
                        forall|a: int|
                            t <= a < n ==> slots@[#[trigger] order@[a] as int] == Some(all[order@[a] as int]),
                        out@.len() == t,
                        forall|a: int| 0 <= a < t ==> #[trigger] out@[a] == all[order@[a] as int],
                    decreases n - t,
                {
                    let j = order[t];
                    proof {
                        assert(ov[t as int] == j as int);
                    }
                    let ghost before = slots@;
                    let taken = slots[j].take();
                    proof {
                        assert(slots@ == before.update(j as int, None));
                        assert forall|a: int|
                            t + 1 <= a < n implies slots@[#[trigger] order@[a] as int] == Some(all[order@[a] as int]) by {
                            assert(order@[t as int] != order@[a]);
                            assert(ov[a] == order@[a] as int);
                            assert(before[order@[a] as int] == Some(all[order@[a] as int]));
                        }
                    }
                    let d = taken.unwrap();
                    out.push(d);
                    t = t + 1;
                }
                self.documents = out;
                proof {
                    assert(path_order(all, ov));
                    assert(arranged(all, ov, self.documents@));
                    assert(all == docs0.push(doc));
                }
            },
        }
        self.rebuild_indices();
    }
}

/// Re-indexing a document and then looking up its path finds the new
/// version: the first document with that path is the one just spliced in.
pub proof fn law_upsert_then_lookup(old: Seq<DocumentIndex>, doc: DocumentIndex, new: Seq<DocumentIndex>)
    requires
        match doc_named(old, doc.rel_path@) {
            Some(i) => new == old.update(i, doc),
            None => added_in_path_order(old, doc, new),
        },
    ensures
        doc_named(new, doc.rel_path@) matches Some(k) && new[k] == doc,
{
    let rel = doc.rel_path@;
    lemma_doc_named(old, rel);
    match doc_named(old, rel) {
        Some(i) => {
            assert forall|j: int| 0 <= j < i implies (#[trigger] new[j]).rel_path@ != rel by {
                assert(new[j] == old[j]);
            }
            lemma_doc_named_at(new, rel, i);
        },
        None => {
            let all = old.push(doc);
            let order = choose|order: Seq<int>| path_order(all, order) && arranged(all, order, new);
            lemma_ranked_order_covers(all, false, order);
            assert(order.contains(old.len() as int));
            let k = choose|k: int| 0 <= k < order.len() && order[k] == old.len() as int;
            assert(new[k] == doc);
            assert forall|j: int| 0 <= j < k implies (#[trigger] new[j]).rel_path@ != rel by {
                assert(new[j] == all[order[j]]);
                assert(order[j] != order[k]);
                assert(0 <= order[j] < all.len());
                assert(all[order[j]] == old[order[j]]);
            }
            lemma_doc_named_at(new, rel, k);
        },
    }
}

/// Re-indexing a document keeps every other document: those with other
/// paths are all still there.
pub proof fn law_upsert_keeps_others(old: Seq<DocumentIndex>, doc: DocumentIndex, new: Seq<DocumentIndex>)
    requires
        match doc_named(old, doc.rel_path@) {
            Some(i) => new == old.update(i, doc),
            None => added_in_path_order(old, doc, new),
        },
    ensures
        forall|j: int|
            0 <= j < old.len() && (#[trigger] old[j]).rel_path@ != doc.rel_path@ ==> new.contains(old[j]),
        new.len() == if doc_named(old, doc.rel_path@) is Some { old.len() } else { old.len() + 1 },
{
    let rel = doc.rel_path@;
    lemma_doc_named(old, rel);
    match doc_named(old, rel) {
        Some(i) => {
            assert forall|j: int|
                0 <= j < old.len() && (#[trigger] old[j]).rel_path@ != rel implies new.contains(old[j]) by {
                assert(j != i);
                assert(new[j] == old[j]);
            }
        },
        None => {
            let all = old.push(doc);
            let order = choose|order: Seq<int>| path_order(all, order) && arranged(all, order, new);
            lemma_ranked_order_covers(all, false, order);
            assert forall|j: int|
                0 <= j < old.len() && (#[trigger] old[j]).rel_path@ != rel implies new.contains(old[j]) by {
                assert(order.contains(j));
                let k = choose|k: int| 0 <= k < order.len() && order[k] == j;
                assert(new[k] == all[j]);
            }
        },
    }
}

/// After a document is removed, looking up its path finds nothing, and
/// every document with another path is still there, in the same order.
pub proof fn law_remove_then_lookup(old: Seq<DocumentIndex>, rel: Seq<char>)
    ensures
        doc_named(without_path(old, rel), rel) is None,
        forall|j: int|
            0 <= j < old.len() && (#[trigger] old[j]).rel_path@ != rel ==> without_path(old, rel).contains(
                old[j],
            ),
    decreases old.len(),
{
    let w = without_path(old, rel);
    if old.len() > 0 {
        let d = old.drop_last();
        law_remove_then_lookup(d, rel);
        lemma_doc_named(without_path(d, rel), rel);
        lemma_doc_named(w, rel);
        let wd = without_path(d, rel);
        if old.last().rel_path@ != rel {
            assert(w == wd.push(old.last()));
            assert forall|j: int| 0 <= j < w.len() implies (#[trigger] w[j]).rel_path@ != rel by {
                if j < wd.len() {
                    assert(w[j] == wd[j]);
                }
            }
            assert forall|j: int|
                0 <= j < old.len() && (#[trigger] old[j]).rel_path@ != rel implies w.contains(old[j]) by {
                if j < d.len() {
                    assert(d[j] == old[j]);
                    let k = choose|k: int| 0 <= k < wd.len() && wd[k] == old[j];
                    assert(w[k] == old[j]);
                } else {
                    assert(w[wd.len() as int] == old[j]);
                }
            }
        } else {
            assert forall|j: int|
                0 <= j < old.len() && (#[trigger] old[j]).rel_path@ != rel implies w.contains(old[j]) by {
                assert(j < d.len());
                assert(d[j] == old[j]);
            }
        }
        lemma_doc_named(w, rel);
        if doc_named(w, rel) is Some {
            let k = doc_named(w, rel)->0;
            if old.last().rel_path@ != rel {
                assert(w[k].rel_path@ != rel);
            } else {
                assert(wd[k].rel_path@ == rel);
                lemma_doc_named(wd, rel);
            }
        }
    }
}

} // verus!
