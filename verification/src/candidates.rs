//! The integer side of ranking: which nodes a term's postings name (each
//! once, for the term's document frequency), and which nodes a query's
//! negated terms exclude. The scores themselves are floating point and are
//! computed outside this library.

use vstd::prelude::*;
use std::collections::HashSet;

use crate::corpus::{at_views, inverted_entries, CorpusIndex, DocId, Posting};
use crate::tokens::string_views;
use crate::types::NodeId;

verus! {

broadcast use vstd::std_specs::hash::group_hash_axioms;

/// The node a posting names, as a pair of integers.
pub open spec fn posting_at(p: Posting) -> (u32, u32) {
    (p.doc.0, p.node.0)
}

pub open spec fn postings_at(ps: Seq<Posting>) -> Seq<(u32, u32)> {
    ps.map_values(|p: Posting| posting_at(p))
}

/// The pairs of `ps`, each at its first occurrence, in order.
pub open spec fn distinct_pairs(ps: Seq<(u32, u32)>) -> Seq<(u32, u32)>
    decreases ps.len(),
{
    if ps.len() == 0 {
        Seq::empty()
    } else {
        let r = distinct_pairs(ps.drop_last());
        if r.contains(ps.last()) {
            r
        } else {
            r.push(ps.last())
        }
    }
}

proof fn lemma_push_contains(s: Seq<(u32, u32)>, y: (u32, u32), x: (u32, u32))
    ensures
        s.push(y).contains(x) <==> (s.contains(x) || x == y),
{
    if s.contains(x) {
        let i = choose|i: int| 0 <= i < s.len() && s[i] == x;
        assert(s.push(y)[i] == x);
    }
    if x == y {
        assert(s.push(y)[s.len() as int] == x);
    }
    if s.push(y).contains(x) {
        let i = choose|i: int| 0 <= i < s.push(y).len() && s.push(y)[i] == x;
        if i < s.len() {
            assert(s[i] == x);
        }
    }
}

/// `distinct_pairs` keeps exactly the pairs of `ps`, none twice.
pub proof fn lemma_distinct_pairs(ps: Seq<(u32, u32)>)
    ensures
        forall|x: (u32, u32)| distinct_pairs(ps).contains(x) <==> ps.contains(x),
        distinct_pairs(ps).no_duplicates(),
    decreases ps.len(),
{
    if ps.len() > 0 {
        let d = ps.drop_last();
        lemma_distinct_pairs(d);
        let r = distinct_pairs(d);
        assert(d.push(ps.last()) =~= ps);
        assert forall|x: (u32, u32)| distinct_pairs(ps).contains(x) <==> ps.contains(x) by {
            lemma_push_contains(d, ps.last(), x);
            lemma_push_contains(r, ps.last(), x);
        }
        if !r.contains(ps.last()) {
            let s = r.push(ps.last());
            assert forall|i: int, j: int| 0 <= i < s.len() && 0 <= j < s.len() && i != j implies s[i]
                != s[j] by {
                if i < r.len() && j < r.len() {
                } else if i < r.len() {
                    assert(r.contains(r[i]));
                } else if j < r.len() {
                    assert(r.contains(r[j]));
                }
            }
        }
    }
}

/// The table key of a pair; distinct pairs get distinct keys.
pub open spec fn pair_key(x: (u32, u32)) -> u64 {
    (x.0 as int * 0x1_0000_0000 + x.1 as int) as u64
}

pub(crate) proof fn lemma_pair_key_injective(x: (u32, u32), y: (u32, u32))
    ensures
        pair_key(x) == pair_key(y) ==> x == y,
{
    let a = x.0 as int;
    let b = x.1 as int;
    let c = y.0 as int;
    let d = y.1 as int;
    assert(0 <= a * 0x1_0000_0000 + b < 0x1_0000_0000_0000_0000) by (nonlinear_arith)
        requires
            0 <= a < 0x1_0000_0000,
            0 <= b < 0x1_0000_0000,
    ;
    assert(0 <= c * 0x1_0000_0000 + d < 0x1_0000_0000_0000_0000) by (nonlinear_arith)
        requires
            0 <= c < 0x1_0000_0000,
            0 <= d < 0x1_0000_0000,
    ;
    if pair_key(x) == pair_key(y) {
        assert(a * 0x1_0000_0000 + b == c * 0x1_0000_0000 + d);
        assert(a == c && b == d) by (nonlinear_arith)
            requires
                a * 0x1_0000_0000 + b == c * 0x1_0000_0000 + d,
                0 <= b < 0x1_0000_0000,
                0 <= d < 0x1_0000_0000,
        ;
    }
}

pub(crate) fn key_of(did: DocId, nid: NodeId) -> (r: u64)
    ensures
        r == pair_key((did.0, nid.0)),
{
    let a = did.0 as u64;
    let b = nid.0 as u64;
    assert(a * 0x1_0000_0000 + b <= u64::MAX) by (nonlinear_arith)
        requires
            a < 0x1_0000_0000,
            b < 0x1_0000_0000,
    ;
    a * 0x1_0000_0000 + b
}

/// Appends to `out` the nodes of `ps` not yet in `seen`, each once, and
/// records them in `seen`.
fn add_distinct(ps: &Vec<Posting>, seen: &mut HashSet<u64>, out: &mut Vec<(DocId, NodeId)>)
    requires
        distinct_pairs(at_views(old(out)@)) == at_views(old(out)@),
        forall|k: u64| old(seen)@.contains(k) <==> exists|i: int| 0 <= i < old(out)@.len() && pair_key(at_views(old(out)@)[i]) == k,
    ensures
        at_views(final(out)@) == distinct_pairs(at_views(old(out)@) + postings_at(ps@)),
        forall|k: u64| final(seen)@.contains(k) <==> exists|i: int| 0 <= i < final(out)@.len() && pair_key(at_views(final(out)@)[i]) == k,
{
    let ghost base = at_views(out@);
    let mut i: usize = 0;
    while i < ps.len()
        invariant
            i <= ps@.len(),
            at_views(out@) == distinct_pairs(base + postings_at(ps@.take(i as int))),
            forall|k: u64| seen@.contains(k) <==> exists|j: int| 0 <= j < out@.len() && pair_key(at_views(out@)[j]) == k,
            distinct_pairs(base) == base,
        decreases ps@.len() - i,
    {
        let p = ps[i];
        let ghost x = posting_at(p);
        let ghost before = at_views(out@);
        let ghost prefix = base + postings_at(ps@.take(i as int));
        proof {
            assert(base + postings_at(ps@.take(i + 1)) =~= prefix.push(x));
            lemma_distinct_pairs(prefix);
            assert forall|j: int| 0 <= j < before.len() implies (pair_key(#[trigger] before[j]) == pair_key(x) <==> before[j] == x) by {
                lemma_pair_key_injective(before[j], x);
            }
        }
        let key = key_of(p.doc, p.node);
        let fresh = seen.insert(key);
        proof {
            if before.contains(x) {
                let j = choose|j: int| 0 <= j < before.len() && before[j] == x;
                assert(pair_key(before[j]) == key);
            }
            if !fresh {
                let j = choose|j: int| 0 <= j < out@.len() && pair_key(at_views(out@)[j]) == key;
                assert(before[j] == x);
            }
            let q = prefix.push(x);
            assert(q.drop_last() =~= prefix);
            assert(q.last() == x);
            assert(distinct_pairs(q) == if before.contains(x) {
                before
            } else {
                before.push(x)
            });
            assert(fresh == !before.contains(x));
        }
        if fresh {
            out.push((p.doc, p.node));
            proof {
                assert(at_views(out@) =~= before.push(x));
                assert forall|k: u64| seen@.contains(k) implies exists|j: int| 0 <= j < out@.len() && pair_key(at_views(out@)[j]) == k by {
                    if k == key {
                        assert(at_views(out@)[before.len() as int] == x);
                    } else {
                        let j = choose|j: int| 0 <= j < before.len() && pair_key(before[j]) == k;
                        assert(at_views(out@)[j] == before[j]);
                    }
                }
                assert forall|k: u64| (exists|j: int| 0 <= j < out@.len() && pair_key(at_views(out@)[j]) == k) implies seen@.contains(k) by {
                    let j = choose|j: int| 0 <= j < out@.len() && pair_key(at_views(out@)[j]) == k;
                    if j < before.len() {
                        assert(at_views(out@)[j] == before[j]);
                    }
                }
            }
        }
        i = i + 1;
    }
    assert(ps@.take(i as int) =~= ps@);
}

/// The nodes a term's postings name, each once, in order of first
/// posting: their number is the term's document frequency.
pub fn distinct_nodes(postings: &Vec<Posting>) -> (r: Vec<(DocId, NodeId)>)
    ensures
        at_views(r@) == distinct_pairs(postings_at(postings@)),
{
    let mut seen: HashSet<u64> = HashSet::new();
    let mut out: Vec<(DocId, NodeId)> = Vec::new();
    proof {
        assert(at_views(out@) =~= Seq::<(u32, u32)>::empty());
        assert(distinct_pairs(Seq::<(u32, u32)>::empty()) =~= Seq::<(u32, u32)>::empty());
    }
    add_distinct(postings, &mut seen, &mut out);
    proof {
        assert(Seq::<(u32, u32)>::empty() + postings_at(postings@) =~= postings_at(postings@));
    }
    out
}

/// The postings of the terms of `ts` that have any, term after term.
pub open spec fn postings_of_terms(m: Map<Seq<char>, Seq<Posting>>, ts: Seq<Seq<char>>) -> Seq<(u32, u32)>
    decreases ts.len(),
{
    if ts.len() == 0 {
        Seq::empty()
    } else {
        postings_of_terms(m, ts.drop_last()) + if m.dom().contains(ts.last()) {
            postings_at(m[ts.last()])
        } else {
            Seq::empty()
        }
    }
}

/// The nodes that some negated term occurs in, each once: a search drops
/// these from its hits however well they score.
pub fn excluded_nodes(corpus: &CorpusIndex, negated: &Vec<String>) -> (r: Vec<(DocId, NodeId)>)
    ensures
        at_views(r@) == distinct_pairs(postings_of_terms(inverted_entries(corpus.inverted), string_views(negated@))),
{
    let ghost m = inverted_entries(corpus.inverted);
    let ghost tv = string_views(negated@);
    let mut seen: HashSet<u64> = HashSet::new();
    let mut out: Vec<(DocId, NodeId)> = Vec::new();
    proof {
        assert(at_views(out@) =~= Seq::<(u32, u32)>::empty());
        assert(distinct_pairs(Seq::<(u32, u32)>::empty()) =~= Seq::<(u32, u32)>::empty());
    }
    let mut i: usize = 0;
    while i < negated.len()
        invariant
            i <= negated@.len(),
            m == inverted_entries(corpus.inverted),
            tv == string_views(negated@),
            at_views(out@) == distinct_pairs(postings_of_terms(m, tv.take(i as int))),
            forall|k: u64| seen@.contains(k) <==> exists|j: int| 0 <= j < out@.len() && pair_key(at_views(out@)[j]) == k,
        decreases negated@.len() - i,
    {
        proof {
            assert(tv.take(i + 1).drop_last() =~= tv.take(i as int));
            assert(tv.take(i + 1).last() == negated@[i as int]@);
            lemma_distinct_pairs(postings_of_terms(m, tv.take(i as int)));
            lemma_distinct_idempotent(postings_of_terms(m, tv.take(i as int)));
        }
        match corpus.inverted.get(negated[i].as_str()) {
            Some(ps) => {
                let ghost prev = postings_of_terms(m, tv.take(i as int));
                add_distinct(&ps, &mut seen, &mut out);
                proof {
                    lemma_distinct_concat(prev, postings_at(ps@));
                    assert(postings_of_terms(m, tv.take(i + 1)) =~= prev + postings_at(ps@));
                }
            },
            None => {
                proof {
                    assert(postings_of_terms(m, tv.take(i + 1)) =~= postings_of_terms(m, tv.take(i as int)));
                }
            },
        }
        i = i + 1;
    }
    assert(tv.take(i as int) =~= tv);
    out
}

/// Taking first occurrences twice changes nothing.
proof fn lemma_distinct_idempotent(ps: Seq<(u32, u32)>)
    ensures
        distinct_pairs(distinct_pairs(ps)) == distinct_pairs(ps),
{
    lemma_distinct_pairs(ps);
    lemma_distinct_of_unique(distinct_pairs(ps));
}

proof fn lemma_distinct_of_unique(ps: Seq<(u32, u32)>)
    requires
        ps.no_duplicates(),
    ensures
        distinct_pairs(ps) == ps,
    decreases ps.len(),
{
    if ps.len() > 0 {
        let d = ps.drop_last();
        assert(d.no_duplicates()) by {
            assert forall|i: int, j: int| 0 <= i < d.len() && 0 <= j < d.len() && i != j implies d[i] != d[j] by {
                assert(d[i] == ps[i] && d[j] == ps[j]);
            }
        }
        lemma_distinct_of_unique(d);
        assert(!d.contains(ps.last())) by {
            if d.contains(ps.last()) {
                let i = choose|i: int| 0 <= i < d.len() && d[i] == ps.last();
                assert(ps[i] == ps[ps.len() - 1]);
            }
        }
        assert(d.push(ps.last()) =~= ps);
    }
}

/// First occurrences of a concatenation: those of the first part, then
/// those of the second part's first occurrences that are new.
proof fn lemma_distinct_concat(a: Seq<(u32, u32)>, b: Seq<(u32, u32)>)
    ensures
        distinct_pairs(distinct_pairs(a) + b) == distinct_pairs(a + b),
    decreases b.len(),
{
    if b.len() == 0 {
        assert(distinct_pairs(a) + b =~= distinct_pairs(a));
        assert(a + b =~= a);
        lemma_distinct_idempotent(a);
    } else {
        lemma_distinct_concat(a, b.drop_last());
        assert((distinct_pairs(a) + b).drop_last() =~= distinct_pairs(a) + b.drop_last());
        assert((a + b).drop_last() =~= a + b.drop_last());
        assert((distinct_pairs(a) + b).last() == b.last());
        assert((a + b).last() == b.last());
    }
}

} // verus!
