//! Query parsing and the term-coverage verdict of a query against a corpus.
//! (Ranking scores are floating point and are computed outside this
//! library.)

use vstd::prelude::*;

use crate::corpus::{inverted_entries, CorpusIndex, DocId};
use crate::types::NodeId;
use crate::text::{char_is_whitespace, chars_of, is_whitespace, words};
use crate::tokens::{string_of_chars, string_views, tokenize, tokens};
use crate::tools::{CoverageLevel, SearchCoverage};

verus! {

/// The whitespace-separated words of `s`.
pub fn split_whitespace(s: &str) -> (r: Vec<String>)
    ensures
        string_views(r@) == words(s@),
{
    let cs = chars_of(s);
    let mut out: Vec<String> = Vec::new();
    let mut cur: Vec<char> = Vec::new();
    let mut i: usize = 0;
    while i < cs.len()
        invariant
            i <= cs@.len(),
            cs@ == s@,
            (cur@.len() > 0) == (i > 0 && !char_is_whitespace(cs@[i - 1])),
            words(cs@.take(i as int)) == if cur@.len() > 0 {
                string_views(out@).push(cur@)
            } else {
                string_views(out@)
            },
        decreases cs@.len() - i,
    {
        let c = cs[i];
        proof {
            assert(cs@.take(i + 1).drop_last() =~= cs@.take(i as int));
            assert(cs@.take(i + 1).last() == c);
            if i > 0 {
                assert(cs@.take(i + 1)[i - 1] == cs@[i - 1]);
            }
        }
        if is_whitespace(c) {
            if cur.len() > 0 {
                let w = string_of_chars(cur.as_slice());
                let ghost before = string_views(out@);
                out.push(w);
                proof {
                    assert(string_views(out@) =~= before.push(cur@));
                }
                cur = Vec::new();
            }
        } else {
            let ghost old_cur = cur@;
            cur.push(c);
            proof {
                let w = words(cs@.take(i as int));
                if old_cur.len() > 0 {
                    assert(w.drop_last() =~= string_views(out@));
                    assert(w.drop_last().push(w.last().push(c)) =~= string_views(out@).push(cur@));
                } else {
                    assert(cur@ =~= seq![c]);
                }
            }
        }
        i = i + 1;
    }
    if cur.len() > 0 {
        let w = string_of_chars(cur.as_slice());
        let ghost before = string_views(out@);
        out.push(w);
        proof {
            assert(string_views(out@) =~= before.push(cur@));
        }
    }
    assert(cs@.take(cs@.len() as int) =~= cs@);
    out
}

/// The positive and negative tokens of a query's words: a word starting
/// with `-` is a negation of the rest of it; a lone `-` is ignored.
pub open spec fn query_tokens(ws: Seq<Seq<char>>) -> (Seq<Seq<char>>, Seq<Seq<char>>)
    decreases ws.len(),
{
    if ws.len() == 0 {
        (Seq::empty(), Seq::empty())
    } else {
        let (pos, neg) = query_tokens(ws.drop_last());
        let w = ws.last();
        if w.len() > 0 && w[0] == '-' {
            if w.len() == 1 {
                (pos, neg)
            } else {
                (pos, neg + tokens(w.skip(1)))
            }
        } else {
            (pos + tokens(w), neg)
        }
    }
}

/// Split a raw query string into positive and negative tokens.
///
/// A whitespace-separated word starting with `-` is a negation; a bare `-`
/// or a hyphen inside a word (`kafka-connect`) is not. Negations go through
/// the same tokenisation as positives.
pub fn parse_query(query: &str) -> (r: (Vec<String>, Vec<String>))
    ensures
        string_views(r.0@) == query_tokens(words(query@)).0,
        string_views(r.1@) == query_tokens(words(query@)).1,
{
    let ws = split_whitespace(query);
    let ghost wv = string_views(ws@);
    let mut pos: Vec<String> = Vec::new();
    let mut neg: Vec<String> = Vec::new();
    let mut i: usize = 0;
    while i < ws.len()
        invariant
            i <= ws@.len(),
            wv == string_views(ws@),
            wv == words(query@),
            string_views(pos@) == query_tokens(wv.take(i as int)).0,
            string_views(neg@) == query_tokens(wv.take(i as int)).1,
        decreases ws@.len() - i,
    {
        proof {
            assert(wv.take(i + 1).drop_last() =~= wv.take(i as int));
            assert(wv.take(i + 1).last() == wv[i as int]);
        }
        let cs = chars_of(ws[i].as_str());
        if cs.len() > 0 && cs[0] == '-' {
            if cs.len() > 1 {
                let rest = crate::text::string_of_range(cs.as_slice(), 1, cs.len());
                proof {
                    assert(cs@.subrange(1, cs@.len() as int) =~= cs@.skip(1));
                }
                let mut ts = tokenize(rest.as_str());
                let ghost before = string_views(neg@);
                let ghost tv = string_views(ts@);
                neg.append(&mut ts);
                proof {
                    assert(string_views(neg@) =~= before + tv);
                }
            }
        } else {
            let mut ts = tokenize(ws[i].as_str());
            let ghost before = string_views(pos@);
            let ghost tv = string_views(ts@);
            pos.append(&mut ts);
            proof {
                assert(string_views(pos@) =~= before + tv);
            }
        }
        i = i + 1;
    }
    assert(wv.take(i as int) =~= wv);
    (pos, neg)
}

/// The query terms with postings, and those without, in query order.
pub open spec fn split_by_presence(m: Map<Seq<char>, Seq<crate::corpus::Posting>>, ts: Seq<Seq<char>>) -> (Seq<Seq<char>>, Seq<Seq<char>>)
    decreases ts.len(),
{
    if ts.len() == 0 {
        (Seq::empty(), Seq::empty())
    } else {
        let (hit, miss) = split_by_presence(m, ts.drop_last());
        if m.dom().contains(ts.last()) {
            (hit.push(ts.last()), miss)
        } else {
            (hit, miss.push(ts.last()))
        }
    }
}

/// The verdict from the matched and unmatched terms: `Full` when every term
/// matched (and there is one), `Partial` when some did, `Uncovered` when
/// none did.
pub open spec fn level_of(matched: nat, unmatched: nat) -> CoverageLevel {
    if matched == 0 {
        CoverageLevel::Uncovered
    } else if unmatched == 0 {
        CoverageLevel::Full
    } else {
        CoverageLevel::Partial
    }
}

proof fn lemma_split_by_presence(m: Map<Seq<char>, Seq<crate::corpus::Posting>>, ts: Seq<Seq<char>>)
    ensures
        split_by_presence(m, ts).0.len() + split_by_presence(m, ts).1.len() == ts.len(),
        (split_by_presence(m, ts).0.len() == 0) <==> forall|k: int|
            0 <= k < ts.len() ==> !m.dom().contains(#[trigger] ts[k]),
        (split_by_presence(m, ts).1.len() == 0) <==> forall|k: int|
            0 <= k < ts.len() ==> m.dom().contains(#[trigger] ts[k]),
    decreases ts.len(),
{
    if ts.len() > 0 {
        let init = ts.drop_last();
        lemma_split_by_presence(m, init);
        assert forall|k: int| 0 <= k < init.len() implies init[k] == ts[k] by {}
        assert(ts.last() == ts[ts.len() - 1]);
        if m.dom().contains(ts.last()) {
            if forall|k: int| 0 <= k < init.len() ==> m.dom().contains(#[trigger] init[k]) {
                assert forall|k: int| 0 <= k < ts.len() implies m.dom().contains(#[trigger] ts[k]) by {
                    if k < init.len() {
                        assert(m.dom().contains(init[k]));
                    }
                }
            }
        } else {
            if forall|k: int| 0 <= k < init.len() ==> !m.dom().contains(#[trigger] init[k]) {
                assert forall|k: int| 0 <= k < ts.len() implies !m.dom().contains(#[trigger] ts[k]) by {
                    if k < init.len() {
                        assert(!m.dom().contains(init[k]));
                    }
                }
            }
        }
    }
}

/// The coverage verdict depends on which positive query terms have
/// postings: `Uncovered` exactly when none has, `Full` exactly when there is
/// at least one term and every one has, `Partial` exactly when some have
/// and some have not.
pub proof fn law_coverage_verdict(corpus: CorpusIndex, query: Seq<char>)
    ensures
        ({
            let m = inverted_entries(corpus.inverted);
            let ts = query_tokens(words(query)).0;
            let split = split_by_presence(m, ts);
            let level = level_of(split.0.len(), split.1.len());
            &&& (level is Uncovered <==> forall|k: int|
                0 <= k < ts.len() ==> !m.dom().contains(#[trigger] ts[k]))
            &&& (level is Full <==> ts.len() > 0 && forall|k: int|
                0 <= k < ts.len() ==> m.dom().contains(#[trigger] ts[k]))
            &&& (level is Partial <==> (exists|k: int|
                0 <= k < ts.len() && m.dom().contains(#[trigger] ts[k])) && (exists|k: int|
                0 <= k < ts.len() && !m.dom().contains(#[trigger] ts[k])))
        }),
{
    let m = inverted_entries(corpus.inverted);
    let ts = query_tokens(words(query)).0;
    lemma_split_by_presence(m, ts);
}

/// Whether the corpus holds the query's vocabulary: which positive query
/// terms have postings, which do not, and the verdict.
pub fn coverage(corpus: &CorpusIndex, query: &str) -> (r: SearchCoverage)
    ensures
        ({
            let split = split_by_presence(
                inverted_entries(corpus.inverted),
                query_tokens(words(query@)).0,
            );
            &&& string_views(r.matched_terms@) == split.0
            &&& string_views(r.unmatched_terms@) == split.1
            &&& r.level == level_of(split.0.len(), split.1.len())
        }),
{
    let (pos, _neg) = parse_query(query);
    let ghost m = inverted_entries(corpus.inverted);
    let ghost pv = string_views(pos@);
    let mut matched: Vec<String> = Vec::new();
    let mut unmatched: Vec<String> = Vec::new();
    let mut i: usize = 0;
    while i < pos.len()
        invariant
            i <= pos@.len(),
            pv == string_views(pos@),
            m == inverted_entries(corpus.inverted),
            string_views(matched@) == split_by_presence(m, pv.take(i as int)).0,
            string_views(unmatched@) == split_by_presence(m, pv.take(i as int)).1,
        decreases pos@.len() - i,
    {
        proof {
            assert(pv.take(i + 1).drop_last() =~= pv.take(i as int));
            assert(pv.take(i + 1).last() == pv[i as int]);
        }
        let t = pos[i].clone();
        match corpus.inverted.get(t.as_str()) {
            Some(_) => {
                let ghost before = string_views(matched@);
                matched.push(t);
                proof {
                    assert(string_views(matched@) =~= before.push(pv[i as int]));
                }
            },
            None => {
                let ghost before = string_views(unmatched@);
                unmatched.push(t);
                proof {
                    assert(string_views(unmatched@) =~= before.push(pv[i as int]));
                }
            },
        }
        i = i + 1;
    }
    assert(pv.take(i as int) =~= pv);
    let level = if matched.len() == 0 {
        CoverageLevel::Uncovered
    } else if unmatched.len() == 0 {
        CoverageLevel::Full
    } else {
        CoverageLevel::Partial
    };
    SearchCoverage { level, matched_terms: matched, unmatched_terms: unmatched }
}

// ---------------------------------------------------------------------------
// Grouping ranked hits by document
// ---------------------------------------------------------------------------

/// Position `i` of the ranked hits holds its document's best hit.
pub open spec fn first_of_doc(hs: Seq<(DocId, NodeId)>, i: int) -> bool {
    forall|k: int| 0 <= k < i ==> hs[k].0 != hs[i].0
}

/// The positions before `n` that hold a document's best hit, in rank order.
pub open spec fn doc_firsts(hs: Seq<(DocId, NodeId)>, n: int) -> Seq<usize>
    decreases n,
{
    if n <= 0 {
        Seq::empty()
    } else {
        doc_firsts(hs, n - 1) + if first_of_doc(hs, n - 1) {
            seq![(n - 1) as usize]
        } else {
            Seq::empty()
        }
    }
}

/// The positions after `p` and before `n` that hit `p`'s document.
pub open spec fn later_hits(hs: Seq<(DocId, NodeId)>, p: int, n: int) -> Seq<usize>
    decreases n - p,
{
    if n <= p + 1 {
        Seq::empty()
    } else {
        later_hits(hs, p, n - 1) + if hs[n - 1].0 == hs[p].0 {
            seq![(n - 1) as usize]
        } else {
            Seq::empty()
        }
    }
}

/// At most the first `k` of `s`.
pub open spec fn capped(s: Seq<usize>, k: int) -> Seq<usize> {
    if s.len() <= k {
        s
    } else {
        s.take(k)
    }
}

/// `prims` and `secs` group the first `n` ranked hits by document: one
/// group per document in the order of its best hit, at most `limit`
/// groups, each with the positions of up to `sec` further hits of its
/// document, best first.
pub open spec fn groups_of(prims: Seq<usize>, secs: Seq<Seq<usize>>, hs: Seq<(DocId, NodeId)>, n: int, limit: int, sec: int) -> bool {
    let fs = doc_firsts(hs, n);
    &&& prims.len() == secs.len()
    &&& prims.len() == if fs.len() <= limit {
        fs.len() as int
    } else {
        limit
    }
    &&& forall|g: int|
        0 <= g < prims.len() ==> #[trigger] prims[g] == fs[g] && secs[g] == capped(
            later_hits(hs, prims[g] as int, n),
            sec,
        )
}

/// Groups ranked hits by document: for each document, in the order of its
/// best hit and at most `limit` of them, the position of that hit and the
/// positions of up to `secondary_limit` further hits of the document, best
/// first.
pub fn group_hits(hits: &Vec<(DocId, NodeId)>, limit: usize, secondary_limit: usize) -> (r: Vec<(usize, Vec<usize>)>)
    ensures
        groups_of(
            r@.map_values(|g: (usize, Vec<usize>)| g.0),
            r@.map_values(|g: (usize, Vec<usize>)| g.1@),
            hits@,
            hits@.len() as int,
            limit as int,
            secondary_limit as int,
        ),
{
    let ghost hs = hits@;
    let mut prims: Vec<usize> = Vec::new();
    let mut secs: Vec<Vec<usize>> = Vec::new();
    let mut i: usize = 0;
    while i < hits.len()
        invariant
            i <= hs.len(),
            hs == hits@,
            groups_of(
                prims@,
                secs@.map_values(|v: Vec<usize>| v@),
                hs,
                i as int,
                limit as int,
                secondary_limit as int,
            ),
            forall|g: int| 0 <= g < prims@.len() ==> #[trigger] prims@[g] < i,
            forall|a: int, b: int|
                0 <= a < b < prims@.len() ==> hs[#[trigger] prims@[a] as int].0 != hs[#[trigger] prims@[b] as int].0,
        decreases hs.len() - i,
    {
        let ghost sv = secs@.map_values(|v: Vec<usize>| v@);
        let ghost fs = doc_firsts(hs, i as int);
        let doc = hits[i].0;
        let mut g: usize = 0;
        while g < prims.len() && hits[prims[g]].0 != doc
            invariant
                g <= prims@.len(),
                hs == hits@,
                i < hs.len(),
                doc == hs[i as int].0,
                forall|x: int| 0 <= x < prims@.len() ==> #[trigger] prims@[x] < i,
                forall|x: int| 0 <= x < g ==> hs[#[trigger] prims@[x] as int].0 != doc,
            decreases prims@.len() - g,
        {
            g = g + 1;
        }
        proof {
            assert(doc_firsts(hs, i + 1) == fs + if first_of_doc(hs, i as int) {
                seq![i as usize]
            } else {
                Seq::<usize>::empty()
            });
            assert forall|x: int| 0 <= x < prims@.len() implies #[trigger] later_hits(hs, prims@[x] as int, i + 1)
                == later_hits(hs, prims@[x] as int, i as int) + if hs[i as int].0 == hs[prims@[x] as int].0 {
                seq![i as usize]
            } else {
                Seq::<usize>::empty()
            } by {
                assert(prims@[x] < i);
            }
        }
        if g < prims.len() {
            // The document already has a group: `i` joins it if there is room.
            proof {
                assert(hs[prims@[g as int] as int].0 == doc);
                assert(!first_of_doc(hs, i as int)) by {
                    assert(prims@[g as int] < i);
                }
                assert(doc_firsts(hs, i + 1) =~= fs);
            }
            let ghost old_prims = prims@;
            if secs[g].len() < secondary_limit {
                let mut v = secs[g].clone();
                v.push(i);
                secs.set(g, v);
            }
            proof {
                let nsv = secs@.map_values(|v: Vec<usize>| v@);
                let p = prims@[g as int] as int;
                let l = later_hits(hs, p, i as int);
                assert(later_hits(hs, p, i + 1) == l.push(i as usize));
                if sv[g as int].len() < secondary_limit {
                    assert(sv[g as int] == capped(l, secondary_limit as int));
                    assert(l.len() < secondary_limit);
                    assert(nsv[g as int] =~= capped(l.push(i as usize), secondary_limit as int));
                } else {
                    assert(nsv[g as int] == sv[g as int]);
                    assert(capped(l.push(i as usize), secondary_limit as int) =~= capped(l, secondary_limit as int));
                }
                assert forall|x: int| 0 <= x < prims@.len() implies #[trigger] prims@[x] == doc_firsts(hs, i + 1)[x]
                    && nsv[x] == capped(later_hits(hs, prims@[x] as int, i + 1), secondary_limit as int) by {
                    if x != g {
                        assert(nsv[x] == sv[x]);
                        if x < g {
                            assert(hs[prims@[x] as int].0 != doc);
                        } else {
                            assert(hs[prims@[g as int] as int].0 != hs[prims@[x] as int].0);
                        }
                    }
                }
            }
        } else {
            proof {
                assert forall|x: int| 0 <= x < prims@.len() implies hs[#[trigger] prims@[x] as int].0 != doc by {}
            }
            if first_of_doc_exec(hits, i) && prims.len() < limit {
                let ghost before = prims@;
                prims.push(i);
                secs.push(Vec::new());
                proof {
                    let nsv = secs@.map_values(|v: Vec<usize>| v@);
                    assert(before.len() == fs.len());
                    assert(doc_firsts(hs, i + 1) == fs.push(i as usize));
                    assert(later_hits(hs, i as int, i + 1) =~= Seq::<usize>::empty());
                    assert forall|x: int| 0 <= x < prims@.len() implies #[trigger] prims@[x] == doc_firsts(hs, i + 1)[x]
                        && nsv[x] == capped(later_hits(hs, prims@[x] as int, i + 1), secondary_limit as int) by {
                        if x < before.len() {
                            assert(prims@[x] == before[x]);
                            assert(nsv[x] == sv[x]);
                        } else {
                            assert(nsv[x] =~= Seq::<usize>::empty());
                        }
                    }
                    assert forall|a: int, b: int| 0 <= a < b < prims@.len() implies hs[#[trigger] prims@[a] as int].0
                        != hs[#[trigger] prims@[b] as int].0 by {
                        if b == before.len() {
                            assert(prims@[a] == before[a]);
                        } else {
                            assert(prims@[a] == before[a] && prims@[b] == before[b]);
                        }
                    }
                }
            } else {
                proof {
                    if first_of_doc(hs, i as int) {
                        assert(prims@.len() >= limit);
                        assert(fs.len() >= limit);
                    }
                    assert forall|x: int| 0 <= x < prims@.len() implies #[trigger] prims@[x] == doc_firsts(hs, i + 1)[x]
                        && sv[x] == capped(later_hits(hs, prims@[x] as int, i + 1), secondary_limit as int) by {
                        assert(hs[prims@[x] as int].0 != doc);
                    }
                }
            }
        }
        i = i + 1;
    }
    let ghost fsv = secs@.map_values(|v: Vec<usize>| v@);
    let mut out: Vec<(usize, Vec<usize>)> = Vec::new();
    let mut k: usize = 0;
    while k < prims.len()
        invariant
            k <= prims@.len(),
            prims@.len() == secs@.len(),
            fsv == secs@.map_values(|v: Vec<usize>| v@),
            out@.len() == k,
            forall|x: int| 0 <= x < k ==> (#[trigger] out@[x]).0 == prims@[x] && out@[x].1@ == fsv[x],
        decreases prims@.len() - k,
    {
        let v = secs[k].clone();
        out.push((prims[k], v));
        k = k + 1;
    }
    proof {
        let ps = out@.map_values(|g: (usize, Vec<usize>)| g.0);
        let ss = out@.map_values(|g: (usize, Vec<usize>)| g.1@);
        assert(ps =~= prims@);
        assert(ss =~= fsv);
    }
    out
}

/// Whether hit `i` is the first hit of its document.
fn first_of_doc_exec(hits: &Vec<(DocId, NodeId)>, i: usize) -> (r: bool)
    requires
        i < hits@.len(),
    ensures
        r == first_of_doc(hits@, i as int),
{
    let mut k: usize = 0;
    while k < i
        invariant
            k <= i,
            i < hits@.len(),
            forall|j: int| 0 <= j < k ==> hits@[j].0 != hits@[i as int].0,
        decreases i - k,
    {
        if hits[k].0 == hits[i].0 {
            return false;
        }
        k = k + 1;
    }
    true
}

} // verus!
