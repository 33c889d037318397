//! Retrieval-effectiveness scoring: relevance targets, where the first
//! relevant hit ranks, and the per-query verdicts a labeled query set is
//! scored by. (The ratio metrics are computed by the caller.)

use vstd::prelude::*;

use crate::corpus::{CorpusIndex, DocId};
use crate::search::level_of;
use crate::text::{chars_eq_ignore_ascii_case, chars_of, eq_ignore_ascii_case};
use crate::tokens::string_views;
use crate::types::NodeId;
use crate::tools::{
    opt_segments_view, parse_qualified_path, qualified_path_of, strings_eq, CoverageLevel,
};

verus! {

/// One labeled query.
#[derive(Debug)]
pub struct EvalQuery {
    pub query: String,
    /// Acceptable answers: `rel_path` or `rel_path#Heading > Sub`. Empty
    /// for an out-of-domain probe (coverage only).
    pub relevant: Vec<String>,
    /// Expected coverage verdict (`full` | `partial` | `none`), if scored.
    pub expected_coverage: Option<String>,
    /// Free-text note for curators.
    pub note: Option<String>,
}

/// A parsed relevance target.
#[derive(Debug)]
pub struct Target {
    pub rel_path: String,
    pub heading: Option<Vec<String>>,
}

/// `rel_path` or `rel_path#Heading > Sub`: a document, or one section of it.
pub fn parse_target(s: &str) -> (r: Target)
    ensures
        r.rel_path@ == qualified_path_of(s@).0,
        opt_segments_view(r.heading) == qualified_path_of(s@).1,
{
    let (rel_path, heading) = parse_qualified_path(s);
    Target { rel_path, heading }
}

/// A hit in document `rel` at heading path `heading` satisfies target `t`.
pub open spec fn satisfies(rel: Seq<char>, heading: Seq<Seq<char>>, t: Target) -> bool {
    &&& rel == t.rel_path@
    &&& match t.heading {
        None => true,
        Some(segs) => heading == string_views(segs@),
    }
}

/// Does a hit satisfy a target? Document-level targets match any section
/// of the document; section-level targets need the exact heading path.
pub fn hit_matches(hit_rel: &str, hit_heading: &Vec<String>, t: &Target) -> (r: bool)
    ensures
        r == satisfies(hit_rel@, string_views(hit_heading@), *t),
{
    let rel = hit_rel.to_owned();
    if rel != t.rel_path {
        return false;
    }
    match &t.heading {
        None => true,
        Some(segs) => strings_eq(hit_heading, segs),
    }
}

/// A ranked hit, as the scorer sees it: its document's path and its
/// heading path, when the hit names a node of the corpus.
pub open spec fn hit_view(c: CorpusIndex, h: (DocId, NodeId)) -> Option<(Seq<char>, Seq<Seq<char>>)> {
    let docs = c.documents@;
    if h.0.0 < docs.len() && h.1.0 < docs[h.0.0 as int].nodes@.len() {
        Some((docs[h.0.0 as int].rel_path@, docs[h.0.0 as int].nodes@[h.1.0 as int].path@))
    } else {
        None
    }
}

/// Hit `h` names a node, and that node satisfies some target.
pub open spec fn relevant_hit(h: Option<(Seq<char>, Seq<Seq<char>>)>, ts: Seq<Target>) -> bool {
    h matches Some(x) && exists|k: int| 0 <= k < ts.len() && satisfies(x.0, x.1, #[trigger] ts[k])
}

/// The first position at or after `i` of a hit that satisfies a target.
pub open spec fn first_relevant_from(c: CorpusIndex, hits: Seq<(DocId, NodeId)>, ts: Seq<Target>, i: int) -> Option<int>
    decreases hits.len() - i,
{
    if i < 0 || i >= hits.len() {
        None
    } else if relevant_hit(hit_view(c, hits[i]), ts) {
        Some(i)
    } else {
        first_relevant_from(c, hits, ts, i + 1)
    }
}

fn any_target(corpus: &CorpusIndex, hit: (DocId, NodeId), targets: &Vec<Target>) -> (r: bool)
    ensures
        r == relevant_hit(hit_view(*corpus, hit), targets@),
{
    let doc = match corpus.doc(hit.0) {
        Some(d) => d,
        None => return false,
    };
    let node = match doc.node(hit.1) {
        Some(n) => n,
        None => return false,
    };
    assert(string_views(node.path.0@) =~= node.path@);
    assert(hit_view(*corpus, hit) == Some((doc.rel_path@, node.path@)));
    let mut k: usize = 0;
    while k < targets.len()
        invariant
            k <= targets@.len(),
            string_views(node.path.0@) == node.path@,
            hit_view(*corpus, hit) == Some((doc.rel_path@, node.path@)),
            forall|j: int|
                0 <= j < k ==> !satisfies(doc.rel_path@, string_views(node.path.0@), #[trigger] targets@[j]),
        decreases targets@.len() - k,
    {
        if hit_matches(doc.rel_path.as_str(), &node.path.0, &targets[k]) {
            return true;
        }
        k = k + 1;
    }
    false
}

/// The 0-based position of the first hit that satisfies any target.
pub fn first_relevant(corpus: &CorpusIndex, hits: &Vec<(DocId, NodeId)>, targets: &Vec<Target>) -> (r: Option<usize>)
    ensures
        match r {
            Some(p) => first_relevant_from(*corpus, hits@, targets@, 0) == Some(p as int) && p < hits@.len(),
            None => first_relevant_from(*corpus, hits@, targets@, 0) is None,
        },
{
    let mut i: usize = 0;
    while i < hits.len()
        invariant
            i <= hits@.len(),
            first_relevant_from(*corpus, hits@, targets@, 0) == first_relevant_from(
                *corpus,
                hits@,
                targets@,
                i as int,
            ),
        decreases hits@.len() - i,
    {
        if any_target(corpus, hits[i], targets) {
            return Some(i);
        }
        i = i + 1;
    }
    None
}

/// Outcome for one query.
#[derive(Debug)]
pub struct QueryResult {
    pub query: String,
    /// 1-based rank of the first relevant hit, or `None` if none landed in
    /// the hits. Always `None` for out-of-domain probes.
    pub rank: Option<usize>,
    /// Whether the query carried relevance targets.
    pub judged: bool,
    /// The coverage verdict returned by search.
    pub coverage: String,
    /// Whether it matched the expected verdict, when one was given.
    pub coverage_ok: Option<bool>,
}

pub open spec fn level_name(level: CoverageLevel) -> Seq<char> {
    match level {
        CoverageLevel::Full => "full"@,
        CoverageLevel::Partial => "partial"@,
        CoverageLevel::Uncovered => "none"@,
    }
}

/// The wire name of a coverage verdict.
pub fn coverage_level_str(level: CoverageLevel) -> (r: &'static str)
    ensures
        r@ == level_name(level),
{
    match level {
        CoverageLevel::Full => "full",
        CoverageLevel::Partial => "partial",
        CoverageLevel::Uncovered => "none",
    }
}

/// The targets of a query, parsed.
pub open spec fn targets_ok(ts: Seq<Target>, relevant: Seq<String>) -> bool {
    &&& ts.len() == relevant.len()
    &&& forall|k: int|
        0 <= k < ts.len() ==> (#[trigger] ts[k]).rel_path@ == qualified_path_of(relevant[k]@).0
            && opt_segments_view(ts[k].heading) == qualified_path_of(relevant[k]@).1
}

/// Scores one query given its ranked hits (best first) and the coverage
/// verdict search returned.
pub fn score_query(corpus: &CorpusIndex, q: &EvalQuery, hits: &Vec<(DocId, NodeId)>, level: CoverageLevel) -> (r: QueryResult)
    ensures
        r.query@ == q.query@,
        r.judged == (q.relevant@.len() > 0),
        r.coverage@ == level_name(level),
        exists|ts: Seq<Target>|
            targets_ok(ts, q.relevant@) && r.rank == (if ts.len() == 0 {
                None::<usize>
            } else {
                match first_relevant_from(*corpus, hits@, ts, 0) {
                    Some(p) => Some((p + 1) as usize),
                    None => None,
                }
            }),
        r.coverage_ok == match q.expected_coverage {
            Some(e) => Some(eq_ignore_ascii_case(e@, level_name(level))),
            None => None::<bool>,
        },
{
    let mut targets: Vec<Target> = Vec::new();
    let mut k: usize = 0;
    while k < q.relevant.len()
        invariant
            k <= q.relevant@.len(),
            targets_ok(targets@, q.relevant@.take(k as int)),
        decreases q.relevant@.len() - k,
    {
        let t = parse_target(q.relevant[k].as_str());
        targets.push(t);
        k = k + 1;
    }
    assert(q.relevant@.take(k as int) =~= q.relevant@);
    let n = hits.len();
    let rank = if targets.len() == 0 {
        None
    } else {
        match first_relevant(corpus, hits, &targets) {
            Some(p) => {
                assert(p < n);
                Some(p + 1)
            },
            None => None,
        }
    };
    let name = coverage_level_str(level);
    let coverage_ok = match &q.expected_coverage {
        Some(e) => {
            let a = chars_of(e.as_str());
            let b = chars_of(name);
            Some(chars_eq_ignore_ascii_case(a.as_slice(), b.as_slice()))
        },
        None => None,
    };
    QueryResult {
        query: q.query.clone(),
        rank,
        judged: q.relevant.len() > 0,
        coverage: name.to_owned(),
        coverage_ok,
    }
}

/// The counts an eval run is summarised by: judged queries, judged queries
/// with a relevant hit at rank ≤ 1, ≤ 3 and ≤ 10, queries with an expected
/// verdict, and those whose verdict matched.
pub struct EvalCounts {
    pub judged: usize,
    pub success_at_1: usize,
    pub success_at_3: usize,
    pub success_at_10: usize,
    pub coverage_scored: usize,
    pub coverage_correct: usize,
}

pub open spec fn count_where(rs: Seq<QueryResult>, p: spec_fn(QueryResult) -> bool) -> nat
    decreases rs.len(),
{
    if rs.len() == 0 {
        0
    } else {
        count_where(rs.drop_last(), p) + if p(rs.last()) {
            1nat
        } else {
            0nat
        }
    }
}

pub open spec fn judged_within(r: QueryResult, k: usize) -> bool {
    r.judged && (r.rank matches Some(x) && x <= k)
}

proof fn lemma_count_bound(rs: Seq<QueryResult>, p: spec_fn(QueryResult) -> bool)
    ensures
        count_where(rs, p) <= rs.len(),
    decreases rs.len(),
{
    if rs.len() > 0 {
        lemma_count_bound(rs.drop_last(), p);
    }
}

/// Tallies the per-query results.
pub fn tally(results: &Vec<QueryResult>) -> (c: EvalCounts)
    ensures
        c.judged == count_where(results@, |r: QueryResult| r.judged),
        c.success_at_1 == count_where(results@, |r: QueryResult| judged_within(r, 1)),
        c.success_at_3 == count_where(results@, |r: QueryResult| judged_within(r, 3)),
        c.success_at_10 == count_where(results@, |r: QueryResult| judged_within(r, 10)),
        c.coverage_scored == count_where(results@, |r: QueryResult| r.coverage_ok is Some),
        c.coverage_correct == count_where(results@, |r: QueryResult| r.coverage_ok == Some(true)),
{
    let mut c = EvalCounts {
        judged: 0,
        success_at_1: 0,
        success_at_3: 0,
        success_at_10: 0,
        coverage_scored: 0,
        coverage_correct: 0,
    };
    let mut i: usize = 0;
    while i < results.len()
        invariant
            i <= results@.len(),
            c.judged == count_where(results@.take(i as int), |r: QueryResult| r.judged),
            c.success_at_1 == count_where(results@.take(i as int), |r: QueryResult| judged_within(r, 1)),
            c.success_at_3 == count_where(results@.take(i as int), |r: QueryResult| judged_within(r, 3)),
            c.success_at_10 == count_where(
                results@.take(i as int),
                |r: QueryResult| judged_within(r, 10),
            ),
            c.coverage_scored == count_where(
                results@.take(i as int),
                |r: QueryResult| r.coverage_ok is Some,
            ),
            c.coverage_correct == count_where(
                results@.take(i as int),
                |r: QueryResult| r.coverage_ok == Some(true),
            ),
        decreases results@.len() - i,
    {
        let r = &results[i];
        let ghost t = results@.take(i as int);
        proof {
            assert(results@.take(i + 1).drop_last() =~= t);
            assert(results@.take(i + 1).last() == *r);
            lemma_count_bound(t, |r: QueryResult| r.judged);
            lemma_count_bound(t, |r: QueryResult| judged_within(r, 1));
            lemma_count_bound(t, |r: QueryResult| judged_within(r, 3));
            lemma_count_bound(t, |r: QueryResult| judged_within(r, 10));
            lemma_count_bound(t, |r: QueryResult| r.coverage_ok is Some);
            lemma_count_bound(t, |r: QueryResult| r.coverage_ok == Some(true));
        }
        if r.judged {
            c.judged = c.judged + 1;
            match r.rank {
                Some(x) => {
                    if x <= 1 {
                        c.success_at_1 = c.success_at_1 + 1;
                    }
                    if x <= 3 {
                        c.success_at_3 = c.success_at_3 + 1;
                    }
                    if x <= 10 {
                        c.success_at_10 = c.success_at_10 + 1;
                    }
                },
                None => {},
            }
        }
        match r.coverage_ok {
            Some(ok) => {
                c.coverage_scored = c.coverage_scored + 1;
                if ok {
                    c.coverage_correct = c.coverage_correct + 1;
                }
            },
            None => {},
        }
        i = i + 1;
    }
    assert(results@.take(i as int) =~= results@);
    c
}

} // verus!
