//! Corpus-level aggregation of document indices: the documents of one
//! corpus and the lookup tables derived from them (heading paths, title
//! trigrams, document paths, backlinks, the inverted index and per-field
//! token lengths).

use vstd::prelude::*;

use crate::derived::{
    backlink_table, build_tables, docs_inverted, docs_paths, heading_table, lengths_of, lens_view,
    node_count, sat_u32, sat_u64, token_total, trigram_table,
};
use crate::model::DocumentIndex;
use crate::types::{HeadingPath, NodeId, SourceId};

pub use crate::tokens::{canonical_link_keys, tokenize, trigrams_of};

verus! {

/// Dense identifier for a document within a corpus.
#[derive(Debug, Clone, Copy, PartialEq, Eq, Hash, PartialOrd, Ord, Structural)]
pub struct DocId(pub u32);

impl DocId {
    pub fn index(self) -> (r: usize)
        ensures
            r == self.0,
    {
        self.0 as usize
    }
}

/// Which field of a node a term was seen in.
#[derive(Debug, Clone, Copy, PartialEq, Eq, Structural)]
pub enum Field {
    Title,
    Path,
    Summary,
    /// The document's frontmatter `description`, filed on its first heading.
    Description,
}

impl Field {
    pub open spec fn code(self) -> u8 {
        match self {
            Field::Title => 0,
            Field::Path => 1,
            Field::Summary => 2,
            Field::Description => 3,
        }
    }

    pub fn as_u8(self) -> (r: u8)
        ensures
            r == self.code(),
    {
        match self {
            Field::Title => 0,
            Field::Path => 1,
            Field::Summary => 2,
            Field::Description => 3,
        }
    }
}

/// A posting in the inverted index: the node where a term occurred, the
/// field it was seen in, and how many times.
#[derive(Debug, Clone, Copy, PartialEq, Eq, Structural)]
pub struct Posting {
    pub doc: DocId,
    pub node: NodeId,
    pub field: Field,
    pub tf: u16,
}

/// Length in tokens of each node's text in each field, indexed by document
/// then node, with corpus totals for the length normalisation of ranking.
#[derive(Debug)]
pub struct FieldLengths {
    pub title: Vec<Vec<u16>>,
    pub path: Vec<Vec<u16>>,
    pub summary: Vec<Vec<u16>>,
    pub total_nodes: u32,
    /// Total title tokens over all nodes (saturating).
    pub title_total: u64,
    /// Total path tokens over all nodes (saturating).
    pub path_total: u64,
    /// Total summary tokens over all nodes (saturating).
    pub summary_total: u64,
}

/// `arena[d][n]`, or `0` when out of range.
pub open spec fn length_at(arena: Seq<Vec<u16>>, d: int, n: int) -> u16 {
    if 0 <= d < arena.len() && 0 <= n < arena[d]@.len() {
        arena[d]@[n]
    } else {
        0
    }
}

impl FieldLengths {
    pub fn empty() -> (r: Self)
        ensures
            r.title@.len() == 0,
            r.path@.len() == 0,
            r.summary@.len() == 0,
            r.total_nodes == 0,
            r.title_total == 0,
            r.path_total == 0,
            r.summary_total == 0,
    {
        FieldLengths {
            title: Vec::new(),
            path: Vec::new(),
            summary: Vec::new(),
            total_nodes: 0,
            title_total: 0,
            path_total: 0,
            summary_total: 0,
        }
    }

    pub open spec fn arena(self, field: Field) -> Seq<Vec<u16>> {
        match field {
            Field::Title => self.title@,
            Field::Path => self.path@,
            Field::Summary => self.summary@,
            Field::Description => Seq::empty(),
        }
    }

    /// The length of node `nid` of document `did` in `field`; `0` when either
    /// is out of range, and for descriptions, whose lengths are not kept.
    pub fn get(&self, did: DocId, nid: NodeId, field: Field) -> (r: u16)
        ensures
            r == length_at(self.arena(field), did.0 as int, nid.0 as int),
    {
        let d = did.index();
        let n = nid.index();
        let arena = match field {
            Field::Title => &self.title,
            Field::Path => &self.path,
            Field::Summary => &self.summary,
            Field::Description => return 0,
        };
        if d < arena.len() && n < arena[d].len() {
            arena[d][n]
        } else {
            0
        }
    }
}

// ---------------------------------------------------------------------------
// Grouping
// ---------------------------------------------------------------------------

/// `m` with `v` appended to the values filed under `k`.
pub open spec fn push_to<K, V>(m: Map<K, Seq<V>>, k: K, v: V) -> Map<K, Seq<V>> {
    m.insert(
        k,
        if m.dom().contains(k) {
            m[k].push(v)
        } else {
            seq![v]
        },
    )
}

/// `m` with every pair of `pairs` filed in order.
pub open spec fn grouped_onto<K, V>(m: Map<K, Seq<V>>, pairs: Seq<(K, V)>) -> Map<K, Seq<V>>
    decreases pairs.len(),
{
    if pairs.len() == 0 {
        m
    } else {
        push_to(grouped_onto(m, pairs.drop_last()), pairs.last().0, pairs.last().1)
    }
}

/// The pairs grouped by key, values in order of appearance.
pub open spec fn grouped<K, V>(pairs: Seq<(K, V)>) -> Map<K, Seq<V>> {
    grouped_onto(Map::empty(), pairs)
}

pub proof fn lemma_grouped_concat<K, V>(m: Map<K, Seq<V>>, a: Seq<(K, V)>, b: Seq<(K, V)>)
    ensures
        grouped_onto(m, a + b) == grouped_onto(grouped_onto(m, a), b),
    decreases b.len(),
{
    if b.len() == 0 {
        assert(a + b =~= a);
    } else {
        lemma_grouped_concat(m, a, b.drop_last());
        assert((a + b).drop_last() =~= a + b.drop_last());
        assert((a + b).last() == b.last());
    }
}

// ---------------------------------------------------------------------------
// Lookup tables
// ---------------------------------------------------------------------------

/// A `(document, node)` pair as plain integers.
pub open spec fn at(did: DocId, nid: NodeId) -> (u32, u32) {
    (did.0, nid.0)
}

pub open spec fn at_views(v: Seq<(DocId, NodeId)>) -> Seq<(u32, u32)> {
    v.map_values(|p: (DocId, NodeId)| at(p.0, p.1))
}

/// Heading path → every node with that path.
#[verifier::external_body]
#[derive(Debug)]
pub struct HeadingLookup {
    inner: hashbrown::HashMap<Vec<String>, Vec<(DocId, NodeId)>>,
}

/// What a `HeadingLookup` holds.
pub uninterp spec fn heading_entries(m: HeadingLookup) -> Map<Seq<Seq<char>>, Seq<(u32, u32)>>;

impl HeadingLookup {
    /// `hashbrown::HashMap::new`: an empty table.
    #[verifier::external_body]
    pub fn new() -> (r: Self)
        ensures
            heading_entries(r).dom().is_empty(),
    {
        HeadingLookup { inner: hashbrown::HashMap::new() }
    }

    /// `entry(path).or_default().push(at)`.
    #[verifier::external_body]
    pub fn push(&mut self, path: &HeadingPath, did: DocId, nid: NodeId)
        ensures
            heading_entries(*final(self)) == push_to(heading_entries(*old(self)), path@, at(did, nid)),
    {
        self.inner.entry(path.0.clone()).or_default().push((did, nid));
    }

    /// `contains_key`.
    #[verifier::external_body]
    pub fn contains_key(&self, path: &HeadingPath) -> (r: bool)
        ensures
            r == heading_entries(*self).dom().contains(path@),
    {
        self.inner.contains_key(&path.0)
    }

    /// `get`, copied out.
    #[verifier::external_body]
    pub fn get(&self, path: &HeadingPath) -> (r: Option<Vec<(DocId, NodeId)>>)
        ensures
            match r {
                Some(v) => heading_entries(*self).dom().contains(path@) && at_views(v@)
                    == heading_entries(*self)[path@],
                None => !heading_entries(*self).dom().contains(path@),
            },
    {
        self.inner.get(&path.0).cloned()
    }

    /// `iter`, copied out: every entry once, in no promised order.
    #[verifier::external_body]
    pub fn entries(&self) -> (r: Vec<(HeadingPath, Vec<(DocId, NodeId)>)>)
        ensures
            forall|i: int, j: int| 0 <= i < j < r@.len() ==> r@[i].0@ != r@[j].0@,
            forall|i: int|
                0 <= i < r@.len() ==> heading_entries(*self).dom().contains((#[trigger] r@[i]).0@)
                    && heading_entries(*self)[r@[i].0@] == at_views(r@[i].1@),
            forall|k: Seq<Seq<char>>|
                heading_entries(*self).dom().contains(k) ==> exists|i: int|
                    0 <= i < r@.len() && (#[trigger] r@[i]).0@ == k,
    {
        self.inner.iter().map(|(k, v)| (HeadingPath(k.clone()), v.clone())).collect()
    }
}

/// Title / path-segment trigram → every node carrying it.
#[verifier::external_body]
#[derive(Debug)]
pub struct TrigramIndex {
    inner: hashbrown::HashMap<[u8; 3], Vec<(DocId, NodeId)>>,
}

/// What a `TrigramIndex` holds.
pub uninterp spec fn trigram_entries(m: TrigramIndex) -> Map<Seq<u8>, Seq<(u32, u32)>>;

impl TrigramIndex {
    /// `hashbrown::HashMap::new`: an empty table.
    #[verifier::external_body]
    pub fn new() -> (r: Self)
        ensures
            trigram_entries(r).dom().is_empty(),
    {
        TrigramIndex { inner: hashbrown::HashMap::new() }
    }

    /// `entry(trigram).or_default().push(at)`.
    #[verifier::external_body]
    pub fn push(&mut self, trigram: [u8; 3], did: DocId, nid: NodeId)
        ensures
            trigram_entries(*final(self)) == push_to(trigram_entries(*old(self)), trigram@, at(did, nid)),
    {
        self.inner.entry(trigram).or_default().push((did, nid));
    }

    /// `get`, copied out.
    #[verifier::external_body]
    pub fn get(&self, trigram: [u8; 3]) -> (r: Option<Vec<(DocId, NodeId)>>)
        ensures
            match r {
                Some(v) => trigram_entries(*self).dom().contains(trigram@) && at_views(v@)
                    == trigram_entries(*self)[trigram@],
                None => !trigram_entries(*self).dom().contains(trigram@),
            },
    {
        self.inner.get(&trigram).cloned()
    }
}

/// Relative path → document, for incremental re-indexing.
#[verifier::external_body]
#[derive(Debug)]
pub struct PathIndex {
    inner: hashbrown::HashMap<String, DocId>,
}

/// What a `PathIndex` holds.
pub uninterp spec fn path_entries(m: PathIndex) -> Map<Seq<char>, u32>;

impl PathIndex {
    /// `hashbrown::HashMap::new`: an empty table.
    #[verifier::external_body]
    pub fn new() -> (r: Self)
        ensures
            path_entries(r).dom().is_empty(),
    {
        PathIndex { inner: hashbrown::HashMap::new() }
    }

    /// `insert`: files `did` under `path`, replacing any earlier entry.
    #[verifier::external_body]
    pub fn insert(&mut self, path: String, did: DocId)
        ensures
            path_entries(*final(self)) == path_entries(*old(self)).insert(path@, did.0),
    {
        self.inner.insert(path, did);
    }

    /// `get`, copied out.
    #[verifier::external_body]
    pub fn get(&self, path: &str) -> (r: Option<DocId>)
        ensures
            match r {
                Some(d) => path_entries(*self).dom().contains(path@) && path_entries(*self)[path@]
                    == d.0,
                None => !path_entries(*self).dom().contains(path@),
            },
    {
        self.inner.get(path).copied()
    }
}

/// Link key → every node linking there.
#[verifier::external_body]
#[derive(Debug)]
pub struct BacklinkIndex {
    inner: hashbrown::HashMap<String, Vec<(DocId, NodeId)>>,
}

/// What a `BacklinkIndex` holds.
pub uninterp spec fn backlink_entries(m: BacklinkIndex) -> Map<Seq<char>, Seq<(u32, u32)>>;

impl BacklinkIndex {
    /// `hashbrown::HashMap::new`: an empty table.
    #[verifier::external_body]
    pub fn new() -> (r: Self)
        ensures
            backlink_entries(r).dom().is_empty(),
    {
        BacklinkIndex { inner: hashbrown::HashMap::new() }
    }

    /// `entry(key).or_default().push(at)`.
    #[verifier::external_body]
    pub fn push(&mut self, key: String, did: DocId, nid: NodeId)
        ensures
            backlink_entries(*final(self)) == push_to(backlink_entries(*old(self)), key@, at(did, nid)),
    {
        self.inner.entry(key).or_default().push((did, nid));
    }

    /// `contains_key`.
    #[verifier::external_body]
    pub fn contains_key(&self, key: &str) -> (r: bool)
        ensures
            r == backlink_entries(*self).dom().contains(key@),
    {
        self.inner.contains_key(key)
    }

    /// `get`, copied out.
    #[verifier::external_body]
    pub fn get(&self, key: &str) -> (r: Option<Vec<(DocId, NodeId)>>)
        ensures
            match r {
                Some(v) => backlink_entries(*self).dom().contains(key@) && at_views(v@)
                    == backlink_entries(*self)[key@],
                None => !backlink_entries(*self).dom().contains(key@),
            },
    {
        self.inner.get(key).cloned()
    }
}

/// Token → postings, one per node and field the token occurs in.
#[verifier::external_body]
#[derive(Debug)]
pub struct InvertedIndex {
    inner: hashbrown::HashMap<String, Vec<Posting>>,
}

/// What an `InvertedIndex` holds.
pub uninterp spec fn inverted_entries(m: InvertedIndex) -> Map<Seq<char>, Seq<Posting>>;

impl InvertedIndex {
    /// `hashbrown::HashMap::new`: an empty table.
    #[verifier::external_body]
    pub fn new() -> (r: Self)
        ensures
            inverted_entries(r).dom().is_empty(),
    {
        InvertedIndex { inner: hashbrown::HashMap::new() }
    }

    /// `entry(token).or_default().push(posting)`.
    #[verifier::external_body]
    pub fn push(&mut self, token: String, posting: Posting)
        ensures
            inverted_entries(*final(self)) == push_to(inverted_entries(*old(self)), token@, posting),
    {
        self.inner.entry(token).or_default().push(posting);
    }

    /// `get`, copied out.
    #[verifier::external_body]
    pub fn get(&self, token: &str) -> (r: Option<Vec<Posting>>)
        ensures
            match r {
                Some(v) => inverted_entries(*self).dom().contains(token@) && v@
                    == inverted_entries(*self)[token@],
                None => !inverted_entries(*self).dom().contains(token@),
            },
    {
        self.inner.get(token).cloned()
    }
}

/// Per-token occurrence counts of one field of one node.
#[verifier::external_body]
#[derive(Debug)]
pub struct TermCounts {
    inner: hashbrown::HashMap<String, u16>,
}

/// What a `TermCounts` holds.
pub uninterp spec fn count_entries(m: TermCounts) -> Map<Seq<char>, u16>;

impl TermCounts {
    /// `hashbrown::HashMap::new`: an empty table.
    #[verifier::external_body]
    pub fn new() -> (r: Self)
        ensures
            count_entries(r).dom().is_empty(),
    {
        TermCounts { inner: hashbrown::HashMap::new() }
    }

    /// `*entry(token).or_insert(0) = n`.
    #[verifier::external_body]
    pub fn set(&mut self, token: &str, n: u16)
        ensures
            count_entries(*final(self)) == count_entries(*old(self)).insert(token@, n),
    {
        self.inner.insert(token.to_string(), n);
    }

    /// `get`, copied out.
    #[verifier::external_body]
    pub fn get(&self, token: &str) -> (r: Option<u16>)
        ensures
            match r {
                Some(n) => count_entries(*self).dom().contains(token@) && count_entries(*self)[token@]
                    == n,
                None => !count_entries(*self).dom().contains(token@),
            },
    {
        self.inner.get(token).copied()
    }

    /// `iter`, copied out: every entry once, in no promised order.
    #[verifier::external_body]
    pub fn entries(&self) -> (r: Vec<(String, u16)>)
        ensures
            forall|i: int, j: int| 0 <= i < j < r@.len() ==> r@[i].0@ != r@[j].0@,
            forall|i: int|
                0 <= i < r@.len() ==> count_entries(*self).dom().contains((#[trigger] r@[i]).0@)
                    && count_entries(*self)[r@[i].0@] == r@[i].1,
            forall|k: Seq<char>|
                count_entries(*self).dom().contains(k) ==> exists|i: int|
                    0 <= i < r@.len() && (#[trigger] r@[i]).0@ == k,
    {
        self.inner.iter().map(|(k, v)| (k.clone(), *v)).collect()
    }
}


// ---------------------------------------------------------------------------
// Postings
// ---------------------------------------------------------------------------

/// `n`, saturating at `u16::MAX`.
pub open spec fn sat_u16(n: nat) -> u16 {
    if n > 65535 {
        65535
    } else {
        n as u16
    }
}

/// How many times `t` occurs in `ts`.
pub open spec fn occurrences(ts: Seq<Seq<char>>, t: Seq<char>) -> nat
    decreases ts.len(),
{
    if ts.len() == 0 {
        0
    } else {
        occurrences(ts.drop_last(), t) + if ts.last() == t {
            1nat
        } else {
            0nat
        }
    }
}

/// The per-token counts of `ts` (saturating).
pub open spec fn term_counts(ts: Seq<Seq<char>>) -> Map<Seq<char>, u16> {
    Map::new(|k: Seq<char>| ts.contains(k), |k: Seq<char>| sat_u16(occurrences(ts, k)))
}

pub open spec fn posting_for(d: DocId, n: NodeId, f: Field, ts: Seq<Seq<char>>, k: Seq<char>) -> Posting {
    Posting { doc: d, node: n, field: f, tf: sat_u16(occurrences(ts, k)) }
}

/// `m` with one posting per distinct token of `ts` for node `n` of document
/// `d` in field `f`, carrying the token's count.
pub open spec fn with_postings(
    m: Map<Seq<char>, Seq<Posting>>,
    d: DocId,
    n: NodeId,
    f: Field,
    ts: Seq<Seq<char>>,
) -> Map<Seq<char>, Seq<Posting>> {
    Map::new(
        |k: Seq<char>| m.dom().contains(k) || ts.contains(k),
        |k: Seq<char>|
            if ts.contains(k) {
                (if m.dom().contains(k) {
                    m[k]
                } else {
                    Seq::empty()
                }).push(posting_for(d, n, f, ts, k))
            } else {
                m[k]
            },
    )
}

proof fn lemma_take_push<T>(s: Seq<T>, i: int)
    requires
        0 <= i < s.len(),
    ensures
        s.take(i + 1) == s.take(i).push(s[i]),
        s.take(i + 1).drop_last() == s.take(i),
{
    assert(s.take(i + 1) =~= s.take(i).push(s[i]));
    assert(s.take(i + 1).drop_last() =~= s.take(i));
}

proof fn lemma_contains_push<T>(s: Seq<T>, x: T, y: T)
    ensures
        s.push(x).contains(y) <==> (s.contains(y) || y == x),
{
    if s.push(x).contains(y) {
        let k = choose|k: int| 0 <= k < s.push(x).len() && s.push(x)[k] == y;
        if k < s.len() {
            assert(s[k] == y);
        }
    }
    if s.contains(y) {
        let k = choose|k: int| 0 <= k < s.len() && s[k] == y;
        assert(s.push(x)[k] == y);
    }
    if y == x {
        assert(s.push(x)[s.len() as int] == y);
    }
}

proof fn lemma_occ_zero(s: Seq<Seq<char>>, t: Seq<char>)
    requires
        !s.contains(t),
    ensures
        occurrences(s, t) == 0,
    decreases s.len(),
{
    if s.len() > 0 {
        assert(!s.drop_last().contains(t)) by {
            if s.drop_last().contains(t) {
                let k = choose|k: int| 0 <= k < s.drop_last().len() && s.drop_last()[k] == t;
                assert(s[k] == t);
            }
        }
        assert(s.last() != t) by {
            if s.last() == t {
                assert(s[s.len() - 1] == t);
            }
        }
        lemma_occ_zero(s.drop_last(), t);
    }
}

/// Counts each token of `tokens`.
fn count_terms(tokens: &Vec<String>) -> (r: TermCounts)
    ensures
        count_entries(r) == term_counts(crate::tokens::string_views(tokens@)),
{
    let ghost ts = crate::tokens::string_views(tokens@);
    let mut counts = TermCounts::new();
    let mut i: usize = 0;
    assert(count_entries(counts) =~= term_counts(ts.take(0)));
    while i < tokens.len()
        invariant
            i <= tokens@.len(),
            ts == crate::tokens::string_views(tokens@),
            count_entries(counts) == term_counts(ts.take(i as int)),
        decreases tokens@.len() - i,
    {
        let t = tokens[i].as_str();
        let c: u16 = match counts.get(t) {
            Some(n) => if n < 65535 {
                n + 1
            } else {
                n
            },
            None => 1,
        };
        let ghost before = count_entries(counts);
        counts.set(t, c);
        proof {
            lemma_take_push(ts, i as int);
            assert(ts[i as int] == t@);
            let ts0 = ts.take(i as int);
            let ts1 = ts.take(i + 1);
            assert forall|k: Seq<char>| #[trigger] ts1.contains(k) <==> (ts0.contains(k) || k == t@) by {
                lemma_contains_push(ts0, t@, k);
            }
            assert forall|k: Seq<char>|
                #[trigger] occurrences(ts1, k) == occurrences(ts0, k) + if k == t@ {
                    1nat
                } else {
                    0nat
                } by {}
            if !ts0.contains(t@) {
                lemma_occ_zero(ts0, t@);
            }
            assert(count_entries(counts) =~= term_counts(ts1));
        }
        i = i + 1;
    }
    assert(ts.take(i as int) =~= ts);
    counts
}

/// Adds one posting per distinct token of `tokens` for node `nid` of
/// document `did` in `field`.
pub fn add_postings(inverted: &mut InvertedIndex, did: DocId, nid: NodeId, field: Field, tokens: &Vec<String>)
    ensures
        inverted_entries(*final(inverted)) == with_postings(
            inverted_entries(*old(inverted)),
            did,
            nid,
            field,
            crate::tokens::string_views(tokens@),
        ),
{
    let ghost ts = crate::tokens::string_views(tokens@);
    let ghost m0 = inverted_entries(*inverted);
    if tokens.len() == 0 {
        assert(inverted_entries(*inverted) =~= with_postings(m0, did, nid, field, ts));
        return;
    }
    let counts = count_terms(tokens);
    let entries = counts.entries();
    let ghost cm = count_entries(counts);
    let mut j: usize = 0;
    while j < entries.len()
        invariant
            j <= entries@.len(),
            cm == count_entries(counts),
            cm == term_counts(ts),
            forall|a: int, b: int| 0 <= a < b < entries@.len() ==> entries@[a].0@ != entries@[b].0@,
            forall|a: int|
                0 <= a < entries@.len() ==> cm.dom().contains((#[trigger] entries@[a]).0@)
                    && cm[entries@[a].0@] == entries@[a].1,
            forall|k: Seq<char>|
                #![trigger inverted_entries(*inverted).dom().contains(k)]
                inverted_entries(*inverted).dom().contains(k) <==> (m0.dom().contains(k) || exists|
                    a: int,
                | 0 <= a < j && (#[trigger] entries@[a]).0@ == k),
            forall|k: Seq<char>|
                #![trigger inverted_entries(*inverted)[k]]
                inverted_entries(*inverted).dom().contains(k) ==> inverted_entries(*inverted)[k]
                    == if exists|a: int| 0 <= a < j && (#[trigger] entries@[a]).0@ == k {
                    (if m0.dom().contains(k) {
                        m0[k]
                    } else {
                        Seq::empty()
                    }).push(posting_for(did, nid, field, ts, k))
                } else {
                    m0[k]
                },
        decreases entries@.len() - j,
    {
        let tok = entries[j].0.clone();
        let tf = entries[j].1;
        let ghost kj = entries@[j as int].0@;
        let ghost before = inverted_entries(*inverted);
        proof {
            assert(cm.dom().contains(kj));
            assert(tf == sat_u16(occurrences(ts, kj)));
            assert(!exists|a: int| 0 <= a < j && (#[trigger] entries@[a]).0@ == kj);
        }
        inverted.push(tok, Posting { doc: did, node: nid, field, tf });
        proof {
            let after = inverted_entries(*inverted);
            assert forall|k: Seq<char>| after.dom().contains(k) <==> (m0.dom().contains(k) || exists|
                a: int,
            | 0 <= a < j + 1 && (#[trigger] entries@[a]).0@ == k) by {
                if k == kj {
                    assert(entries@[j as int].0@ == k);
                } else if exists|a: int| 0 <= a < j + 1 && (#[trigger] entries@[a]).0@ == k {
                    let a = choose|a: int| 0 <= a < j + 1 && (#[trigger] entries@[a]).0@ == k;
                    assert(a < j);
                }
            }
            assert forall|k: Seq<char>| after.dom().contains(k) implies after[k] == if exists|a: int|
                0 <= a < j + 1 && (#[trigger] entries@[a]).0@ == k {
                (if m0.dom().contains(k) {
                    m0[k]
                } else {
                    Seq::empty()
                }).push(posting_for(did, nid, field, ts, k))
            } else {
                m0[k]
            } by {
                if k == kj {
                    assert(entries@[j as int].0@ == k);
                    assert(before.dom().contains(kj) == m0.dom().contains(kj));
                    if m0.dom().contains(kj) {
                        assert(before[kj] == m0[kj]);
                    }
                    assert(posting_for(did, nid, field, ts, kj) == Posting { doc: did, node: nid, field: field, tf: tf });
                } else {
                    if exists|a: int| 0 <= a < j + 1 && (#[trigger] entries@[a]).0@ == k {
                        let a = choose|a: int| 0 <= a < j + 1 && (#[trigger] entries@[a]).0@ == k;
                        assert(a < j);
                    }
                    assert(before.dom().contains(k));
                }
            }
        }
        j = j + 1;
    }
    proof {
        let fin = inverted_entries(*inverted);
        assert forall|k: Seq<char>|
            (exists|a: int| 0 <= a < j && (#[trigger] entries@[a]).0@ == k) <==> ts.contains(k) by {
            if ts.contains(k) {
                assert(cm.dom().contains(k));
            }
        }
        assert(fin =~= with_postings(m0, did, nid, field, ts));
    }
}


// ---------------------------------------------------------------------------
// The corpus
// ---------------------------------------------------------------------------

/// Everything known about one corpus: its documents, its root directory on
/// disk, and the lookup tables used at query time.
#[derive(Debug)]
pub struct CorpusIndex {
    pub source: SourceId,
    pub root_dir: String,
    pub documents: Vec<DocumentIndex>,
    /// Heading path → every node with that path.
    pub heading_lookup: HeadingLookup,
    /// Trigram index over titles and path segments.
    pub title_trigrams: TrigramIndex,
    /// Relative path → document.
    pub path_to_doc: PathIndex,
    /// Link key → nodes that link there.
    pub backlinks: BacklinkIndex,
    /// Token → postings.
    pub inverted: InvertedIndex,
    /// Per-node, per-field token lengths and totals.
    pub field_lengths: FieldLengths,
}

/// The lookup tables of `c` are the ones its documents give.
pub open spec fn tables_current(c: CorpusIndex) -> bool {
    let docs = c.documents@;
    &&& heading_entries(c.heading_lookup) == heading_table(docs)
    &&& trigram_entries(c.title_trigrams) == trigram_table(docs)
    &&& path_entries(c.path_to_doc) == docs_paths(docs)
    &&& backlink_entries(c.backlinks) == backlink_table(docs)
    &&& inverted_entries(c.inverted) == docs_inverted(docs)
    &&& lens_view(c.field_lengths.title@) == lengths_of(docs, Field::Title)
    &&& lens_view(c.field_lengths.path@) == lengths_of(docs, Field::Path)
    &&& lens_view(c.field_lengths.summary@) == lengths_of(docs, Field::Summary)
    &&& c.field_lengths.total_nodes == sat_u32(node_count(docs) as int)
    &&& c.field_lengths.title_total == sat_u64(token_total(docs, Field::Title) as int)
    &&& c.field_lengths.path_total == sat_u64(token_total(docs, Field::Path) as int)
    &&& c.field_lengths.summary_total == sat_u64(token_total(docs, Field::Summary) as int)
}

/// The number of nodes over `docs`.
pub open spec fn nodes_in(docs: Seq<DocumentIndex>) -> nat
    decreases docs.len(),
{
    if docs.len() == 0 {
        0
    } else {
        nodes_in(docs.drop_last()) + docs.last().nodes@.len()
    }
}

impl CorpusIndex {
    /// An empty corpus.
    pub fn new(source: SourceId, root_dir: String) -> (r: Self)
        ensures
            r.source == source,
            r.root_dir == root_dir,
            r.documents@.len() == 0,
            tables_current(r),
    {
        let r = CorpusIndex {
            source,
            root_dir,
            documents: Vec::new(),
            heading_lookup: HeadingLookup::new(),
            title_trigrams: TrigramIndex::new(),
            path_to_doc: PathIndex::new(),
            backlinks: BacklinkIndex::new(),
            inverted: InvertedIndex::new(),
            field_lengths: FieldLengths::empty(),
        };
        proof {
            let e = r.documents@;
            assert(e =~= Seq::<DocumentIndex>::empty());
            assert(heading_entries(r.heading_lookup) =~= heading_table(e));
            assert(trigram_entries(r.title_trigrams) =~= trigram_table(e));
            assert(path_entries(r.path_to_doc) =~= docs_paths(e));
            assert(backlink_entries(r.backlinks) =~= backlink_table(e));
            assert(inverted_entries(r.inverted) =~= docs_inverted(e));
            assert(lens_view(r.field_lengths.title@) =~= lengths_of(e, Field::Title));
            assert(lens_view(r.field_lengths.path@) =~= lengths_of(e, Field::Path));
            assert(lens_view(r.field_lengths.summary@) =~= lengths_of(e, Field::Summary));
        }
        r
    }

    /// Appends a document; its id is its position. The lookup tables are
    /// left as they were until `rebuild_indices`.
    pub fn push_document(&mut self, doc: DocumentIndex) -> (r: DocId)
        requires
            old(self).documents@.len() < u32::MAX,
        ensures
            r.0 == old(self).documents@.len(),
            final(self).documents@ == old(self).documents@.push(doc),
            final(self).source == old(self).source,
            final(self).root_dir == old(self).root_dir,
            final(self).heading_lookup == old(self).heading_lookup,
            final(self).title_trigrams == old(self).title_trigrams,
            final(self).path_to_doc == old(self).path_to_doc,
            final(self).backlinks == old(self).backlinks,
            final(self).inverted == old(self).inverted,
            final(self).field_lengths == old(self).field_lengths,
    {
        let id = DocId(self.documents.len() as u32);
        self.documents.push(doc);
        id
    }

    /// Rebuilds every lookup table from the documents, from scratch.
    pub fn rebuild_indices(&mut self)
        requires
            old(self).documents@.len() <= u32::MAX,
        ensures
            final(self).documents == old(self).documents,
            final(self).source == old(self).source,
            final(self).root_dir == old(self).root_dir,
            tables_current(*final(self)),
    {
        let t = build_tables(&self.documents);
        self.heading_lookup = t.heading;
        self.title_trigrams = t.trigrams;
        self.path_to_doc = t.paths;
        self.backlinks = t.backlinks;
        self.inverted = t.inverted;
        self.field_lengths = FieldLengths {
            title: t.title,
            path: t.path,
            summary: t.summary,
            total_nodes: t.total_nodes,
            title_total: t.title_total,
            path_total: t.path_total,
            summary_total: t.summary_total,
        };
    }

    /// The document with id `id`, if there is one.
    pub fn doc(&self, id: DocId) -> (r: Option<&DocumentIndex>)
        ensures
            match r {
                Some(d) => id.0 < self.documents@.len() && *d == self.documents@[id.0 as int],
                None => id.0 >= self.documents@.len(),
            },
    {
        let i = id.index();
        if i < self.documents.len() {
            Some(&self.documents[i])
        } else {
            None
        }
    }

    /// The document with id `id`, for changing in place, if there is one.
    /// The lookup tables are left as they were until `rebuild_indices`.
    pub fn doc_mut(&mut self, id: DocId) -> (r: Option<&mut DocumentIndex>)
        ensures
            match r {
                Some(d) => id.0 < old(self).documents@.len() && *d == old(self).documents@[id.0 as int]
                    && final(self).documents@ == old(self).documents@.update(id.0 as int, *final(d))
                    && final(self).source == old(self).source && final(self).root_dir == old(self).root_dir
                    && final(self).heading_lookup == old(self).heading_lookup && final(self).title_trigrams
                    == old(self).title_trigrams && final(self).path_to_doc == old(self).path_to_doc
                    && final(self).backlinks == old(self).backlinks && final(self).inverted
                    == old(self).inverted && final(self).field_lengths == old(self).field_lengths,
                None => id.0 >= old(self).documents@.len() && *final(self) == *old(self),
            },
    {
        let i = id.index();
        if i < self.documents.len() {
            Some(&mut self.documents[i])
        } else {
            None
        }
    }

    /// The number of nodes over all documents (saturating).
    pub fn total_nodes(&self) -> (r: usize)
        ensures
            r == if nodes_in(self.documents@) > usize::MAX {
                usize::MAX as nat
            } else {
                nodes_in(self.documents@)
            },
    {
        let mut total: usize = 0;
        let mut i: usize = 0;
        while i < self.documents.len()
            invariant
                i <= self.documents@.len(),
                total == if nodes_in(self.documents@.take(i as int)) > usize::MAX {
                    usize::MAX as nat
                } else {
                    nodes_in(self.documents@.take(i as int))
                },
            decreases self.documents@.len() - i,
        {
            proof {
                assert(self.documents@.take(i + 1).drop_last() =~= self.documents@.take(i as int));
            }
            let n = self.documents[i].nodes.len();
            total = if n > usize::MAX - total {
                usize::MAX
            } else {
                total + n
            };
            i = i + 1;
        }
        assert(self.documents@.take(i as int) =~= self.documents@);
        total
    }
}

} // verus!
