//! Document listings: filtering a corpus's documents by path prefix and by
//! frontmatter values, and summarising each.

use vstd::prelude::*;

use crate::corpus::CorpusIndex;
use crate::json::{json_get, json_same, Json};
use crate::model::{age_in_days, description_key, DocumentIndex};
use crate::okf::{deref_opt, opt_string_view, status_key, string_field_of, trust_label, type_key};
use crate::text::has_prefix;
use crate::toc::{attached, opt_str_view};
use crate::tools::{DocumentSummary, ListDocumentsRequest, ListDocumentsResponse};

verus! {

/// One filter `expected` against the value `actual` found under its key: an
/// array value matches a non-array expectation holding it as an element;
/// otherwise the two must be equal.
pub open spec fn filter_holds(actual: Option<Json>, expected: Json) -> bool {
    match actual {
        None => false,
        Some(a) => match a {
            Json::Array(items) => if expected is Array {
                json_same(a, expected)
            } else {
                exists|k: int| 0 <= k < items@.len() && json_same(#[trigger] items@[k], expected)
            },
            _ => json_same(a, expected),
        },
    }
}

/// Every filter holds of the frontmatter. No filters always hold; with
/// filters, frontmatter that is missing or not an object never matches.
pub open spec fn filters_hold(filters: Seq<(String, Json)>, fm: Option<Json>) -> bool {
    if filters.len() == 0 {
        true
    } else {
        match fm {
            Some(v) => v is Object && forall|i: int|
                0 <= i < filters.len() ==> filter_holds(
                    json_get(v, (#[trigger] filters[i]).0@),
                    filters[i].1,
                ),
            None => false,
        }
    }
}

/// A frontmatter field holding an array answers a scalar (non-array)
/// filter by membership: when no element equals the expected value the
/// document is filtered out, and a lone such filter holds exactly when some
/// element, at whatever position, equals the expected value.
pub proof fn law_array_field_matches_any_element(
    filters: Seq<(String, Json)>,
    fm: Option<Json>,
    i: int,
    items: Vec<Json>,
)
    requires
        0 <= i < filters.len(),
        fm matches Some(v) && v is Object && json_get(v, filters[i].0@) == Some(Json::Array(items)),
        !(filters[i].1 is Array),
    ensures
        (forall|k: int| 0 <= k < items@.len() ==> !json_same(#[trigger] items@[k], filters[i].1))
            ==> !filters_hold(filters, fm),
        filters.len() == 1 ==> (filters_hold(filters, fm) <==> exists|k: int|
            0 <= k < items@.len() && json_same(#[trigger] items@[k], filters[i].1)),
{
    let v = fm->Some_0;
    if forall|k: int| 0 <= k < items@.len() ==> !json_same(#[trigger] items@[k], filters[i].1) {
        assert(!filter_holds(json_get(v, filters[i].0@), filters[i].1));
    }
    if filters.len() == 1 {
        assert(i == 0);
        if exists|k: int| 0 <= k < items@.len() && json_same(#[trigger] items@[k], filters[i].1) {
            let k = choose|k: int| 0 <= k < items@.len() && json_same(#[trigger] items@[k], filters[i].1);
            let a = Json::Array(items);
            assert(a matches Json::Array(xs) && xs@[k] == items@[k]);
            assert(filter_holds(Some(a), filters[i].1));
            assert forall|j: int| 0 <= j < filters.len() implies filter_holds(
                json_get(v, (#[trigger] filters[j]).0@),
                filters[j].1,
            ) by {
                assert(j == 0);
            }
        }
    }
}

/// Outside the array-against-scalar case a filter compares whole values: a
/// lone filter holds exactly when the field is present and structurally
/// equal to the expected value; a missing field, or frontmatter that is not
/// an object, never matches a filter.
pub proof fn law_filter_compares_whole_values(filters: Seq<(String, Json)>, fm: Option<Json>)
    requires
        filters.len() == 1,
    ensures
        !(fm is Some && fm->Some_0 is Object) ==> !filters_hold(filters, fm),
        fm is Some && fm->Some_0 is Object && json_get(fm->Some_0, filters[0].0@) is None
            ==> !filters_hold(filters, fm),
        fm is Some && fm->Some_0 is Object && json_get(fm->Some_0, filters[0].0@) is Some && (!(json_get(
            fm->Some_0,
            filters[0].0@,
        )->Some_0 is Array) || filters[0].1 is Array) ==> (filters_hold(filters, fm) <==> json_same(
            json_get(fm->Some_0, filters[0].0@)->Some_0,
            filters[0].1,
        )),
{
    if fm is Some && fm->Some_0 is Object {
        let v = fm->Some_0;
        if filters_hold(filters, fm) {
            assert(filter_holds(json_get(v, filters[0].0@), filters[0].1));
        } else if json_get(v, filters[0].0@) is Some {
            assert(!forall|j: int| 0 <= j < filters.len() ==> filter_holds(
                json_get(v, (#[trigger] filters[j]).0@),
                filters[j].1,
            ));
            let j = choose|j: int| !(0 <= j < filters.len() ==> filter_holds(
                json_get(v, (#[trigger] filters[j]).0@),
                filters[j].1,
            ));
            assert(j == 0);
        }
    }
}

/// Whether the document's frontmatter satisfies every filter.
pub fn frontmatter_matches(filters: &Vec<(String, Json)>, fm: Option<&Json>) -> (r: bool)
    ensures
        r == filters_hold(filters@, deref_opt(fm)),
{
    if filters.len() == 0 {
        return true;
    }
    let v = match fm {
        Some(v) => v,
        None => return false,
    };
    match v {
        Json::Object(_) => {},
        _ => return false,
    }
    let mut i: usize = 0;
    while i < filters.len()
        invariant
            i <= filters@.len(),
            filters@.len() > 0,
            deref_opt(fm) == Some(*v),
            v is Object,
            forall|k: int|
                0 <= k < i ==> filter_holds(json_get(*v, (#[trigger] filters@[k]).0@), filters@[k].1),
        decreases filters@.len() - i,
    {
        let key = &filters[i].0;
        let expected = &filters[i].1;
        let actual = match v.get(key.as_str()) {
            Some(a) => a,
            None => return false,
        };
        let ok = match actual {
            Json::Array(items) => match expected {
                Json::Array(_) => actual.same_as(expected),
                _ => {
                    let mut found = false;
                    let mut k: usize = 0;
                    while k < items.len() && !found
                        invariant
                            k <= items@.len(),
                            found ==> exists|t: int|
                                0 <= t < items@.len() && json_same(#[trigger] items@[t], *expected),
                            !found ==> forall|t: int| 0 <= t < k ==> !json_same(#[trigger] items@[t], *expected),
                        decreases items@.len() - k,
                    {
                        if items[k].same_as(expected) {
                            found = true;
                        }
                        k = k + 1;
                    }
                    found
                },
            },
            _ => actual.same_as(expected),
        };
        if !ok {
            return false;
        }
        i = i + 1;
    }
    true
}

/// The documents, by index, among the first `n` that the request selects.
pub open spec fn selected(docs: Seq<DocumentIndex>, req: ListDocumentsRequest, n: int) -> Seq<int>
    decreases n,
{
    if n <= 0 {
        Seq::empty()
    } else {
        let rest = selected(docs, req, n - 1);
        let doc = docs[n - 1];
        let by_prefix = match req.path_prefix {
            Some(p) => p@.is_prefix_of(doc.rel_path@),
            None => true,
        };
        let by_fm = match req.frontmatter {
            Some(f) => filters_hold(f@, doc.frontmatter),
            None => true,
        };
        if by_prefix && by_fm {
            rest.push(n - 1)
        } else {
            rest
        }
    }
}

/// The summary of document `i`.
pub open spec fn summarises(s: DocumentSummary, doc: DocumentIndex, i: int, wanted: bool, now: u64) -> bool {
    &&& s.rel_path@ == doc.rel_path@
    &&& s.doc_id == i
    &&& opt_str_view(s.title) == if doc.nodes@.len() > 0 {
        Some(doc.nodes@[0].title@)
    } else {
        None::<Seq<char>>
    }
    &&& opt_string_view(s.description) == string_field_of(doc.frontmatter, description_key())
    &&& opt_string_view(s.concept_type) == string_field_of(doc.frontmatter, type_key())
    &&& opt_string_view(s.status) == string_field_of(doc.frontmatter, status_key())
    &&& opt_string_view(s.trust) == trust_label(doc.frontmatter)
    &&& s.node_count == doc.nodes@.len()
    &&& s.age_days == age_in_days(doc.modified_at, now)
    &&& attached(doc.frontmatter, s.frontmatter, wanted)
}

fn summary_of(doc: &DocumentIndex, i: usize, wanted: bool, now: u64) -> (r: DocumentSummary)
    requires
        i <= u32::MAX,
    ensures
        summarises(r, *doc, i as int, wanted, now),
{
    let fm = match &doc.frontmatter {
        Some(v) => Some(v),
        None => None,
    };
    assert(deref_opt(fm) == doc.frontmatter);
    let title = if doc.nodes.len() > 0 {
        Some(doc.nodes[0].title.clone())
    } else {
        None
    };
    let frontmatter = if wanted {
        match &doc.frontmatter {
            Some(v) => Some(v.copy()),
            None => None,
        }
    } else {
        None
    };
    let r = DocumentSummary {
        rel_path: doc.rel_path.clone(),
        doc_id: i as u32,
        title,
        description: doc.description(),
        concept_type: crate::okf::concept_type(fm),
        status: crate::okf::status(fm),
        trust: crate::okf::trust_name(fm),
        node_count: doc.nodes.len(),
        age_days: doc.age_days(now),
        frontmatter,
    };
    r
}

/// The `list_documents` tool: the documents under the path prefix whose
/// frontmatter passes the filters, at most `limit` of them, summarised;
/// `truncated` when more matched.
pub fn list_documents(corpus: &CorpusIndex, req: &ListDocumentsRequest, now: u64) -> (r: ListDocumentsResponse)
    requires
        corpus.documents@.len() <= u32::MAX + 1,
    ensures
        ({
            let docs = corpus.documents@;
            let ids = selected(docs, *req, docs.len() as int);
            let shown = if ids.len() <= req.limit {
                ids.len()
            } else {
                req.limit as nat
            };
            &&& r.source_id@ == corpus.source.0@
            &&& r.documents@.len() == shown
            &&& forall|k: int|
                0 <= k < shown ==> summarises(
                    #[trigger] r.documents@[k],
                    docs[ids[k]],
                    ids[k],
                    req.include_frontmatter,
                    now,
                )
            &&& r.truncated == (ids.len() > shown)
        }),
{
    let ghost docs = corpus.documents@;
    let mut matched: usize = 0;
    let mut documents: Vec<DocumentSummary> = Vec::new();
    let mut i: usize = 0;
    while i < corpus.documents.len()
        invariant
            i <= docs.len(),
            docs == corpus.documents@,
            docs.len() <= u32::MAX + 1,
            matched == selected(docs, *req, i as int).len(),
            matched <= i,
            documents@.len() == if matched <= req.limit {
                matched as nat
            } else {
                req.limit as nat
            },
            forall|k: int|
                0 <= k < documents@.len() ==> summarises(
                    #[trigger] documents@[k],
                    docs[selected(docs, *req, i as int)[k]],
                    selected(docs, *req, i as int)[k],
                    req.include_frontmatter,
                    now,
                ),
        decreases docs.len() - i,
    {
        let doc = &corpus.documents[i];
        let by_prefix = match &req.path_prefix {
            Some(p) => has_prefix(doc.rel_path.as_str(), p.as_str()),
            None => true,
        };
        let by_fm = if by_prefix {
            match &req.frontmatter {
                Some(f) => {
                    let fm = match &doc.frontmatter {
                        Some(v) => Some(v),
                        None => None,
                    };
                    assert(deref_opt(fm) == doc.frontmatter);
                    frontmatter_matches(f, fm)
                },
                None => true,
            }
        } else {
            true
        };
        let ghost prev = selected(docs, *req, i as int);
        proof {
            assert(selected(docs, *req, i + 1) == if by_prefix && by_fm {
                prev.push(i as int)
            } else {
                prev
            });
        }
        if by_prefix && by_fm {
            matched = matched + 1;
            if documents.len() < req.limit {
                let s = summary_of(doc, i, req.include_frontmatter, now);
                let ghost before = documents@;
                documents.push(s);
                proof {
                    assert forall|k: int| 0 <= k < documents@.len() implies summarises(
                        #[trigger] documents@[k],
                        docs[selected(docs, *req, i + 1)[k]],
                        selected(docs, *req, i + 1)[k],
                        req.include_frontmatter,
                        now,
                    ) by {
                        if k < before.len() {
                            assert(documents@[k] == before[k]);
                        }
                    }
                }
            }
        }
        i = i + 1;
    }
    let truncated = matched > documents.len();
    ListDocumentsResponse { source_id: corpus.source.0.clone(), documents, truncated }
}

} // verus!
