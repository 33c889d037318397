//! Indexing a corpus: the options of an indexing run, its report, and the
//! step that turns the documents' texts into a corpus index. Walking the
//! directory, reading the files and writing the index are the caller's.

use vstd::prelude::*;

use crate::config::markdown_extension_list;
use crate::corpus::{tables_current, CorpusIndex};
use crate::document::{build_document, built_from};
use crate::model::DocumentIndex;
use crate::parse::{parsed_doc_of, ParsedDoc};
use crate::tokens::string_views;
use crate::tree_laws::headings_ordered;
use crate::types::SourceId;
use vstd::string::StringSliceAdditionalSpecFns;
use vstd::utf8::encode_utf8;

verus! {

/// Options of a directory walk.
#[derive(Debug)]
pub struct WalkOptions {
    pub follow_links: bool,
    pub respect_gitignore: bool,
    pub include_hidden: bool,
    /// File extensions to index, compared lowercased.
    pub extensions: Vec<String>,
}

impl WalkOptions {
    /// The defaults: no symlinks, gitignore respected, hidden files
    /// skipped, the markdown extensions.
    pub fn defaults() -> (r: Self)
        ensures
            !r.follow_links,
            r.respect_gitignore,
            !r.include_hidden,
            string_views(r.extensions@) == crate::config::markdown_extensions(),
    {
        WalkOptions {
            follow_links: false,
            respect_gitignore: true,
            include_hidden: false,
            extensions: markdown_extension_list(),
        }
    }
}

impl Default for WalkOptions {
    fn default() -> (r: Self)
        ensures
            !r.follow_links,
            r.respect_gitignore,
            !r.include_hidden,
            string_views(r.extensions@) == crate::config::markdown_extensions(),
    {
        WalkOptions::defaults()
    }
}

/// Options of an indexing run.
#[derive(Debug)]
pub struct IndexOptions {
    /// Corpus root on disk.
    pub root: String,
    /// Corpus identifier; defaults to the root's basename.
    pub source_id: Option<String>,
    pub walk: WalkOptions,
}

impl IndexOptions {
    pub fn new(root: &str) -> (r: Self)
        ensures
            r.root@ == root@,
            r.source_id is None,
            !r.walk.follow_links,
            r.walk.respect_gitignore,
            !r.walk.include_hidden,
            string_views(r.walk.extensions@) == crate::config::markdown_extensions(),
    {
        IndexOptions { root: root.to_owned(), source_id: None, walk: WalkOptions::defaults() }
    }
}

/// Summary of an indexing run.
#[derive(Debug)]
pub struct IndexReport {
    pub source_id: String,
    pub root: String,
    pub index_path: String,
    pub files_indexed: usize,
    pub files_failed: usize,
    pub total_nodes: usize,
    pub build_millis: u64,
    pub write_millis: u64,
}

/// A file builds into a document: it was read as text, its length fits the
/// index's 32-bit offsets, and it has no more headings than node ids.
pub open spec fn file_builds(text: Option<String>) -> bool {
    match text {
        Some(t) => encode_utf8(t@).len() <= u32::MAX && encode_utf8(t@).len() < usize::MAX && exists|
            p: ParsedDoc,
        | parsed_doc_of(t@, p) && p.headings@.len() <= u32::MAX && headings_ordered(p.headings@, p.source_len),
        None => false,
    }
}

/// The indices of the files that build, in order.
pub open spec fn built_files(files: Seq<(String, Option<String>)>) -> Seq<int>
    decreases files.len(),
{
    if files.len() == 0 {
        Seq::empty()
    } else if file_builds(files.last().1) {
        built_files(files.drop_last()).push(files.len() - 1)
    } else {
        built_files(files.drop_last())
    }
}

proof fn lemma_built_files_bound(files: Seq<(String, Option<String>)>)
    ensures
        built_files(files).len() <= files.len(),
        forall|i: int| 0 <= i < built_files(files).len() ==> 0 <= #[trigger] built_files(files)[i] < files.len(),
    decreases files.len(),
{
    if files.len() > 0 {
        lemma_built_files_bound(files.drop_last());
    }
}

/// `doc` is the document built from text `text` of file `rel`.
pub open spec fn doc_of_file(doc: DocumentIndex, source: Seq<char>, rel: Seq<char>, text: Seq<char>) -> bool {
    exists|p: ParsedDoc| built_from(doc, source, rel, text, p)
}

/// `c` holds, in order, the document built from each file that builds.
pub open spec fn corpus_of_files(c: CorpusIndex, source: Seq<char>, files: Seq<(String, Option<String>)>) -> bool {
    let ok = built_files(files);
    &&& c.documents@.len() == ok.len()
    &&& forall|i: int|
        0 <= i < ok.len() ==> doc_of_file(
            #[trigger] c.documents@[i],
            source,
            files[ok[i]].0@,
            files[ok[i]].1->0@,
        )
}

/// Builds the document of one file and appends it to the corpus when it
/// builds; says whether it did.
fn add_file(corpus: &mut CorpusIndex, source: &SourceId, rel: &String, text: &Option<String>) -> (r: (bool, Ghost<ParsedDoc>))
    requires
        old(corpus).documents@.len() < u32::MAX,
    ensures
        r.0 == file_builds(*text),
        final(corpus).source == old(corpus).source,
        final(corpus).root_dir == old(corpus).root_dir,
        r.0 ==> final(corpus).documents@.len() == old(corpus).documents@.len() + 1
            && final(corpus).documents@.drop_last() == old(corpus).documents@
            && built_from(final(corpus).documents@.last(), source.0@, rel@, text->0@, r.1@),
        !r.0 ==> final(corpus).documents@ == old(corpus).documents@,
{
    let t = match text {
        Some(t) => t,
        None => return (false, Ghost(arbitrary())),
    };
    let n = t.as_str().as_bytes().len();
    if n > 4294967295usize || n == usize::MAX {
        return (false, Ghost(arbitrary()));
    }
    match build_document(source.clone(), rel.as_str(), t.as_str()) {
        Ok(doc) => {
            let ghost p = choose|p: ParsedDoc| built_from(doc, source.0@, rel@, t@, p);
            proof {
                assert(parsed_doc_of(t@, p) && p.headings@.len() <= u32::MAX && headings_ordered(
                    p.headings@,
                    p.source_len,
                ));
            }
            let ghost d = doc;
            corpus.push_document(doc);
            proof {
                assert(corpus.documents@.last() == d);
                assert(corpus.documents@.drop_last() =~= old(corpus).documents@);
            }
            (true, Ghost(p))
        },
        Err(_) => {
            proof {
                if file_builds(*text) {
                    let p1 = choose|p: ParsedDoc|
                        parsed_doc_of(t@, p) && p.headings@.len() <= u32::MAX && headings_ordered(
                            p.headings@,
                            p.source_len,
                        );
                    let p2 = choose|p: ParsedDoc|
                        parsed_doc_of(t@, p) && (p.headings@.len() > u32::MAX || !headings_ordered(
                            p.headings@,
                            p.source_len,
                        ));
                    crate::parse::lemma_parsed_doc_offsets(t@, p1, p2);
                    let h1 = p1.headings@;
                    let h2 = p2.headings@;
                    assert forall|a: int, b: int| 0 <= a <= b < h2.len() implies #[trigger] h2[a].offset
                        <= #[trigger] h2[b].offset by {
                        assert(h1[a].offset == h2[a].offset && h1[b].offset == h2[b].offset);
                        assert(h1[a].offset <= h1[b].offset);
                    }
                    assert forall|a: int| 0 <= a < h2.len() implies #[trigger] h2[a].offset <= p2.source_len by {
                        assert(h1[a].offset == h2[a].offset);
                        assert(h1[a].offset <= p1.source_len);
                    }
                    assert(headings_ordered(p2.headings@, p2.source_len));
                }
            }
            (false, Ghost(arbitrary()))
        },
    }
}

/// Builds the corpus index of a set of files, each given by its relative
/// path and its text (`None` when it could not be read as text). Returns
/// the corpus, with every lookup table built, and the number of files that
/// did not build.
pub fn build_corpus(source: SourceId, root_dir: String, files: Vec<(String, Option<String>)>) -> (r: (CorpusIndex, usize))
    requires
        files@.len() < u32::MAX,
    ensures
        r.0.source.0@ == source.0@,
        r.0.root_dir@ == root_dir@,
        corpus_of_files(r.0, source.0@, files@),
        tables_current(r.0),
        r.1 == files@.len() - built_files(files@).len(),
{
    let ghost src = source.0@;
    let ghost fs = files@;
    let doc_source = source.clone();
    let mut corpus = CorpusIndex::new(source, root_dir);
    let mut failed: usize = 0;
    let mut i: usize = 0;
    let ghost mut ok: Seq<int> = Seq::empty();
    let ghost mut ps: Seq<ParsedDoc> = Seq::empty();
    while i < files.len()
        invariant
            i <= fs.len(),
            fs == files@,
            fs.len() < u32::MAX,
            doc_source.0@ == src,
            corpus.source.0@ == src,
            corpus.root_dir@ == root_dir@,
            ok == built_files(fs.take(i as int)),
            corpus.documents@.len() == ok.len(),
            ps.len() == ok.len(),
            ok.len() <= i,
            forall|k: int|
                0 <= k < corpus.documents@.len() ==> built_from(
                    #[trigger] corpus.documents@[k],
                    src,
                    fs[ok[k]].0@,
                    fs[ok[k]].1->0@,
                    ps[k],
                ),
            failed == i - ok.len(),
        decreases fs.len() - i,
    {
        let ghost pre = fs.take(i as int);
        let ghost before = corpus.documents@;
        proof {
            assert(fs.take(i + 1).drop_last() =~= pre);
            assert(fs.take(i + 1).last() == fs[i as int]);
        }
        let (built, p) = add_file(&mut corpus, &doc_source, &files[i].0, &files[i].1);
        if built {
            proof {
                let ok1 = ok.push(i as int);
                let ps1 = ps.push(p@);
                assert(built_files(fs.take(i + 1)) == ok1);
                assert forall|k: int| 0 <= k < corpus.documents@.len() implies built_from(
                    #[trigger] corpus.documents@[k],
                    src,
                    fs[ok1[k]].0@,
                    fs[ok1[k]].1->0@,
                    ps1[k],
                ) by {
                    if k < before.len() {
                        assert(corpus.documents@[k] == corpus.documents@.drop_last()[k]);
                        assert(corpus.documents@[k] == before[k]);
                        assert(ok1[k] == ok[k]);
                        assert(ps1[k] == ps[k]);
                    } else {
                        assert(ok1[k] == i);
                        assert(ps1[k] == p@);
                    }
                }
                ok = ok1;
                ps = ps1;
            }
        } else {
            proof {
                assert(built_files(fs.take(i + 1)) == ok);
            }
            failed = failed + 1;
        }
        i = i + 1;
    }
    proof {
        assert(fs.take(i as int) =~= fs);
        assert(ok == built_files(fs));
    }
    let ghost docs0 = corpus.documents@;
    corpus.rebuild_indices();
    proof {
        assert(corpus.documents@ == docs0);
        assert(corpus_of_files(corpus, src, fs)) by {
            assert forall|k: int| 0 <= k < ok.len() implies doc_of_file(
                #[trigger] corpus.documents@[k],
                src,
                fs[ok[k]].0@,
                fs[ok[k]].1->0@,
            ) by {
                assert(corpus.documents@[k] == docs0[k]);
                assert(built_from(corpus.documents@[k], src, fs[ok[k]].0@, fs[ok[k]].1->0@, ps[k]));
            }
        }
    }
    (corpus, failed)
}

/// A coarse event about a watched path.
#[derive(Debug, Clone, PartialEq, Eq)]
pub enum WatchEvent {
    /// The path was created, modified, or its metadata changed.
    Upsert(String),
    /// The path was removed or renamed away.
    Remove(String),
}

impl WatchEvent {
    pub fn path(&self) -> (r: &str)
        ensures
            r@ == match self {
                WatchEvent::Upsert(p) => p@,
                WatchEvent::Remove(p) => p@,
            },
    {
        match self {
            WatchEvent::Upsert(p) => p.as_str(),
            WatchEvent::Remove(p) => p.as_str(),
        }
    }
}

} // verus!
