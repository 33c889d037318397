//! Filesystem layout conventions, with paths written as `/`-separated text:
//! where a corpus keeps its index, the default corpus name, the relative
//! path of a document, and which files count as markdown.

use vstd::prelude::*;

use crate::text::chars_of;
use crate::tokens::{lowercase, push_chars, str_lowercase, string_of_chars, string_views};
use crate::tools::pieces;
use crate::types::{joined, HeadingPath};

verus! {

/// Directory inside a corpus root that holds the index state.
pub const LORE_DIR: &'static str = ".lore";

/// Filename of the serialized corpus index.
pub const INDEX_FILE: &'static str = "index.json";

pub open spec fn slash() -> Seq<char> {
    seq!['/']
}

pub open spec fn dot() -> Seq<char> {
    seq!['.']
}

pub open spec fn dot_dot() -> Seq<char> {
    seq!['.', '.']
}

/// A path component that names a file or directory (not the root, `.` or
/// `..`).
pub open spec fn is_normal(p: Seq<char>) -> bool {
    p.len() > 0 && p != dot() && p != dot_dot() && p != slash()
}

/// The named components of a path, in order.
pub open spec fn normal_parts(ps: Seq<Seq<char>>) -> Seq<Seq<char>>
    decreases ps.len(),
{
    if ps.len() == 0 {
        Seq::empty()
    } else if is_normal(ps.last()) {
        normal_parts(ps.drop_last()).push(ps.last())
    } else {
        normal_parts(ps.drop_last())
    }
}

/// The components of a path: `/` for the root of an absolute path, `.` for
/// a leading current-directory marker, then each segment other than empty
/// ones and inner `.`.
pub open spec fn path_components(s: Seq<char>) -> Seq<Seq<char>> {
    let ps = pieces(s, '/');
    let root = if s.len() > 0 && s[0] == '/' {
        seq![slash()]
    } else {
        Seq::empty()
    };
    let lead = if s.len() > 0 && s[0] != '/' && ps[0] == dot() {
        seq![dot()]
    } else {
        Seq::empty()
    };
    root + lead + kept_parts(ps)
}

/// Segments other than empty ones and `.`.
pub open spec fn kept_parts(ps: Seq<Seq<char>>) -> Seq<Seq<char>>
    decreases ps.len(),
{
    if ps.len() == 0 {
        Seq::empty()
    } else if ps.last().len() > 0 && ps.last() != dot() {
        kept_parts(ps.drop_last()).push(ps.last())
    } else {
        kept_parts(ps.drop_last())
    }
}

/// A path rendered with forward slashes, keeping only named components.
pub open spec fn posix_of(s: Seq<char>) -> Seq<char> {
    joined(normal_parts(pieces(s, '/')), slash())
}

/// The relative path of `path` under `root` (component-wise), else `path`,
/// rendered with forward slashes.
pub open spec fn rel_path_of(root: Seq<char>, path: Seq<char>) -> Seq<char> {
    let r = path_components(root);
    let p = path_components(path);
    let rest = if r.len() <= p.len() && p.take(r.len() as int) == r {
        p.skip(r.len() as int)
    } else {
        p
    };
    joined(normal_parts(rest), slash())
}

fn split_parts(s: &str) -> (r: Vec<String>)
    ensures
        string_views(r@) == pieces(s@, '/'),
{
    let cs = chars_of(s);
    crate::tools::split_pieces(cs.as_slice(), '/')
}

fn is_normal_part(p: &String) -> (r: bool)
    ensures
        r == is_normal(p@),
{
    let cs = chars_of(p.as_str());
    let r = cs.len() > 0 && !(cs.len() == 1 && cs[0] == '.') && !(cs.len() == 2 && cs[0] == '.'
        && cs[1] == '.') && !(cs.len() == 1 && cs[0] == '/');
    proof {
        if cs@ == dot() {
            assert(cs@.len() == 1 && cs@[0] == '.');
        }
        if cs@ == dot_dot() {
            assert(cs@.len() == 2 && cs@[0] == '.' && cs@[1] == '.');
        }
        if cs@ == slash() {
            assert(cs@.len() == 1 && cs@[0] == '/');
        }
        if cs.len() == 1 && cs[0] == '.' {
            assert(cs@ =~= dot());
        }
        if cs.len() == 2 && cs[0] == '.' && cs[1] == '.' {
            assert(cs@ =~= dot_dot());
        }
        if cs.len() == 1 && cs[0] == '/' {
            assert(cs@ =~= slash());
        }
    }
    r
}

/// The parts joined with `/`.
fn join_slash(parts: &Vec<String>) -> (r: String)
    ensures
        r@ == joined(string_views(parts@), slash()),
{
    let hp = HeadingPath(crate::types::clone_strings(parts));
    let ghost hv = hp@;
    assert(hv =~= string_views(parts@));
    let mut out = String::new();
    let mut i: usize = 0;
    while i < parts.len()
        invariant
            i <= parts@.len(),
            out@ == joined(string_views(parts@).take(i as int), slash()),
        decreases parts@.len() - i,
    {
        let ghost sv = string_views(parts@);
        proof {
            assert(sv.take(i + 1).drop_last() =~= sv.take(i as int));
            assert(sv.take(i + 1).last() == sv[i as int]);
        }
        if i > 0 {
            crate::text::push_char(&mut out, '/');
        }
        let cs = chars_of(parts[i].as_str());
        push_chars(&mut out, cs.as_slice());
        proof {
            if i == 0 {
                assert(sv.take(1) =~= seq![sv[0]]);
                assert(out@ =~= joined(sv.take(1), slash()));
            } else {
                assert(out@ =~= joined(sv.take(i as int), slash()) + slash() + sv[i as int]);
            }
        }
        i = i + 1;
    }
    assert(string_views(parts@).take(i as int) =~= string_views(parts@));
    out
}

fn keep_normal(ps: &Vec<String>, from: usize) -> (r: Vec<String>)
    requires
        from <= ps@.len(),
    ensures
        string_views(r@) == normal_parts(string_views(ps@).skip(from as int)),
{
    let ghost sv = string_views(ps@).skip(from as int);
    let mut out: Vec<String> = Vec::new();
    let mut i: usize = from;
    assert(sv.take(0) =~= Seq::<Seq<char>>::empty());
    while i < ps.len()
        invariant
            from <= i <= ps@.len(),
            sv == string_views(ps@).skip(from as int),
            string_views(out@) == normal_parts(sv.take(i - from)),
        decreases ps@.len() - i,
    {
        proof {
            assert(sv.take(i - from + 1).drop_last() =~= sv.take(i - from));
            assert(sv.take(i - from + 1).last() == ps@[i as int]@);
        }
        if is_normal_part(&ps[i]) {
            let ghost before = string_views(out@);
            out.push(ps[i].clone());
            proof {
                assert(string_views(out@) =~= before.push(ps@[i as int]@));
            }
        }
        i = i + 1;
    }
    assert(sv.take(i - from) =~= sv);
    out
}

/// Render a path with forward slashes, dropping the root, `.` and `..`
/// components: the form a `rel_path` is stored in.
pub fn rel_to_posix(rel: &str) -> (r: String)
    ensures
        r@ == posix_of(rel@),
{
    let ps = split_parts(rel);
    let keep = keep_normal(&ps, 0);
    assert(string_views(ps@).skip(0) =~= string_views(ps@));
    join_slash(&keep)
}

/// The components of a path.
fn components(s: &str) -> (r: Vec<String>)
    ensures
        string_views(r@) == path_components(s@),
{
    let cs = chars_of(s);
    let ps = split_parts(s);
    let ghost pv = string_views(ps@);
    let mut out: Vec<String> = Vec::new();
    if cs.len() > 0 && cs[0] == '/' {
        out.push("/".to_owned());
        proof {
            reveal_strlit("/");
            assert("/"@ =~= slash());
        }
    }
    proof {
        crate::tools::lemma_pieces_nonempty(s@, '/');
    }
    if cs.len() > 0 && cs[0] != '/' {
        let first = chars_of(ps[0].as_str());
        if first.len() == 1 && first[0] == '.' {
            out.push(".".to_owned());
            proof {
                reveal_strlit(".");
                assert("."@ =~= dot());
                assert(first@ =~= dot());
            }
        } else {
            proof {
                if pv[0] == dot() {
                    assert(first@.len() == 1 && first@[0] == '.');
                }
            }
        }
    }
    let ghost head = string_views(out@);
    let mut i: usize = 0;
    while i < ps.len()
        invariant
            i <= ps@.len(),
            pv == string_views(ps@),
            string_views(out@) == head + kept_parts(pv.take(i as int)),
        decreases ps@.len() - i,
    {
        proof {
            assert(pv.take(i + 1).drop_last() =~= pv.take(i as int));
            assert(pv.take(i + 1).last() == pv[i as int]);
        }
        let p = chars_of(ps[i].as_str());
        if p.len() > 0 && !(p.len() == 1 && p[0] == '.') {
            proof {
                assert(p@ != dot()) by {
                    if p@ == dot() {
                        assert(p@.len() == 1 && p@[0] == '.');
                    }
                }
            }
            let ghost before = string_views(out@);
            out.push(ps[i].clone());
            proof {
                assert(string_views(out@) =~= before.push(pv[i as int]));
            }
        } else {
            proof {
                if p.len() == 1 && p[0] == '.' {
                    assert(p@ =~= dot());
                }
            }
        }
        i = i + 1;
    }
    proof {
        assert(pv.take(i as int) =~= pv);
        assert(string_views(out@) =~= path_components(s@));
    }
    out
}

/// Compute the forward-slash `rel_path` of `path` relative to `root`; a
/// path outside `root` is rendered whole.
pub fn rel_path(root: &str, path: &str) -> (r: String)
    ensures
        r@ == rel_path_of(root@, path@),
{
    let r = components(root);
    let p = components(path);
    let ghost rv = string_views(r@);
    let ghost pv = string_views(p@);
    let mut prefix = r.len() <= p.len();
    let mut i: usize = 0;
    while prefix && i < r.len()
        invariant
            i <= r@.len(),
            rv == string_views(r@),
            pv == string_views(p@),
            prefix ==> r@.len() <= p@.len(),
            prefix ==> forall|k: int| 0 <= k < i ==> rv[k] == pv[k],
            !prefix ==> !(rv.len() <= pv.len() && pv.take(rv.len() as int) == rv),
        decreases r@.len() - i + (if prefix {
            1int
        } else {
            0int
        }),
    {
        let a = chars_of(r[i].as_str());
        let b = chars_of(p[i].as_str());
        if !crate::tokens::chars_eq(a.as_slice(), b.as_slice()) {
            proof {
                if rv.len() <= pv.len() && pv.take(rv.len() as int) == rv {
                    assert(pv.take(rv.len() as int)[i as int] == pv[i as int]);
                }
            }
            prefix = false;
        } else {
            i = i + 1;
        }
    }
    let from = if prefix {
        assert(pv.take(rv.len() as int) =~= rv);
        r.len()
    } else {
        0
    };
    let keep = keep_normal(&p, from);
    proof {
        assert(pv.skip(0) =~= pv);
    }
    join_slash(&keep)
}

/// The canonical on-disk path of a corpus index under its root.
pub open spec fn index_path_of(root: Seq<char>) -> Seq<char> {
    let sep = if root.len() > 0 && root.last() != '/' {
        slash()
    } else {
        Seq::empty()
    };
    root + sep + ".lore/index.json"@
}

/// `<root>/.lore/index.json`.
pub fn index_path(root: &str) -> (r: String)
    ensures
        r@ == index_path_of(root@),
{
    let cs = chars_of(root);
    let mut out = string_of_chars(cs.as_slice());
    if cs.len() > 0 && cs[cs.len() - 1] != '/' {
        crate::text::push_char(&mut out, '/');
    }
    let tail = chars_of(".lore/index.json");
    push_chars(&mut out, tail.as_slice());
    proof {
        if cs.len() > 0 && cs@.last() != '/' {
            assert(out@ =~= root@ + slash() + ".lore/index.json"@);
        } else {
            assert(out@ =~= root@ + Seq::<char>::empty() + ".lore/index.json"@);
        }
    }
    out
}

/// The default corpus name: the last named component of the root, else
/// `root`.
pub open spec fn default_source_of(root: Seq<char>) -> Seq<char> {
    let c = path_components(root);
    if c.len() > 0 && is_normal(c.last()) {
        c.last()
    } else {
        "root"@
    }
}

/// Derive a default corpus name from the root path: its basename, or
/// `root` for paths without one (such as `/`).
pub fn default_source_id(root: &str) -> (r: String)
    ensures
        r@ == default_source_of(root@),
{
    let c = components(root);
    if c.len() > 0 && is_normal_part(&c[c.len() - 1]) {
        c[c.len() - 1].clone()
    } else {
        "root".to_owned()
    }
}

/// Markdown file extensions indexed by default.
pub open spec fn markdown_extensions() -> Seq<Seq<char>> {
    seq![seq!['m', 'd'], seq!['m', 'a', 'r', 'k', 'd', 'o', 'w', 'n'], seq!['m', 'd', 'x'], seq![
        'm',
        'k',
        'd',
    ]]
}

/// The default markdown extensions, as strings.
pub fn markdown_extension_list() -> (r: Vec<String>)
    ensures
        string_views(r@) == markdown_extensions(),
{
    let v: Vec<String> = vec![
        string_of_chars(vec!['m', 'd'].as_slice()),
        string_of_chars(vec!['m', 'a', 'r', 'k', 'd', 'o', 'w', 'n'].as_slice()),
        string_of_chars(vec!['m', 'd', 'x'].as_slice()),
        string_of_chars(vec!['m', 'k', 'd'].as_slice()),
    ];
    assert(string_views(v@) =~= markdown_extensions());
    v
}

/// The extension of a path's file name: the text after its last `.`,
/// unless the name has no `.` or only a leading one.
pub open spec fn extension_of(path: Seq<char>) -> Option<Seq<char>> {
    let c = path_components(path);
    if c.len() == 0 || !is_normal(c.last()) {
        None
    } else {
        let name = c.last();
        match crate::tokens::last_index_of(name, '.') {
            Some(i) => if i == 0 {
                None
            } else {
                Some(name.skip(i + 1))
            },
            None => None,
        }
    }
}

/// Whether the path's extension, lowercased, is one of `extensions`.
pub open spec fn has_extension_in(path: Seq<char>, extensions: Seq<Seq<char>>) -> bool {
    match extension_of(path) {
        Some(e) => extensions.contains(str_lowercase(e)),
        None => false,
    }
}

fn extension(path: &str) -> (r: Option<String>)
    ensures
        match r {
            Some(e) => extension_of(path@) == Some(e@),
            None => extension_of(path@) is None,
        },
{
    let c = components(path);
    if c.len() == 0 || !is_normal_part(&c[c.len() - 1]) {
        return None;
    }
    let name = chars_of(c[c.len() - 1].as_str());
    let n = name.len();
    let found = crate::tokens::rfind_char(name.as_slice(), '.');
    match found {
        Some(i) => if i == 0 {
            None
        } else {
            assert(name@.subrange(i + 1, name@.len() as int) =~= name@.skip(i + 1));
            Some(crate::text::string_of_range(name.as_slice(), i + 1, n))
        },
        None => None,
    }
}

/// Whether `path` has one of `extensions` (compared lowercased).
pub fn has_matching_extension(path: &str, extensions: &Vec<String>) -> (r: bool)
    ensures
        r == has_extension_in(path@, string_views(extensions@)),
{
    let ext = match extension(path) {
        Some(e) => e,
        None => return false,
    };
    let lower = lowercase(ext.as_str());
    let lc = chars_of(lower.as_str());
    let mut k: usize = 0;
    while k < extensions.len()
        invariant
            k <= extensions@.len(),
            lc@ == lower@,
            lower@ == str_lowercase(ext@),
            extension_of(path@) == Some(ext@),
            forall|j: int| 0 <= j < k ==> extensions@[j]@ != lower@,
        decreases extensions@.len() - k,
    {
        let e = chars_of(extensions[k].as_str());
        if crate::tokens::chars_eq(e.as_slice(), lc.as_slice()) {
            assert(string_views(extensions@)[k as int] == lower@);
            assert(string_views(extensions@).contains(lower@));
            return true;
        }
        k = k + 1;
    }
    proof {
        if string_views(extensions@).contains(lower@) {
            let j = choose|j: int| 0 <= j < string_views(extensions@).len() && string_views(extensions@)[j] == lower@;
            assert(extensions@[j]@ == lower@);
        }
    }
    false
}

/// Whether `path` is a markdown file by the default extensions.
pub fn is_markdown(path: &str) -> (r: bool)
    ensures
        r == has_extension_in(path@, markdown_extensions()),
{
    let exts = markdown_extension_list();
    has_matching_extension(path, &exts)
}

// ---------------------------------------------------------------------------
// Walk rules for single paths
// ---------------------------------------------------------------------------

/// The file name of a path: its last component, when that names something.
pub open spec fn file_name_of(path: Seq<char>) -> Option<Seq<char>> {
    let c = path_components(path);
    if c.len() > 0 && is_normal(c.last()) {
        Some(c.last())
    } else {
        None
    }
}

/// The path names a file of ignore rules (`.gitignore` or `.ignore`).
pub open spec fn names_ignore_file(path: Seq<char>) -> bool {
    match file_name_of(path) {
        Some(n) => n == ".gitignore"@ || n == ".ignore"@,
        None => false,
    }
}

/// Whether a change to `path` changes the ignore rules.
pub fn is_ignore_file(path: &str) -> (r: bool)
    ensures
        r == names_ignore_file(path@),
{
    let c = components(path);
    if c.len() == 0 || !is_normal_part(&c[c.len() - 1]) {
        return false;
    }
    let name = c[c.len() - 1].as_str();
    let n = chars_of(name);
    let a = chars_of(".gitignore");
    let b = chars_of(".ignore");
    crate::tokens::chars_eq(n.as_slice(), a.as_slice()) || crate::tokens::chars_eq(
        n.as_slice(),
        b.as_slice(),
    )
}

/// The named components of `path` below `root`, when `path` lies under it
/// (component by component).
pub open spec fn below_root(root: Seq<char>, path: Seq<char>) -> Option<Seq<Seq<char>>> {
    let r = path_components(root);
    let p = path_components(path);
    if r.len() <= p.len() && p.take(r.len() as int) == r {
        Some(normal_parts(p.skip(r.len() as int)))
    } else {
        None
    }
}

/// A hidden name starts with a dot.
pub open spec fn is_hidden_name(c: Seq<char>) -> bool {
    c.len() > 0 && c[0] == '.'
}

pub open spec fn lowered(exts: Seq<Seq<char>>) -> Seq<Seq<char>> {
    exts.map_values(|e: Seq<char>| str_lowercase(e))
}

/// The rules a directory walk applies to one file, short of the ignore
/// files themselves: one of the extensions (any case), a path below the
/// root, nothing inside the index directory, and no hidden component
/// unless hidden files are wanted.
pub open spec fn walk_rules_admit(root: Seq<char>, path: Seq<char>, extensions: Seq<Seq<char>>, include_hidden: bool) -> bool {
    &&& has_extension_in(path, lowered(extensions))
    &&& below_root(root, path) matches Some(cs) && {
        &&& cs.len() > 0
        &&& !cs.contains(".lore"@)
        &&& (include_hidden || forall|i: int| 0 <= i < cs.len() ==> !is_hidden_name(#[trigger] cs[i]))
    }
}

/// Whether `path` passes the walk rules other than the ignore files.
pub fn admits_by_walk_rules(root: &str, path: &str, extensions: &Vec<String>, include_hidden: bool) -> (r: bool)
    ensures
        r == walk_rules_admit(root@, path@, string_views(extensions@), include_hidden),
{
    let mut lower: Vec<String> = Vec::new();
    let mut e: usize = 0;
    while e < extensions.len()
        invariant
            e <= extensions@.len(),
            string_views(lower@) == lowered(string_views(extensions@)).take(e as int),
        decreases extensions@.len() - e,
    {
        let ghost before = string_views(lower@);
        let l = lowercase(extensions[e].as_str());
        let ghost lv = l@;
        lower.push(l);
        proof {
            let sv = string_views(extensions@);
            assert(sv[e as int] == extensions@[e as int]@);
            assert(lowered(sv)[e as int] == str_lowercase(sv[e as int]));
            assert(string_views(lower@) =~= before.push(lv));
            assert(lowered(sv).take(e + 1) =~= lowered(sv).take(e as int).push(lowered(sv)[e as int]));
            assert(string_views(lower@) =~= lowered(sv).take(e + 1));
        }
        e = e + 1;
    }
    proof {
        assert(lowered(string_views(extensions@)).take(e as int) =~= lowered(string_views(extensions@)));
    }
    if !has_matching_extension(path, &lower) {
        return false;
    }
    let r = components(root);
    let p = components(path);
    let ghost rv = string_views(r@);
    let ghost pv = string_views(p@);
    if r.len() > p.len() {
        return false;
    }
    let mut i: usize = 0;
    while i < r.len()
        invariant
            i <= r@.len(),
            r@.len() <= p@.len(),
            rv == string_views(r@),
            pv == string_views(p@),
            rv == path_components(root@),
            pv == path_components(path@),
            forall|k: int| 0 <= k < i ==> rv[k] == pv[k],
        decreases r@.len() - i,
    {
        let a = chars_of(r[i].as_str());
        let b = chars_of(p[i].as_str());
        if !crate::tokens::chars_eq(a.as_slice(), b.as_slice()) {
            proof {
                assert(pv.take(rv.len() as int)[i as int] == pv[i as int]);
                assert(pv.take(rv.len() as int) != rv);
            }
            return false;
        }
        i = i + 1;
    }
    assert(pv.take(rv.len() as int) =~= rv);
    let cs = keep_normal(&p, r.len());
    let ghost cv = string_views(cs@);
    assert(below_root(root@, path@) == Some(cv));
    if cs.len() == 0 {
        return false;
    }
    let lore = chars_of(".lore");
    let mut k: usize = 0;
    while k < cs.len()
        invariant
            k <= cs@.len(),
            cv == string_views(cs@),
            below_root(root@, path@) == Some(cv),
            lore@ == ".lore"@,
            forall|t: int| 0 <= t < k ==> cv[t] != ".lore"@,
            !include_hidden ==> forall|t: int| 0 <= t < k ==> !is_hidden_name(#[trigger] cv[t]),
        decreases cs@.len() - k,
    {
        let c = chars_of(cs[k].as_str());
        if crate::tokens::chars_eq(c.as_slice(), lore.as_slice()) {
            proof {
                assert(cv[k as int] == ".lore"@);
                assert(cv.contains(".lore"@));
            }
            return false;
        }
        if !include_hidden && c.len() > 0 && c[0] == '.' {
            proof {
                assert(is_hidden_name(cv[k as int]));
            }
            return false;
        }
        k = k + 1;
    }
    proof {
        assert(!cv.contains(".lore"@)) by {
            if cv.contains(".lore"@) {
                let t = choose|t: int| 0 <= t < cv.len() && cv[t] == ".lore"@;
            }
        }
    }
    true
}

/// How one ignore-rule matcher judges one path.
#[derive(Debug, Clone, Copy, PartialEq, Eq, Structural)]
pub enum IgnoreVerdict {
    /// A rule ignores the path.
    Ignore,
    /// A `!rule` re-includes the path.
    Whitelist,
    /// No rule of the matcher speaks of the path.
    Unmatched,
}

/// The verdict of the deepest matcher that has one (`Unmatched` when none
/// does); matchers are listed from the shallowest to the deepest.
pub open spec fn deepest_verdict(vs: Seq<IgnoreVerdict>) -> IgnoreVerdict
    decreases vs.len(),
{
    if vs.len() == 0 {
        IgnoreVerdict::Unmatched
    } else if vs.last() != IgnoreVerdict::Unmatched {
        vs.last()
    } else {
        deepest_verdict(vs.drop_last())
    }
}

/// A path is ignored when, at some component along it, the deepest
/// matcher in force there that has a verdict ignores that component.
pub open spec fn ignored_along(verdicts: Seq<Seq<IgnoreVerdict>>) -> bool {
    exists|i: int| 0 <= i < verdicts.len() && deepest_verdict(#[trigger] verdicts[i]) == IgnoreVerdict::Ignore
}

/// The deepest verdict among `vs`.
fn deepest_of(vs: &Vec<IgnoreVerdict>) -> (r: IgnoreVerdict)
    ensures
        r == deepest_verdict(vs@),
{
    let mut k: usize = vs.len();
    assert(vs@.take(k as int) =~= vs@);
    while k > 0
        invariant
            k <= vs@.len(),
            deepest_verdict(vs@) == deepest_verdict(vs@.take(k as int)),
        decreases k,
    {
        proof {
            assert(vs@.take(k as int).drop_last() =~= vs@.take(k - 1));
            assert(vs@.take(k as int).last() == vs@[k - 1]);
        }
        if vs[k - 1] != IgnoreVerdict::Unmatched {
            return vs[k - 1];
        }
        k = k - 1;
    }
    IgnoreVerdict::Unmatched
}

/// Whether ignore rules exclude a path, given for each of its components
/// (from the root down) the verdicts on that component of the matchers in
/// force there, from the shallowest to the deepest: deeper rules take
/// precedence, a `!rule` settles its component, and an ignored directory
/// excludes everything below it.
pub fn is_ignored(verdicts: &Vec<Vec<IgnoreVerdict>>) -> (r: bool)
    ensures
        r == ignored_along(verdicts@.map_values(|v: Vec<IgnoreVerdict>| v@)),
{
    let ghost vv = verdicts@.map_values(|v: Vec<IgnoreVerdict>| v@);
    let mut i: usize = 0;
    while i < verdicts.len()
        invariant
            i <= verdicts@.len(),
            vv == verdicts@.map_values(|v: Vec<IgnoreVerdict>| v@),
            forall|j: int| 0 <= j < i ==> deepest_verdict(#[trigger] vv[j]) != IgnoreVerdict::Ignore,
        decreases verdicts@.len() - i,
    {
        if deepest_of(&verdicts[i]) == IgnoreVerdict::Ignore {
            assert(deepest_verdict(vv[i as int]) == IgnoreVerdict::Ignore);
            return true;
        }
        i = i + 1;
    }
    false
}

} // verus!
