//! Text normalisation shared by the inverted index, the ranker and the
//! backlink table: word tokens, canonical link keys and title trigrams.

use vstd::prelude::*;

use crate::stem::{porter_stem, stem_chars};
use crate::text::{chars_of, find_char, first_index_of, string_of_range};
use vstd::string::StringSliceAdditionalSpecFns;
use vstd::utf8::encode_utf8;

verus! {

// ---------------------------------------------------------------------------
// Character and word primitives
// ---------------------------------------------------------------------------

/// The Unicode words of `text` (UAX #29 word boundaries, keeping only the
/// segments that contain a letter or digit), in order.
pub uninterp spec fn unicode_words(text: Seq<char>) -> Seq<Seq<char>>;

/// Whether `c` is alphanumeric (Unicode `Alphabetic` or `Numeric`).
pub uninterp spec fn char_is_alphanumeric(c: char) -> bool;

/// The lowercase mapping of `c` (one or more characters).
pub uninterp spec fn char_lowercase(c: char) -> Seq<char>;

/// The lowercase form of a whole string.
pub uninterp spec fn str_lowercase(s: Seq<char>) -> Seq<char>;

/// `UnicodeSegmentation::unicode_words`, each word copied out.
#[verifier::external_body]
fn words_of(text: &str) -> (r: Vec<String>)
    ensures
        r@.map_values(|w: String| w@) == unicode_words(text@),
{
    unicode_segmentation::UnicodeSegmentation::unicode_words(text).map(|w| w.to_string()).collect()
}

/// `char::is_alphanumeric`.
#[verifier::external_body]
fn is_alphanumeric(c: char) -> (r: bool)
    ensures
        r == char_is_alphanumeric(c),
{
    c.is_alphanumeric()
}

/// `char::to_lowercase`, collected.
#[verifier::external_body]
fn lowercase_char(c: char) -> (r: Vec<char>)
    ensures
        r@ == char_lowercase(c),
{
    c.to_lowercase().collect()
}

/// `str::to_lowercase`.
#[verifier::external_body]
pub(crate) fn lowercase(s: &str) -> (r: String)
    ensures
        r@ == str_lowercase(s@),
{
    s.to_lowercase()
}

/// Whether two character slices are equal.
pub fn chars_eq(a: &[char], b: &[char]) -> (r: bool)
    ensures
        r == (a@ == b@),
{
    if a.len() != b.len() {
        return false;
    }
    let mut i: usize = 0;
    while i < a.len()
        invariant
            i <= a@.len(),
            a@.len() == b@.len(),
            forall|k: int| 0 <= k < i ==> a@[k] == b@[k],
        decreases a@.len() - i,
    {
        if a[i] != b[i] {
            return false;
        }
        i = i + 1;
    }
    assert(a@ =~= b@);
    true
}

/// `s` followed by the characters of `cs`.
pub fn push_chars(s: &mut String, cs: &[char])
    ensures
        final(s)@ == old(s)@ + cs@,
{
    let mut i: usize = 0;
    while i < cs.len()
        invariant
            i <= cs@.len(),
            s@ == old(s)@ + cs@.subrange(0, i as int),
        decreases cs@.len() - i,
    {
        crate::text::push_char(s, cs[i]);
        assert(cs@.subrange(0, i + 1) =~= cs@.subrange(0, i as int).push(cs@[i as int]));
        i = i + 1;
    }
    assert(cs@.subrange(0, i as int) =~= cs@);
}

/// A string holding exactly the characters of `cs`.
pub fn string_of_chars(cs: &[char]) -> (r: String)
    ensures
        r@ == cs@,
{
    let mut s = String::new();
    push_chars(&mut s, cs);
    s
}

// ---------------------------------------------------------------------------
// Tokens
// ---------------------------------------------------------------------------

/// Words too common to carry meaning in a query.
pub open spec fn stopwords() -> Seq<Seq<char>> {
    seq![
        seq!['t', 'h', 'e'],
        seq!['a', 'n', 'd'],
        seq!['o', 'r'],
        seq!['o', 'f'],
        seq!['t', 'o'],
        seq!['i', 'n'],
        seq!['o', 'n'],
        seq!['a', 't'],
        seq!['a'],
        seq!['a', 'n'],
        seq!['i', 's'],
        seq!['i', 't'],
        seq!['f', 'o', 'r'],
        seq!['w', 'i', 't', 'h'],
        seq!['a', 's'],
        seq!['b', 'y'],
        seq!['b', 'e'],
        seq!['a', 'r', 'e'],
        seq!['t', 'h', 'i', 's'],
        seq!['t', 'h', 'a', 't'],
    ]
}

/// A word's alphanumeric characters, lowercased.
pub open spec fn cleaned_word(w: Seq<char>) -> Seq<char>
    decreases w.len(),
{
    if w.len() == 0 {
        Seq::empty()
    } else {
        cleaned_word(w.drop_last()) + if char_is_alphanumeric(w.last()) {
            char_lowercase(w.last())
        } else {
            Seq::empty()
        }
    }
}

/// A cleaned word is kept when it has at least two bytes and is not a
/// stopword.
pub open spec fn keeps_token(t: Seq<char>) -> bool {
    encode_utf8(t).len() >= 2 && !stopwords().contains(t)
}

pub open spec fn tokens_of_words(ws: Seq<Seq<char>>) -> Seq<Seq<char>>
    decreases ws.len(),
{
    if ws.len() == 0 {
        Seq::empty()
    } else {
        let prev = tokens_of_words(ws.drop_last());
        let c = cleaned_word(ws.last());
        if keeps_token(c) {
            prev.push(porter_stem(c))
        } else {
            prev
        }
    }
}

/// The search tokens of `text`: each Unicode word cleaned to its lowercased
/// alphanumeric characters, dropping short words and stopwords, then reduced
/// to its Porter stem.
pub open spec fn tokens(text: Seq<char>) -> Seq<Seq<char>> {
    tokens_of_words(unicode_words(text))
}

pub open spec fn string_views(v: Seq<String>) -> Seq<Seq<char>> {
    v.map_values(|s: String| s@)
}

fn clean_word(w: &str) -> (r: String)
    ensures
        r@ == cleaned_word(w@),
{
    let cs = chars_of(w);
    let mut out = String::new();
    let mut i: usize = 0;
    while i < cs.len()
        invariant
            i <= cs@.len(),
            cs@ == w@,
            out@ == cleaned_word(cs@.subrange(0, i as int)),
        decreases cs@.len() - i,
    {
        let c = cs[i];
        proof {
            assert(cs@.subrange(0, i + 1).drop_last() =~= cs@.subrange(0, i as int));
        }
        if is_alphanumeric(c) {
            let low = lowercase_char(c);
            push_chars(&mut out, low.as_slice());
        }
        i = i + 1;
    }
    assert(cs@.subrange(0, i as int) =~= cs@);
    out
}

fn is_stopword(t: &str) -> (r: bool)
    ensures
        r == stopwords().contains(t@),
{
    let cs = chars_of(t);
    let words: Vec<Vec<char>> = vec![
        vec!['t', 'h', 'e'],
        vec!['a', 'n', 'd'],
        vec!['o', 'r'],
        vec!['o', 'f'],
        vec!['t', 'o'],
        vec!['i', 'n'],
        vec!['o', 'n'],
        vec!['a', 't'],
        vec!['a'],
        vec!['a', 'n'],
        vec!['i', 's'],
        vec!['i', 't'],
        vec!['f', 'o', 'r'],
        vec!['w', 'i', 't', 'h'],
        vec!['a', 's'],
        vec!['b', 'y'],
        vec!['b', 'e'],
        vec!['a', 'r', 'e'],
        vec!['t', 'h', 'i', 's'],
        vec!['t', 'h', 'a', 't'],
    ];
    let ghost sw = stopwords();
    assert(words@.len() == sw.len());
    assert(forall|k: int| 0 <= k < sw.len() ==> (#[trigger] words@[k])@ == sw[k]);
    let mut k: usize = 0;
    while k < words.len()
        invariant
            k <= words@.len(),
            words@.len() == sw.len(),
            sw == stopwords(),
            cs@ == t@,
            forall|j: int| 0 <= j < sw.len() ==> (#[trigger] words@[j])@ == sw[j],
            forall|j: int| 0 <= j < k ==> sw[j] != t@,
        decreases words@.len() - k,
    {
        if chars_eq(cs.as_slice(), words[k].as_slice()) {
            assert(sw[k as int] == t@);
            return true;
        }
        k = k + 1;
    }
    false
}

/// Tokenise text the way the ranker does, so the inverted index and the
/// ranker cannot drift apart.
pub fn tokenize(text: &str) -> (r: Vec<String>)
    ensures
        string_views(r@) == tokens(text@),
{
    let words = words_of(text);
    let ghost ws = words@.map_values(|w: String| w@);
    let mut out: Vec<String> = Vec::new();
    let mut i: usize = 0;
    while i < words.len()
        invariant
            i <= words@.len(),
            ws == words@.map_values(|w: String| w@),
            ws == unicode_words(text@),
            string_views(out@) == tokens_of_words(ws.subrange(0, i as int)),
        decreases words@.len() - i,
    {
        let cleaned = clean_word(words[i].as_str());
        proof {
            assert(ws.subrange(0, i + 1).drop_last() =~= ws.subrange(0, i as int));
            assert(ws[i as int] == words@[i as int]@);
            vstd::utf8::encode_utf8_valid_utf8(cleaned@);
        }
        let n = cleaned.as_str().as_bytes().len();
        if n >= 2 && !is_stopword(cleaned.as_str()) {
            let stemmed = stem_chars(chars_of(cleaned.as_str()));
            let token = string_of_chars(stemmed.as_slice());
            let ghost before = out@;
            out.push(token);
            proof {
                assert(string_views(out@) =~= string_views(before).push(out@.last()@));
            }
        }
        i = i + 1;
    }
    assert(ws.subrange(0, i as int) =~= ws);
    out
}

// ---------------------------------------------------------------------------
// Trigrams
// ---------------------------------------------------------------------------

pub open spec fn is_ascii_alnum(b: u8) -> bool {
    (48 <= b <= 57) || (65 <= b <= 90) || (97 <= b <= 122)
}

/// How a byte enters a trigram: letters and digits lowercased, whitespace,
/// `-` and `_` as a space; anything else breaks the run.
pub open spec fn trigram_byte(b: u8) -> Option<u8> {
    if is_ascii_alnum(b) {
        Some(if 65 <= b <= 90 { (b + 32) as u8 } else { b })
    } else if b == 32 || b == 9 || b == 10 || b == 12 || b == 13 || b == 45 || b == 95 {
        Some(32u8)
    } else {
        None
    }
}

/// The trigram starting at byte `i`, if all three bytes normalise.
pub open spec fn trigram_at(b: Seq<u8>, i: int) -> Option<Seq<u8>> {
    match (trigram_byte(b[i]), trigram_byte(b[i + 1]), trigram_byte(b[i + 2])) {
        (Some(x), Some(y), Some(z)) => Some(seq![x, y, z]),
        _ => None,
    }
}

/// The lowercased ASCII trigrams of `b`, in order.
pub open spec fn trigrams_upto(b: Seq<u8>, n: int) -> Seq<Seq<u8>>
    decreases n,
{
    if n <= 0 || n + 2 > b.len() {
        Seq::empty()
    } else {
        match trigram_at(b, n - 1) {
            Some(t) => trigrams_upto(b, n - 1).push(t),
            None => trigrams_upto(b, n - 1),
        }
    }
}

pub open spec fn trigrams(s: Seq<char>) -> Seq<Seq<u8>> {
    let b = encode_utf8(s);
    trigrams_upto(b, b.len() - 2)
}

fn normalize(b: u8) -> (r: Option<u8>)
    ensures
        r == trigram_byte(b),
{
    if (48 <= b && b <= 57) || (65 <= b && b <= 90) || (97 <= b && b <= 122) {
        Some(if 65 <= b && b <= 90 { b + 32 } else { b })
    } else if b == 32 || b == 9 || b == 10 || b == 12 || b == 13 || b == 45 || b == 95 {
        Some(32u8)
    } else {
        None
    }
}

pub open spec fn trigram_views(v: Seq<[u8; 3]>) -> Seq<Seq<u8>> {
    v.map_values(|t: [u8; 3]| t@)
}

/// Lowercased ASCII trigrams. Non-ASCII characters split trigram runs.
pub fn trigrams_of(s: &str) -> (r: Vec<[u8; 3]>)
    ensures
        trigram_views(r@) == trigrams(s@),
{
    let bytes = s.as_bytes();
    let ghost b = bytes@;
    let n = bytes.len();
    let mut out: Vec<[u8; 3]> = Vec::new();
    if n < 3 {
        return out;
    }
    let m = n - 2;
    let mut i: usize = 0;
    while i < m
        invariant
            b == bytes@,
            b == encode_utf8(s@),
            n == b.len(),
            m + 2 == n,
            i <= m,
            trigram_views(out@) == trigrams_upto(b, i as int),
        decreases m - i,
    {
        let x = normalize(bytes[i]);
        let y = normalize(bytes[i + 1]);
        let z = normalize(bytes[i + 2]);
        match (x, y, z) {
            (Some(p), Some(q), Some(t)) => {
                let tri: [u8; 3] = [p, q, t];
                let ghost before = out@;
                out.push(tri);
                proof {
                    assert(tri@ =~= seq![p, q, t]);
                    assert(trigram_views(out@) =~= trigram_views(before).push(tri@));
                }
            },
            _ => {},
        }
        i = i + 1;
    }
    out
}


// ---------------------------------------------------------------------------
// Lexicographic order
// ---------------------------------------------------------------------------

/// `a` sorts strictly before `b`, comparing from position `i` on by code
/// point (which is also the byte order of their UTF-8 encodings).
pub open spec fn lex_lt_from(a: Seq<char>, b: Seq<char>, i: int) -> bool
    decreases a.len() - i,
{
    if i < 0 || i >= a.len() {
        0 <= i < b.len()
    } else if i >= b.len() {
        false
    } else if a[i] < b[i] {
        true
    } else if a[i] == b[i] {
        lex_lt_from(a, b, i + 1)
    } else {
        false
    }
}

pub open spec fn lex_lt(a: Seq<char>, b: Seq<char>) -> bool {
    lex_lt_from(a, b, 0)
}

/// Strictly increasing: sorted with no element repeated.
pub open spec fn strictly_sorted(s: Seq<Seq<char>>) -> bool {
    forall|i: int, j: int| 0 <= i < j < s.len() ==> lex_lt(#[trigger] s[i], #[trigger] s[j])
}

proof fn lemma_lex_irrefl(a: Seq<char>, i: int)
    requires
        0 <= i,
    ensures
        !lex_lt_from(a, a, i),
    decreases a.len() - i,
{
    if i < a.len() {
        lemma_lex_irrefl(a, i + 1);
    }
}

proof fn lemma_lex_trans(a: Seq<char>, b: Seq<char>, c: Seq<char>, i: int)
    requires
        0 <= i,
        lex_lt_from(a, b, i),
        lex_lt_from(b, c, i),
    ensures
        lex_lt_from(a, c, i),
    decreases a.len() - i,
{
    if i < a.len() && i < b.len() && i < c.len() && a[i] == b[i] && b[i] == c[i] {
        lemma_lex_trans(a, b, c, i + 1);
    }
}

proof fn lemma_lex_total(a: Seq<char>, b: Seq<char>, i: int)
    requires
        0 <= i <= a.len(),
        i <= b.len(),
        forall|k: int| 0 <= k < i ==> a[k] == b[k],
    ensures
        lex_lt_from(a, b, i) || lex_lt_from(b, a, i) || a == b,
    decreases a.len() - i,
{
    if i < a.len() && i < b.len() && a[i] == b[i] {
        lemma_lex_total(a, b, i + 1);
    } else if i == a.len() && i == b.len() {
        assert(a =~= b);
    }
}

/// Whether `a` sorts strictly before `b`.
fn chars_lt(a: &[char], b: &[char]) -> (r: bool)
    ensures
        r == lex_lt(a@, b@),
{
    let mut i: usize = 0;
    while i < a.len() && i < b.len()
        invariant
            i <= a@.len(),
            i <= b@.len(),
            lex_lt(a@, b@) == lex_lt_from(a@, b@, i as int),
        decreases a@.len() - i,
    {
        if a[i] < b[i] {
            return true;
        }
        if a[i] != b[i] {
            return false;
        }
        i = i + 1;
    }
    i < b.len()
}

/// Adds `x` to the strictly sorted `v` unless it is already there.
fn insert_sorted(v: &mut Vec<String>, x: String)
    requires
        strictly_sorted(string_views(old(v)@)),
    ensures
        strictly_sorted(string_views(final(v)@)),
        forall|y: Seq<char>|
            string_views(final(v)@).contains(y) <==> (string_views(old(v)@).contains(y) || y
                == x@),
{
    let ghost s0 = string_views(v@);
    let xs = chars_of(x.as_str());
    let mut p: usize = 0;
    while p < v.len()
        invariant_except_break
            p <= v@.len(),
            s0 == string_views(v@),
            xs@ == x@,
            forall|k: int| 0 <= k < p ==> lex_lt(#[trigger] s0[k], x@),
        ensures
            p <= v@.len(),
            s0 == string_views(v@),
            xs@ == x@,
            forall|k: int| 0 <= k < p ==> lex_lt(#[trigger] s0[k], x@),
            p < v@.len() ==> !lex_lt(s0[p as int], x@),
        decreases v@.len() - p,
    {
        let cs = chars_of(v[p].as_str());
        assert(cs@ == s0[p as int]);
        if !chars_lt(cs.as_slice(), xs.as_slice()) {
            break;
        }
        p = p + 1;
    }
    if p < v.len() {
        let cs = chars_of(v[p].as_str());
        if chars_eq(cs.as_slice(), xs.as_slice()) {
            assert(s0[p as int] == x@);
            assert(forall|y: Seq<char>| s0.contains(y) || y == x@ ==> s0.contains(y));
            return;
        }
        proof {
            lemma_lex_total(s0[p as int], x@, 0);
        }
    }
    let ghost pp = p as int;
    v.insert(p, x);
    proof {
        let s1 = string_views(v@);
        assert(s1 =~= s0.insert(pp, xs@));
        s0.insert_ensures(pp, xs@);
        assert forall|i: int, j: int| 0 <= i < j < s1.len() implies lex_lt(
            #[trigger] s1[i],
            #[trigger] s1[j],
        ) by {
            if j < pp {
                assert(s1[i] == s0[i] && s1[j] == s0[j]);
            } else if j == pp {
                assert(s1[i] == s0[i]);
            } else if i == pp {
                assert(s1[j] == s0[j - 1]);
                assert(lex_lt(xs@, s0[pp]));
                if j - 1 > pp {
                    assert(lex_lt(s0[pp], s0[j - 1]));
                    lemma_lex_trans(xs@, s0[pp], s0[j - 1], 0);
                }
            } else if i < pp {
                assert(s1[i] == s0[i] && s1[j] == s0[j - 1]);
            } else {
                assert(s1[i] == s0[i - 1] && s1[j] == s0[j - 1]);
            }
        }
        assert forall|y: Seq<char>| s1.contains(y) <==> (s0.contains(y) || y == x@) by {
            if s1.contains(y) {
                let k = choose|k: int| 0 <= k < s1.len() && s1[k] == y;
                if k < pp {
                    assert(s0[k] == y);
                } else if k > pp {
                    assert(s0[k - 1] == y);
                }
            }
            if s0.contains(y) {
                let k = choose|k: int| 0 <= k < s0.len() && s0[k] == y;
                if k < pp {
                    assert(s1[k] == y);
                } else {
                    assert(s1[k + 1] == y);
                }
            }
            if y == x@ {
                assert(s1[pp] == y);
            }
        }
    }
}

// ---------------------------------------------------------------------------
// Link keys
// ---------------------------------------------------------------------------

/// The part of `s` before the first `c` (all of `s` without one).
pub open spec fn before_first(s: Seq<char>, c: char) -> Seq<char> {
    match first_index_of(s, c) {
        Some(i) => s.take(i),
        None => s,
    }
}

/// The index of the last `c` in `s`.
pub open spec fn last_index_of(s: Seq<char>, c: char) -> Option<int>
    decreases s.len(),
{
    if s.len() == 0 {
        None
    } else if s.last() == c {
        Some(s.len() - 1)
    } else {
        last_index_of(s.drop_last(), c)
    }
}

/// The part of `s` after the last `c` (all of `s` without one).
pub open spec fn after_last(s: Seq<char>, c: char) -> Seq<char> {
    match last_index_of(s, c) {
        Some(i) => s.skip(i + 1),
        None => s,
    }
}

pub open spec fn md_ext() -> Seq<char> {
    seq!['.', 'm', 'd']
}

pub open spec fn markdown_ext() -> Seq<char> {
    seq!['.', 'm', 'a', 'r', 'k', 'd', 'o', 'w', 'n']
}

/// `s` without the suffix `suf`, when it ends with it.
pub open spec fn strip_suffix(s: Seq<char>, suf: Seq<char>) -> Option<Seq<char>> {
    if s.len() >= suf.len() && s.skip(s.len() - suf.len()) == suf {
        Some(s.take(s.len() - suf.len()))
    } else {
        None
    }
}

pub open spec fn stems(key: Seq<char>) -> Seq<Seq<char>> {
    let a = match strip_suffix(key, md_ext()) {
        Some(t) => seq![t],
        None => Seq::empty(),
    };
    let b = match strip_suffix(key, markdown_ext()) {
        Some(t) => seq![t],
        None => Seq::empty(),
    };
    a + b
}

/// Every key a link target is filed under, before sorting: the lowercased
/// target, without its `#fragment`, its last path segment, and each of the
/// last two without a `.md` / `.markdown` extension.
pub open spec fn link_key_candidates(target: Seq<char>) -> Seq<Seq<char>> {
    let base = str_lowercase(target);
    let no_fragment = before_first(base, '#');
    candidates_from(base, no_fragment, after_last(no_fragment, '/'))
}

pub open spec fn candidates_from(base: Seq<char>, no_fragment: Seq<char>, basename: Seq<char>) -> Seq<Seq<char>> {
    let k1 = seq![base];
    let k2 = if no_fragment != base {
        k1.push(no_fragment)
    } else {
        k1
    };
    let k3 = if basename != no_fragment {
        k2.push(basename)
    } else {
        k2
    };
    k3 + stems(basename) + stems(no_fragment)
}

pub fn rfind_char(cs: &[char], c: char) -> (r: Option<usize>)
    ensures
        match r {
            Some(i) => last_index_of(cs@, c) == Some(i as int) && i < cs@.len(),
            None => last_index_of(cs@, c) is None,
        },
{
    let mut i: usize = cs.len();
    assert(cs@.take(i as int) =~= cs@);
    while i > 0
        invariant
            i <= cs@.len(),
            last_index_of(cs@, c) == last_index_of(cs@.take(i as int), c),
        decreases i,
    {
        proof {
            assert(cs@.take(i as int).drop_last() =~= cs@.take(i - 1));
        }
        if cs[i - 1] == c {
            return Some(i - 1);
        }
        i = i - 1;
    }
    None
}

fn strip_suffix_chars(cs: &[char], suf: &[char]) -> (r: Option<String>)
    ensures
        match r {
            Some(t) => strip_suffix(cs@, suf@) == Some(t@),
            None => strip_suffix(cs@, suf@) is None,
        },
{
    if cs.len() < suf.len() {
        return None;
    }
    let start = cs.len() - suf.len();
    let tail = string_of_range(cs, start, cs.len());
    let tail_cs = chars_of(tail.as_str());
    if chars_eq(tail_cs.as_slice(), suf) {
        Some(string_of_range(cs, 0, start))
    } else {
        None
    }
}

/// Every canonical key a link target can be looked up under in the
/// backlink table: the full target, its fragment-free form, its basename,
/// and those without a markdown extension, all lowercased, sorted, without
/// repeats. `[[Page]]`, `[[folder/Page]]`, `[[Page#Heading]]` and
/// `[[Page.md]]` all share the key `page`.
pub fn canonical_link_keys(target: &str) -> (r: Vec<String>)
    ensures
        strictly_sorted(string_views(r@)),
        forall|k: Seq<char>|
            string_views(r@).contains(k) <==> link_key_candidates(target@).contains(k),
        string_views(r@) == link_keys(target@),
{
    let (base, no_fragment, basename) = key_parts(target);
    let cands = key_candidates(&base, &no_fragment, &basename);
    let r = sorted_unique(&cands);
    proof {
        let c = link_key_candidates(target@);
        assert(keys_listing(string_views(r@), c));
        lemma_keys_listing_unique(string_views(r@), link_keys(target@), c);
    }
    r
}

/// `s` lists the distinct members of `c`, in increasing order.
pub open spec fn keys_listing(s: Seq<Seq<char>>, c: Seq<Seq<char>>) -> bool {
    strictly_sorted(s) && forall|k: Seq<char>| s.contains(k) <==> c.contains(k)
}

/// The canonical keys of a link target, in increasing order, each once.
pub open spec fn link_keys(target: Seq<char>) -> Seq<Seq<char>> {
    choose|s: Seq<Seq<char>>| keys_listing(s, link_key_candidates(target))
}

proof fn lemma_sorted_head_least(a: Seq<Seq<char>>, i: int)
    requires
        strictly_sorted(a),
        0 < i < a.len(),
    ensures
        a[i] != a[0],
{
    assert(lex_lt(a[0], a[i]));
    if a[i] == a[0] {
        lemma_lex_irrefl(a[0], 0);
    }
}

/// Two increasing listings of the same members are the same sequence.
pub(crate) proof fn lemma_sorted_unique(a: Seq<Seq<char>>, b: Seq<Seq<char>>)
    requires
        strictly_sorted(a),
        strictly_sorted(b),
        forall|k: Seq<char>| a.contains(k) <==> b.contains(k),
    ensures
        a == b,
    decreases a.len(),
{
    if a.len() == 0 {
        if b.len() > 0 {
            assert(b.contains(b[0]));
        }
        assert(a =~= b);
    } else {
        assert(a.contains(a[0]));
        assert(b.contains(a[0]));
        let j = choose|j: int| 0 <= j < b.len() && b[j] == a[0];
        assert(b.contains(b[0]));
        let i = choose|i: int| 0 <= i < a.len() && a[i] == b[0];
        if j > 0 {
            assert(lex_lt(b[0], b[j]));
            if i == 0 {
                lemma_lex_irrefl(a[0], 0);
            } else {
                assert(lex_lt(a[0], a[i]));
                lemma_lex_trans(a[0], a[i], a[0], 0);
                lemma_lex_irrefl(a[0], 0);
            }
        }
        assert(b[0] == a[0]);
        let ta = a.drop_first();
        let tb = b.drop_first();
        assert forall|k: Seq<char>| ta.contains(k) <==> tb.contains(k) by {
            if ta.contains(k) {
                let x = choose|x: int| 0 <= x < ta.len() && ta[x] == k;
                assert(a[x + 1] == k);
                lemma_sorted_head_least(a, x + 1);
                assert(b.contains(k));
                let y = choose|y: int| 0 <= y < b.len() && b[y] == k;
                assert(y != 0);
                assert(tb[y - 1] == k);
            }
            if tb.contains(k) {
                let x = choose|x: int| 0 <= x < tb.len() && tb[x] == k;
                assert(b[x + 1] == k);
                lemma_sorted_head_least(b, x + 1);
                assert(a.contains(k));
                let y = choose|y: int| 0 <= y < a.len() && a[y] == k;
                assert(y != 0);
                assert(ta[y - 1] == k);
            }
        }
        assert forall|x: int, y: int| 0 <= x < y < ta.len() implies lex_lt(#[trigger] ta[x], #[trigger] ta[y]) by {
            assert(ta[x] == a[x + 1] && ta[y] == a[y + 1]);
        }
        assert forall|x: int, y: int| 0 <= x < y < tb.len() implies lex_lt(#[trigger] tb[x], #[trigger] tb[y]) by {
            assert(tb[x] == b[x + 1] && tb[y] == b[y + 1]);
        }
        lemma_sorted_unique(ta, tb);
        assert(a =~= b) by {
            assert forall|x: int| 0 <= x < a.len() implies a[x] == b[x] by {
                if x > 0 {
                    assert(a[x] == ta[x - 1]);
                    assert(b[x] == tb[x - 1]);
                }
            }
        }
    }
}

/// Any listing equals the chosen one.
proof fn lemma_keys_listing_unique(s: Seq<Seq<char>>, t: Seq<Seq<char>>, c: Seq<Seq<char>>)
    requires
        keys_listing(s, c),
        t == choose|x: Seq<Seq<char>>| keys_listing(x, c),
    ensures
        s == t,
{
    assert(keys_listing(t, c));
    lemma_sorted_unique(s, t);
}

/// `s` with `k` put in its place, unless it is already there.
spec fn insert_key(s: Seq<Seq<char>>, k: Seq<char>) -> Seq<Seq<char>>
    decreases s.len(),
{
    if s.len() == 0 {
        seq![k]
    } else if s[0] == k {
        s
    } else if lex_lt(k, s[0]) {
        seq![k] + s
    } else {
        seq![s[0]] + insert_key(s.drop_first(), k)
    }
}

proof fn lemma_insert_key(s: Seq<Seq<char>>, k: Seq<char>)
    requires
        strictly_sorted(s),
    ensures
        strictly_sorted(insert_key(s, k)),
        forall|y: Seq<char>| #[trigger] insert_key(s, k).contains(y) <==> (s.contains(y) || y == k),
    decreases s.len(),
{
    let r = insert_key(s, k);
    if s.len() == 0 {
        assert forall|y: Seq<char>| r.contains(y) <==> (s.contains(y) || y == k) by {
            if y == k {
                assert(r[0] == y);
            }
        }
    } else if s[0] == k {
        assert forall|y: Seq<char>| r.contains(y) <==> (s.contains(y) || y == k) by {
            if y == k {
                assert(s[0] == y);
            }
        }
    } else if lex_lt(k, s[0]) {
        assert forall|a: int, b: int| 0 <= a < b < r.len() implies lex_lt(#[trigger] r[a], #[trigger] r[b]) by {
            if a == 0 {
                assert(r[b] == s[b - 1]);
                if b - 1 > 0 {
                    assert(lex_lt(s[0], s[b - 1]));
                    lemma_lex_trans(k, s[0], s[b - 1], 0);
                }
            } else {
                assert(r[a] == s[a - 1] && r[b] == s[b - 1]);
            }
        }
        assert forall|y: Seq<char>| r.contains(y) <==> (s.contains(y) || y == k) by {
            if r.contains(y) {
                let x = choose|x: int| 0 <= x < r.len() && r[x] == y;
                if x > 0 {
                    assert(s[x - 1] == y);
                }
            }
            if s.contains(y) {
                let x = choose|x: int| 0 <= x < s.len() && s[x] == y;
                assert(r[x + 1] == y);
            }
            if y == k {
                assert(r[0] == y);
            }
        }
    } else {
        lemma_lex_total(s[0], k, 0);
        assert(lex_lt(s[0], k));
        let rest = s.drop_first();
        assert forall|a: int, b: int| 0 <= a < b < rest.len() implies lex_lt(#[trigger] rest[a], #[trigger] rest[b]) by {
            assert(rest[a] == s[a + 1] && rest[b] == s[b + 1]);
        }
        lemma_insert_key(rest, k);
        let ir = insert_key(rest, k);
        assert(r == seq![s[0]] + ir);
        assert forall|a: int, b: int| 0 <= a < b < r.len() implies lex_lt(#[trigger] r[a], #[trigger] r[b]) by {
            if a == 0 {
                assert(r[b] == ir[b - 1]);
                assert(ir.contains(ir[b - 1]));
                if rest.contains(ir[b - 1]) {
                    let m = choose|m: int| 0 <= m < rest.len() && rest[m] == ir[b - 1];
                    assert(s[m + 1] == ir[b - 1]);
                    assert(lex_lt(s[0], s[m + 1]));
                }
            } else {
                assert(r[a] == ir[a - 1] && r[b] == ir[b - 1]);
            }
        }
        assert forall|y: Seq<char>| r.contains(y) <==> (s.contains(y) || y == k) by {
            if r.contains(y) {
                let x = choose|x: int| 0 <= x < r.len() && r[x] == y;
                if x == 0 {
                    assert(s[0] == y);
                } else {
                    assert(ir[x - 1] == y);
                    assert(ir.contains(y));
                    if rest.contains(y) {
                        let m = choose|m: int| 0 <= m < rest.len() && rest[m] == y;
                        assert(s[m + 1] == y);
                    }
                }
            }
            if s.contains(y) {
                let x = choose|x: int| 0 <= x < s.len() && s[x] == y;
                if x == 0 {
                    assert(r[0] == y);
                } else {
                    assert(rest[x - 1] == y);
                    assert(rest.contains(y));
                    assert(ir.contains(y));
                    let m = choose|m: int| 0 <= m < ir.len() && ir[m] == y;
                    assert(r[m + 1] == y);
                }
            }
            if y == k {
                assert(ir.contains(y));
                let m = choose|m: int| 0 <= m < ir.len() && ir[m] == y;
                assert(r[m + 1] == y);
            }
        }
    }
}

/// The distinct members of `c`, in increasing order.
spec fn listing_of(c: Seq<Seq<char>>) -> Seq<Seq<char>>
    decreases c.len(),
{
    if c.len() == 0 {
        Seq::empty()
    } else {
        insert_key(listing_of(c.drop_last()), c.last())
    }
}

proof fn lemma_listing_of(c: Seq<Seq<char>>)
    ensures
        keys_listing(listing_of(c), c),
    decreases c.len(),
{
    if c.len() > 0 {
        let init = c.drop_last();
        lemma_listing_of(init);
        let l = listing_of(init);
        lemma_insert_key(l, c.last());
        assert(c == init.push(c.last()));
        lemma_push_contains(init, c.last());
        assert(listing_of(c) == insert_key(l, c.last()));
        assert forall|k: Seq<char>| listing_of(c).contains(k) <==> c.contains(k) by {
            assert(insert_key(l, c.last()).contains(k) <==> (l.contains(k) || k == c.last()));
            assert(l.contains(k) <==> init.contains(k));
            assert(init.push(c.last()).contains(k) <==> (init.contains(k) || k == c.last()));
        }
    }
}

/// The canonical keys of a target are exactly its candidate keys, each
/// once, in increasing order.
pub proof fn lemma_link_keys_members(target: Seq<char>)
    ensures
        strictly_sorted(link_keys(target)),
        forall|k: Seq<char>| link_keys(target).contains(k) <==> link_key_candidates(target).contains(k),
{
    let c = link_key_candidates(target);
    lemma_listing_of(c);
    assert(exists|s: Seq<Seq<char>>| keys_listing(s, c));
}

/// The lowercased target, its fragment-free form and its last segment.
fn key_parts(target: &str) -> (r: (String, String, String))
    ensures
        r.0@ == str_lowercase(target@),
        r.1@ == before_first(r.0@, '#'),
        r.2@ == after_last(r.1@, '/'),
{
    let base = lowercase(target);
    let no_fragment = before_hash(base.as_str());
    let basename = after_slash(no_fragment.as_str());
    (base, no_fragment, basename)
}

fn before_hash(s: &str) -> (r: String)
    ensures
        r@ == before_first(s@, '#'),
{
    let cs = chars_of(s);
    match find_char(cs.as_slice(), '#') {
        Some(i) => string_of_range(cs.as_slice(), 0, i),
        None => {
            assert(cs@.subrange(0, cs@.len() as int) =~= cs@);
            string_of_range(cs.as_slice(), 0, cs.len())
        },
    }
}

fn after_slash(s: &str) -> (r: String)
    ensures
        r@ == after_last(s@, '/'),
{
    let cs = chars_of(s);
    let n = cs.len();
    let found = rfind_char(cs.as_slice(), '/');
    match found {
        Some(i) => {
            assert(i < n);
            assert(cs@.subrange(i + 1, cs@.len() as int) =~= cs@.skip(i + 1));
            string_of_range(cs.as_slice(), i + 1, n)
        },
        None => {
            assert(cs@.subrange(0, cs@.len() as int) =~= cs@);
            string_of_range(cs.as_slice(), 0, cs.len())
        },
    }
}

fn key_candidates(base: &String, no_fragment: &String, basename: &String) -> (r: Vec<String>)
    ensures
        string_views(r@) == candidates_from(base@, no_fragment@, basename@),
{
    let base_cs = chars_of(base.as_str());
    let nf_cs = chars_of(no_fragment.as_str());
    let bn_cs = chars_of(basename.as_str());
    let md: Vec<char> = vec!['.', 'm', 'd'];
    let markdown: Vec<char> = vec!['.', 'm', 'a', 'r', 'k', 'd', 'o', 'w', 'n'];
    assert(md@ =~= md_ext());
    assert(markdown@ =~= markdown_ext());
    let mut cands: Vec<String> = Vec::new();
    cands.push(base.clone());
    if !chars_eq(nf_cs.as_slice(), base_cs.as_slice()) {
        cands.push(no_fragment.clone());
    }
    if !chars_eq(bn_cs.as_slice(), nf_cs.as_slice()) {
        cands.push(basename.clone());
    }
    let ghost c3 = string_views(cands@);
    proof {
        let k1 = seq![base@];
        let k2 = if no_fragment@ != base@ {
            k1.push(no_fragment@)
        } else {
            k1
        };
        let k3 = if basename@ != no_fragment@ {
            k2.push(basename@)
        } else {
            k2
        };
        assert(c3 =~= k3);
    }
    push_stems(&mut cands, bn_cs.as_slice(), md.as_slice(), markdown.as_slice());
    let ghost c4 = string_views(cands@);
    push_stems(&mut cands, nf_cs.as_slice(), md.as_slice(), markdown.as_slice());
    proof {
        assert(string_views(cands@) =~= c3 + stems(basename@) + stems(no_fragment@));
    }
    cands
}

/// Appends the stems of `cs` without a `.md`, then a `.markdown` extension.
fn push_stems(v: &mut Vec<String>, cs: &[char], md: &[char], markdown: &[char])
    requires
        md@ == md_ext(),
        markdown@ == markdown_ext(),
    ensures
        string_views(final(v)@) == string_views(old(v)@) + stems(cs@),
{
    let ghost v0 = string_views(v@);
    match strip_suffix_chars(cs, md) {
        Some(t) => {
            v.push(t);
        },
        None => {},
    }
    let ghost v1 = string_views(v@);
    match strip_suffix_chars(cs, markdown) {
        Some(t) => {
            v.push(t);
        },
        None => {},
    }
    proof {
        let a = match strip_suffix(cs@, md_ext()) {
            Some(t) => seq![t],
            None => Seq::<Seq<char>>::empty(),
        };
        assert(v1 =~= v0 + a);
        assert(string_views(v@) =~= v0 + stems(cs@));
    }
}

proof fn lemma_push_contains(s: Seq<Seq<char>>, x: Seq<char>)
    ensures
        forall|y: Seq<char>| s.push(x).contains(y) <==> (s.contains(y) || y == x),
{
    assert forall|y: Seq<char>| s.push(x).contains(y) <==> (s.contains(y) || y == x) by {
        if s.push(x).contains(y) {
            let k = choose|k: int| 0 <= k < s.push(x).len() && s.push(x)[k] == y;
            if k < s.len() {
                assert(s[k] == y);
            }
        }
        if s.contains(y) {
            let k = choose|k: int| 0 <= k < s.len() && s[k] == y;
            assert(s.push(x)[k] == y);
        }
        if y == x {
            assert(s.push(x)[s.len() as int] == y);
        }
    }
}

/// The strings of `v`, sorted, without repeats.
fn sorted_unique(v: &Vec<String>) -> (r: Vec<String>)
    ensures
        strictly_sorted(string_views(r@)),
        forall|y: Seq<char>| string_views(r@).contains(y) <==> string_views(v@).contains(y),
{
    let ghost sv = string_views(v@);
    let mut out: Vec<String> = Vec::new();
    let mut i: usize = 0;
    while i < v.len()
        invariant
            i <= v@.len(),
            sv == string_views(v@),
            strictly_sorted(string_views(out@)),
            forall|y: Seq<char>|
                string_views(out@).contains(y) <==> sv.subrange(0, i as int).contains(y),
        decreases v@.len() - i,
    {
        insert_sorted(&mut out, v[i].clone());
        proof {
            assert(sv.subrange(0, i + 1) =~= sv.subrange(0, i as int).push(sv[i as int]));
            lemma_push_contains(sv.subrange(0, i as int), sv[i as int]);
        }
        i = i + 1;
    }
    assert(sv.subrange(0, i as int) =~= sv);
    out
}

} // verus!
