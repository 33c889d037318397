//! Porter stemming of search tokens, so that the inflected forms of a word
//! ("alarms", "alarming", "alarmed") meet under one index key ("alarm").
//!
//! The rules are M. F. Porter's (1980), in the form of his reference
//! implementation. They apply to words made of the letters `a` to `z` only;
//! any other token is left as it is.

use vstd::prelude::*;

use crate::tokens::chars_eq;

verus! {

// ---------------------------------------------------------------------------
// The letters of a word
// ---------------------------------------------------------------------------

pub open spec fn is_vowel_letter(c: char) -> bool {
    c == 'a' || c == 'e' || c == 'i' || c == 'o' || c == 'u'
}

/// Whether the letter at `i` counts as a consonant: any letter but a, e, i,
/// o, u, where `y` counts as one only at the start of the word or after a
/// vowel.
pub open spec fn cons(w: Seq<char>, i: int) -> bool
    decreases i,
{
    if i <= 0 {
        !is_vowel_letter(w[0])
    } else if w[i] == 'y' {
        !cons(w, i - 1)
    } else {
        !is_vowel_letter(w[i])
    }
}

/// The measure of the first `j` letters: how often a vowel is followed by a
/// consonant among them.
pub open spec fn measure(w: Seq<char>, j: int) -> nat
    decreases j,
{
    if j <= 1 {
        0
    } else {
        measure(w, j - 1) + if cons(w, j - 1) && !cons(w, j - 2) {
            1nat
        } else {
            0nat
        }
    }
}

/// Whether one of the first `j` letters is a vowel.
pub open spec fn has_vowel(w: Seq<char>, j: int) -> bool
    decreases j,
{
    if j <= 0 {
        false
    } else {
        has_vowel(w, j - 1) || !cons(w, j - 1)
    }
}

/// The letters at `i - 1` and `i` are the same consonant.
pub open spec fn double_cons(w: Seq<char>, i: int) -> bool {
    1 <= i < w.len() && w[i] == w[i - 1] && cons(w, i)
}

/// Consonant, vowel, consonant ending at `i`, the last not `w`, `x` or `y`.
pub open spec fn cvc(w: Seq<char>, i: int) -> bool {
    &&& 2 <= i < w.len()
    &&& cons(w, i) && !cons(w, i - 1) && cons(w, i - 2)
    &&& w[i] != 'w' && w[i] != 'x' && w[i] != 'y'
}

pub open spec fn ends_with(w: Seq<char>, s: Seq<char>) -> bool {
    s.len() <= w.len() && w.subrange(w.len() - s.len(), w.len() as int) == s
}

/// `w` without its last `n` letters.
pub open spec fn cut(w: Seq<char>, n: int) -> Seq<char> {
    w.subrange(0, w.len() - n)
}

pub open spec fn is_lower_word(w: Seq<char>) -> bool {
    forall|i: int| 0 <= i < w.len() ==> 97 <= (#[trigger] w[i]) as u32 <= 122
}

// ---------------------------------------------------------------------------
// The steps
// ---------------------------------------------------------------------------

/// Plurals: `sses` → `ss`, `ies` → `i`, a final `s` after anything but `s`
/// dropped.
pub open spec fn step1a(w: Seq<char>) -> Seq<char> {
    if ends_with(w, seq!['s', 's', 'e', 's']) || ends_with(w, seq!['i', 'e', 's']) {
        cut(w, 2)
    } else if ends_with(w, seq!['s']) && 2 <= w.len() && w[w.len() - 2] != 's' {
        cut(w, 1)
    } else {
        w
    }
}

/// What follows the removal of `ed` or `ing`: `at`, `bl`, `iz` gain an `e`;
/// a doubled consonant other than `l`, `s`, `z` loses one letter; a short
/// syllable of measure one gains an `e`.
pub open spec fn tidy(w: Seq<char>) -> Seq<char> {
    if ends_with(w, seq!['a', 't']) || ends_with(w, seq!['b', 'l']) || ends_with(w, seq!['i', 'z']) {
        w.push('e')
    } else if double_cons(w, w.len() - 1) {
        let c = w.last();
        if c == 'l' || c == 's' || c == 'z' {
            w
        } else {
            cut(w, 1)
        }
    } else if measure(w, w.len() as int) == 1 && cvc(w, w.len() - 1) {
        w.push('e')
    } else {
        w
    }
}

/// Past tenses and gerunds: `eed` → `ee` after a stem of measure above
/// zero; `ed` and `ing` dropped after a stem holding a vowel.
pub open spec fn step1b(w: Seq<char>) -> Seq<char> {
    if ends_with(w, seq!['e', 'e', 'd']) {
        if measure(w, w.len() - 3) > 0 {
            cut(w, 1)
        } else {
            w
        }
    } else if ends_with(w, seq!['e', 'd']) && has_vowel(w, w.len() - 2) {
        tidy(cut(w, 2))
    } else if ends_with(w, seq!['i', 'n', 'g']) && has_vowel(w, w.len() - 3) {
        tidy(cut(w, 3))
    } else {
        w
    }
}

/// A final `y` after a stem holding a vowel becomes `i`.
pub open spec fn step1c(w: Seq<char>) -> Seq<char> {
    if ends_with(w, seq!['y']) && has_vowel(w, w.len() - 1) {
        w.update(w.len() - 1, 'i')
    } else {
        w
    }
}

pub open spec fn step2_suffixes() -> Seq<Seq<char>> {
    seq![
        seq!['a', 't', 'i', 'o', 'n', 'a', 'l'],
        seq!['t', 'i', 'o', 'n', 'a', 'l'],
        seq!['e', 'n', 'c', 'i'],
        seq!['a', 'n', 'c', 'i'],
        seq!['i', 'z', 'e', 'r'],
        seq!['b', 'l', 'i'],
        seq!['a', 'l', 'l', 'i'],
        seq!['e', 'n', 't', 'l', 'i'],
        seq!['e', 'l', 'i'],
        seq!['o', 'u', 's', 'l', 'i'],
        seq!['i', 'z', 'a', 't', 'i', 'o', 'n'],
        seq!['a', 't', 'i', 'o', 'n'],
        seq!['a', 't', 'o', 'r'],
        seq!['a', 'l', 'i', 's', 'm'],
        seq!['i', 'v', 'e', 'n', 'e', 's', 's'],
        seq!['f', 'u', 'l', 'n', 'e', 's', 's'],
        seq!['o', 'u', 's', 'n', 'e', 's', 's'],
        seq!['a', 'l', 'i', 't', 'i'],
        seq!['i', 'v', 'i', 't', 'i'],
        seq!['b', 'i', 'l', 'i', 't', 'i'],
        seq!['l', 'o', 'g', 'i'],
    ]
}

pub open spec fn step2_replacements() -> Seq<Seq<char>> {
    seq![
        seq!['a', 't', 'e'],
        seq!['t', 'i', 'o', 'n'],
        seq!['e', 'n', 'c', 'e'],
        seq!['a', 'n', 'c', 'e'],
        seq!['i', 'z', 'e'],
        seq!['b', 'l', 'e'],
        seq!['a', 'l'],
        seq!['e', 'n', 't'],
        seq!['e'],
        seq!['o', 'u', 's'],
        seq!['i', 'z', 'e'],
        seq!['a', 't', 'e'],
        seq!['a', 't', 'e'],
        seq!['a', 'l'],
        seq!['i', 'v', 'e'],
        seq!['f', 'u', 'l'],
        seq!['o', 'u', 's'],
        seq!['a', 'l'],
        seq!['i', 'v', 'e'],
        seq!['b', 'l', 'e'],
        seq!['l', 'o', 'g'],
    ]
}

pub open spec fn step3_suffixes() -> Seq<Seq<char>> {
    seq![
        seq!['i', 'c', 'a', 't', 'e'],
        seq!['a', 't', 'i', 'v', 'e'],
        seq!['a', 'l', 'i', 'z', 'e'],
        seq!['i', 'c', 'i', 't', 'i'],
        seq!['i', 'c', 'a', 'l'],
        seq!['f', 'u', 'l'],
        seq!['n', 'e', 's', 's'],
    ]
}

pub open spec fn step3_replacements() -> Seq<Seq<char>> {
    seq![
        seq!['i', 'c'],
        Seq::empty(),
        seq!['a', 'l'],
        seq!['i', 'c'],
        seq!['i', 'c'],
        Seq::empty(),
        Seq::empty(),
    ]
}

pub open spec fn step4_suffixes() -> Seq<Seq<char>> {
    seq![
        seq!['a', 'l'],
        seq!['a', 'n', 'c', 'e'],
        seq!['e', 'n', 'c', 'e'],
        seq!['e', 'r'],
        seq!['i', 'c'],
        seq!['a', 'b', 'l', 'e'],
        seq!['i', 'b', 'l', 'e'],
        seq!['a', 'n', 't'],
        seq!['e', 'm', 'e', 'n', 't'],
        seq!['m', 'e', 'n', 't'],
        seq!['e', 'n', 't'],
        seq!['i', 'o', 'n'],
        seq!['o', 'u'],
        seq!['i', 's', 'm'],
        seq!['a', 't', 'e'],
        seq!['i', 't', 'i'],
        seq!['o', 'u', 's'],
        seq!['i', 'v', 'e'],
        seq!['i', 'z', 'e'],
    ]
}

/// As many empty replacements as there are step-four suffixes.
pub open spec fn step4_replacements() -> Seq<Seq<char>> {
    Seq::new(step4_suffixes().len(), |i: int| Seq::<char>::empty())
}

/// `w` ends with `s`; the suffix `ion` only after `s` or `t`.
pub open spec fn fits(w: Seq<char>, s: Seq<char>) -> bool {
    &&& ends_with(w, s)
    &&& s == seq!['i', 'o', 'n'] ==> 4 <= w.len() && (w[w.len() - 4] == 's' || w[w.len() - 4] == 't')
}

/// The first suffix of `ss` from the `k`-th on that `w` fits, or the
/// length of `ss` when none does.
pub open spec fn first_fit(w: Seq<char>, ss: Seq<Seq<char>>, k: int) -> int
    decreases ss.len() - k,
{
    if k < 0 || k >= ss.len() {
        ss.len() as int
    } else if fits(w, ss[k]) {
        k
    } else {
        first_fit(w, ss, k + 1)
    }
}

/// The first suffix of `ss` that `w` fits is replaced by its counterpart in
/// `rs` when the stem before it has a measure above `min`; otherwise `w`
/// stays.
pub open spec fn apply_rules(w: Seq<char>, ss: Seq<Seq<char>>, rs: Seq<Seq<char>>, min: nat) -> Seq<char> {
    let k = first_fit(w, ss, 0);
    if 0 <= k < ss.len() && measure(w, w.len() - ss[k].len()) > min {
        cut(w, ss[k].len() as int) + rs[k]
    } else {
        w
    }
}

pub open spec fn step2(w: Seq<char>) -> Seq<char> {
    apply_rules(w, step2_suffixes(), step2_replacements(), 0)
}

pub open spec fn step3(w: Seq<char>) -> Seq<char> {
    apply_rules(w, step3_suffixes(), step3_replacements(), 0)
}

pub open spec fn step4(w: Seq<char>) -> Seq<char> {
    apply_rules(w, step4_suffixes(), step4_replacements(), 1)
}

/// A final `e` goes after a stem of measure above one, or of measure one
/// that does not end consonant, vowel, consonant.
pub open spec fn step5a(w: Seq<char>) -> Seq<char> {
    if ends_with(w, seq!['e']) {
        let a = measure(w, w.len() as int);
        if a > 1 || (a == 1 && !cvc(w, w.len() - 2)) {
            cut(w, 1)
        } else {
            w
        }
    } else {
        w
    }
}

/// A final double `l` loses one `l` in a word of measure above one.
pub open spec fn step5b(w: Seq<char>) -> Seq<char> {
    if ends_with(w, seq!['l']) && double_cons(w, w.len() - 1) && measure(w, w.len() as int) > 1 {
        cut(w, 1)
    } else {
        w
    }
}

/// The Porter stem of `w`. Words of two letters or fewer, and words with a
/// character outside `a`–`z`, are their own stem.
pub open spec fn porter_stem(w: Seq<char>) -> Seq<char> {
    if w.len() <= 2 || !is_lower_word(w) {
        w
    } else {
        let a = step1b(step1a(w));
        if a.len() <= 1 {
            a
        } else {
            step5b(step5a(step4(step3(step2(step1c(a))))))
        }
    }
}

// ---------------------------------------------------------------------------
// Computing them
// ---------------------------------------------------------------------------

pub open spec fn char_views(v: Seq<Vec<char>>) -> Seq<Seq<char>> {
    v.map_values(|x: Vec<char>| x@)
}

spec fn flags_of(w: Seq<char>, f: Seq<bool>) -> bool {
    f.len() == w.len() && forall|i: int| 0 <= i < w.len() ==> f[i] == cons(w, i)
}

fn is_vowel(c: char) -> (r: bool)
    ensures
        r == is_vowel_letter(c),
{
    c == 'a' || c == 'e' || c == 'i' || c == 'o' || c == 'u'
}

fn cons_flags(w: &Vec<char>) -> (f: Vec<bool>)
    ensures
        flags_of(w@, f@),
{
    let mut f: Vec<bool> = Vec::new();
    let mut i: usize = 0;
    while i < w.len()
        invariant
            i <= w@.len(),
            f@.len() == i,
            forall|t: int| 0 <= t < i ==> f@[t] == cons(w@, t),
        decreases w@.len() - i,
    {
        let c = w[i];
        let b = if i == 0 {
            !is_vowel(c)
        } else if c == 'y' {
            !f[i - 1]
        } else {
            !is_vowel(c)
        };
        f.push(b);
        i = i + 1;
    }
    f
}

fn measure_of(w: &Vec<char>, f: &Vec<bool>, j: usize) -> (r: usize)
    requires
        flags_of(w@, f@),
        j <= w@.len(),
    ensures
        r == measure(w@, j as int),
{
    if j <= 1 {
        return 0;
    }
    let mut r: usize = 0;
    let mut k: usize = 1;
    while k < j
        invariant
            1 <= k <= j,
            j <= w@.len(),
            flags_of(w@, f@),
            r == measure(w@, k as int),
            r <= k,
        decreases j - k,
    {
        if f[k] && !f[k - 1] {
            r = r + 1;
        }
        k = k + 1;
    }
    r
}

fn has_vowel_of(w: &Vec<char>, f: &Vec<bool>, j: usize) -> (r: bool)
    requires
        flags_of(w@, f@),
        j <= w@.len(),
    ensures
        r == has_vowel(w@, j as int),
{
    let mut r = false;
    let mut k: usize = 0;
    while k < j
        invariant
            k <= j,
            j <= w@.len(),
            flags_of(w@, f@),
            r == has_vowel(w@, k as int),
        decreases j - k,
    {
        r = r || !f[k];
        k = k + 1;
    }
    r
}

fn double_at(w: &Vec<char>, f: &Vec<bool>, i: usize) -> (r: bool)
    requires
        flags_of(w@, f@),
    ensures
        r == double_cons(w@, i as int),
{
    1 <= i && i < w.len() && w[i] == w[i - 1] && f[i]
}

fn cvc_at(w: &Vec<char>, f: &Vec<bool>, i: usize) -> (r: bool)
    requires
        flags_of(w@, f@),
    ensures
        r == cvc(w@, i as int),
{
    2 <= i && i < w.len() && f[i] && !f[i - 1] && f[i - 2] && w[i] != 'w' && w[i] != 'x' && w[i]
        != 'y'
}

fn ends_with_chars(w: &Vec<char>, s: &Vec<char>) -> (r: bool)
    ensures
        r == ends_with(w@, s@),
{
    if s.len() > w.len() {
        return false;
    }
    let wl = w.len();
    let off = wl - s.len();
    let ghost tail = w@.subrange(off as int, w@.len() as int);
    let mut i: usize = 0;
    while i < s.len()
        invariant
            i <= s@.len(),
            off + s@.len() == w@.len(),
            wl == w@.len(),
            tail == w@.subrange(off as int, w@.len() as int),
            forall|t: int| 0 <= t < i ==> tail[t] == s@[t],
        decreases s@.len() - i,
    {
        assert(off + i < w@.len());
        if w[off + i] != s[i] {
            assert(tail[i as int] != s@[i as int]);
            return false;
        }
        i = i + 1;
    }
    assert(tail =~= s@);
    true
}

fn cut_chars(w: &mut Vec<char>, n: usize)
    requires
        n <= old(w)@.len(),
    ensures
        final(w)@ == cut(old(w)@, n as int),
{
    let keep = w.len() - n;
    w.truncate(keep);
}

fn push_all(w: &mut Vec<char>, s: &Vec<char>)
    ensures
        final(w)@ == old(w)@ + s@,
{
    let mut i: usize = 0;
    while i < s.len()
        invariant
            i <= s@.len(),
            w@ == old(w)@ + s@.subrange(0, i as int),
        decreases s@.len() - i,
    {
        w.push(s[i]);
        assert(s@.subrange(0, i + 1) =~= s@.subrange(0, i as int).push(s@[i as int]));
        i = i + 1;
    }
    assert(s@.subrange(0, i as int) =~= s@);
}

fn step1a_exec(w: Vec<char>) -> (r: Vec<char>)
    ensures
        r@ == step1a(w@),
{
    let mut w = w;
    let sses = vec!['s', 's', 'e', 's'];
    let ies = vec!['i', 'e', 's'];
    let s = vec!['s'];
    assert(sses@ == seq!['s', 's', 'e', 's']);
    assert(ies@ == seq!['i', 'e', 's']);
    assert(s@ == seq!['s']);
    if ends_with_chars(&w, &sses) || ends_with_chars(&w, &ies) {
        cut_chars(&mut w, 2);
    } else if ends_with_chars(&w, &s) && 2 <= w.len() && w[w.len() - 2] != 's' {
        cut_chars(&mut w, 1);
    }
    w
}

fn tidy_exec(w: Vec<char>) -> (r: Vec<char>)
    ensures
        r@ == tidy(w@),
{
    let mut w = w;
    let at = vec!['a', 't'];
    let bl = vec!['b', 'l'];
    let iz = vec!['i', 'z'];
    assert(at@ == seq!['a', 't']);
    assert(bl@ == seq!['b', 'l']);
    assert(iz@ == seq!['i', 'z']);
    let f = cons_flags(&w);
    let n = w.len();
    if ends_with_chars(&w, &at) || ends_with_chars(&w, &bl) || ends_with_chars(&w, &iz) {
        w.push('e');
    } else if n >= 1 && double_at(&w, &f, n - 1) {
        let c = w[n - 1];
        if !(c == 'l' || c == 's' || c == 'z') {
            cut_chars(&mut w, 1);
        }
    } else if n >= 1 && measure_of(&w, &f, n) == 1 && cvc_at(&w, &f, n - 1) {
        w.push('e');
    }
    w
}

fn step1b_exec(w: Vec<char>) -> (r: Vec<char>)
    ensures
        r@ == step1b(w@),
{
    let mut w = w;
    let eed = vec!['e', 'e', 'd'];
    let ed = vec!['e', 'd'];
    let ing = vec!['i', 'n', 'g'];
    assert(eed@ == seq!['e', 'e', 'd']);
    assert(ed@ == seq!['e', 'd']);
    assert(ing@ == seq!['i', 'n', 'g']);
    let f = cons_flags(&w);
    if ends_with_chars(&w, &eed) {
        if measure_of(&w, &f, w.len() - 3) > 0 {
            cut_chars(&mut w, 1);
        }
        w
    } else if ends_with_chars(&w, &ed) && has_vowel_of(&w, &f, w.len() - 2) {
        cut_chars(&mut w, 2);
        tidy_exec(w)
    } else if ends_with_chars(&w, &ing) && has_vowel_of(&w, &f, w.len() - 3) {
        cut_chars(&mut w, 3);
        tidy_exec(w)
    } else {
        w
    }
}

fn step1c_exec(w: Vec<char>) -> (r: Vec<char>)
    ensures
        r@ == step1c(w@),
{
    let mut w = w;
    let y = vec!['y'];
    assert(y@ == seq!['y']);
    let f = cons_flags(&w);
    if ends_with_chars(&w, &y) && has_vowel_of(&w, &f, w.len() - 1) {
        let last = w.len() - 1;
        w.set(last, 'i');
    }
    w
}

fn fits_chars(w: &Vec<char>, s: &Vec<char>) -> (r: bool)
    ensures
        r == fits(w@, s@),
{
    let ion = vec!['i', 'o', 'n'];
    assert(ion@ == seq!['i', 'o', 'n']);
    if !ends_with_chars(w, s) {
        return false;
    }
    if chars_eq(s.as_slice(), ion.as_slice()) {
        let n = w.len();
        4 <= n && (w[n - 4] == 's' || w[n - 4] == 't')
    } else {
        true
    }
}

proof fn lemma_first_fit(w: Seq<char>, ss: Seq<Seq<char>>, k: int)
    requires
        0 <= k <= ss.len(),
    ensures
        k <= first_fit(w, ss, k) <= ss.len(),
        first_fit(w, ss, k) < ss.len() ==> fits(w, ss[first_fit(w, ss, k)]),
    decreases ss.len() - k,
{
    if k < ss.len() && !fits(w, ss[k]) {
        lemma_first_fit(w, ss, k + 1);
    }
}

fn first_fit_of(w: &Vec<char>, ss: &Vec<Vec<char>>) -> (k: usize)
    ensures
        k == first_fit(w@, char_views(ss@), 0),
{
    let ghost sv = char_views(ss@);
    let mut k: usize = 0;
    while k < ss.len()
        invariant
            k <= ss@.len(),
            sv == char_views(ss@),
            first_fit(w@, sv, 0) == first_fit(w@, sv, k as int),
        decreases ss@.len() - k,
    {
        assert(sv[k as int] == ss@[k as int]@);
        if fits_chars(w, &ss[k]) {
            return k;
        }
        k = k + 1;
    }
    k
}

fn apply_rules_exec(w: Vec<char>, ss: &Vec<Vec<char>>, rs: &Vec<Vec<char>>, min: usize) -> (r: Vec<char>)
    requires
        ss@.len() == rs@.len(),
    ensures
        r@ == apply_rules(w@, char_views(ss@), char_views(rs@), min as nat),
{
    let mut w = w;
    let k = first_fit_of(&w, ss);
    proof {
        lemma_first_fit(w@, char_views(ss@), 0);
    }
    if k < ss.len() {
        assert(char_views(ss@)[k as int] == ss@[k as int]@);
        assert(char_views(rs@)[k as int] == rs@[k as int]@);
        let f = cons_flags(&w);
        let cut_len = ss[k].len();
        if measure_of(&w, &f, w.len() - cut_len) > min {
            cut_chars(&mut w, cut_len);
            push_all(&mut w, &rs[k]);
        }
    }
    w
}

fn step2_tables() -> (r: (Vec<Vec<char>>, Vec<Vec<char>>))
    ensures
        char_views(r.0@) == step2_suffixes(),
        char_views(r.1@) == step2_replacements(),
{
    let ss: Vec<Vec<char>> = vec![
        vec!['a', 't', 'i', 'o', 'n', 'a', 'l'],
        vec!['t', 'i', 'o', 'n', 'a', 'l'],
        vec!['e', 'n', 'c', 'i'],
        vec!['a', 'n', 'c', 'i'],
        vec!['i', 'z', 'e', 'r'],
        vec!['b', 'l', 'i'],
        vec!['a', 'l', 'l', 'i'],
        vec!['e', 'n', 't', 'l', 'i'],
        vec!['e', 'l', 'i'],
        vec!['o', 'u', 's', 'l', 'i'],
        vec!['i', 'z', 'a', 't', 'i', 'o', 'n'],
        vec!['a', 't', 'i', 'o', 'n'],
        vec!['a', 't', 'o', 'r'],
        vec!['a', 'l', 'i', 's', 'm'],
        vec!['i', 'v', 'e', 'n', 'e', 's', 's'],
        vec!['f', 'u', 'l', 'n', 'e', 's', 's'],
        vec!['o', 'u', 's', 'n', 'e', 's', 's'],
        vec!['a', 'l', 'i', 't', 'i'],
        vec!['i', 'v', 'i', 't', 'i'],
        vec!['b', 'i', 'l', 'i', 't', 'i'],
        vec!['l', 'o', 'g', 'i'],
    ];
    let rs: Vec<Vec<char>> = vec![
        vec!['a', 't', 'e'],
        vec!['t', 'i', 'o', 'n'],
        vec!['e', 'n', 'c', 'e'],
        vec!['a', 'n', 'c', 'e'],
        vec!['i', 'z', 'e'],
        vec!['b', 'l', 'e'],
        vec!['a', 'l'],
        vec!['e', 'n', 't'],
        vec!['e'],
        vec!['o', 'u', 's'],
        vec!['i', 'z', 'e'],
        vec!['a', 't', 'e'],
        vec!['a', 't', 'e'],
        vec!['a', 'l'],
        vec!['i', 'v', 'e'],
        vec!['f', 'u', 'l'],
        vec!['o', 'u', 's'],
        vec!['a', 'l'],
        vec!['i', 'v', 'e'],
        vec!['b', 'l', 'e'],
        vec!['l', 'o', 'g'],
    ];
    assert(char_views(ss@) =~= step2_suffixes());
    assert(rs@.len() == step2_replacements().len());
    assert(forall|k: int|
        0 <= k < rs@.len() ==> (#[trigger] rs@[k])@ == step2_replacements()[k]);
    assert(char_views(rs@) =~= step2_replacements());
    (ss, rs)
}

fn step3_tables() -> (r: (Vec<Vec<char>>, Vec<Vec<char>>))
    ensures
        char_views(r.0@) == step3_suffixes(),
        char_views(r.1@) == step3_replacements(),
{
    let ss: Vec<Vec<char>> = vec![
        vec!['i', 'c', 'a', 't', 'e'],
        vec!['a', 't', 'i', 'v', 'e'],
        vec!['a', 'l', 'i', 'z', 'e'],
        vec!['i', 'c', 'i', 't', 'i'],
        vec!['i', 'c', 'a', 'l'],
        vec!['f', 'u', 'l'],
        vec!['n', 'e', 's', 's'],
    ];
    let rs: Vec<Vec<char>> = vec![
        vec!['i', 'c'],
        Vec::new(),
        vec!['a', 'l'],
        vec!['i', 'c'],
        vec!['i', 'c'],
        Vec::new(),
        Vec::new(),
    ];
    assert(char_views(ss@) =~= step3_suffixes());
    assert(char_views(rs@) =~= step3_replacements());
    (ss, rs)
}

fn step4_tables() -> (r: (Vec<Vec<char>>, Vec<Vec<char>>))
    ensures
        char_views(r.0@) == step4_suffixes(),
        char_views(r.1@) == step4_replacements(),
{
    let ss: Vec<Vec<char>> = vec![
        vec!['a', 'l'],
        vec!['a', 'n', 'c', 'e'],
        vec!['e', 'n', 'c', 'e'],
        vec!['e', 'r'],
        vec!['i', 'c'],
        vec!['a', 'b', 'l', 'e'],
        vec!['i', 'b', 'l', 'e'],
        vec!['a', 'n', 't'],
        vec!['e', 'm', 'e', 'n', 't'],
        vec!['m', 'e', 'n', 't'],
        vec!['e', 'n', 't'],
        vec!['i', 'o', 'n'],
        vec!['o', 'u'],
        vec!['i', 's', 'm'],
        vec!['a', 't', 'e'],
        vec!['i', 't', 'i'],
        vec!['o', 'u', 's'],
        vec!['i', 'v', 'e'],
        vec!['i', 'z', 'e'],
    ];
    let mut rs: Vec<Vec<char>> = Vec::new();
    let mut k: usize = 0;
    while k < ss.len()
        invariant
            k <= ss@.len(),
            rs@.len() == k,
            forall|t: int| 0 <= t < k ==> (#[trigger] rs@[t])@ == Seq::<char>::empty(),
        decreases ss@.len() - k,
    {
        rs.push(Vec::new());
        k = k + 1;
    }
    assert(char_views(ss@) =~= step4_suffixes());
    assert(char_views(rs@) =~= step4_replacements());
    (ss, rs)
}

fn step5_exec(w: Vec<char>) -> (r: Vec<char>)
    ensures
        r@ == step5b(step5a(w@)),
{
    let mut w = w;
    let e = vec!['e'];
    let l = vec!['l'];
    assert(e@ == seq!['e']);
    assert(l@ == seq!['l']);
    let f = cons_flags(&w);
    if ends_with_chars(&w, &e) {
        let n = w.len();
        let a = measure_of(&w, &f, n);
        let short = n >= 2 && cvc_at(&w, &f, n - 2);
        if a > 1 || (a == 1 && !short) {
            cut_chars(&mut w, 1);
        }
    }
    let f = cons_flags(&w);
    let n = w.len();
    if ends_with_chars(&w, &l) && n >= 1 && double_at(&w, &f, n - 1) && measure_of(&w, &f, n) > 1 {
        cut_chars(&mut w, 1);
    }
    w
}

fn lower_word(w: &Vec<char>) -> (r: bool)
    ensures
        r == is_lower_word(w@),
{
    let mut i: usize = 0;
    while i < w.len()
        invariant
            i <= w@.len(),
            forall|t: int| 0 <= t < i ==> 97 <= (#[trigger] w@[t]) as u32 <= 122,
        decreases w@.len() - i,
    {
        let c = w[i] as u32;
        if c < 97 || c > 122 {
            return false;
        }
        i = i + 1;
    }
    true
}

/// The Porter stem of the word `w` (see `porter_stem`).
pub fn stem_chars(w: Vec<char>) -> (r: Vec<char>)
    ensures
        r@ == porter_stem(w@),
{
    if w.len() <= 2 || !lower_word(&w) {
        return w;
    }
    let a = step1b_exec(step1a_exec(w));
    if a.len() <= 1 {
        return a;
    }
    let (s2, r2) = step2_tables();
    let (s3, r3) = step3_tables();
    let (s4, r4) = step4_tables();
    assert(s2@.len() == char_views(s2@).len() && r2@.len() == char_views(r2@).len());
    assert(s3@.len() == char_views(s3@).len() && r3@.len() == char_views(r3@).len());
    assert(s4@.len() == char_views(s4@).len() && r4@.len() == char_views(r4@).len());
    let b = step1c_exec(a);
    let b = apply_rules_exec(b, &s2, &r2, 0);
    let b = apply_rules_exec(b, &s3, &r3, 0);
    let b = apply_rules_exec(b, &s4, &r4, 1);
    step5_exec(b)
}

} // verus!
