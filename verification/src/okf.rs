//! Open Knowledge Format frontmatter projection.
//!
//! When a document carries OKF frontmatter, its `type`, `status`, trust tier
//! and author-declared staleness are surfaced on query results. Everything
//! here is a pure projection over the decoded frontmatter; a document
//! without OKF frontmatter yields `None` for every field.

use vstd::prelude::*;

use crate::json::{json_get, json_str, Json};
use crate::text::{chars_of, trim, trimmed};
use vstd::string::StringSliceAdditionalSpecFns;
use vstd::utf8::{encode_utf8, is_char_boundary};

verus! {

/// Trust tier derived from an OKF `verified` list.
#[derive(Debug, Clone, Copy, PartialEq, Eq, Structural)]
pub enum TrustTier {
    /// `verified` present, but every verifier is a non-human actor.
    MachineConfirmed,
    /// At least one verifier is a `human:<id>` actor.
    HumanReviewed,
}

impl TrustTier {
    pub open spec fn name(self) -> Seq<char> {
        match self {
            TrustTier::MachineConfirmed => "machine-confirmed"@,
            TrustTier::HumanReviewed => "human-reviewed"@,
        }
    }

    pub fn as_str(self) -> (r: &'static str)
        ensures
            r@ == self.name(),
    {
        match self {
            TrustTier::MachineConfirmed => "machine-confirmed",
            TrustTier::HumanReviewed => "human-reviewed",
        }
    }
}

pub open spec fn deref_opt(fm: Option<&Json>) -> Option<Json> {
    match fm {
        Some(v) => Some(*v),
        None => None,
    }
}

/// A top-level string field of the frontmatter, trimmed; `None` when
/// missing, not a string, or blank.
pub open spec fn string_field_of(fm: Option<Json>, key: Seq<char>) -> Option<Seq<char>> {
    match fm {
        Some(v) => match json_get(v, key) {
            Some(x) => match json_str(x) {
                Some(s) => if trimmed(s).len() > 0 {
                    Some(trimmed(s))
                } else {
                    None
                },
                None => None,
            },
            None => None,
        },
        None => None,
    }
}

pub open spec fn opt_string_view(o: Option<String>) -> Option<Seq<char>> {
    match o {
        Some(s) => Some(s@),
        None => None,
    }
}

/// A top-level string field of the frontmatter, trimmed; `None` when
/// missing, not a string, or blank.
pub fn string_field(fm: Option<&Json>, key: &str) -> (r: Option<String>)
    ensures
        opt_string_view(r) == string_field_of(deref_opt(fm), key@),
{
    let v = match fm {
        Some(v) => v,
        None => return None,
    };
    let x = match v.get(key) {
        Some(x) => x,
        None => return None,
    };
    let s = match x.as_str() {
        Some(s) => s,
        None => return None,
    };
    let t = trim(s);
    if t.as_str().unicode_len() > 0 {
        Some(t)
    } else {
        None
    }
}

pub open spec fn type_key() -> Seq<char> {
    seq!['t', 'y', 'p', 'e']
}

pub open spec fn status_key() -> Seq<char> {
    seq!['s', 't', 'a', 't', 'u', 's']
}

pub open spec fn stale_after_key() -> Seq<char> {
    seq!['s', 't', 'a', 'l', 'e', '_', 'a', 'f', 't', 'e', 'r']
}

pub open spec fn verified_key() -> Seq<char> {
    seq!['v', 'e', 'r', 'i', 'f', 'i', 'e', 'd']
}

pub open spec fn by_key() -> Seq<char> {
    seq!['b', 'y']
}

/// The frontmatter `type`: a free-form concept-kind string, surfaced as the
/// author wrote it.
pub fn concept_type(fm: Option<&Json>) -> (r: Option<String>)
    ensures
        opt_string_view(r) == string_field_of(deref_opt(fm), type_key()),
{
    proof {
        reveal_strlit("type");
        assert("type"@ =~= type_key());
    }
    string_field(fm, "type")
}

/// The frontmatter `status`: an opaque lifecycle cue (`draft`, `stable`,
/// `deprecated`, or whatever the vault uses).
pub fn status(fm: Option<&Json>) -> (r: Option<String>)
    ensures
        opt_string_view(r) == string_field_of(deref_opt(fm), status_key()),
{
    proof {
        reveal_strlit("status");
        assert("status"@ =~= status_key());
    }
    string_field(fm, "status")
}

/// The raw `stale_after` value, verbatim (trimmed).
pub fn stale_after(fm: Option<&Json>) -> (r: Option<String>)
    ensures
        opt_string_view(r) == string_field_of(deref_opt(fm), stale_after_key()),
{
    proof {
        reveal_strlit("stale_after");
        assert("stale_after"@ =~= stale_after_key());
    }
    string_field(fm, "stale_after")
}

// ---------------------------------------------------------------------------
// Dates
// ---------------------------------------------------------------------------

pub open spec fn is_digit(b: u8) -> bool {
    48 <= b <= 57
}

/// The value of a run of ASCII digits (`None` if any byte is not a digit).
pub open spec fn digits_value(b: Seq<u8>) -> Option<int>
    decreases b.len(),
{
    if b.len() == 0 {
        Some(0)
    } else {
        match digits_value(b.drop_last()) {
            Some(v) => if is_digit(b.last()) {
                Some(v * 10 + (b.last() - 48))
            } else {
                None
            },
            None => None,
        }
    }
}

/// A decimal integer as `i64::from_str` reads a short field: an optional
/// `+` or `-`, then at least one ASCII digit.
pub open spec fn int_field(b: Seq<u8>) -> Option<int> {
    if b.len() == 0 {
        None
    } else if b[0] == 43u8 || b[0] == 45u8 {
        if b.len() == 1 {
            None
        } else {
            match digits_value(b.skip(1)) {
                Some(v) => Some(if b[0] == 45u8 {
                    -v
                } else {
                    v
                }),
                None => None,
            }
        }
    } else {
        digits_value(b)
    }
}

/// The leading `YYYY-MM-DD` of a date or datetime string, with month in
/// 1..=12 and day in 1..=31.
pub open spec fn ymd_of(s: Seq<char>) -> Option<(int, int, int)> {
    let b = encode_utf8(s);
    if b.len() < 10 || !is_char_boundary(b, 10) || b[4] != 45u8 || b[7] != 45u8 {
        None
    } else {
        match (int_field(b.subrange(0, 4)), int_field(b.subrange(5, 7)), int_field(b.subrange(8, 10))) {
            (Some(y), Some(m), Some(d)) => if 1 <= m <= 12 && 1 <= d <= 31 {
                Some((y, m, d))
            } else {
                None
            },
            _ => None,
        }
    }
}

proof fn lemma_digits_bound(b: Seq<u8>)
    ensures
        match digits_value(b) {
            Some(v) => 0 <= v < pow10(b.len()),
            None => true,
        },
    decreases b.len(),
{
    if b.len() > 0 {
        lemma_digits_bound(b.drop_last());
    }
}

pub open spec fn pow10(n: nat) -> int
    decreases n,
{
    if n == 0 {
        1
    } else {
        10 * pow10((n - 1) as nat)
    }
}

/// Reads `b[from..to]` as `int_field` does; the field is at most four bytes.
fn parse_field(b: &[u8], from: usize, to: usize) -> (r: Option<i64>)
    requires
        from <= to <= b@.len(),
        to - from <= 4,
    ensures
        match r {
            Some(v) => int_field(b@.subrange(from as int, to as int)) == Some(v as int),
            None => int_field(b@.subrange(from as int, to as int)) is None,
        },
{
    let ghost f = b@.subrange(from as int, to as int);
    if from == to {
        return None;
    }
    let neg = b[from] == 45u8;
    let signed = b[from] == 43u8 || neg;
    let start = if signed { from + 1 } else { from };
    if start == to {
        return None;
    }
    let ghost ds = b@.subrange(start as int, to as int);
    proof {
        if signed {
            assert(f.skip(1) =~= ds);
        } else {
            assert(f =~= ds);
        }
        assert(int_field(f) == match digits_value(ds) {
            Some(v) => Some(if neg {
                -v
            } else {
                v
            }),
            None => None,
        });
    }
    let mut v: i64 = 0;
    let mut i: usize = start;
    while i < to
        invariant
            start <= i <= to,
            to <= b@.len(),
            to - start <= 4,
            ds == b@.subrange(start as int, to as int),
            f == b@.subrange(from as int, to as int),
            int_field(f) == match digits_value(ds) {
                Some(w) => Some(if neg {
                    -w
                } else {
                    w
                }),
                None => None,
            },
            digits_value(ds.take(i - start)) == Some(v as int),
            0 <= v < pow10((i - start) as nat),
        decreases to - i,
    {
        let c = b[i];
        proof {
            assert(ds.take(i - start + 1).drop_last() =~= ds.take(i - start));
            assert(ds.take(i - start + 1).last() == c);
        }
        if c < 48u8 || c > 57u8 {
            proof {
                lemma_digits_none(ds, (i - start + 1) as int);
            }
            return None;
        }
        proof {
            assert(pow10((i - start + 1) as nat) == 10 * pow10((i - start) as nat));
            lemma_pow10_4();
            lemma_pow10_mono((i - start + 1) as nat, 4);
        }
        v = v * 10 + (c - 48u8) as i64;
        i = i + 1;
    }
    proof {
        assert(ds.take(to - start) =~= ds);
    }
    if neg {
        Some(-v)
    } else {
        Some(v)
    }
}

proof fn lemma_pow10_4()
    ensures
        pow10(3) == 1000,
        pow10(4) == 10000,
{
    assert(pow10(0) == 1);
    assert(pow10(1) == 10);
    assert(pow10(2) == 100);
    assert(pow10(3) == 1000);
    assert(pow10(4) == 10000);
}

proof fn lemma_pow10_mono(a: nat, b: nat)
    requires
        a <= b,
    ensures
        1 <= pow10(a) <= pow10(b),
    decreases b,
{
    if a < b {
        lemma_pow10_mono(a, (b - 1) as nat);
    } else if b > 0 {
        lemma_pow10_mono((b - 1) as nat, (b - 1) as nat);
    }
}

/// A prefix without a value makes the whole run valueless.
proof fn lemma_digits_none(ds: Seq<u8>, k: int)
    requires
        0 < k <= ds.len(),
        digits_value(ds.take(k)) is None,
    ensures
        digits_value(ds) is None,
    decreases ds.len() - k,
{
    if k < ds.len() {
        assert(ds.take(k + 1).drop_last() =~= ds.take(k));
        lemma_digits_none(ds, k + 1);
    } else {
        assert(ds.take(k) =~= ds);
    }
}

/// Parses the leading `YYYY-MM-DD` of a date or datetime string.
fn parse_ymd(s: &str) -> (r: Option<(i64, i64, i64)>)
    ensures
        match r {
            Some(t) => ymd_of(s@) == Some((t.0 as int, t.1 as int, t.2 as int)),
            None => ymd_of(s@) is None,
        },
{
    let b = s.as_bytes();
    if b.len() < 10 || !s.is_char_boundary(10) {
        return None;
    }
    if b[4] != 45u8 || b[7] != 45u8 {
        return None;
    }
    let y = match parse_field(b, 0, 4) {
        Some(v) => v,
        None => return None,
    };
    let m = match parse_field(b, 5, 7) {
        Some(v) => v,
        None => return None,
    };
    let d = match parse_field(b, 8, 10) {
        Some(v) => v,
        None => return None,
    };
    if m < 1 || m > 12 || d < 1 || d > 31 {
        return None;
    }
    Some((y, m, d))
}

/// Days from 1970-01-01 to the proleptic-Gregorian date `y-m-d`, by the
/// civil-from-days construction: the year is shifted to start in March, so
/// the leap day ends it; a 400-year era has 146097 days.
pub open spec fn civil_days(y: int, m: int, d: int) -> int {
    let y1 = if m <= 2 {
        y - 1
    } else {
        y
    };
    let era = y1 / 400;
    let yoe = y1 % 400;
    let mp = if m > 2 {
        m - 3
    } else {
        m + 9
    };
    let doy = (153 * mp + 2) / 5 + d - 1;
    let doe = yoe * 365 + yoe / 4 - yoe / 100 + doy;
    era * 146097 + doe - 719468
}

/// Days from the Unix epoch (1970-01-01) to the given date.
pub fn days_from_civil(y: i64, m: i64, d: i64) -> (r: i64)
    requires
        -1_000_000_000 <= y <= 1_000_000_000,
        1 <= m <= 12,
        1 <= d <= 31,
    ensures
        r == civil_days(y as int, m as int, d as int),
        -1_000_000_000_000 <= r <= 1_000_000_000_000,
{
    let y1: i64 = if m <= 2 { y - 1 } else { y };
    let shifted: i64 = y1 + 1_000_000_400;
    let era: i64 = shifted / 400 - 2_500_001;
    let yoe: i64 = shifted % 400;
    let mp: i64 = if m > 2 { m - 3 } else { m + 9 };
    let doy: i64 = (153 * mp + 2) / 5 + d - 1;
    let doe: i64 = yoe * 365 + yoe / 4 - yoe / 100 + doy;
    proof {
        let q = (y1 as int) / 400;
        let rr = (y1 as int) % 400;
        vstd::arithmetic::div_mod::lemma_fundamental_div_mod(y1 as int, 400);
        vstd::arithmetic::div_mod::lemma_mod_bound(y1 as int, 400);
        assert(shifted as int == 400 * (q + 2_500_001) + rr);
        vstd::arithmetic::div_mod::lemma_div_multiples_vanish_fancy(q + 2_500_001, rr, 400);
        vstd::arithmetic::div_mod::lemma_mod_multiples_vanish(q + 2_500_001, rr, 400);
        vstd::arithmetic::div_mod::lemma_small_mod(rr as nat, 400);
        assert(shifted / 400 == q + 2_500_001);
        assert(shifted % 400 == rr);
        assert(-2_500_002 <= era <= 2_500_002);
    }
    era * 146_097 + doe - 719_468
}

// ---------------------------------------------------------------------------
// Staleness and trust
// ---------------------------------------------------------------------------

/// The author has declared the concept stale as of `now_unix`: the
/// `stale_after` date parses and midnight UTC of it has been reached.
pub open spec fn declared_stale(fm: Option<Json>, now_unix: u64) -> bool {
    match string_field_of(fm, stale_after_key()) {
        Some(s) => match ymd_of(s) {
            Some(t) => (now_unix as i64) >= civil_days(t.0, t.1, t.2) * 86400,
            None => false,
        },
        None => false,
    }
}

proof fn lemma_ymd_bounds(s: Seq<char>)
    ensures
        match ymd_of(s) {
            Some(t) => -999 <= t.0 <= 9999 && 1 <= t.1 <= 12 && 1 <= t.2 <= 31,
            None => true,
        },
{
    let b = encode_utf8(s);
    if ymd_of(s) is Some {
        let f = b.subrange(0, 4);
        lemma_digits_bound(f);
        lemma_digits_bound(f.skip(1));
        lemma_pow10_4();
    }
}

/// Whether the author has declared the concept stale as of `now_unix`
/// (Unix epoch seconds): true once `now_unix` reaches midnight UTC of the
/// `stale_after` date; false when there is none or it does not parse.
pub fn is_declared_stale(fm: Option<&Json>, now_unix: u64) -> (r: bool)
    ensures
        r == declared_stale(deref_opt(fm), now_unix),
{
    let s = match stale_after(fm) {
        Some(s) => s,
        None => return false,
    };
    let (y, m, d) = match parse_ymd(s.as_str()) {
        Some(t) => t,
        None => return false,
    };
    proof {
        lemma_ymd_bounds(s@);
    }
    let days = days_from_civil(y, m, d);
    let threshold = days * 86_400;
    (now_unix as i64) >= threshold
}

/// The `by` actor of a `verified` entry.
pub open spec fn verifier_of(entry: Json) -> Option<Seq<char>> {
    match json_get(entry, by_key()) {
        Some(x) => json_str(x),
        None => None,
    }
}

pub open spec fn human_prefix() -> Seq<char> {
    seq!['h', 'u', 'm', 'a', 'n', ':']
}

pub open spec fn is_human(actor: Seq<char>) -> bool {
    actor.len() >= 6 && actor.take(6) == human_prefix()
}

pub open spec fn human_entry(actor: Option<Seq<char>>) -> bool {
    match actor {
        Some(a) => is_human(a),
        None => false,
    }
}

/// The entries of a `verified` value: a list, or one bare map.
pub open spec fn verified_entries(v: Json) -> Option<Seq<Json>> {
    match v {
        Json::Array(items) => Some(items@),
        Json::Object(_) => Some(seq![v]),
        _ => None,
    }
}

/// The trust tier of a list of `verified` entries.
pub open spec fn tier_of(entries: Seq<Json>) -> Option<TrustTier> {
    if exists|i: int| 0 <= i < entries.len() && human_entry(#[trigger] verifier_of(entries[i])) {
        Some(TrustTier::HumanReviewed)
    } else if exists|i: int| 0 <= i < entries.len() && (#[trigger] verifier_of(entries[i])) is Some {
        Some(TrustTier::MachineConfirmed)
    } else {
        None
    }
}

/// The trust tier of a frontmatter value.
pub open spec fn trust_tier_of(fm: Option<Json>) -> Option<TrustTier> {
    match fm {
        Some(v) => match json_get(v, verified_key()) {
            Some(ver) => match verified_entries(ver) {
                Some(es) => tier_of(es),
                None => None,
            },
            None => None,
        },
        None => None,
    }
}

fn starts_human(s: &str) -> (r: bool)
    ensures
        r == is_human(s@),
{
    let cs = chars_of(s);
    if cs.len() < 6 {
        return false;
    }
    let r = cs[0] == 'h' && cs[1] == 'u' && cs[2] == 'm' && cs[3] == 'a' && cs[4] == 'n' && cs[5]
        == ':';
    proof {
        if r {
            assert(cs@.take(6) =~= human_prefix());
        } else if cs@.take(6) == human_prefix() {
            assert(cs@.take(6)[0] == 'h');
            assert(cs@.take(6)[1] == 'u');
            assert(cs@.take(6)[2] == 'm');
            assert(cs@.take(6)[3] == 'a');
            assert(cs@.take(6)[4] == 'n');
            assert(cs@.take(6)[5] == ':');
        }
    }
    r
}

fn actor_of(entry: &Json) -> (r: Option<&str>)
    ensures
        match r {
            Some(a) => verifier_of(*entry) == Some(a@),
            None => verifier_of(*entry) is None,
        },
{
    proof {
        reveal_strlit("by");
        assert("by"@ =~= by_key());
    }
    match entry.get("by") {
        Some(x) => x.as_str(),
        None => None,
    }
}

fn tier_of_entries(entries: &[Json]) -> (r: Option<TrustTier>)
    ensures
        r == tier_of(entries@),
{
    let mut any_verifier = false;
    let mut i: usize = 0;
    while i < entries.len()
        invariant
            i <= entries@.len(),
            forall|k: int|
                0 <= k < i ==> !human_entry(#[trigger] verifier_of(entries@[k])),
            any_verifier == exists|k: int| 0 <= k < i && (#[trigger] verifier_of(entries@[k])) is Some,
        decreases entries@.len() - i,
    {
        match actor_of(&entries[i]) {
            Some(by) => {
                if starts_human(by) {
                    return Some(TrustTier::HumanReviewed);
                }
                any_verifier = true;
            },
            None => {},
        }
        i = i + 1;
    }
    if any_verifier {
        Some(TrustTier::MachineConfirmed)
    } else {
        None
    }
}

/// The trust tier derived from the OKF `verified` frontmatter family;
/// `None` when `verified` is absent or no entry names a verifier. A list of
/// `{by, at}` maps and a single bare map are both accepted.
/// The trust tier's name, when the frontmatter earns one.
pub open spec fn trust_label(fm: Option<Json>) -> Option<Seq<char>> {
    match trust_tier_of(fm) {
        Some(t) => Some(t.name()),
        None => None,
    }
}

/// The trust tier of the frontmatter, by name.
pub fn trust_name(fm: Option<&Json>) -> (r: Option<String>)
    ensures
        opt_string_view(r) == trust_label(deref_opt(fm)),
{
    match trust_tier(fm) {
        Some(t) => Some(t.as_str().to_owned()),
        None => None,
    }
}

pub fn trust_tier(fm: Option<&Json>) -> (r: Option<TrustTier>)
    ensures
        r == trust_tier_of(deref_opt(fm)),
{
    let v = match fm {
        Some(v) => v,
        None => return None,
    };
    proof {
        reveal_strlit("verified");
        assert("verified"@ =~= verified_key());
    }
    let verified = match v.get("verified") {
        Some(x) => x,
        None => return None,
    };
    match verified {
        Json::Array(items) => tier_of_entries(items.as_slice()),
        Json::Object(_) => {
            let ghost es = seq![*verified];
            let r = match actor_of(verified) {
                Some(by) => if starts_human(by) {
                    Some(TrustTier::HumanReviewed)
                } else {
                    Some(TrustTier::MachineConfirmed)
                },
                None => None,
            };
            proof {
                assert(es[0] == *verified);
                if human_entry(verifier_of(es[0])) {
                    assert(exists|i: int| 0 <= i < es.len() && human_entry(#[trigger] verifier_of(es[i])));
                }
                if verifier_of(es[0]) is Some {
                    assert(exists|i: int| 0 <= i < es.len() && (#[trigger] verifier_of(es[i])) is Some);
                }
            }
            r
        },
        _ => None,
    }
}

} // verus!
