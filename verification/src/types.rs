//! Shared value types: corpus and node identifiers, heading paths, byte
//! ranges, links and the library's error type.

use vstd::prelude::*;

verus! {

/// Identifier for a corpus, typically the basename of the root directory.
#[derive(Debug)]
pub struct SourceId(pub String);

impl Clone for SourceId {
    fn clone(&self) -> (r: Self)
        ensures
            r.0@ == self.0@,
    {
        SourceId(self.0.clone())
    }
}

impl SourceId {
    pub fn new(s: &str) -> (r: Self)
        ensures
            r.0@ == s@,
    {
        SourceId(s.to_owned())
    }

    pub fn as_str(&self) -> (r: &str)
        ensures
            r@ == self.0@,
    {
        self.0.as_str()
    }
}

/// Dense per-document identifier for a heading node.
#[derive(Debug, Clone, Copy, PartialEq, Eq, Hash, PartialOrd, Ord, Structural)]
pub struct NodeId(pub u32);

/// The decimal digits of `n`, most significant first, without leading zeros.
pub open spec fn decimal_digits(n: nat) -> Seq<char>
    decreases n,
{
    if n < 10 {
        seq![digit_char(n)]
    } else {
        decimal_digits(n / 10).push(digit_char(n % 10))
    }
}

pub open spec fn digit_char(d: nat) -> char {
    ((d + 48) as u32) as char
}

/// `s` left-padded with `'0'` up to `width` characters.
pub open spec fn zero_padded(s: Seq<char>, width: nat) -> Seq<char> {
    if s.len() >= width {
        s
    } else {
        Seq::new((width - s.len()) as nat, |_i: int| '0') + s
    }
}

impl NodeId {
    /// The id as an index into a document's node arena.
    pub open spec fn idx(self) -> int {
        self.0 as int
    }

    pub fn index(self) -> (r: usize)
        ensures
            r == self.0,
    {
        self.0 as usize
    }

    /// The id rendered as a zero-padded decimal of at least four digits.
    pub fn to_string(&self) -> (r: String)
        ensures
            r@ == zero_padded(decimal_digits(self.0 as nat), 4),
    {
        let digits = crate::text::decimal_string(self.0 as u64);
        let ghost d = decimal_digits(self.0 as nat);
        let mut out = String::new();
        if digits.as_str().unicode_len() < 4 {
            let mut pad: usize = digits.as_str().unicode_len();
            while pad < 4
                invariant
                    digits@ == d,
                    d.len() <= pad <= 4,
                    out@ =~= Seq::new((pad - d.len()) as nat, |_i: int| '0'),
                decreases 4 - pad,
            {
                crate::text::push_char(&mut out, '0');
                pad = pad + 1;
            }
        }
        out.append(digits.as_str());
        proof {
            if d.len() >= 4 {
                assert(out@ =~= d);
            } else {
                assert(out@ =~= zero_padded(d, 4));
            }
        }
        out
    }
}

/// Full heading ancestry, root to leaf, e.g. `["Engineering", "Rust", "Tokio"]`.
#[derive(Debug)]
pub struct HeadingPath(pub Vec<String>);

impl View for HeadingPath {
    type V = Seq<Seq<char>>;

    open spec fn view(&self) -> Seq<Seq<char>> {
        self.0@.map_values(|s: String| s@)
    }
}

/// `parts` joined with `sep` between consecutive elements.
pub open spec fn joined(parts: Seq<Seq<char>>, sep: Seq<char>) -> Seq<char>
    decreases parts.len(),
{
    if parts.len() == 0 {
        Seq::empty()
    } else if parts.len() == 1 {
        parts[0]
    } else {
        joined(parts.drop_last(), sep) + sep + parts.last()
    }
}

/// The separator used when a heading path is rendered as one line.
pub open spec fn path_separator() -> Seq<char> {
    seq![' ', '>', ' ']
}

/// Copies a vector of strings, element for element.
pub fn clone_strings(v: &Vec<String>) -> (r: Vec<String>)
    ensures
        r@.map_values(|s: String| s@) == v@.map_values(|s: String| s@),
{
    let mut out: Vec<String> = Vec::new();
    for i in 0..v.len()
        invariant
            out@.len() == i,
            forall|j: int| 0 <= j < i ==> #[trigger] out@[j]@ == v@[j]@,
    {
        out.push(v[i].clone());
    }
    assert(out@.map_values(|s: String| s@) =~= v@.map_values(|s: String| s@));
    out
}

impl Clone for HeadingPath {
    fn clone(&self) -> (r: Self)
        ensures
            r@ == self@,
    {
        HeadingPath(clone_strings(&self.0))
    }
}

impl HeadingPath {
    pub fn new(segments: &[&str]) -> (r: Self)
        ensures
            r@.len() == segments@.len(),
            forall|i: int| 0 <= i < segments@.len() ==> r@[i] == (#[trigger] segments@[i])@,
    {
        let mut out: Vec<String> = Vec::new();
        for i in 0..segments.len()
            invariant
                out@.len() == i,
                forall|j: int| 0 <= j < i ==> #[trigger] out@[j]@ == segments@[j]@,
        {
            out.push(segments[i].to_owned());
        }
        HeadingPath(out)
    }

    pub fn push(&mut self, segment: &str)
        ensures
            final(self)@ == old(self)@.push(segment@),
    {
        self.0.push(segment.to_owned());
        assert(self@ =~= old(self)@.push(segment@));
    }

    pub fn depth(&self) -> (r: usize)
        ensures
            r == self@.len(),
    {
        self.0.len()
    }

    pub fn leaf(&self) -> (r: Option<&str>)
        ensures
            self@.len() == 0 ==> r is None,
            self@.len() > 0 ==> r is Some && r->0@ == self@.last(),
    {
        let n = self.0.len();
        if n == 0 {
            None
        } else {
            Some(self.0[n - 1].as_str())
        }
    }

    pub fn segments(&self) -> (r: &[String])
        ensures
            r@ == self.0@,
    {
        self.0.as_slice()
    }

    /// The segments joined with `" > "`, e.g. `"A > B > C"`.
    pub fn to_string(&self) -> (r: String)
        ensures
            r@ == joined(self@, path_separator()),
    {
        let mut out = String::new();
        let n = self.0.len();
        for i in 0..n
            invariant
                n == self@.len(),
                out@ == joined(self@.take(i as int), path_separator()),
        {
            proof {
                assert(self@.take(i + 1).drop_last() =~= self@.take(i as int));
                assert(self@.take(i + 1).last() == self.0@[i as int]@);
            }
            if i > 0 {
                out.append(" > ");
                proof {
                    reveal_strlit(" > ");
                }
            }
            out.append(self.0[i].as_str());
            proof {
                if i == 0 {
                    assert(self@.take(1) =~= seq![self@[0]]);
                }
            }
        }
        assert(self@.take(n as int) =~= self@);
        out
    }
}

/// Half-open byte range `[start, end)` into a source file.
#[derive(Debug, Clone, Copy, PartialEq, Eq, Structural)]
pub struct ByteRange {
    pub start: u32,
    pub end: u32,
}

impl ByteRange {
    pub fn new(start: u32, end: u32) -> (r: Self)
        ensures
            r.start == start,
            r.end == end,
    {
        ByteRange { start, end }
    }

    pub fn empty(at: u32) -> (r: Self)
        ensures
            r.start == at,
            r.end == at,
    {
        ByteRange { start: at, end: at }
    }

    /// Length in bytes; an inverted range has length zero.
    pub fn len(self) -> (r: u32)
        ensures
            r == (if self.end >= self.start { self.end - self.start } else { 0 }),
    {
        self.end.saturating_sub(self.start)
    }

    pub fn is_empty(self) -> (r: bool)
        ensures
            r == (self.end == self.start),
    {
        self.end == self.start
    }

    pub open spec fn spec_contains(self, offset: u32) -> bool {
        self.start <= offset < self.end
    }

    pub fn contains(self, offset: u32) -> (r: bool)
        ensures
            r == self.spec_contains(offset),
    {
        offset >= self.start && offset < self.end
    }

    /// The bytes of `src` inside the range.
    pub fn slice(self, src: &[u8]) -> (r: &[u8])
        requires
            self.start <= self.end,
            self.end <= src@.len(),
        ensures
            r@ == src@.subrange(self.start as int, self.end as int),
    {
        &src[self.start as usize..self.end as usize]
    }
}

/// Which flavor a link is.
#[derive(Debug, Clone, Copy, PartialEq, Eq, Structural)]
pub enum LinkKind {
    /// `[text](target)` CommonMark inline link.
    Inline,
    /// `[[target]]` or `[[target|alias]]` Obsidian-style wiki-link.
    Wiki,
}

/// A link discovered inside a document, paired with the node it appears under.
#[derive(Debug, Clone)]
pub struct Link {
    /// Raw target as it appears in source.
    pub target: String,
    /// Display text, if distinct from `target`.
    pub text: Option<String>,
    pub kind: LinkKind,
    /// Byte offset of the link in the source file.
    pub offset: u32,
}

/// Errors reported by the library.
#[derive(Debug)]
pub enum Error {
    Parse(String),
    Io(String),
    NotFound(String),
    Serialize(String),
}

impl Error {
    /// The human-readable message, `"<kind> error: <detail>"`.
    pub fn message(&self) -> (r: String)
        ensures
            r@ == (match self {
                Error::Parse(m) => "parse error: "@ + m@,
                Error::Io(m) => "io error: "@ + m@,
                Error::NotFound(m) => "not found: "@ + m@,
                Error::Serialize(m) => "serialization error: "@ + m@,
            }),
    {
        let (prefix, detail) = match self {
            Error::Parse(m) => ("parse error: ", m),
            Error::Io(m) => ("io error: ", m),
            Error::NotFound(m) => ("not found: ", m),
            Error::Serialize(m) => ("serialization error: ", m),
        };
        let mut out = prefix.to_owned();
        out.append(detail.as_str());
        out
    }
}

} // verus!
