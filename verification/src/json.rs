//! The frontmatter value model: YAML frontmatter decoded into JSON-shaped
//! values. Numbers are kept as their canonical decimal text; object members
//! are kept in key order with no key repeated.

use vstd::prelude::*;

verus! {

#[derive(Debug)]
pub enum Json {
    Null,
    Bool(bool),
    Number(String),
    Str(String),
    Array(Vec<Json>),
    Object(Vec<(String, Json)>),
}

/// Structural equality of two values: same variant, same scalars, and
/// element-wise (member-wise, in order) equal contents.
pub open spec fn json_same(a: Json, b: Json) -> bool
    decreases a, 0nat,
{
    match a {
        Json::Null => b is Null,
        Json::Bool(x) => b is Bool && b->Bool_0 == x,
        Json::Number(x) => b is Number && b->Number_0@ == x@,
        Json::Str(x) => b is Str && b->Str_0@ == x@,
        Json::Array(xs) => match b {
            Json::Array(ys) => json_seq_same(xs@, ys@),
            _ => false,
        },
        Json::Object(ms) => match b {
            Json::Object(ns) => json_members_same(ms@, ns@),
            _ => false,
        },
    }
}

pub open spec fn json_seq_same(xs: Seq<Json>, ys: Seq<Json>) -> bool
    decreases xs, 1nat,
{
    if xs.len() == 0 {
        ys.len() == 0
    } else {
        ys.len() > 0 && json_same(xs[0], ys[0]) && json_seq_same(xs.drop_first(), ys.drop_first())
    }
}

pub open spec fn json_members_same(ms: Seq<(String, Json)>, ns: Seq<(String, Json)>) -> bool
    decreases ms, 1nat,
{
    if ms.len() == 0 {
        ns.len() == 0
    } else {
        ns.len() > 0 && ms[0].0@ == ns[0].0@ && json_same(ms[0].1, ns[0].1) && json_members_same(
            ms.drop_first(),
            ns.drop_first(),
        )
    }
}

proof fn lemma_seq_same_pointwise(xs: Seq<Json>, ys: Seq<Json>)
    requires
        xs.len() == ys.len(),
        forall|k: int| 0 <= k < xs.len() ==> json_same(#[trigger] xs[k], ys[k]),
    ensures
        json_seq_same(xs, ys),
    decreases xs.len(),
{
    if xs.len() > 0 {
        assert forall|k: int| 0 <= k < xs.len() - 1 implies json_same(
            #[trigger] xs.drop_first()[k],
            ys.drop_first()[k],
        ) by {
            assert(xs.drop_first()[k] == xs[k + 1]);
        }
        lemma_seq_same_pointwise(xs.drop_first(), ys.drop_first());
    }
}

proof fn lemma_members_same_pointwise(ms: Seq<(String, Json)>, ns: Seq<(String, Json)>)
    requires
        ms.len() == ns.len(),
        forall|k: int|
            0 <= k < ms.len() ==> (#[trigger] ms[k]).0@ == ns[k].0@ && json_same(ms[k].1, ns[k].1),
    ensures
        json_members_same(ms, ns),
    decreases ms.len(),
{
    if ms.len() > 0 {
        assert forall|k: int| 0 <= k < ms.len() - 1 implies (#[trigger] ms.drop_first()[k]).0@
            == ns.drop_first()[k].0@ && json_same(ms.drop_first()[k].1, ns.drop_first()[k].1) by {
            assert(ms.drop_first()[k] == ms[k + 1]);
        }
        lemma_members_same_pointwise(ms.drop_first(), ns.drop_first());
    }
}

impl Json {
    /// Structural equality, as `json_same` states it.
    pub fn same_as(&self, other: &Json) -> (r: bool)
        ensures
            r == json_same(*self, *other),
        decreases *self, 0nat,
    {
        match self {
            Json::Null => match other {
                Json::Null => true,
                _ => false,
            },
            Json::Bool(x) => match other {
                Json::Bool(y) => *x == *y,
                _ => false,
            },
            Json::Number(x) => match other {
                Json::Number(y) => *x == *y,
                _ => false,
            },
            Json::Str(x) => match other {
                Json::Str(y) => *x == *y,
                _ => false,
            },
            Json::Array(xs) => match other {
                Json::Array(ys) => {
                    proof {
                        assert(xs@.skip(0) =~= xs@);
                        assert(ys@.skip(0) =~= ys@);
                    }
                    Json::seq_same_from(xs, ys, 0)
                },
                _ => false,
            },
            Json::Object(ms) => match other {
                Json::Object(ns) => {
                    proof {
                        assert(ms@.skip(0) =~= ms@);
                        assert(ns@.skip(0) =~= ns@);
                    }
                    Json::members_same_from(ms, ns, 0)
                },
                _ => false,
            },
        }
    }

    /// A deep copy.
    pub fn copy(&self) -> (r: Json)
        ensures
            json_same(*self, r),
        decreases *self, 0nat,
    {
        match self {
            Json::Null => Json::Null,
            Json::Bool(x) => Json::Bool(*x),
            Json::Number(x) => Json::Number(x.clone()),
            Json::Str(x) => Json::Str(x.clone()),
            Json::Array(xs) => {
                let mut ys: Vec<Json> = Vec::new();
                Json::copy_items(xs, 0, &mut ys);
                proof {
                    lemma_seq_same_pointwise(xs@, ys@);
                }
                Json::Array(ys)
            },
            Json::Object(ms) => {
                let mut ns: Vec<(String, Json)> = Vec::new();
                Json::copy_members(ms, 0, &mut ns);
                proof {
                    lemma_members_same_pointwise(ms@, ns@);
                }
                Json::Object(ns)
            },
        }
    }

    /// Appends copies of `xs[i..]` to `out`.
    fn copy_items(xs: &Vec<Json>, i: usize, out: &mut Vec<Json>)
        requires
            i <= xs@.len(),
            old(out)@.len() == i,
            forall|k: int| 0 <= k < i ==> json_same(#[trigger] xs@[k], old(out)@[k]),
        ensures
            final(out)@.len() == xs@.len(),
            forall|k: int| 0 <= k < xs@.len() ==> json_same(#[trigger] xs@[k], final(out)@[k]),
        decreases xs@, xs@.len() - i,
    {
        if i < xs.len() {
            let c = xs[i].copy();
            out.push(c);
            Json::copy_items(xs, i + 1, out);
        }
    }

    /// Appends copies of `ms[i..]` to `out`.
    fn copy_members(ms: &Vec<(String, Json)>, i: usize, out: &mut Vec<(String, Json)>)
        requires
            i <= ms@.len(),
            old(out)@.len() == i,
            forall|k: int|
                0 <= k < i ==> (#[trigger] ms@[k]).0@ == old(out)@[k].0@ && json_same(
                    ms@[k].1,
                    old(out)@[k].1,
                ),
        ensures
            final(out)@.len() == ms@.len(),
            forall|k: int|
                0 <= k < ms@.len() ==> (#[trigger] ms@[k]).0@ == final(out)@[k].0@ && json_same(
                    ms@[k].1,
                    final(out)@[k].1,
                ),
        decreases ms@, ms@.len() - i,
    {
        if i < ms.len() {
            proof {
                assert(decreases_to!(ms@ => ms@[i as int]));
            }
            let c = ms[i].1.copy();
            out.push((ms[i].0.clone(), c));
            Json::copy_members(ms, i + 1, out);
        }
    }

    fn seq_same_from(xs: &Vec<Json>, ys: &Vec<Json>, i: usize) -> (r: bool)
        requires
            i <= xs@.len(),
            i <= ys@.len(),
        ensures
            r == json_seq_same(xs@.skip(i as int), ys@.skip(i as int)),
        decreases xs@, xs@.len() - i,
    {
        if i == xs.len() {
            return i == ys.len();
        }
        if i == ys.len() {
            return false;
        }
        proof {
            assert(xs@.skip(i as int)[0] == xs@[i as int]);
            assert(xs@.skip(i as int).drop_first() =~= xs@.skip(i + 1));
            assert(ys@.skip(i as int).drop_first() =~= ys@.skip(i + 1));
        }
        if !xs[i].same_as(&ys[i]) {
            return false;
        }
        Json::seq_same_from(xs, ys, i + 1)
    }

    fn members_same_from(ms: &Vec<(String, Json)>, ns: &Vec<(String, Json)>, i: usize) -> (r: bool)
        requires
            i <= ms@.len(),
            i <= ns@.len(),
        ensures
            r == json_members_same(ms@.skip(i as int), ns@.skip(i as int)),
        decreases ms@, ms@.len() - i,
    {
        if i == ms.len() {
            return i == ns.len();
        }
        if i == ns.len() {
            return false;
        }
        proof {
            assert(ms@.skip(i as int)[0] == ms@[i as int]);
            assert(ms@.skip(i as int).drop_first() =~= ms@.skip(i + 1));
            assert(ns@.skip(i as int).drop_first() =~= ns@.skip(i + 1));
            assert(decreases_to!(ms@ => ms@[i as int]));
        }
        if ms[i].0 != ns[i].0 {
            return false;
        }
        if !ms[i].1.same_as(&ns[i].1) {
            return false;
        }
        Json::members_same_from(ms, ns, i + 1)
    }
}


/// The value of the first member named `key`.
pub open spec fn member_of(ms: Seq<(String, Json)>, key: Seq<char>) -> Option<Json>
    decreases ms.len(),
{
    if ms.len() == 0 {
        None
    } else if ms[0].0@ == key {
        Some(ms[0].1)
    } else {
        member_of(ms.drop_first(), key)
    }
}

/// The member `key` of an object; `None` for a missing key or a non-object.
pub open spec fn json_get(v: Json, key: Seq<char>) -> Option<Json> {
    match v {
        Json::Object(ms) => member_of(ms@, key),
        _ => None,
    }
}

/// The text of a string value.
pub open spec fn json_str(v: Json) -> Option<Seq<char>> {
    match v {
        Json::Str(s) => Some(s@),
        _ => None,
    }
}

impl Json {
    /// The member `key` of an object (`None` for other values).
    pub fn get(&self, key: &str) -> (r: Option<&Json>)
        ensures
            match r {
                Some(x) => json_get(*self, key@) == Some(*x),
                None => json_get(*self, key@) is None,
            },
    {
        match self {
            Json::Object(ms) => {
                let k = key.to_owned();
                let mut i: usize = 0;
                assert(ms@.skip(0) =~= ms@);
                while i < ms.len()
                    invariant
                        i <= ms@.len(),
                        k@ == key@,
                        json_get(*self, key@) == member_of(ms@, key@),
                        member_of(ms@, key@) == member_of(ms@.skip(i as int), key@),
                    decreases ms@.len() - i,
                {
                    proof {
                        assert(ms@.skip(i as int)[0] == ms@[i as int]);
                        assert(ms@.skip(i as int).drop_first() =~= ms@.skip(i + 1));
                    }
                    if ms[i].0 == k {
                        proof {
                            assert(ms@[i as int].0@ == key@);
                            assert(ms@.skip(i as int).len() > 0);
                            assert(member_of(ms@.skip(i as int), key@) == Some(ms@[i as int].1));
                        }
                        return Some(&ms[i].1);
                    }
                    i = i + 1;
                }
                None
            },
            _ => None,
        }
    }

    /// The text of a string value (`None` for other values).
    pub fn as_str(&self) -> (r: Option<&str>)
        ensures
            match r {
                Some(s) => json_str(*self) == Some(s@),
                None => json_str(*self) is None,
            },
    {
        match self {
            Json::Str(s) => Some(s.as_str()),
            _ => None,
        }
    }
}

} // verus!
