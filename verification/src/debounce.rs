//! Debouncing of file-change events: bursts of changes to one path
//! collapse into the latest, released once the path has been quiet for
//! the debounce window. Times are milliseconds on a monotonic clock.

use vstd::prelude::*;

use crate::cli::WatchEvent;
use crate::watching::event_path;

verus! {

/// Changes waiting for their path to go quiet: each with the time it
/// arrived, in order of first arrival.
pub struct Debouncer {
    pub pending: Vec<(WatchEvent, u64)>,
}

/// No path is pending twice.
pub open spec fn unique_paths(ps: Seq<(WatchEvent, u64)>) -> bool {
    forall|i: int, j: int|
        0 <= i < j < ps.len() ==> event_path((#[trigger] ps[i]).0) != event_path((#[trigger] ps[j]).0)
}

/// A change that arrived at `at` is ripe at `now` once the window has
/// passed (a clock that seems to run backwards counts as no time).
pub open spec fn is_ripe(at: u64, now: u64, window: u64) -> bool {
    (if now >= at { now - at } else { 0 }) >= window
}

/// The entries of `ps` that are (or are not) ripe, in order.
pub open spec fn ripe_part(ps: Seq<(WatchEvent, u64)>, now: u64, window: u64, ripe: bool) -> Seq<(WatchEvent, u64)>
    decreases ps.len(),
{
    if ps.len() == 0 {
        Seq::empty()
    } else {
        let rest = ripe_part(ps.drop_last(), now, window, ripe);
        if is_ripe(ps.last().1, now, window) == ripe {
            rest.push(ps.last())
        } else {
            rest
        }
    }
}

pub open spec fn events_of(ps: Seq<(WatchEvent, u64)>) -> Seq<WatchEvent> {
    ps.map_values(|e: (WatchEvent, u64)| e.0)
}

/// The position of the entry for `path`, if any.
pub open spec fn entry_for(ps: Seq<(WatchEvent, u64)>, path: Seq<char>) -> Option<int> {
    if exists|i: int| 0 <= i < ps.len() && event_path(ps[i].0) == path {
        Some(choose|i: int| 0 <= i < ps.len() && event_path(ps[i].0) == path)
    } else {
        None
    }
}

fn same_path(a: &WatchEvent, b: &WatchEvent) -> (r: bool)
    ensures
        r == (event_path(*a) == event_path(*b)),
{
    let pa = a.path();
    let pb = b.path();
    let ca = crate::text::chars_of(pa);
    let cb = crate::text::chars_of(pb);
    crate::tokens::chars_eq(ca.as_slice(), cb.as_slice())
}

proof fn lemma_ripe_part_unique(ps: Seq<(WatchEvent, u64)>, now: u64, window: u64, ripe: bool)
    ensures
        forall|k: int|
            0 <= k < ripe_part(ps, now, window, ripe).len() ==> ps.contains(
                #[trigger] ripe_part(ps, now, window, ripe)[k],
            ),
        unique_paths(ps) ==> unique_paths(ripe_part(ps, now, window, ripe)),
    decreases ps.len(),
{
    if ps.len() > 0 {
        let d = ps.drop_last();
        lemma_ripe_part_unique(d, now, window, ripe);
        let r = ripe_part(d, now, window, ripe);
        let rr = ripe_part(ps, now, window, ripe);
        assert forall|k: int| 0 <= k < rr.len() implies ps.contains(#[trigger] rr[k]) by {
            if k < r.len() {
                assert(rr[k] == r[k]);
                assert(d.contains(r[k]));
                let t = choose|t: int| 0 <= t < d.len() && d[t] == r[k];
                assert(ps[t] == r[k]);
            } else {
                assert(ps[ps.len() - 1] == rr[k]);
            }
        }
        if unique_paths(ps) {
            assert(unique_paths(d)) by {
                assert forall|i: int, j: int| 0 <= i < j < d.len() implies event_path(
                    (#[trigger] d[i]).0,
                ) != event_path((#[trigger] d[j]).0) by {
                    assert(d[i] == ps[i] && d[j] == ps[j]);
                }
            }
            if is_ripe(ps.last().1, now, window) == ripe {
                assert forall|i: int, j: int| 0 <= i < j < rr.len() implies event_path(
                    (#[trigger] rr[i]).0,
                ) != event_path((#[trigger] rr[j]).0) by {
                    if j < r.len() {
                        assert(rr[i] == r[i] && rr[j] == r[j]);
                    } else {
                        assert(rr[i] == r[i]);
                        assert(d.contains(r[i]));
                        let t = choose|t: int| 0 <= t < d.len() && d[t] == r[i];
                        assert(ps[t] == r[i]);
                        assert(rr[j] == ps[ps.len() - 1]);
                    }
                }
            }
        }
    }
}

/// The pending changes after a change to `event`'s path at `now`: it
/// replaces the pending change to that path, keeping its place, or joins
/// the end.
pub open spec fn ingested(ps: Seq<(WatchEvent, u64)>, event: WatchEvent, now: u64) -> Seq<(WatchEvent, u64)> {
    match entry_for(ps, event_path(event)) {
        Some(i) => ps.update(i, (event, now)),
        None => ps.push((event, now)),
    }
}

proof fn lemma_entry_at(ps: Seq<(WatchEvent, u64)>, path: Seq<char>, i: int)
    requires
        unique_paths(ps),
        0 <= i < ps.len(),
        event_path(ps[i].0) == path,
    ensures
        entry_for(ps, path) == Some(i),
{
    let w = choose|w: int| 0 <= w < ps.len() && event_path(ps[w].0) == path;
    assert(0 <= w < ps.len() && event_path(ps[w].0) == path);
    if w < i {
        assert(event_path(ps[w].0) != event_path(ps[i].0));
    } else if w > i {
        assert(event_path(ps[i].0) != event_path(ps[w].0));
    }
}

/// A burst of changes to one path collapses into its last change: two
/// changes to the same path, one after the other, leave the pending
/// changes exactly as the second change alone would have, so the first is
/// never released.
pub proof fn law_burst_collapses(ps: Seq<(WatchEvent, u64)>, e1: WatchEvent, t1: u64, e2: WatchEvent, t2: u64)
    requires
        unique_paths(ps),
        event_path(e1) == event_path(e2),
    ensures
        ingested(ingested(ps, e1, t1), e2, t2) == ingested(ps, e2, t2),
{
    let path = event_path(e1);
    let mid = ingested(ps, e1, t1);
    match entry_for(ps, path) {
        Some(i) => {
            let w = choose|w: int| 0 <= w < ps.len() && event_path(ps[w].0) == path;
            assert(i == w);
            assert(mid == ps.update(i, (e1, t1)));
            assert forall|a: int, b: int| 0 <= a < b < mid.len() implies event_path(
                (#[trigger] mid[a]).0,
            ) != event_path((#[trigger] mid[b]).0) by {
                if a != i && b != i {
                    assert(mid[a] == ps[a] && mid[b] == ps[b]);
                } else if a == i {
                    assert(mid[b] == ps[b]);
                    assert(event_path(ps[i].0) == path);
                } else {
                    assert(mid[a] == ps[a]);
                    assert(event_path(ps[i].0) == path);
                }
            }
            lemma_entry_at(mid, path, i);
            assert(mid.update(i, (e2, t2)) =~= ps.update(i, (e2, t2)));
        },
        None => {
            assert(mid == ps.push((e1, t1)));
            assert forall|a: int, b: int| 0 <= a < b < mid.len() implies event_path(
                (#[trigger] mid[a]).0,
            ) != event_path((#[trigger] mid[b]).0) by {
                if b < ps.len() {
                    assert(mid[a] == ps[a] && mid[b] == ps[b]);
                } else {
                    assert(mid[a] == ps[a]);
                    if event_path(ps[a].0) == path {
                        assert(exists|w: int| 0 <= w < ps.len() && event_path(ps[w].0) == path);
                    }
                }
            }
            lemma_entry_at(mid, path, ps.len() as int);
            assert(mid.update(ps.len() as int, (e2, t2)) =~= ps.push((e2, t2)));
        },
    }
}

/// Where the change to `event`'s path is pending, if it is.
fn position_of(ps: &Vec<(WatchEvent, u64)>, event: &WatchEvent) -> (r: Option<usize>)
    requires
        unique_paths(ps@),
    ensures
        match r {
            Some(i) => i < ps@.len() && entry_for(ps@, event_path(*event)) == Some(i as int),
            None => entry_for(ps@, event_path(*event)) is None,
        },
{
    let mut i: usize = 0;
    while i < ps.len()
        invariant
            i <= ps@.len(),
            unique_paths(ps@),
            forall|k: int| 0 <= k < i ==> event_path(ps@[k].0) != event_path(*event),
        decreases ps@.len() - i,
    {
        if same_path(&ps[i].0, event) {
            proof {
                let w = choose|w: int| 0 <= w < ps@.len() && event_path(ps@[w].0) == event_path(*event);
                if w < i {
                    assert(event_path(ps@[w].0) != event_path(*event));
                } else if w > i {
                    assert(event_path(ps@[i as int].0) != event_path(ps@[w].0));
                }
            }
            return Some(i);
        }
        i = i + 1;
    }
    None
}

impl Debouncer {
    pub open spec fn wf(&self) -> bool {
        unique_paths(self.pending@)
    }

    /// Nothing pending.
    pub fn new() -> (r: Self)
        ensures
            r.wf(),
            r.pending@.len() == 0,
    {
        Debouncer { pending: Vec::new() }
    }

    pub fn is_empty(&self) -> (r: bool)
        ensures
            r == (self.pending@.len() == 0),
    {
        self.pending.len() == 0
    }

    /// Records a change at time `now`: it replaces a pending change to the
    /// same path (which keeps its place), or joins the end.
    pub fn ingest(&mut self, event: WatchEvent, now: u64)
        requires
            old(self).wf(),
        ensures
            final(self).wf(),
            final(self).pending@ == ingested(old(self).pending@, event, now),
    {
        let ghost ps = self.pending@;
        match position_of(&self.pending, &event) {
            Some(i) => {
                self.pending.set(i, (event, now));
                proof {
                    let q = self.pending@;
                    assert forall|a: int, b: int| 0 <= a < b < q.len() implies event_path(
                        (#[trigger] q[a]).0,
                    ) != event_path((#[trigger] q[b]).0) by {
                        if a != i && b != i {
                            assert(q[a] == ps[a] && q[b] == ps[b]);
                        } else if a == i {
                            assert(q[b] == ps[b]);
                        } else {
                            assert(q[a] == ps[a]);
                        }
                    }
                }
            },
            None => {
                self.pending.push((event, now));
                proof {
                    let q = self.pending@;
                    assert forall|a: int, b: int| 0 <= a < b < q.len() implies event_path(
                        (#[trigger] q[a]).0,
                    ) != event_path((#[trigger] q[b]).0) by {
                        if b < ps.len() {
                            assert(q[a] == ps[a] && q[b] == ps[b]);
                        } else {
                            assert(q[a] == ps[a]);
                        }
                    }
                }
            },
        }
    }

    /// Releases the changes whose path has been quiet for `window`, in
    /// order; the others stay pending, in order.
    pub fn take_ripe(&mut self, now: u64, window: u64) -> (r: Vec<WatchEvent>)
        requires
            old(self).wf(),
        ensures
            final(self).wf(),
            r@ == events_of(ripe_part(old(self).pending@, now, window, true)),
            final(self).pending@ == ripe_part(old(self).pending@, now, window, false),
    {
        let ghost ps = self.pending@;
        let mut moved: Vec<(WatchEvent, u64)> = Vec::new();
        std::mem::swap(&mut moved, &mut self.pending);
        // Move the entries out back to front, then replay them in order.
        let mut rev: Vec<(WatchEvent, u64)> = Vec::new();
        while moved.len() > 0
            invariant
                ps.len() == moved@.len() + rev@.len(),
                moved@ == ps.take(moved@.len() as int),
                rev@ == ps.skip(moved@.len() as int).reverse(),
            decreases moved@.len(),
        {
            let e = moved.pop().unwrap();
            proof {
                assert(moved@ =~= ps.take(moved@.len() as int));
                assert(e == ps[moved@.len() as int]);
            }
            rev.push(e);
            proof {
                assert(ps.skip(moved@.len() as int) =~= seq![e] + ps.skip(moved@.len() as int + 1));
                assert(rev@ =~= ps.skip(moved@.len() as int).reverse());
            }
        }
        assert(ps.skip(0) =~= ps);
        let n = rev.len();
        let mut out: Vec<WatchEvent> = Vec::new();
        let mut keep: Vec<(WatchEvent, u64)> = Vec::new();
        while rev.len() > 0
            invariant
                n == ps.len(),
                rev@.len() <= n,
                rev@ == ps.skip(n - rev@.len()).reverse(),
                out@ == events_of(ripe_part(ps.take(n - rev@.len()), now, window, true)),
                keep@ == ripe_part(ps.take(n - rev@.len()), now, window, false),
            decreases rev@.len(),
        {
            let ghost k = n - rev@.len();
            let ghost before = rev@;
            let e = rev.pop().unwrap();
            proof {
                assert(before.last() == e);
                assert(before.reverse()[0] == before.last());
                assert(ps.skip(k)[0] == e);
                assert(rev@ =~= ps.skip(k + 1).reverse());
                assert(ps.take(k + 1).drop_last() =~= ps.take(k));
                assert(ps.take(k + 1).last() == e);
            }
            let at = e.1;
            let age = if now >= at {
                now - at
            } else {
                0
            };
            if age >= window {
                let ghost prev = ripe_part(ps.take(k), now, window, true);
                out.push(e.0);
                proof {
                    assert(events_of(prev.push(e)) =~= events_of(prev).push(e.0));
                }
            } else {
                keep.push(e);
            }
        }
        proof {
            assert(ps.take(n as int) =~= ps);
            lemma_ripe_part_unique(ps, now, window, false);
        }
        self.pending = keep;
        out
    }
}

} // verus!
