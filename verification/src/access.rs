//! Per-node access counter.
//!
//! Each heading node carries one. Reads of a section bump it; the search
//! ranker reads it as a usage signal. Counts live in memory only: a freshly
//! loaded corpus starts from zero. Two counters always compare equal, so the
//! count never takes part in node equality.

use vstd::prelude::*;

verus! {

#[derive(Debug)]
pub struct AccessCounter {
    count: u32,
}

impl AccessCounter {
    /// The number of accesses recorded so far (wrapping at `u32::MAX`).
    pub closed spec fn value(self) -> u32 {
        self.count
    }

    pub fn new() -> (r: Self)
        ensures
            r.value() == 0,
    {
        AccessCounter { count: 0 }
    }

    pub fn get(&self) -> (r: u32)
        ensures
            r == self.value(),
    {
        self.count
    }

    /// Records one access and returns the count before it.
    pub fn bump(&mut self) -> (r: u32)
        ensures
            r == old(self).value(),
            final(self).value() == (old(self).value() as int + 1) % 0x1_0000_0000,
    {
        let prev = self.count;
        self.count = self.count.wrapping_add(1);
        prev
    }
}

impl Clone for AccessCounter {
    /// The copy starts from the current count.
    fn clone(&self) -> (r: Self)
        ensures
            r.value() == self.value(),
    {
        AccessCounter { count: self.count }
    }
}

impl Default for AccessCounter {
    fn default() -> (r: Self)
        ensures
            r.value() == 0,
    {
        AccessCounter { count: 0 }
    }
}

impl PartialEq for AccessCounter {
    /// Counters never distinguish nodes: any two compare equal.
    fn eq(&self, other: &Self) -> (r: bool) {
        true
    }
}

impl Eq for AccessCounter {}

impl vstd::std_specs::cmp::PartialEqSpecImpl for AccessCounter {
    open spec fn obeys_eq_spec() -> bool {
        true
    }

    open spec fn eq_spec(&self, other: &AccessCounter) -> bool {
        true
    }
}

} // verus!
