//! The bookkeeping of a replicated counter: for each site, the counter
//! of the latest increment seen from it, which decides whether an
//! increment from another site is new. (The counter's value itself is a
//! float and is kept by the caller.)

use crate::replica::Replica;
use std::collections::HashMap;
use vstd::prelude::*;

verus! {

broadcast use vstd::std_specs::hash::group_hash_axioms;

/// For each site, the counter of the latest increment seen from it.
pub struct SiteCounters {
    inner: HashMap<u32, u32>,
}

impl View for SiteCounters {
    type V = Map<u32, u32>;

    closed spec fn view(&self) -> Map<u32, u32> {
        self.inner@
    }
}

/// An increment by `r` has not been seen: its site has no later or equal
/// counter.
pub open spec fn unseen(m: Map<u32, u32>, r: Replica) -> bool {
    !(m.contains_key(r.site) && m[r.site] >= r.counter)
}

/// The counters after the site-less entry (site 0) moves to `site`.
pub open spec fn with_site(m: Map<u32, u32>, site: u32) -> Map<u32, u32> {
    if m.contains_key(0) { m.remove(0).insert(site, m[0]) } else { m }
}

impl SiteCounters {
    /// No increment seen.
    pub fn new() -> (s: Self)
        ensures
            s@ == Map::<u32, u32>::empty(),
    {
        SiteCounters { inner: HashMap::new() }
    }

    /// The counter of the latest increment seen from `site`.
    pub fn get(&self, site: u32) -> (r: Option<u32>)
        ensures
            self@.contains_key(site) ==> r == Some(self@[site]),
            !self@.contains_key(site) ==> r is None,
    {
        match self.inner.get(&site) {
            Some(c) => Some(*c),
            None => None,
        }
    }

    /// Returns true iff no increment has been seen.
    pub fn is_empty(&self) -> (b: bool)
        ensures
            b == (self@.dom().len() == 0),
    {
        self.inner.is_empty()
    }

    /// Records an increment by `replica` as the latest from its site.
    pub fn record(&mut self, replica: &Replica)
        ensures
            final(self)@ == old(self)@.insert(replica.site, replica.counter),
    {
        self.inner.insert(replica.site, replica.counter);
    }

    /// Returns true iff an increment by `replica` has not been seen.
    pub fn is_new(&self, replica: &Replica) -> (b: bool)
        ensures
            b == unseen(self@, *replica),
    {
        match self.inner.get(&replica.site) {
            Some(c) => *c < replica.counter,
            None => true,
        }
    }

    /// Takes an increment from another site: a new one is recorded and
    /// accepted; one already seen is refused and changes nothing.
    pub fn accept(&mut self, replica: &Replica) -> (b: bool)
        ensures
            b == unseen(old(self)@, *replica),
            b ==> final(self)@ == old(self)@.insert(replica.site, replica.counter),
            !b ==> final(self)@ == old(self)@,
    {
        if !self.is_new(replica) {
            return false;
        }
        self.record(replica);
        true
    }

    /// Gives the increments recorded without a site (site 0) the site.
    pub fn add_site(&mut self, site: u32)
        ensures
            final(self)@ == with_site(old(self)@, site),
    {
        if let Some(counter) = self.inner.remove(&0) {
            self.inner.insert(site, counter);
        }
    }
}

/// An increment taken once is refused the second time: taking the same
/// increment twice changes the counters as taking it once.
pub proof fn lemma_accept_twice(m: Map<u32, u32>, r: Replica)
    requires
        unseen(m, r),
    ensures
        !unseen(m.insert(r.site, r.counter), r),
{
}

} // verus!
