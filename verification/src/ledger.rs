//! Counts kept against a key: a map from a `u64` to how many of something are outstanding,
//! each count at least one.

use vstd::prelude::*;
use std::collections::HashMap;

verus! {

/// A ledger of counts, keyed by `u64`.
pub struct Counts {
    counts: HashMap<u64, u32>,
}

impl Counts {
    pub closed spec fn view(&self) -> Map<u64, nat> {
        self.counts@.map_values(|c: u32| c as nat)
    }

    pub closed spec fn wf(&self) -> bool {
        forall|k: u64| self.counts@.contains_key(k) ==> #[trigger] self.counts@[k] >= 1
    }

    /// Every count held is at least one.
    pub proof fn lemma_positive(&self, k: u64)
        requires self.wf(), self.view().contains_key(k),
        ensures self.view()[k] >= 1,
    {
        assert(self.counts@.contains_key(k));
    }

    pub fn new() -> (r: Self)
        ensures r.wf(), r.view() == Map::<u64, nat>::empty(),
    {
        let r = Counts { counts: HashMap::new() };
        assert(r.view() =~= Map::<u64, nat>::empty());
        r
    }

    /// How many are outstanding against `k`: zero when it holds none.
    pub fn get(&self, k: u64) -> (r: u32)
        requires self.wf(),
        ensures
            self.view().contains_key(k) ==> r as nat == self.view()[k],
            !self.view().contains_key(k) ==> r == 0,
    {
        broadcast use vstd::std_specs::hash::group_hash_axioms;
        match self.counts.get(&k) {
            Some(c) => *c,
            None => 0,
        }
    }

    /// One more against `k`.
    pub fn increment(&mut self, k: u64)
        requires
            old(self).wf(),
            !old(self).view().contains_key(k) || old(self).view()[k] < u32::MAX,
        ensures
            final(self).wf(),
            final(self).view() == old(self).view().insert(k,
                if old(self).view().contains_key(k) { old(self).view()[k] + 1 } else { 1 }),
    {
        broadcast use vstd::std_specs::hash::group_hash_axioms;
        let c = match self.counts.get(&k) {
            Some(c) => *c,
            None => 0,
        };
        self.counts.insert(k, c + 1);
        assert(self.view() =~= old(self).view().insert(k,
            if old(self).view().contains_key(k) { old(self).view()[k] + 1 } else { 1 }));
    }

    /// One fewer against `k`, which then holds none when it held one. Nothing held, nothing done.
    pub fn decrement(&mut self, k: u64)
        requires old(self).wf(),
        ensures
            final(self).wf(),
            !old(self).view().contains_key(k) ==> final(self).view() == old(self).view(),
            old(self).view().contains_key(k) && old(self).view()[k] == 1 ==> final(self).view() == old(self).view().remove(k),
            old(self).view().contains_key(k) && old(self).view()[k] > 1
                ==> final(self).view() == old(self).view().insert(k, (old(self).view()[k] - 1) as nat),
    {
        broadcast use vstd::std_specs::hash::group_hash_axioms;
        match self.counts.get(&k) {
            Some(c) => {
                let c = *c;
                if c > 1 {
                    self.counts.insert(k, c - 1);
                    assert(self.view() =~= old(self).view().insert(k, (old(self).view()[k] - 1) as nat));
                } else {
                    self.counts.remove(&k);
                    assert(self.view() =~= old(self).view().remove(k));
                }
            }
            None => {}
        }
    }

    /// Nothing held against `k`.
    pub fn clear(&mut self, k: u64)
        requires old(self).wf(),
        ensures final(self).wf(), final(self).view() == old(self).view().remove(k),
    {
        broadcast use vstd::std_specs::hash::group_hash_axioms;
        self.counts.remove(&k);
        assert(self.view() =~= old(self).view().remove(k));
    }
}

} // verus!
