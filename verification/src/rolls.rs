//! The rolls hull forms present their broadside at, kept by form hash. Working one out takes a
//! form grid, too slow for a frame, so each is a task of its own: the first ask for a form starts
//! it, later asks wait for it, and once it lands the roll is kept, a while after no craft is
//! drawn in the form any more.
//!
//! The tasks are the caller's: it starts one when told to, and hands back those it finds done.

use vstd::prelude::*;
use std::collections::{HashMap, HashSet};

verus! {

/// Rolls kept for forms no craft is drawn in any more.
pub const ROLLS_KEPT: usize = 64;

/// What an ask for a form's roll comes to.
#[derive(Clone, Copy, Debug)]
pub enum Ask<T> {
    /// Its roll, worked out already.
    Ready(T),
    /// Nothing yet: start the task that works it out.
    Start,
    /// Nothing yet: its task is under way.
    Wait,
}

/// The rolls and tasks once the finished tasks in `done` have landed, in turn: one whose form is
/// pending is kept and the form is pending no more; one whose form is not is passed over.
pub open spec fn arrived<T>(ready: Map<u64, T>, pending: Set<u64>, done: Seq<(u64, T)>) -> (Map<u64, T>, Set<u64>)
    decreases done.len(),
{
    if done.len() == 0 {
        (ready, pending)
    } else {
        let (r, p) = arrived(ready, pending, done.drop_last());
        let (h, v) = done.last();
        if p.contains(h) {
            (r.insert(h, v), p.remove(h))
        } else {
            (r, p)
        }
    }
}

/// What is kept of `ready` once the rolls are trimmed: past [`ROLLS_KEPT`], those of wanted
/// forms alone.
pub open spec fn trimmed<T>(ready: Map<u64, T>, wanted: Seq<u64>) -> Map<u64, T> {
    if ready.len() > ROLLS_KEPT {
        ready.restrict(wanted.to_set())
    } else {
        ready
    }
}

/// The rolls worked out, by form hash, and the forms whose tasks are under way.
pub struct Rolls<T> {
    ready: HashMap<u64, T>,
    pending: HashSet<u64>,
}

impl<T: Copy> Rolls<T> {
    /// The rolls kept, by form hash.
    pub closed spec fn ready_of(&self) -> Map<u64, T> {
        self.ready@
    }

    /// The forms whose tasks are under way.
    pub closed spec fn pending_of(&self) -> Set<u64> {
        self.pending@
    }

    /// No form both ready and pending.
    pub open spec fn wf(&self) -> bool {
        forall|k: u64| !(#[trigger] self.ready_of().contains_key(k) && self.pending_of().contains(k))
    }

    pub fn new() -> (r: Rolls<T>)
        ensures
            r.wf(),
            r.ready_of() == Map::<u64, T>::empty(),
            r.pending_of() == Set::<u64>::empty(),
    {
        Rolls { ready: HashMap::new(), pending: HashSet::new() }
    }

    /// The roll of the form `hash`, if it is ready; else whether its task must be started, which
    /// then counts as under way, or is under way already.
    pub fn get(&mut self, hash: u64) -> (r: Ask<T>)
        requires
            old(self).wf(),
        ensures
            final(self).wf(),
            final(self).ready_of() == old(self).ready_of(),
            if old(self).ready_of().contains_key(hash) {
                r == Ask::Ready(old(self).ready_of()[hash]) && final(self).pending_of() == old(self).pending_of()
            } else if old(self).pending_of().contains(hash) {
                r is Wait && final(self).pending_of() == old(self).pending_of()
            } else {
                r is Start && final(self).pending_of() == old(self).pending_of().insert(hash)
            },
    {
        broadcast use vstd::std_specs::hash::group_hash_axioms;
        match self.ready.get(&hash) {
            Some(v) => {
                return Ask::Ready(*v);
            },
            None => {},
        }
        if self.pending.contains(&hash) {
            Ask::Wait
        } else {
            self.pending.insert(hash);
            proof {
                assert forall|k: u64| !(#[trigger] self.ready_of().contains_key(k) && self.pending_of().contains(k)) by {
                    assert(!(old(self).ready_of().contains_key(k) && old(self).pending_of().contains(k)));
                }
            }
            Ask::Start
        }
    }

    /// Lands the tasks the caller found finished, `done`, each with the form it was for; then,
    /// past [`ROLLS_KEPT`] rolls, keeps those of the `wanted` forms alone.
    pub fn land(&mut self, done: &Vec<(u64, T)>, wanted: &Vec<u64>)
        requires
            old(self).wf(),
        ensures
            final(self).wf(),
            final(self).pending_of() == arrived(old(self).ready_of(), old(self).pending_of(), done@).1,
            final(self).ready_of() == trimmed(arrived(old(self).ready_of(), old(self).pending_of(), done@).0, wanted@),
    {
        broadcast use vstd::std_specs::hash::group_hash_axioms;
        let ghost ready0 = self.ready@;
        let ghost pending0 = self.pending@;
        let mut i: usize = 0;
        while i < done.len()
            invariant
                i <= done@.len(),
                self.wf(),
                (self.ready@, self.pending@) == arrived(ready0, pending0, done@.take(i as int)),
            decreases done@.len() - i,
        {
            proof {
                assert(done@.take(i as int + 1).drop_last() =~= done@.take(i as int));
                assert(done@.take(i as int + 1).last() == done@[i as int]);
            }
            let (h, v) = done[i];
            if self.pending.contains(&h) {
                let ghost r0 = self.ready@;
                let ghost p0 = self.pending@;
                proof {
                    assert forall|k: u64| !(r0.contains_key(k) && p0.contains(k)) by {
                        assert(!(self.ready_of().contains_key(k) && self.pending_of().contains(k)));
                    }
                }
                self.pending.remove(&h);
                self.ready.insert(h, v);
                proof {
                    assert(self.pending@ =~= p0.remove(h));
                    assert(self.ready@ =~= r0.insert(h, v));
                    assert forall|k: u64| !(#[trigger] self.ready_of().contains_key(k) && self.pending_of().contains(k)) by {
                        assert(!(r0.contains_key(k) && p0.contains(k)));
                    }
                }
            }
            i = i + 1;
        }
        proof {
            assert(done@.take(done@.len() as int) =~= done@);
        }
        if self.ready.len() > ROLLS_KEPT {
            let mut kept: HashMap<u64, T> = HashMap::new();
            let mut j: usize = 0;
            while j < wanted.len()
                invariant
                    j <= wanted@.len(),
                    self.wf(),
                    forall|k: u64| #[trigger] kept@.contains_key(k)
                        <==> (self.ready@.contains_key(k) && exists|m: int| 0 <= m < j && wanted@[m] == k),
                    forall|k: u64| #[trigger] kept@.contains_key(k) ==> kept@[k] == self.ready@[k],
                decreases wanted@.len() - j,
            {
                let w = wanted[j];
                match self.ready.get(&w) {
                    Some(v) => {
                        kept.insert(w, *v);
                    },
                    None => {},
                }
                proof {
                    assert forall|k: u64| #[trigger] kept@.contains_key(k)
                        <==> (self.ready@.contains_key(k) && exists|m: int| 0 <= m < j + 1 && wanted@[m] == k) by {
                        if k == w { assert(wanted@[j as int] == k); }
                    }
                }
                j = j + 1;
            }
            proof {
                let r = self.ready@;
                assert forall|k: u64| !(#[trigger] kept@.contains_key(k) && self.pending@.contains(k)) by {
                    assert(!(self.ready_of().contains_key(k) && self.pending_of().contains(k)));
                }
                assert forall|k: u64| #[trigger] kept@.contains_key(k) <==> r.restrict(wanted@.to_set()).contains_key(k) by {
                    if r.contains_key(k) && wanted@.to_set().contains(k) {
                        assert(wanted@.contains(k));
                    }
                }
                assert(kept@ =~= r.restrict(wanted@.to_set()));
            }
            self.ready = kept;
        }
    }
}

} // verus!
