//! Stopping all units when the supervisor exits: the processes that were
//! sent SIGTERM are awaited until a deadline; those still alive then get
//! SIGKILL.

use vstd::prelude::*;
use std::collections::HashMap;
use vstd::std_specs::hash::spec_hash_map_iter;
use vstd::std_specs::iter::IteratorSpec;
use crate::unit_manager::{KILL_DELAY, time_ok};

verus! {

broadcast use vstd::std_specs::hash::group_hash_axioms;

/// The processes awaited on exit, by id, with their units' names.
pub struct ExitWaiter {
    awaited: HashMap<i32, String>,
    deadline: u64,
}

impl ExitWaiter {
    /// The processes awaited, by id, with their units' names.
    pub closed spec fn awaited(&self) -> Map<i32, Seq<char>> {
        Map::new(|p: i32| self.awaited@.contains_key(p), |p: i32| self.awaited@[p]@)
    }

    /// The time until which they are awaited.
    pub closed spec fn deadline(&self) -> u64 {
        self.deadline
    }

    /// Awaits nothing yet, until `KILL_DELAY` after `now`.
    pub fn new(now: u64) -> (w: ExitWaiter)
        requires
            time_ok(now),
        ensures
            w.awaited().dom() == Set::<i32>::empty(),
            w.deadline() == now + KILL_DELAY,
    {
        let w = ExitWaiter { awaited: HashMap::new(), deadline: now + KILL_DELAY };
        assert(w.awaited().dom() =~= Set::<i32>::empty());
        w
    }

    /// Awaits the process `pid` of the unit `name`, which was sent SIGTERM.
    pub fn await_unit(&mut self, pid: i32, name: String)
        ensures
            final(self).awaited() == old(self).awaited().insert(pid, name@),
            final(self).deadline() == old(self).deadline(),
    {
        let ghost n = name@;
        self.awaited.insert(pid, name);
        assert(self.awaited() =~= old(self).awaited().insert(pid, n));
    }

    /// Records that the process `pid` was reaped.
    pub fn reaped(&mut self, pid: i32)
        ensures
            final(self).awaited() == old(self).awaited().remove(pid),
            final(self).deadline() == old(self).deadline(),
    {
        self.awaited.remove(&pid);
        assert(self.awaited() =~= old(self).awaited().remove(pid));
    }

    /// The time left until the deadline, or `None` once it has passed.
    pub fn time_left(&self, now: u64) -> (r: Option<u64>)
        ensures
            self.deadline() >= now ==> r == Some((self.deadline() - now) as u64),
            self.deadline() < now ==> r is None,
    {
        if self.deadline >= now {
            Some(self.deadline - now)
        } else {
            None
        }
    }

    /// Whether to go on waiting: some process is still awaited and the
    /// deadline has not passed.
    pub fn keep_waiting(&self, time_left: Option<u64>) -> (r: bool)
        ensures
            r == (self.awaited().dom() != Set::<i32>::empty() && time_left is Some),
    {
        let empty = self.awaited.is_empty();
        proof {
            if empty {
                assert(self.awaited().dom() =~= Set::<i32>::empty());
            } else {
                assert(self.awaited@.dom().len() > 0);
                let p = self.awaited@.dom().choose();
                assert(self.awaited().dom().contains(p));
            }
        }
        !empty && time_left.is_some()
    }

    /// The processes still awaited, with their units' names, in no
    /// particular order.
    pub fn remaining(&self) -> (r: Vec<(i32, String)>)
        ensures
            r@.len() == self.awaited().dom().len(),
            forall|i: int| 0 <= i < r@.len() ==> self.awaited().contains_key((#[trigger] r@[i]).0)
                && self.awaited()[r@[i].0] == r@[i].1@,
            forall|p: i32| #[trigger] self.awaited().contains_key(p) ==> exists|i: int| 0 <= i < r@.len() && r@[i].0 == p,
    {
        let mut out: Vec<(i32, String)> = Vec::new();
        let ghost v = spec_hash_map_iter(&self.awaited).remaining();
        for entry in it: self.awaited.iter()
            invariant
                it.seq() == v,
                v == spec_hash_map_iter(&self.awaited).remaining(),
                out@.len() == it.index(),
                it.index() <= v.len(),
                forall|i: int| 0 <= i < out@.len() ==> (#[trigger] out@[i]).0 == *v[i].0
                    && out@[i].1 == *v[i].1,
        {
            let (pid, name) = entry;
            out.push((*pid, name.clone()));
        }
        assert(out@.len() == v.len());
        assert forall|i: int| 0 <= i < out@.len() implies self.awaited().contains_key((#[trigger] out@[i]).0)
            && self.awaited()[out@[i].0] == out@[i].1@ by {
            assert(self.awaited@.contains_key(*v[i].0));
        }
        assert forall|p: i32| #[trigger] self.awaited().contains_key(p) implies exists|i: int| 0 <= i < out@.len() && out@[i].0 == p by {
            assert(self.awaited@.contains_key(p));
            assert(v.contains((&p, &self.awaited@[p])));
            let i = choose|i: int| 0 <= i < v.len() && v[i] == (&p, &self.awaited@[p]);
            assert(out@[i].0 == p);
        }
        assert(self.awaited().dom() =~= self.awaited@.dom());
        out
    }
}

} // verus!
