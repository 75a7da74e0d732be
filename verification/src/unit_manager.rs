//! The units, their processes and their timers: what the supervisor wants of
//! each unit, and what it asks the system to do about it.
//!
//! The manager never performs a system call itself. An operation that needs
//! one (starting a process, sending a signal) returns a request, and the caller
//! reports the outcome through the matching completion method.

use vstd::prelude::*;
use vstd::hash_map::StringHashMap;
use vstd::string::to_string_from_display_ensures;
use std::collections::HashMap;
use slab::Slab;
use crate::sys;
use crate::paths::{exec_path, unit_exec_path};

verus! {

broadcast use vstd::std_specs::hash::group_hash_axioms;

/// Milliseconds to wait before a unit that died or failed to start is started again.
pub const RESTART_DELAY: u64 = 1000;

/// Milliseconds between a SIGTERM sent to a unit and the SIGKILL that follows it.
pub const KILL_DELAY: u64 = 5000;

/// Times are milliseconds on a monotonic clock; a time must leave room for
/// the longest delay to be added to it.
pub open spec fn time_ok(now: u64) -> bool {
    now + KILL_DELAY <= u64::MAX
}

/// A unit as the manager holds it.
pub struct Unit {
    pub pid: Option<i32>,
    pub want_alive: bool,
    pub want_removed: bool,
    pub termination_requested: bool,
    pub name: String,
}

/// The abstract state of a unit.
pub struct UnitState {
    pub pid: Option<i32>,
    pub want_alive: bool,
    pub want_removed: bool,
    pub termination_requested: bool,
    pub name: Seq<char>,
}

impl Unit {
    pub open spec fn state(self) -> UnitState {
        UnitState {
            pid: self.pid,
            want_alive: self.want_alive,
            want_removed: self.want_removed,
            termination_requested: self.termination_requested,
            name: self.name@,
        }
    }
}

/// A pending timer: at `instant`, the unit `key` is looked at again.
pub struct Timer {
    pub instant: u64,
    pub key: usize,
}

#[verifier::ext_equal]
/// What a unit manager holds, abstractly: the directory of the units, the
/// units by key, the time of the timer that each key has, if any, and the
/// key that each recorded process id leads to. A process id stays recorded
/// until its process is reaped, also when its unit was forgotten meanwhile.
pub struct UnitManagerView {
    pub units_path: Seq<char>,
    pub units: Map<usize, UnitState>,
    pub timers: Map<usize, u64>,
    pub pids: Map<i32, usize>,
}

/// The key under which a unit is stored.
#[derive(Copy, Clone, Debug)]
pub struct UnitKey(pub usize);

/// What `status` reports of a unit.
#[derive(Debug)]
pub struct UnitStatus {
    pub pid: Option<i32>,
    pub want_alive: bool,
}

/// Why an operation on a unit failed.
#[derive(Debug)]
pub enum Error {
    NotFound,
    System(sys::Error),
    Io(std::io::Error),
}

impl Error {
    /// `text` is the text of this error: the fixed text of `NotFound`, the
    /// failed call's text for `System`, and the text that `to_string` gives
    /// for the system's error for `Io`.
    pub open spec fn describes(self, text: Seq<char>) -> bool {
        match self {
            Error::NotFound => text == "unit not found"@,
            Error::System(e) => e.message_is(text),
            Error::Io(e) => exists|description: String|
                #[trigger] to_string_from_display_ensures::<std::io::Error>(&e, description)
                    && text == description@,
        }
    }

    /// The text of the error.
    pub fn message(&self) -> (r: String)
        ensures
            self.describes(r@),
    {
        match self {
            Error::NotFound => "unit not found".to_owned(),
            Error::System(e) => e.message(),
            Error::Io(e) => e.to_string(),
        }
    }
}

/// The signals that the manager asks to be sent to a unit's process.
#[derive(Copy, Clone, Debug, PartialEq, Eq)]
pub enum Signal {
    Terminate,
    Kill,
}

/// A request to start the process of unit `key` from `exec_path`.
#[derive(Debug)]
pub struct SpawnRequest {
    pub key: UnitKey,
    pub name: String,
    pub exec_path: String,
}

/// A request to send `signal` to the process `pid` of unit `key`.
#[derive(Debug)]
pub struct KillRequest {
    pub key: UnitKey,
    pub name: String,
    pub pid: i32,
    pub signal: Signal,
}

/// The outcome of `start`: the unit already runs, or its process must be started.
#[derive(Debug)]
pub enum StartStep {
    Running(i32),
    Spawn(SpawnRequest),
}

/// The outcome of `notify_terminated`.
#[derive(Debug)]
pub enum Reaped {
    /// No unit runs under that process id.
    Unrecognized,
    /// The unit's record was updated; nothing needs to be started now.
    Handled,
    /// The unit must be started again at once.
    Restart(SpawnRequest),
}

/// What to do about the unit whose timer came due.
#[derive(Debug)]
pub enum TimerStep {
    Spawn(SpawnRequest),
    Kill(KillRequest),
    Idle,
}

// ----- the slab that stores the units -----

/// The units that a slab stores, by key.
pub uninterp spec fn unit_slab_entries(slab: Slab<Unit>) -> Map<usize, Unit>;

/// `Slab::new`: an empty slab.
#[verifier::external_body]
fn unit_slab_new() -> (fresh: Slab<Unit>)
    ensures
        unit_slab_entries(fresh).dom() == Set::<usize>::empty(),
{
    Slab::new()
}

/// `Slab::insert`: stores `unit` under a key that was vacant and returns the key.
#[verifier::external_body]
fn unit_slab_insert(slab: &mut Slab<Unit>, unit: Unit) -> (key: usize)
    ensures
        !unit_slab_entries(*old(slab)).contains_key(key),
        unit_slab_entries(*final(slab)) == unit_slab_entries(*old(slab)).insert(key, unit),
{
    slab.insert(unit)
}

/// `Slab::get`: the unit stored under `key`, if any.
#[verifier::external_body]
fn unit_slab_get(slab: &Slab<Unit>, key: usize) -> (r: Option<&Unit>)
    ensures
        r is Some == unit_slab_entries(*slab).contains_key(key),
        r matches Some(u) ==> *u == unit_slab_entries(*slab)[key],
{
    slab.get(key)
}

/// `Slab::index_mut`, assigned to: replaces the unit stored under `key`.
/// The slab panics on a vacant key, which `requires` leaves out.
#[verifier::external_body]
fn unit_slab_replace(slab: &mut Slab<Unit>, key: usize, unit: Unit)
    requires
        unit_slab_entries(*old(slab)).contains_key(key),
    ensures
        unit_slab_entries(*final(slab)) == unit_slab_entries(*old(slab)).insert(key, unit),
{
    slab[key] = unit;
}

/// `Slab::remove`: takes the unit stored under `key` out of the slab. The
/// slab panics on a vacant key, which `requires` leaves out.
#[verifier::external_body]
fn unit_slab_remove(slab: &mut Slab<Unit>, key: usize) -> (unit: Unit)
    requires
        unit_slab_entries(*old(slab)).contains_key(key),
    ensures
        unit == unit_slab_entries(*old(slab))[key],
        unit_slab_entries(*final(slab)) == unit_slab_entries(*old(slab)).remove(key),
{
    slab.remove(key)
}

/// `Slab::iter`, keeping the keys: the occupied keys in increasing order,
/// which is the order in which the slab walks its entries.
#[verifier::external_body]
fn unit_slab_keys(slab: &Slab<Unit>) -> (keys: Vec<usize>)
    ensures
        forall|i: int, j: int| 0 <= i < j < keys@.len() ==> keys@[i] < keys@[j],
        forall|k: usize| keys@.contains(k) <==> unit_slab_entries(*slab).contains_key(k),
{
    slab.iter().map(|entry| entry.0).collect()
}

// ----- timers -----

pub open spec fn keys_distinct(ts: Seq<Timer>) -> bool {
    forall|i: int, j: int| 0 <= i < ts.len() && 0 <= j < ts.len() && i != j ==> ts[i].key != ts[j].key
}

/// The timers of a queue, by key.
pub open spec fn timer_map(ts: Seq<Timer>) -> Map<usize, u64> {
    Map::new(
        |k: usize| exists|i: int| 0 <= i < ts.len() && ts[i].key == k,
        |k: usize| ts[choose|i: int| 0 <= i < ts.len() && ts[i].key == k].instant,
    )
}

proof fn lemma_timer_map_at(ts: Seq<Timer>, i: int)
    requires
        keys_distinct(ts),
        0 <= i < ts.len(),
    ensures
        timer_map(ts).contains_key(ts[i].key),
        timer_map(ts)[ts[i].key] == ts[i].instant,
{
    let k = ts[i].key;
    assert(exists|j: int| 0 <= j < ts.len() && ts[j].key == k);
    let j = choose|j: int| 0 <= j < ts.len() && ts[j].key == k;
    assert(j == i);
}

proof fn lemma_timer_map_push(ts: Seq<Timer>, t: Timer)
    requires
        keys_distinct(ts),
        !timer_map(ts).contains_key(t.key),
    ensures
        keys_distinct(ts.push(t)),
        timer_map(ts.push(t)) == timer_map(ts).insert(t.key, t.instant),
{
    let ts2 = ts.push(t);
    assert forall|i: int| 0 <= i < ts.len() implies ts[i].key != t.key by {
        lemma_timer_map_at(ts, i);
    }
    assert(keys_distinct(ts2));
    assert forall|k: usize| #[trigger] timer_map(ts2).contains_key(k) <==> timer_map(ts).insert(t.key, t.instant).contains_key(k) by {
        if timer_map(ts).contains_key(k) {
            let i = choose|i: int| 0 <= i < ts.len() && ts[i].key == k;
            assert(ts2[i].key == k);
        }
        if k == t.key {
            assert(ts2[ts.len() as int].key == k);
        }
        if timer_map(ts2).contains_key(k) {
            let i = choose|i: int| 0 <= i < ts2.len() && ts2[i].key == k;
            if i < ts.len() {
                assert(ts[i].key == k);
            }
        }
    }
    assert forall|k: usize| timer_map(ts2).contains_key(k) implies #[trigger] timer_map(ts2)[k] == timer_map(ts).insert(t.key, t.instant)[k] by {
        let i = choose|i: int| 0 <= i < ts2.len() && ts2[i].key == k;
        lemma_timer_map_at(ts2, i);
        if i < ts.len() {
            lemma_timer_map_at(ts, i);
        }
    }
    assert(timer_map(ts2) =~= timer_map(ts).insert(t.key, t.instant));
}

proof fn lemma_timer_map_remove(ts: Seq<Timer>, i: int)
    requires
        keys_distinct(ts),
        0 <= i < ts.len(),
    ensures
        keys_distinct(ts.remove(i)),
        timer_map(ts.remove(i)) == timer_map(ts).remove(ts[i].key),
{
    let ts2 = ts.remove(i);
    let k0 = ts[i].key;
    assert(keys_distinct(ts2)) by {
        assert forall|a: int, b: int| 0 <= a < ts2.len() && 0 <= b < ts2.len() && a != b implies ts2[a].key != ts2[b].key by {
            let a0 = if a < i { a } else { a + 1 };
            let b0 = if b < i { b } else { b + 1 };
            assert(ts2[a] == ts[a0]);
            assert(ts2[b] == ts[b0]);
        }
    }
    assert forall|k: usize| #[trigger] timer_map(ts2).contains_key(k) <==> timer_map(ts).remove(k0).contains_key(k) by {
        if timer_map(ts2).contains_key(k) {
            let a = choose|a: int| 0 <= a < ts2.len() && ts2[a].key == k;
            let a0 = if a < i { a } else { a + 1 };
            assert(ts2[a] == ts[a0]);
            assert(ts[a0].key == k);
        }
        if timer_map(ts).remove(k0).contains_key(k) {
            let a0 = choose|a: int| 0 <= a < ts.len() && ts[a].key == k;
            assert(a0 != i);
            let a = if a0 < i { a0 } else { a0 - 1 };
            assert(ts2[a] == ts[a0]);
        }
    }
    assert forall|k: usize| timer_map(ts2).contains_key(k) implies #[trigger] timer_map(ts2)[k] == timer_map(ts).remove(k0)[k] by {
        let a = choose|a: int| 0 <= a < ts2.len() && ts2[a].key == k;
        let a0 = if a < i { a } else { a + 1 };
        assert(ts2[a] == ts[a0]);
        lemma_timer_map_at(ts2, a);
        lemma_timer_map_at(ts, a0);
    }
    assert(timer_map(ts2) =~= timer_map(ts).remove(k0));
}

/// The index of the timer of `key` in the queue, if it has one.
fn timer_position(timers: &Vec<Timer>, key: usize) -> (r: Option<usize>)
    ensures
        match r {
            Some(i) => i < timers@.len() && timers@[i as int].key == key,
            None => forall|i: int| 0 <= i < timers@.len() ==> timers@[i].key != key,
        },
{
    let mut i: usize = 0;
    while i < timers.len()
        invariant
            i <= timers@.len(),
            forall|j: int| 0 <= j < i ==> timers@[j].key != key,
        decreases timers@.len() - i,
    {
        if timers[i].key == key {
            return Some(i);
        }
        i = i + 1;
    }
    None
}

/// Drops the timer of `key`, if it has one.
fn clear_timer(timers: &mut Vec<Timer>, key: usize)
    requires
        keys_distinct(old(timers)@),
    ensures
        keys_distinct(final(timers)@),
        timer_map(final(timers)@) == timer_map(old(timers)@).remove(key),
        forall|i: int| 0 <= i < final(timers)@.len() ==> old(timers)@.contains(#[trigger] final(timers)@[i]),
{
    match timer_position(timers, key) {
        Some(i) => {
            proof {
                lemma_timer_map_remove(timers@, i as int);
            }
            let ghost before = timers@;
            timers.remove(i);
            assert forall|j: int| 0 <= j < timers@.len() implies before.contains(#[trigger] timers@[j]) by {
                let j0 = if j < i { j } else { j + 1 };
                assert(timers@[j] == before[j0]);
            }
        },
        None => {
            assert(!timer_map(timers@).contains_key(key));
            assert(timer_map(timers@).remove(key) =~= timer_map(timers@));
        },
    }
}

/// Gives `key` a timer at `instant`, replacing the one it had.
fn set_timer(timers: &mut Vec<Timer>, key: usize, instant: u64)
    requires
        keys_distinct(old(timers)@),
    ensures
        keys_distinct(final(timers)@),
        timer_map(final(timers)@) == timer_map(old(timers)@).insert(key, instant),
        forall|i: int| 0 <= i < final(timers)@.len() ==> (old(timers)@.contains(#[trigger] final(timers)@[i]) || final(timers)@[i].key == key),
{
    clear_timer(timers, key);
    let ghost mid = timers@;
    proof {
        lemma_timer_map_push(timers@, Timer { instant, key });
    }
    timers.push(Timer { instant, key });
    assert(timer_map(old(timers)@).remove(key).insert(key, instant) =~= timer_map(old(timers)@).insert(key, instant));
    assert forall|i: int| 0 <= i < timers@.len() implies (old(timers)@.contains(#[trigger] timers@[i]) || timers@[i].key == key) by {
        if i < mid.len() {
            assert(timers@[i] == mid[i]);
        }
    }
}

/// The index of a timer with the earliest instant, if there is a timer.
fn earliest_timer(timers: &Vec<Timer>) -> (r: Option<usize>)
    ensures
        match r {
            Some(i) => i < timers@.len() && forall|j: int| 0 <= j < timers@.len() ==> timers@[i as int].instant <= #[trigger] timers@[j].instant,
            None => timers@.len() == 0,
        },
{
    if timers.len() == 0 {
        return None;
    }
    let mut best: usize = 0;
    let mut i: usize = 1;
    while i < timers.len()
        invariant
            1 <= i <= timers@.len(),
            best < i,
            forall|j: int| 0 <= j < i ==> timers@[best as int].instant <= #[trigger] timers@[j].instant,
        decreases timers@.len() - i,
    {
        if timers[i].instant < timers[best].instant {
            best = i;
        }
        i = i + 1;
    }
    Some(best)
}


// ----- the manager -----

impl UnitManagerView {
    /// The key of the unit named `name`, if there is one.
    pub open spec fn key_of(self, name: Seq<char>) -> Option<usize> {
        if exists|k: usize| self.units.contains_key(k) && self.units[k].name == name {
            Some(choose|k: usize| self.units.contains_key(k) && self.units[k].name == name)
        } else {
            None
        }
    }

    pub open spec fn with_pid(self, pid: i32, key: usize) -> UnitManagerView {
        UnitManagerView { pids: self.pids.insert(pid, key), ..self }
    }

    pub open spec fn without_pid(self, pid: i32) -> UnitManagerView {
        UnitManagerView { pids: self.pids.remove(pid), ..self }
    }

    pub open spec fn with_unit(self, key: usize, unit: UnitState) -> UnitManagerView {
        UnitManagerView { units: self.units.insert(key, unit), ..self }
    }

    pub open spec fn with_timer(self, key: usize, instant: u64) -> UnitManagerView {
        UnitManagerView { timers: self.timers.insert(key, instant), ..self }
    }

    pub open spec fn without_timer(self, key: usize) -> UnitManagerView {
        UnitManagerView { timers: self.timers.remove(key), ..self }
    }

    pub open spec fn without_unit(self, key: usize) -> UnitManagerView {
        UnitManagerView { units: self.units.remove(key), timers: self.timers.remove(key), ..self }
    }

    /// Every state of a manager: names and process ids each belong to one
    /// unit, process ids are positive, the process id of a unit leads to it,
    /// and only units have timers.
    pub open spec fn consistent(self) -> bool {
        &&& forall|k1: usize, k2: usize|
            #![trigger self.units[k1].name, self.units[k2].name]
            self.units.contains_key(k1) && self.units.contains_key(k2) && k1 != k2
                ==> self.units[k1].name != self.units[k2].name
        &&& forall|k1: usize, k2: usize|
            #![trigger self.units[k1].pid, self.units[k2].pid]
            self.units.contains_key(k1) && self.units.contains_key(k2) && k1 != k2
                && self.units[k1].pid is Some ==> self.units[k1].pid != self.units[k2].pid
        &&& forall|k: usize| #[trigger] self.units.contains_key(k) && self.units[k].pid is Some
            ==> self.units[k].pid->0 > 0 && self.pids.contains_key(self.units[k].pid->0)
                && self.pids[self.units[k].pid->0] == k
        &&& forall|k: usize| #[trigger] self.timers.contains_key(k) ==> self.units.contains_key(k)
    }

    /// `key` holds a timer that is due at `now` and no timer is earlier.
    pub open spec fn earliest_due(self, key: usize, now: u64) -> bool {
        &&& self.timers.contains_key(key)
        &&& self.timers[key] <= now
        &&& forall|k: usize| #[trigger] self.timers.contains_key(k) ==> self.timers[key] <= self.timers[k]
    }

    /// `out` lists the units that have a process, as (pid, name), in the
    /// increasing order of their keys `keys`.
    pub open spec fn alive_listing(self, keys: Seq<usize>, out: Seq<(i32, String)>) -> bool {
        &&& forall|i: int, j: int| 0 <= i < j < keys.len() ==> keys[i] < keys[j]
        &&& forall|k: usize| keys.contains(k) <==> (self.units.contains_key(k) && self.units[k].pid is Some)
        &&& out.len() == keys.len()
        &&& forall|i: int| 0 <= i < keys.len() ==> (#[trigger] out[i]).0 == self.units[keys[i]].pid->0
            && out[i].1@ == self.units[keys[i]].name
    }
}

// ----- laws -----

/// A unit added under a new name is found by that name; every other name
/// is found where it was.
pub proof fn lemma_added_unit_is_found(v: UnitManagerView, key: usize, unit: UnitState, name: Seq<char>)
    requires
        v.consistent(),
        !v.units.contains_key(key),
        v.key_of(unit.name) is None,
    ensures
        v.with_unit(key, unit).key_of(name) == (if name == unit.name {
            Some(key)
        } else {
            v.key_of(name)
        }),
{
    let w = v.with_unit(key, unit);
    if name == unit.name {
        assert(w.units.contains_key(key) && w.units[key].name == name);
        let k = choose|k: usize| w.units.contains_key(k) && w.units[k].name == name;
        if k != key {
            assert(v.units.contains_key(k) && v.units[k].name == unit.name);
        }
    } else {
        if exists|k: usize| v.units.contains_key(k) && v.units[k].name == name {
            let k = choose|k: usize| v.units.contains_key(k) && v.units[k].name == name;
            assert(w.units.contains_key(k) && w.units[k].name == name);
            let k2 = choose|k2: usize| w.units.contains_key(k2) && w.units[k2].name == name;
            assert(v.units.contains_key(k2));
        } else {
            assert forall|k: usize| w.units.contains_key(k) implies w.units[k].name != name by {
                if k != key {
                    assert(v.units.contains_key(k));
                }
            }
        }
    }
}

/// Changing what is recorded of a unit, other than its name, leaves every
/// name where it was; so do timers.
pub proof fn lemma_names_kept(v: UnitManagerView, key: usize, unit: UnitState, name: Seq<char>)
    requires
        v.consistent(),
        v.units.contains_key(key),
        unit.name == v.units[key].name,
    ensures
        v.with_unit(key, unit).key_of(name) == v.key_of(name),
{
    let w = v.with_unit(key, unit);
    assert forall|k: usize| w.units.contains_key(k) && w.units[k].name == name
        <==> v.units.contains_key(k) && v.units[k].name == name by {}
    if exists|k: usize| v.units.contains_key(k) && v.units[k].name == name {
        let k1 = choose|k: usize| v.units.contains_key(k) && v.units[k].name == name;
        assert(w.units.contains_key(k1) && w.units[k1].name == name);
        let k2 = choose|k: usize| w.units.contains_key(k) && w.units[k].name == name;
        assert(v.units.contains_key(k2) && v.units[k2].name == name);
        assert(v.units[k1].name == v.units[k2].name);
    }
}

/// A unit that was stopped while it had a process, and is left alone, gets
/// SIGKILL when its timer comes due, `KILL_DELAY` after it was stopped.
pub proof fn lemma_stop_escalates(v: UnitManagerView, key: usize, now: u64, step: TimerStep)
    requires
        v.units.contains_key(key),
        v.units[key].pid is Some,
        time_ok(now),
    ensures
        ({
            let stopped = v.with_unit(
                key,
                UnitState { want_alive: false, termination_requested: true, ..v.units[key] },
            ).with_timer(key, (now + KILL_DELAY) as u64);
            &&& stopped.timers[key] == now + KILL_DELAY
            &&& timer_step(stopped, key, step) <==> (step matches TimerStep::Kill(req) && kills(
                stopped,
                key,
                req,
                Signal::Kill,
            ))
        }),
{
}

/// Timers come due in the order of their instants: the timer taken after
/// another is never earlier.
pub proof fn lemma_timers_fire_in_order(v: UnitManagerView, first: usize, second: usize, now1: u64, now2: u64)
    requires
        v.earliest_due(first, now1),
        v.without_timer(first).earliest_due(second, now2),
    ensures
        v.timers[first] <= v.without_timer(first).timers[second],
{
    assert(v.timers.contains_key(second));
}

/// The spawn request for unit `key` of `v` is `req`.
pub open spec fn spawns(v: UnitManagerView, key: usize, req: SpawnRequest) -> bool {
    &&& req.key.0 == key
    &&& req.name@ == v.units[key].name
    &&& req.exec_path@ == unit_exec_path(v.units_path, v.units[key].name)
}

/// The kill request for unit `key` of `v` is `req`, with `signal`.
pub open spec fn kills(v: UnitManagerView, key: usize, req: KillRequest, signal: Signal) -> bool {
    &&& req.key.0 == key
    &&& req.name@ == v.units[key].name
    &&& v.units[key].pid == Some(req.pid)
    &&& req.signal == signal
}

/// `key` holds a timer and no timer is earlier.
pub open spec fn earliest(v: UnitManagerView, key: usize) -> bool {
    &&& v.timers.contains_key(key)
    &&& forall|k: usize| #[trigger] v.timers.contains_key(k) ==> v.timers[key] <= v.timers[k]
}

/// What is done about unit `key` of `v` when its timer comes due: a unit
/// that is to be alive and has no process is started; a unit that is to be
/// dead and still has a process is sent SIGKILL; any other is left alone.
pub open spec fn timer_step(v: UnitManagerView, key: usize, step: TimerStep) -> bool {
    let u = v.units[key];
    if u.want_alive && u.pid is None {
        step matches TimerStep::Spawn(req) && spawns(v, key, req)
    } else if u.pid is Some && !u.want_alive {
        step matches TimerStep::Kill(req) && kills(v, key, req, Signal::Kill)
    } else {
        step is Idle
    }
}

/// A timer never starts a unit that is not wanted alive, and never kills a
/// unit that is: a spawn comes only for a wanted unit without a process, a
/// SIGKILL only for a process of a unit that is to stay dead.
pub proof fn lemma_timer_spawns_only_wanted_units(v: UnitManagerView, key: usize, step: TimerStep)
    requires
        timer_step(v, key, step),
    ensures
        step is Spawn ==> v.units[key].want_alive && v.units[key].pid is None,
        step is Kill ==> !v.units[key].want_alive && v.units[key].pid is Some,
        !v.units[key].want_alive ==> !(step is Spawn),
{
}

/// The time from `now` until `instant`, or zero if `instant` has passed.
pub open spec fn time_until(instant: u64, now: u64) -> u64 {
    if instant > now {
        (instant - now) as u64
    } else {
        0
    }
}

/// The maps of a manager agree with its units: each name leads to the unit
/// of that name and back, the process id of each unit that has one is
/// positive and leads to the unit, and the timers, at most one for each key,
/// belong to units.
spec fn parts_wf(units: Map<usize, Unit>, names: Map<Seq<char>, usize>, pids: Map<i32, usize>, timers: Seq<Timer>) -> bool {
    &&& forall|k: usize| #[trigger] units.contains_key(k)
        ==> names.contains_key(units[k].name@) && names[units[k].name@] == k
    &&& forall|n: Seq<char>| #[trigger] names.contains_key(n)
        ==> units.contains_key(names[n]) && units[names[n]].name@ == n
    &&& forall|k: usize| #[trigger] units.contains_key(k) && units[k].pid is Some
        ==> units[k].pid->0 > 0 && pids.contains_key(units[k].pid->0) && pids[units[k].pid->0] == k
    &&& keys_distinct(timers)
    &&& forall|i: int| 0 <= i < timers.len() ==> units.contains_key(#[trigger] timers[i].key)
}

/// Rewriting the record of a unit, with its name kept, keeps the maps in
/// agreement when the process ids of all units lead to them in `pids2`.
proof fn lemma_wf_rewrite(
    units: Map<usize, Unit>,
    names: Map<Seq<char>, usize>,
    pids: Map<i32, usize>,
    timers: Seq<Timer>,
    key: usize,
    unit: Unit,
    pids2: Map<i32, usize>,
)
    requires
        parts_wf(units, names, pids, timers),
        units.contains_key(key),
        unit.name@ == units[key].name@,
        unit.pid is Some ==> unit.pid->0 > 0 && pids2.contains_key(unit.pid->0) && pids2[unit.pid->0] == key,
        forall|k: usize| #[trigger] units.contains_key(k) && k != key && units[k].pid is Some
            ==> pids2.contains_key(units[k].pid->0) && pids2[units[k].pid->0] == k,
    ensures
        parts_wf(units.insert(key, unit), names, pids2, timers),
{
    let u2 = units.insert(key, unit);
    assert forall|k: usize| #[trigger] u2.contains_key(k) implies names.contains_key(u2[k].name@) && names[u2[k].name@] == k by {
        assert(units.contains_key(k));
    }
    assert forall|n: Seq<char>| #[trigger] names.contains_key(n) implies u2.contains_key(names[n]) && u2[names[n]].name@ == n by {
        assert(units.contains_key(names[n]));
    }
    assert forall|k: usize| #[trigger] u2.contains_key(k) && u2[k].pid is Some implies
        u2[k].pid->0 > 0 && pids2.contains_key(u2[k].pid->0) && pids2[u2[k].pid->0] == k by {
        if k != key {
            assert(units.contains_key(k));
        }
    }
    assert forall|i: int| 0 <= i < timers.len() implies u2.contains_key(#[trigger] timers[i].key) by {
        assert(units.contains_key(timers[i].key));
    }
}

/// Adding a unit without a process, under a vacant key and a new name, keeps
/// the maps in agreement.
proof fn lemma_wf_insert(
    units: Map<usize, Unit>,
    names: Map<Seq<char>, usize>,
    pids: Map<i32, usize>,
    timers: Seq<Timer>,
    key: usize,
    unit: Unit,
)
    requires
        parts_wf(units, names, pids, timers),
        !units.contains_key(key),
        !names.contains_key(unit.name@),
        unit.pid is None,
    ensures
        parts_wf(units.insert(key, unit), names.insert(unit.name@, key), pids, timers),
{
    let u2 = units.insert(key, unit);
    let n2 = names.insert(unit.name@, key);
    assert forall|k: usize| #[trigger] u2.contains_key(k) implies n2.contains_key(u2[k].name@) && n2[u2[k].name@] == k by {
        if k != key {
            assert(units.contains_key(k));
        }
    }
    assert forall|n: Seq<char>| #[trigger] n2.contains_key(n) implies u2.contains_key(n2[n]) && u2[n2[n]].name@ == n by {
        if n != unit.name@ {
            assert(names.contains_key(n));
        }
    }
    assert forall|k: usize| #[trigger] u2.contains_key(k) && u2[k].pid is Some implies
        u2[k].pid->0 > 0 && pids.contains_key(u2[k].pid->0) && pids[u2[k].pid->0] == k by {
        assert(units.contains_key(k));
    }
    assert forall|i: int| 0 <= i < timers.len() implies u2.contains_key(#[trigger] timers[i].key) by {
        assert(units.contains_key(timers[i].key));
    }
}

/// Forgetting a unit, its name and its timer keeps the maps in agreement.
proof fn lemma_wf_remove(
    units: Map<usize, Unit>,
    names: Map<Seq<char>, usize>,
    pids: Map<i32, usize>,
    timers: Seq<Timer>,
    key: usize,
    timers2: Seq<Timer>,
)
    requires
        parts_wf(units, names, pids, timers),
        units.contains_key(key),
        keys_distinct(timers2),
        timer_map(timers2) == timer_map(timers).remove(key),
        forall|i: int| 0 <= i < timers2.len() ==> timers.contains(#[trigger] timers2[i]),
    ensures
        parts_wf(units.remove(key), names.remove(units[key].name@), pids, timers2),
{
    let u2 = units.remove(key);
    let n2 = names.remove(units[key].name@);
    assert forall|k: usize| #[trigger] u2.contains_key(k) implies n2.contains_key(u2[k].name@) && n2[u2[k].name@] == k by {
        assert(units.contains_key(k));
    }
    assert forall|n: Seq<char>| #[trigger] n2.contains_key(n) implies u2.contains_key(n2[n]) && u2[n2[n]].name@ == n by {
        assert(names.contains_key(n));
    }
    assert forall|k: usize| #[trigger] u2.contains_key(k) && u2[k].pid is Some implies
        u2[k].pid->0 > 0 && pids.contains_key(u2[k].pid->0) && pids[u2[k].pid->0] == k by {
        assert(units.contains_key(k));
    }
    assert forall|i: int| 0 <= i < timers2.len() implies u2.contains_key(#[trigger] timers2[i].key) by {
        let t = timers2[i];
        let j = choose|j: int| 0 <= j < timers.len() && timers[j] == t;
        assert(units.contains_key(timers[j].key));
        lemma_timer_map_at(timers2, i);
    }
}

/// The manager of all units.
pub struct UnitManager {
    units_path: String,
    pid_to_key: HashMap<i32, usize>,
    name_to_key: StringHashMap<usize>,
    key_to_unit: Slab<Unit>,
    timers: Vec<Timer>,
}

impl View for UnitManager {
    type V = UnitManagerView;

    closed spec fn view(&self) -> UnitManagerView {
        UnitManagerView {
            units_path: self.units_path@,
            units: Map::new(
                |k: usize| unit_slab_entries(self.key_to_unit).contains_key(k),
                |k: usize| unit_slab_entries(self.key_to_unit)[k].state(),
            ),
            timers: timer_map(self.timers@),
            pids: self.pid_to_key@,
        }
    }
}

impl UnitManager {
    /// The internal maps agree with the units.
    pub closed spec fn wf(&self) -> bool {
        parts_wf(unit_slab_entries(self.key_to_unit), self.name_to_key@, self.pid_to_key@, self.timers@)
    }

    proof fn lemma_key_of(&self, name: Seq<char>)
        requires
            self.wf(),
        ensures
            self@.key_of(name) == (if self.name_to_key@.contains_key(name) {
                Some(self.name_to_key@[name])
            } else {
                None::<usize>
            }),
    {
        let v = self@;
        let units = unit_slab_entries(self.key_to_unit);
        if self.name_to_key@.contains_key(name) {
            let k = self.name_to_key@[name];
            assert(v.units.contains_key(k) && v.units[k].name == name);
            let k2 = choose|k2: usize| v.units.contains_key(k2) && v.units[k2].name == name;
            assert(units.contains_key(k2));
        } else {
            assert forall|k: usize| v.units.contains_key(k) implies v.units[k].name != name by {
                assert(units.contains_key(k));
            }
        }
    }

    /// Every well-formed manager is in a consistent state.
    pub proof fn lemma_consistent(&self)
        requires
            self.wf(),
        ensures
            self@.consistent(),
    {
        let v = self@;
        let units = unit_slab_entries(self.key_to_unit);
        assert forall|k1: usize, k2: usize|
            v.units.contains_key(k1) && v.units.contains_key(k2) && k1 != k2
            implies #[trigger] v.units[k1].name != #[trigger] v.units[k2].name by {
            assert(units.contains_key(k1));
            assert(units.contains_key(k2));
        }
        assert forall|k1: usize, k2: usize|
            v.units.contains_key(k1) && v.units.contains_key(k2) && k1 != k2 && v.units[k1].pid is Some
            implies #[trigger] v.units[k1].pid != #[trigger] v.units[k2].pid by {
            assert(units.contains_key(k1));
            assert(units.contains_key(k2));
        }
        assert forall|k: usize| #[trigger] v.units.contains_key(k) && v.units[k].pid is Some
            implies v.units[k].pid->0 > 0 && v.pids.contains_key(v.units[k].pid->0)
                && v.pids[v.units[k].pid->0] == k by {
            assert(units.contains_key(k));
        }
        assert forall|k: usize| #[trigger] v.timers.contains_key(k) implies v.units.contains_key(k) by {
            let i = choose|i: int| 0 <= i < self.timers@.len() && self.timers@[i].key == k;
            assert(units.contains_key(self.timers@[i].key));
        }
    }

    /// A manager with no units, for the units in the directory `units_path`.
    pub fn new(units_path: String) -> (m: UnitManager)
        ensures
            m.wf(),
            m@.units_path == units_path@,
            m@.units.dom() == Set::<usize>::empty(),
            m@.timers.dom() == Set::<usize>::empty(),
    {
        let m = UnitManager {
            units_path,
            pid_to_key: HashMap::new(),
            name_to_key: StringHashMap::new(),
            key_to_unit: unit_slab_new(),
            timers: Vec::new(),
        };
        assert(m@.units.dom() =~= Set::<usize>::empty());
        assert(m@.timers.dom() =~= Set::<usize>::empty());
        m
    }

    /// The key of the unit named `name`.
    fn lookup(&self, name: &str) -> (r: Option<usize>)
        requires
            self.wf(),
        ensures
            r == self@.key_of(name@),
            r matches Some(k) ==> unit_slab_entries(self.key_to_unit).contains_key(k),
    {
        proof {
            self.lemma_key_of(name@);
        }
        match self.name_to_key.get(name) {
            Some(k) => Some(*k),
            None => None,
        }
    }

    /// Whether the process id `pid` is recorded: it was started for a unit
    /// and has not been reaped since.
    pub fn tracks_pid(&self, pid: i32) -> (r: bool)
        ensures
            r == self@.pids.contains_key(pid),
    {
        self.pid_to_key.contains_key(&pid)
    }

    /// Whether the process id `pid` is recorded and leads to a unit that
    /// still exists.
    pub fn pid_leads_to_unit(&self, pid: i32) -> (r: bool)
        ensures
            r == (self@.pids.contains_key(pid) && self@.units.contains_key(self@.pids[pid])),
    {
        match self.pid_to_key.get(&pid) {
            Some(k) => unit_slab_get(&self.key_to_unit, *k).is_some(),
            None => false,
        }
    }

    /// The key of the unit named `name`.
    pub fn unit_key_by_name(&self, name: &str) -> (r: Option<UnitKey>)
        requires
            self.wf(),
        ensures
            match self@.key_of(name@) {
                Some(k) => r matches Some(key) && key.0 == k,
                None => r is None,
            },
    {
        match self.lookup(name) {
            Some(k) => Some(UnitKey(k)),
            None => None,
        }
    }

    /// The process id and the wish to be alive of the unit named `name`.
    pub fn status(&self, name: &str) -> (r: Option<UnitStatus>)
        requires
            self.wf(),
        ensures
            match self@.key_of(name@) {
                Some(k) => r matches Some(s) && s.pid == self@.units[k].pid
                    && s.want_alive == self@.units[k].want_alive,
                None => r is None,
            },
    {
        let key = self.lookup(name)?;
        match unit_slab_get(&self.key_to_unit, key) {
            Some(unit) => Some(UnitStatus { pid: unit.pid, want_alive: unit.want_alive }),
            None => None,
        }
    }

    /// The units that have a process, as (pid, name), in the order of their keys.
    pub fn alive_units(&self) -> (r: Vec<(i32, String)>)
        requires
            self.wf(),
        ensures
            exists|keys: Seq<usize>| self@.alive_listing(keys, r@),
    {
        let keys = unit_slab_keys(&self.key_to_unit);
        let mut out: Vec<(i32, String)> = Vec::new();
        let ghost mut listed: Seq<usize> = Seq::empty();
        let mut i: usize = 0;
        while i < keys.len()
            invariant
                i <= keys@.len(),
                forall|a: int, b: int| 0 <= a < b < keys@.len() ==> keys@[a] < keys@[b],
                forall|k: usize| keys@.contains(k) <==> unit_slab_entries(self.key_to_unit).contains_key(k),
                forall|a: int, b: int| 0 <= a < b < listed.len() ==> listed[a] < listed[b],
                forall|a: int| 0 <= a < listed.len() ==> exists|j: int| 0 <= j < i && keys@[j] == #[trigger] listed[a],
                forall|j: int| 0 <= j < i && self@.units.contains_key(#[trigger] keys@[j])
                    && self@.units[keys@[j]].pid is Some ==> listed.contains(keys@[j]),
                forall|a: int| 0 <= a < listed.len() ==> self@.units.contains_key(#[trigger] listed[a])
                    && self@.units[listed[a]].pid is Some,
                out@.len() == listed.len(),
                forall|a: int| 0 <= a < listed.len() ==> (#[trigger] out@[a]).0 == self@.units[listed[a]].pid->0
                    && out@[a].1@ == self@.units[listed[a]].name,
                i > 0 && listed.len() > 0 ==> listed.last() <= keys@[i - 1],
            decreases keys@.len() - i,
        {
            let key = keys[i];
            assert(keys@.contains(key));
            let ghost old_listed = listed;
            match unit_slab_get(&self.key_to_unit, key) {
                Some(unit) => {
                    match unit.pid {
                        Some(pid) => {
                            assert forall|a: int| 0 <= a < listed.len() implies listed[a] < key by {
                                let j = choose|j: int| 0 <= j < i && keys@[j] == listed[a];
                            }
                            out.push((pid, unit.name.clone()));
                            proof {
                                listed = listed.push(key);
                                assert(listed[listed.len() - 1] == key);
                                assert forall|a: int| 0 <= a < listed.len() implies exists|j: int| 0 <= j < i + 1 && keys@[j] == #[trigger] listed[a] by {
                                    if a < old_listed.len() {
                                        assert(listed[a] == old_listed[a]);
                                        let j = choose|j: int| 0 <= j < i && keys@[j] == old_listed[a];
                                        assert(keys@[j] == listed[a]);
                                    } else {
                                        assert(keys@[i as int] == listed[a]);
                                    }
                                }
                                assert forall|j: int| 0 <= j < i + 1 && self@.units.contains_key(#[trigger] keys@[j])
                                    && self@.units[keys@[j]].pid is Some implies listed.contains(keys@[j]) by {
                                    if j < i {
                                        assert(old_listed.contains(keys@[j]));
                                        let a = choose|a: int| 0 <= a < old_listed.len() && old_listed[a] == keys@[j];
                                        assert(listed[a] == keys@[j]);
                                    } else {
                                        assert(listed[listed.len() - 1] == keys@[j]);
                                    }
                                }
                            }
                        },
                        None => {},
                    }
                },
                None => {},
            }
            i = i + 1;
        }
        assert(self@.alive_listing(listed, out@)) by {
            assert forall|k: usize| listed.contains(k) <==> (self@.units.contains_key(k) && self@.units[k].pid is Some) by {
                if listed.contains(k) {
                    let a = choose|a: int| 0 <= a < listed.len() && listed[a] == k;
                    assert(self@.units.contains_key(listed[a]));
                }
                if self@.units.contains_key(k) && self@.units[k].pid is Some {
                    assert(keys@.contains(k));
                    let j = choose|j: int| 0 <= j < keys@.len() && keys@[j] == k;
                    assert(self@.units.contains_key(keys@[j]));
                }
            }
        }
        out
    }

    /// Rewrites the record of unit `key`, keeping its name.
    fn rewrite_unit(
        &mut self,
        key: usize,
        pid: Option<i32>,
        want_alive: bool,
        want_removed: bool,
        termination_requested: bool,
    )
        requires
            unit_slab_entries(old(self).key_to_unit).contains_key(key),
        ensures
            unit_slab_entries(final(self).key_to_unit) == unit_slab_entries(old(self).key_to_unit).insert(
                key,
                Unit {
                    pid,
                    want_alive,
                    want_removed,
                    termination_requested,
                    name: unit_slab_entries(old(self).key_to_unit)[key].name,
                },
            ),
            final(self).units_path == old(self).units_path,
            final(self).pid_to_key == old(self).pid_to_key,
            final(self).name_to_key == old(self).name_to_key,
            final(self).timers == old(self).timers,
    {
        let name = match unit_slab_get(&self.key_to_unit, key) {
            Some(unit) => unit.name.clone(),
            None => String::new(),
        };
        unit_slab_replace(
            &mut self.key_to_unit,
            key,
            Unit { pid, want_alive, want_removed, termination_requested, name },
        );
    }

    /// Changes the wishes recorded for unit `key`.
    fn set_flags(&mut self, key: usize, want_alive: bool, want_removed: bool, termination_requested: bool)
        requires
            old(self).wf(),
            old(self)@.units.contains_key(key),
        ensures
            final(self).wf(),
            final(self)@ == old(self)@.with_unit(
                key,
                UnitState { want_alive, want_removed, termination_requested, ..old(self)@.units[key] },
            ),
    {
        let ghost old_units = unit_slab_entries(self.key_to_unit);
        let pid = match unit_slab_get(&self.key_to_unit, key) {
            Some(unit) => unit.pid,
            None => None,
        };
        self.rewrite_unit(key, pid, want_alive, want_removed, termination_requested);
        proof {
            lemma_wf_rewrite(
                old_units, self.name_to_key@, self.pid_to_key@, self.timers@, key,
                unit_slab_entries(self.key_to_unit)[key], self.pid_to_key@,
            );
            assert(unit_slab_entries(self.key_to_unit) =~= old_units.insert(key, unit_slab_entries(self.key_to_unit)[key]));
        }
        assert(self@.units =~= old(self)@.units.insert(
            key,
            UnitState { want_alive, want_removed, termination_requested, ..old(self)@.units[key] },
        ));
        assert(self@ =~= old(self)@.with_unit(
            key,
            UnitState { want_alive, want_removed, termination_requested, ..old(self)@.units[key] },
        ));
    }

    /// Forgets unit `key`: its record, its name and its timer. A process id
    /// recorded for it stays recorded until its process is reaped.
    fn drop_unit(&mut self, key: usize)
        requires
            old(self).wf(),
            old(self)@.units.contains_key(key),
        ensures
            final(self).wf(),
            final(self)@ == old(self)@.without_unit(key),
    {
        let ghost old_units = unit_slab_entries(self.key_to_unit);
        let unit = unit_slab_remove(&mut self.key_to_unit, key);
        self.name_to_key.remove(unit.name.as_str());
        clear_timer(&mut self.timers, key);
        proof {
            lemma_wf_remove(old_units, old(self).name_to_key@, self.pid_to_key@, old(self).timers@, key, self.timers@);
            assert(self.name_to_key@ == old(self).name_to_key@.remove(old_units[key].name@));
        }
        assert(self@.units =~= old(self)@.units.remove(key));
        assert(self@ =~= old(self)@.without_unit(key));
    }

    /// Gives unit `key` a timer at `instant`, replacing the one it had.
    fn schedule(&mut self, key: usize, instant: u64)
        requires
            old(self).wf(),
            old(self)@.units.contains_key(key),
        ensures
            final(self).wf(),
            final(self)@ == old(self)@.with_timer(key, instant),
    {
        set_timer(&mut self.timers, key, instant);
        let ghost units = unit_slab_entries(self.key_to_unit);
        assert forall|i: int| 0 <= i < self.timers@.len() implies units.contains_key(#[trigger] self.timers@[i].key) by {
            let t = self.timers@[i];
            if t.key != key {
                assert(old(self).timers@.contains(t));
                let j = choose|j: int| 0 <= j < old(self).timers@.len() && old(self).timers@[j] == t;
                assert(units.contains_key(old(self).timers@[j].key));
            }
        }
        assert(self@ =~= old(self)@.with_timer(key, instant));
    }

    /// Adds a unit named `name`, which is to be alive and has no process yet.
    /// A unit of that name already exists: nothing changes and `Err` is returned.
    pub fn add(&mut self, name: String) -> (r: Result<(), ()>)
        requires
            old(self).wf(),
        ensures
            final(self).wf(),
            old(self)@.key_of(name@) is Some ==> r is Err && final(self)@ == old(self)@,
            old(self)@.key_of(name@) is None ==> r is Ok && exists|k: usize|
                !old(self)@.units.contains_key(k) && final(self)@ == old(self)@.with_unit(
                    k,
                    UnitState {
                        pid: None,
                        want_alive: true,
                        want_removed: false,
                        termination_requested: false,
                        name: name@,
                    },
                ),
    {
        proof {
            self.lemma_key_of(name@);
        }
        if self.name_to_key.contains_key(name.as_str()) {
            return Err(());
        }
        let ghost old_units = unit_slab_entries(self.key_to_unit);
        let unit = Unit {
            pid: None,
            want_alive: true,
            want_removed: false,
            termination_requested: false,
            name: name.clone(),
        };
        let ghost new_unit = unit;
        let key = unit_slab_insert(&mut self.key_to_unit, unit);
        proof {
            lemma_wf_insert(old_units, old(self).name_to_key@, self.pid_to_key@, self.timers@, key, new_unit);
        }
        self.name_to_key.insert(name, key);
        let ghost fresh = UnitState {
            pid: None,
            want_alive: true,
            want_removed: false,
            termination_requested: false,
            name: name@,
        };
        assert(self@.units =~= old(self)@.units.insert(key, fresh));
        assert(self@ =~= old(self)@.with_unit(key, fresh));
        assert(!old(self)@.units.contains_key(key));
        Ok(())
    }

    /// The request to start the process of unit `key`.
    fn spawn_request(&self, key: usize) -> (req: SpawnRequest)
        requires
            self.wf(),
            self@.units.contains_key(key),
        ensures
            spawns(self@, key, req),
    {
        let name = match unit_slab_get(&self.key_to_unit, key) {
            Some(unit) => unit.name.clone(),
            None => String::new(),
        };
        let exec_path = exec_path(self.units_path.as_str(), name.as_str());
        SpawnRequest { key: UnitKey(key), name, exec_path }
    }

    /// The request to send `signal` to the process of unit `key`.
    fn kill_request(&self, key: usize, pid: i32, signal: Signal) -> (req: KillRequest)
        requires
            self.wf(),
            self@.units.contains_key(key),
            self@.units[key].pid == Some(pid),
        ensures
            kills(self@, key, req, signal),
    {
        let name = match unit_slab_get(&self.key_to_unit, key) {
            Some(unit) => unit.name.clone(),
            None => String::new(),
        };
        KillRequest { key: UnitKey(key), name, pid, signal }
    }

    /// The process id of unit `key`.
    fn pid_of(&self, key: usize) -> (r: Option<i32>)
        requires
            self.wf(),
            self@.units.contains_key(key),
        ensures
            r == self@.units[key].pid,
    {
        match unit_slab_get(&self.key_to_unit, key) {
            Some(unit) => unit.pid,
            None => None,
        }
    }

    /// The record of unit `key`.
    fn flags_of(&self, key: usize) -> (r: (bool, bool, bool))
        requires
            self.wf(),
            self@.units.contains_key(key),
        ensures
            r.0 == self@.units[key].want_alive,
            r.1 == self@.units[key].want_removed,
            r.2 == self@.units[key].termination_requested,
    {
        match unit_slab_get(&self.key_to_unit, key) {
            Some(unit) => (unit.want_alive, unit.want_removed, unit.termination_requested),
            None => (false, false, false),
        }
    }

    /// Removes the unit named `name`. A unit without a process is forgotten at
    /// once. A unit with a process is marked to be removed and to stay dead, is
    /// given a timer `KILL_DELAY` from `now`, and its process must be sent
    /// SIGTERM: the request for that is returned.
    pub fn remove(&mut self, name: &str, now: u64) -> (r: Result<Option<KillRequest>, Error>)
        requires
            old(self).wf(),
            time_ok(now),
        ensures
            final(self).wf(),
            match old(self)@.key_of(name@) {
                None => r matches Err(Error::NotFound) && final(self)@ == old(self)@,
                Some(k) => match old(self)@.units[k].pid {
                    Some(p) => r matches Ok(Some(req)) && kills(old(self)@, k, req, Signal::Terminate)
                        && final(self)@ == old(self)@.with_unit(
                            k,
                            UnitState {
                                want_alive: false,
                                want_removed: true,
                                termination_requested: true,
                                ..old(self)@.units[k]
                            },
                        ).with_timer(k, (now + KILL_DELAY) as u64),
                    None => r matches Ok(None) && final(self)@ == old(self)@.without_unit(k),
                },
            },
    {
        let key = match self.lookup(name) {
            Some(key) => key,
            None => return Err(Error::NotFound),
        };
        match self.pid_of(key) {
            Some(pid) => {
                let req = self.kill_request(key, pid, Signal::Terminate);
                self.set_flags(key, false, true, true);
                self.schedule(key, now + KILL_DELAY);
                Ok(Some(req))
            },
            None => {
                self.drop_unit(key);
                Ok(None)
            },
        }
    }

    /// Starts the unit named `name`: it is marked to be alive; if it has a
    /// process, its id is returned, else the request to start it.
    pub fn start(&mut self, name: &str) -> (r: Result<StartStep, Error>)
        requires
            old(self).wf(),
        ensures
            final(self).wf(),
            match old(self)@.key_of(name@) {
                None => r matches Err(Error::NotFound) && final(self)@ == old(self)@,
                Some(k) => final(self)@ == old(self)@.with_unit(
                    k,
                    UnitState { want_alive: true, ..old(self)@.units[k] },
                ) && match old(self)@.units[k].pid {
                    Some(p) => r matches Ok(StartStep::Running(q)) && q == p,
                    None => r matches Ok(StartStep::Spawn(req)) && spawns(old(self)@, k, req),
                },
            },
    {
        let key = match self.lookup(name) {
            Some(key) => key,
            None => return Err(Error::NotFound),
        };
        let (_, want_removed, termination_requested) = self.flags_of(key);
        let step = match self.pid_of(key) {
            Some(pid) => StartStep::Running(pid),
            None => StartStep::Spawn(self.spawn_request(key)),
        };
        self.set_flags(key, true, want_removed, termination_requested);
        assert(UnitState { want_alive: true, want_removed, termination_requested, ..old(self)@.units[key] }
            == UnitState { want_alive: true, ..old(self)@.units[key] });
        Ok(step)
    }

    /// Stops the unit named `name`: it is marked to stay dead and its
    /// termination as requested; if it has a process, it is given a timer
    /// `KILL_DELAY` from `now` and the request to send SIGTERM is returned.
    pub fn stop(&mut self, name: &str, now: u64) -> (r: Result<Option<KillRequest>, Error>)
        requires
            old(self).wf(),
            time_ok(now),
        ensures
            final(self).wf(),
            match old(self)@.key_of(name@) {
                None => r matches Err(Error::NotFound) && final(self)@ == old(self)@,
                Some(k) => {
                    let stopped = old(self)@.with_unit(
                        k,
                        UnitState { want_alive: false, termination_requested: true, ..old(self)@.units[k] },
                    );
                    match old(self)@.units[k].pid {
                        Some(p) => r matches Ok(Some(req)) && kills(old(self)@, k, req, Signal::Terminate)
                            && final(self)@ == stopped.with_timer(k, (now + KILL_DELAY) as u64),
                        None => r matches Ok(None) && final(self)@ == stopped,
                    }
                },
            },
    {
        let key = match self.lookup(name) {
            Some(key) => key,
            None => return Err(Error::NotFound),
        };
        let (_, want_removed, _) = self.flags_of(key);
        let pid = self.pid_of(key);
        let req = match pid {
            Some(pid) => Some(self.kill_request(key, pid, Signal::Terminate)),
            None => None,
        };
        self.set_flags(key, false, want_removed, true);
        assert(UnitState { want_alive: false, want_removed, termination_requested: true, ..old(self)@.units[key] }
            == UnitState { want_alive: false, termination_requested: true, ..old(self)@.units[key] });
        match pid {
            Some(_) => {
                self.schedule(key, now + KILL_DELAY);
            },
            None => {},
        }
        Ok(req)
    }

    /// Records that the process `pid` was started for unit `key`: the unit
    /// has that process, and the process id leads to the unit.
    pub fn spawn_succeeded(&mut self, key: UnitKey, pid: i32)
        requires
            old(self).wf(),
            old(self)@.units.contains_key(key.0),
            old(self)@.units[key.0].pid is None,
            pid > 0,
            !old(self)@.pids.contains_key(pid),
        ensures
            final(self).wf(),
            final(self)@ == old(self)@.with_unit(key.0, UnitState { pid: Some(pid), ..old(self)@.units[key.0] }).with_pid(pid, key.0),
    {
        let k = key.0;
        let ghost old_units = unit_slab_entries(self.key_to_unit);
        let (want_alive, want_removed, termination_requested) = self.flags_of(k);
        self.pid_to_key.insert(pid, k);
        self.rewrite_unit(k, Some(pid), want_alive, want_removed, termination_requested);
        proof {
            assert forall|kk: usize| #[trigger] old_units.contains_key(kk) && kk != k && old_units[kk].pid is Some
                implies self.pid_to_key@.contains_key(old_units[kk].pid->0) && self.pid_to_key@[old_units[kk].pid->0] == kk by {
                assert(old(self).pid_to_key@.contains_key(old_units[kk].pid->0));
            }
            lemma_wf_rewrite(
                old_units, self.name_to_key@, old(self).pid_to_key@, self.timers@, k,
                unit_slab_entries(self.key_to_unit)[k], self.pid_to_key@,
            );
            assert(unit_slab_entries(self.key_to_unit) =~= old_units.insert(k, unit_slab_entries(self.key_to_unit)[k]));
        }
        assert(self@.units =~= old(self)@.units.insert(k, UnitState { pid: Some(pid), ..old(self)@.units[k] }));
        assert(self@ =~= old(self)@.with_unit(k, UnitState { pid: Some(pid), ..old(self)@.units[k] }).with_pid(pid, k));
    }

    /// Records that starting the process of unit `key` failed: the unit is
    /// tried again `RESTART_DELAY` after `now`.
    pub fn spawn_failed(&mut self, key: UnitKey, now: u64)
        requires
            old(self).wf(),
            old(self)@.units.contains_key(key.0),
            time_ok(now),
        ensures
            final(self).wf(),
            final(self)@ == old(self)@.with_timer(key.0, (now + RESTART_DELAY) as u64),
    {
        self.schedule(key.0, now + RESTART_DELAY);
    }

    /// Records that sending SIGKILL to the process of unit `key` failed: it is
    /// tried again `KILL_DELAY` after `now`.
    pub fn kill_failed(&mut self, key: UnitKey, now: u64)
        requires
            old(self).wf(),
            old(self)@.units.contains_key(key.0),
            time_ok(now),
        ensures
            final(self).wf(),
            final(self)@ == old(self)@.with_timer(key.0, (now + KILL_DELAY) as u64),
    {
        self.schedule(key.0, now + KILL_DELAY);
    }

    /// Records that SIGKILL was sent to the process of unit `key`: a unit
    /// marked to be removed is forgotten now, while its process id stays
    /// recorded until the process is reaped.
    pub fn kill_succeeded(&mut self, key: UnitKey)
        requires
            old(self).wf(),
            old(self)@.units.contains_key(key.0),
        ensures
            final(self).wf(),
            old(self)@.units[key.0].want_removed ==> final(self)@ == old(self)@.without_unit(key.0),
            !old(self)@.units[key.0].want_removed ==> final(self)@ == old(self)@,
    {
        let (_, want_removed, _) = self.flags_of(key.0);
        if want_removed {
            self.drop_unit(key.0);
        }
    }

    /// Drops the timer of unit `key`, if it has one.
    fn unschedule(&mut self, key: usize)
        requires
            old(self).wf(),
        ensures
            final(self).wf(),
            final(self)@ == old(self)@.without_timer(key),
    {
        clear_timer(&mut self.timers, key);
        let ghost units = unit_slab_entries(self.key_to_unit);
        assert forall|i: int| 0 <= i < self.timers@.len() implies units.contains_key(#[trigger] self.timers@[i].key) by {
            let t = self.timers@[i];
            assert(old(self).timers@.contains(t));
            let j = choose|j: int| 0 <= j < old(self).timers@.len() && old(self).timers@[j] == t;
            assert(units.contains_key(old(self).timers@[j].key));
        }
        assert(self@ =~= old(self)@.without_timer(key));
    }

    /// Records that the process `pid`, which leads to unit `key`, is gone:
    /// the process id is no longer recorded, and the unit loses its process,
    /// its request for termination and its timer.
    fn clear_pid(&mut self, key: usize, pid: i32)
        requires
            old(self).wf(),
            old(self)@.units.contains_key(key),
            old(self)@.pids.contains_key(pid),
            old(self)@.pids[pid] == key,
        ensures
            final(self).wf(),
            final(self)@ == old(self)@.with_unit(
                key,
                UnitState { pid: None, termination_requested: false, ..old(self)@.units[key] },
            ).without_timer(key).without_pid(pid),
    {
        let ghost old_units = unit_slab_entries(self.key_to_unit);
        let (want_alive, want_removed, _) = self.flags_of(key);
        self.pid_to_key.remove(&pid);
        self.rewrite_unit(key, None, want_alive, want_removed, false);
        proof {
            assert forall|kk: usize| #[trigger] old_units.contains_key(kk) && kk != key && old_units[kk].pid is Some
                implies self.pid_to_key@.contains_key(old_units[kk].pid->0) && self.pid_to_key@[old_units[kk].pid->0] == kk by {
                assert(old(self).pid_to_key@[old_units[kk].pid->0] == kk);
            }
            lemma_wf_rewrite(
                old_units, self.name_to_key@, old(self).pid_to_key@, self.timers@, key,
                unit_slab_entries(self.key_to_unit)[key], self.pid_to_key@,
            );
            assert(unit_slab_entries(self.key_to_unit) =~= old_units.insert(key, unit_slab_entries(self.key_to_unit)[key]));
        }
        let ghost mid = self@;
        assert(mid =~= old(self)@.with_unit(
            key,
            UnitState { pid: None, termination_requested: false, ..old(self)@.units[key] },
        ).without_pid(pid));
        self.unschedule(key);
    }

    /// Handles the death of the process `pid`. A process id that is not
    /// recorded is reported as unrecognized. Otherwise the id is no longer
    /// recorded, and the unit that it leads to loses its process, its timer
    /// and its request for termination. A unit that is to be alive is started
    /// again: at once, returning the request, if its termination had been
    /// requested; else `RESTART_DELAY` after `now`, by a timer. A recorded
    /// id must lead to a unit that still exists.
    pub fn notify_terminated(&mut self, pid: i32, now: u64) -> (r: Reaped)
        requires
            old(self).wf(),
            time_ok(now),
            old(self)@.pids.contains_key(pid) ==> old(self)@.units.contains_key(old(self)@.pids[pid]),
        ensures
            final(self).wf(),
            !old(self)@.pids.contains_key(pid) ==> r is Unrecognized && final(self)@ == old(self)@,
            old(self)@.pids.contains_key(pid) ==> ({
                let k = old(self)@.pids[pid];
                let u = old(self)@.units[k];
                let dead = old(self)@.with_unit(
                    k,
                    UnitState { pid: None, termination_requested: false, ..u },
                ).without_timer(k).without_pid(pid);
                if !u.want_alive {
                    r is Handled && final(self)@ == dead
                } else if u.termination_requested {
                    r matches Reaped::Restart(req) && spawns(old(self)@, k, req) && final(self)@ == dead
                } else {
                    r is Handled && final(self)@ == dead.with_timer(k, (now + RESTART_DELAY) as u64)
                }
            }),
    {
        let key = match self.pid_to_key.get(&pid) {
            Some(k) => *k,
            None => return Reaped::Unrecognized,
        };
        let (want_alive, _, termination_requested) = self.flags_of(key);
        self.clear_pid(key, pid);
        if want_alive {
            if termination_requested {
                let req = self.spawn_request(key);
                return Reaped::Restart(req);
            } else {
                self.schedule(key, now + RESTART_DELAY);
            }
        }
        Reaped::Handled
    }

    /// Takes the earliest timer that is due at `now`, if there is one, and
    /// says what is to be done about its unit.
    pub fn next_due_timer(&mut self, now: u64) -> (r: Option<TimerStep>)
        requires
            old(self).wf(),
        ensures
            final(self).wf(),
            r is None ==> final(self)@ == old(self)@ && forall|k: usize|
                #[trigger] old(self)@.timers.contains_key(k) ==> old(self)@.timers[k] > now,
            r matches Some(step) ==> exists|k: usize|
                old(self)@.earliest_due(k, now) && final(self)@ == old(self)@.without_timer(k)
                    && timer_step(old(self)@, k, step),
            r matches Some(TimerStep::Spawn(req)) ==> old(self)@.units.contains_key(req.key.0)
                && old(self)@.units[req.key.0].want_alive && old(self)@.units[req.key.0].pid is None,
            r matches Some(TimerStep::Kill(req)) ==> old(self)@.units.contains_key(req.key.0)
                && !old(self)@.units[req.key.0].want_alive && old(self)@.units[req.key.0].pid == Some(req.pid)
                && req.signal == Signal::Kill,
    {
        let i = match earliest_timer(&self.timers) {
            Some(i) => i,
            None => {
                assert forall|k: usize| #[trigger] old(self)@.timers.contains_key(k) implies old(self)@.timers[k] > now by {
                    let j = choose|j: int| 0 <= j < self.timers@.len() && self.timers@[j].key == k;
                }
                return None;
            },
        };
        proof {
            lemma_timer_map_at(self.timers@, i as int);
            assert forall|k: usize| #[trigger] self@.timers.contains_key(k) implies self@.timers[self.timers@[i as int].key] <= self@.timers[k] by {
                let j = choose|j: int| 0 <= j < self.timers@.len() && self.timers@[j].key == k;
                lemma_timer_map_at(self.timers@, j);
            }
        }
        if self.timers[i].instant > now {
            return None;
        }
        let key = self.timers[i].key;
        assert(old(self)@.earliest_due(key, now));
        assert(unit_slab_entries(self.key_to_unit).contains_key(self.timers@[i as int].key));
        let (want_alive, _, _) = self.flags_of(key);
        let pid = self.pid_of(key);
        let step = if want_alive && pid.is_none() {
            TimerStep::Spawn(self.spawn_request(key))
        } else {
            match pid {
                Some(p) => {
                    if !want_alive {
                        TimerStep::Kill(self.kill_request(key, p, Signal::Kill))
                    } else {
                        TimerStep::Idle
                    }
                },
                None => TimerStep::Idle,
            }
        };
        self.unschedule(key);
        Some(step)
    }

    /// The time from `now` until the earliest timer, if there is a timer.
    pub fn next_timeout(&self, now: u64) -> (r: Option<u64>)
        requires
            self.wf(),
        ensures
            r is None <==> forall|k: usize| !self@.timers.contains_key(k),
            r matches Some(d) ==> exists|k: usize| earliest(self@, k) && d == time_until(self@.timers[k], now),
    {
        match earliest_timer(&self.timers) {
            Some(i) => {
                proof {
                    lemma_timer_map_at(self.timers@, i as int);
                    assert forall|k: usize| #[trigger] self@.timers.contains_key(k) implies self@.timers[self.timers@[i as int].key] <= self@.timers[k] by {
                        let j = choose|j: int| 0 <= j < self.timers@.len() && self.timers@[j].key == k;
                        lemma_timer_map_at(self.timers@, j);
                    }
                    assert(earliest(self@, self.timers@[i as int].key));
                }
                let instant = self.timers[i].instant;
                if instant > now {
                    Some(instant - now)
                } else {
                    Some(0)
                }
            },
            None => {
                assert forall|k: usize| !self@.timers.contains_key(k) by {
                    if self@.timers.contains_key(k) {
                        let j = choose|j: int| 0 <= j < self.timers@.len() && self.timers@[j].key == k;
                    }
                }
                None
            },
        }
    }
}

} // verus!
