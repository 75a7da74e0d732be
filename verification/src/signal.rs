//! Counts of the signals that the supervisor handles.

use vstd::prelude::*;
use std::sync::atomic::{AtomicUsize, Ordering};

verus! {

/// A counter for each handled signal.
#[derive(Debug)]
pub struct SignalCountersImpl<T> {
    pub sigchld: T,
    pub sigint: T,
    pub sigterm: T,
}

/// How often each signal has arrived.
pub type SignalCounters = SignalCountersImpl<usize>;

/// The counters that the signal handler increments.
pub type AtomicSignalCounters = SignalCountersImpl<AtomicUsize>;

impl<T> SignalCountersImpl<T> {
    /// The counters that `f` makes of these, each of its own counter.
    pub fn map_each<U, F: Fn(&T) -> U>(&self, f: F) -> (r: SignalCountersImpl<U>)
        requires
            forall|t: &T| call_requires(f, (t,)),
        ensures
            call_ensures(f, (&self.sigchld,), r.sigchld),
            call_ensures(f, (&self.sigint,), r.sigint),
            call_ensures(f, (&self.sigterm,), r.sigterm),
    {
        let sigchld = f(&self.sigchld);
        let sigint = f(&self.sigint);
        let sigterm = f(&self.sigterm);
        SignalCountersImpl { sigchld, sigint, sigterm }
    }
}

/// Reads one counter that the signal handler keeps.
pub fn load_counter(counter: &AtomicUsize) -> usize {
    counter.load(Ordering::SeqCst)
}

impl SignalCounters {
    /// Reads the counters that the signal handler keeps, each from its own
    /// atomic counter. Nothing is stated of the values: the handler may
    /// change them at any moment.
    pub fn load(counters: &AtomicSignalCounters) -> (r: SignalCounters)
        ensures
            call_ensures(load_counter, (&counters.sigchld,), r.sigchld),
            call_ensures(load_counter, (&counters.sigint,), r.sigint),
            call_ensures(load_counter, (&counters.sigterm,), r.sigterm),
    {
        counters.map_each(load_counter)
    }

    /// Whether a signal that asks the supervisor to exit has arrived.
    pub fn exit_requested(&self) -> (r: bool)
        ensures
            r == (self.sigint > 0 || self.sigterm > 0),
    {
        self.sigint > 0 || self.sigterm > 0
    }
}

/// What the supervisor learns from a reading of the counters.
#[derive(Copy, Clone, Debug)]
pub struct SignalNews {
    /// A signal that asks the supervisor to exit has arrived.
    pub exit: bool,
    /// Children have changed state since the last reading: they are to be reaped.
    pub reap: bool,
}

/// The number of SIGCHLD seen at the last reading of the counters.
#[derive(Copy, Clone, Debug)]
pub struct SignalTracker {
    pub sigchld_seen: usize,
}

impl SignalTracker {
    /// A tracker that has seen `sigchld_seen` SIGCHLD.
    pub fn new(sigchld_seen: usize) -> (t: SignalTracker)
        ensures
            t.sigchld_seen == sigchld_seen,
    {
        SignalTracker { sigchld_seen }
    }

    /// Takes in a reading of the counters: children are to be reaped when
    /// the count of SIGCHLD differs from the one seen last, which the reading
    /// replaces.
    pub fn observe(&mut self, counters: &SignalCounters) -> (news: SignalNews)
        ensures
            news.exit == (counters.sigint > 0 || counters.sigterm > 0),
            news.reap == (counters.sigchld != old(self).sigchld_seen),
            final(self).sigchld_seen == counters.sigchld,
    {
        let reap = counters.sigchld != self.sigchld_seen;
        self.sigchld_seen = counters.sigchld;
        SignalNews { exit: counters.exit_requested(), reap }
    }
}

} // verus!
