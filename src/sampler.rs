//! The sampler's decisions. On each tick the caller asks the operating
//! system for the associated wireless network, hands the answer to
//! [`Sampler::step`] and performs the action it returns; a failed store is
//! reported and the polling goes on.

use vstd::prelude::*;
use crate::calendar::{Date, TimeOfDay};

verus! {

/// What the caller saw since the last action.
pub enum Event {
    /// The name of the associated network, if any, with the local date and
    /// time at which it was asked for.
    Observed { network: Option<String>, date: Date, time: TimeOfDay },
    /// The observation was stored.
    Stored,
    /// Storing the observation failed.
    StoreFailed { error: String },
    /// The polling interval has passed.
    Woke,
}

/// What the caller does next.
pub enum Action {
    /// Ask the operating system for the associated network.
    QueryNetwork,
    /// Upsert an observation at `time` on `date` into the log.
    Record { date: Date, time: TimeOfDay },
    /// Sleep until the next tick.
    Wait,
    /// Report the error, then sleep until the next tick.
    ReportAndWait { error: String },
}

/// Watches for one target network.
pub struct Sampler {
    pub target: String,
}

impl Sampler {
    pub fn new(target: String) -> (r: Sampler)
        ensures
            r.target@ == target@,
    {
        Sampler { target }
    }

    /// The action that follows `event`. An observation of the target
    /// network, compared case-sensitively, is recorded; any other
    /// observation, and the end of a store, wait for the next tick; a failed
    /// store is reported and then waits; the next tick queries again.
    pub fn step(&self, event: Event) -> (r: Action)
        ensures
            match event {
                Event::Observed { network, date, time } => {
                    if network is Some && network->Some_0@ == self.target@ {
                        r == (Action::Record { date, time })
                    } else {
                        r is Wait
                    }
                },
                Event::Stored => r is Wait,
                Event::StoreFailed { error } => r is ReportAndWait && r->error@ == error@,
                Event::Woke => r is QueryNetwork,
            },
    {
        match event {
            Event::Observed { network, date, time } => match network {
                Some(name) => {
                    if name == self.target {
                        Action::Record { date, time }
                    } else {
                        Action::Wait
                    }
                },
                None => Action::Wait,
            },
            Event::Stored => Action::Wait,
            Event::StoreFailed { error } => Action::ReportAndWait { error },
            Event::Woke => Action::QueryNetwork,
        }
    }
}

} // verus!
