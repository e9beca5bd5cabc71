//! The reaper: the periodic eviction of endpoints that went silent.
//!
//! The reaper is driven by a timer that somebody else runs.  The timer's
//! first tick comes at once, when the server has just started, and is let
//! pass; every later tick sweeps the registry.

use vstd::prelude::*;
use crate::endpoint::Endpoint;
use crate::server::Server;

verus! {

/// The time between two sweeps, in seconds, unless told otherwise.
pub const GC_PERIOD_SECS: u64 = 300;

/// How long an endpoint may be silent before it is evicted, in seconds,
/// unless told otherwise.
pub const LIVENESS_HORIZON_SECS: u64 = 43200;

/// The reaper: how often it sweeps, what it takes for stale, and whether
/// the first tick has passed.
pub struct Reaper {
    period: u64,
    horizon: u64,
    armed: bool,
}

impl Reaper {
    /// The time between two sweeps.
    pub closed spec fn period_spec(&self) -> u64 {
        self.period
    }

    /// How long an endpoint may be silent before it is evicted.
    pub closed spec fn horizon_spec(&self) -> u64 {
        self.horizon
    }

    /// The first tick has passed: the next one sweeps.
    pub closed spec fn armed(&self) -> bool {
        self.armed
    }

    /// A reaper that sweeps every [`GC_PERIOD_SECS`], with the horizon
    /// [`LIVENESS_HORIZON_SECS`], and has seen no tick yet.
    pub fn new() -> (reaper: Reaper)
        ensures
            reaper.period_spec() == GC_PERIOD_SECS,
            reaper.horizon_spec() == LIVENESS_HORIZON_SECS,
            !reaper.armed(),
    {
        Reaper { period: GC_PERIOD_SECS, horizon: LIVENESS_HORIZON_SECS, armed: false }
    }

    /// A reaper that sweeps every `period`, with the horizon `horizon`, and
    /// has seen no tick yet.
    pub fn with_settings(period: u64, horizon: u64) -> (reaper: Reaper)
        ensures
            reaper.period_spec() == period,
            reaper.horizon_spec() == horizon,
            !reaper.armed(),
    {
        Reaper { period, horizon, armed: false }
    }

    /// The time between two sweeps.
    #[verifier::when_used_as_spec(period_spec)]
    pub fn period(&self) -> (period: u64)
        ensures
            period == self.period_spec(),
    {
        self.period
    }

    /// How long an endpoint may be silent before it is evicted.
    #[verifier::when_used_as_spec(horizon_spec)]
    pub fn horizon(&self) -> (horizon: u64)
        ensures
            horizon == self.horizon_spec(),
    {
        self.horizon
    }

    /// A tick of the timer, at time `now`.  The first tick changes nothing
    /// and returns `None`; every later one evicts the endpoints that are
    /// stale at `now` from `server`, and returns them.
    pub fn tick(&mut self, server: &mut Server, now: u64) -> (evicted: Option<Vec<Endpoint>>)
        requires
            old(server).wf(),
        ensures
            final(server).wf(),
            final(server).secret() == old(server).secret(),
            final(server).bind_addr() == old(server).bind_addr(),
            final(self).armed(),
            final(self).period() == old(self).period(),
            final(self).horizon() == old(self).horizon(),
            evicted is Some <==> old(self).armed(),
            final(server)@ == if old(self).armed() {
                old(server)@.sweep(now, old(self).horizon())
            } else {
                old(server)@
            },
            evicted matches Some(list) ==> list@.no_duplicates() && list@.to_set() == old(
                server,
            )@.stale(now, old(self).horizon()),
    {
        if self.armed {
            Some(server.gc_inactive_clients(now, self.horizon))
        } else {
            self.armed = true;
            None
        }
    }
}

} // verus!
