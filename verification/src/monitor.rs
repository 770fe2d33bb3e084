//! The expiry monitor: when the registry is swept, and with which limits.
//!
//! The monitor holds no clock and does not sleep. Its caller hands it the
//! time, lets it sweep when a sweep is due and waits as long as it says.

use crate::expiry::{lapsed, swept};
use crate::model::listing;
use crate::registry::{statuses, GroupStatus, Registry};
use vstd::prelude::*;

verus! {

/// The silence after which an endpoint is taken for dead, in seconds, where
/// nothing else is configured.
pub const DEFAULT_TTL: u64 = 30;

/// The time between two sweeps, in seconds, where nothing else is
/// configured.
pub const DEFAULT_SWEEP_INTERVAL: u64 = 10;

/// The limits of the expiry monitor and the time of its next sweep.
#[derive(Clone, Copy, Debug, PartialEq, Eq, Structural)]
pub struct ExpiryMonitor {
    pub ttl: u64,
    pub sweep_interval: u64,
    pub next_sweep: u64,
}

/// What one turn of the monitor did: what it removed, and how long to wait
/// for the next turn.
#[derive(Debug)]
pub struct Tick {
    pub removed: Vec<GroupStatus>,
    pub wait: u64,
}

/// The time `interval` after `now`, or the last time there is.
pub open spec fn later(now: u64, interval: u64) -> u64 {
    if now + interval > u64::MAX {
        u64::MAX
    } else {
        (now + interval) as u64
    }
}

impl ExpiryMonitor {
    /// A monitor that sweeps every `sweep_interval`, first one interval
    /// after `now`.
    pub fn new(ttl: u64, sweep_interval: u64, now: u64) -> (r: ExpiryMonitor)
        ensures
            r == (ExpiryMonitor { ttl, sweep_interval, next_sweep: later(now, sweep_interval) }),
    {
        ExpiryMonitor { ttl, sweep_interval, next_sweep: now.saturating_add(sweep_interval) }
    }

    /// A monitor with the default limits.
    pub fn with_defaults(now: u64) -> (r: ExpiryMonitor)
        ensures
            r == (ExpiryMonitor {
                ttl: DEFAULT_TTL,
                sweep_interval: DEFAULT_SWEEP_INTERVAL,
                next_sweep: later(now, DEFAULT_SWEEP_INTERVAL),
            }),
    {
        ExpiryMonitor::new(DEFAULT_TTL, DEFAULT_SWEEP_INTERVAL, now)
    }

    /// Whether a sweep is due at `now`.
    pub open spec fn due(&self, now: u64) -> bool {
        now >= self.next_sweep
    }

    /// One turn of the monitor at `now`. Where a sweep is due, the registry
    /// is swept and the next sweep is set one interval after `now`; where
    /// none is due, nothing changes. Either way the turn says how long
    /// there is to wait until the next sweep.
    pub fn tick(&mut self, registry: &mut Registry, now: u64) -> (r: Tick)
        ensures
            final(registry).wf(),
            final(self).ttl == old(self).ttl,
            final(self).sweep_interval == old(self).sweep_interval,
            old(self).due(now) ==> {
                &&& final(registry)@ == swept(old(registry)@, now as nat, old(self).ttl as nat)
                &&& statuses(r.removed@) == listing(
                    lapsed(old(registry)@, now as nat, old(self).ttl as nat),
                )
                &&& final(self).next_sweep == later(now, old(self).sweep_interval)
            },
            !old(self).due(now) ==> {
                &&& final(registry)@ == old(registry)@
                &&& r.removed@.len() == 0
                &&& final(self).next_sweep == old(self).next_sweep
            },
            r.wait == final(self).next_sweep - now,
    {
        proof {
            use_type_invariant(&*registry);
        }
        if now >= self.next_sweep {
            let removed = registry.sweep(now, self.ttl);
            self.next_sweep = now.saturating_add(self.sweep_interval);
            Tick { removed, wait: self.next_sweep - now }
        } else {
            Tick { removed: Vec::new(), wait: self.next_sweep - now }
        }
    }
}

} // verus!
