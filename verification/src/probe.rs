//! Companion test double for integration with the host.
//!
//! The host fires two notification kinds on every movement. This probe
//! records, in two independent flags, whether each kind was actually
//! dispatched at least once, so an integration run can confirm the host
//! wired both paths. A flag, once set, stays set.

use vstd::prelude::*;

verus! {

/// Records which notification kinds the host has dispatched so far.
pub struct HookProbe {
    track_seen: bool,
    block_seen: bool,
}

impl HookProbe {
    /// Whether the capped notification kind was ever received.
    pub closed spec fn spec_track_seen(&self) -> bool {
        self.track_seen
    }

    /// Whether the uncapped notification kind was ever received.
    pub closed spec fn spec_block_seen(&self) -> bool {
        self.block_seen
    }

    /// A fresh probe: neither notification kind seen yet.
    pub fn new() -> (p: HookProbe)
        ensures
            !p.spec_track_seen(),
            !p.spec_block_seen(),
    {
        HookProbe { track_seen: false, block_seen: false }
    }

    /// Record one delivery of the capped notification kind.
    pub fn record_track_before_send(&mut self)
        ensures
            final(self).spec_track_seen(),
            final(self).spec_block_seen() == old(self).spec_block_seen(),
    {
        self.track_seen = true;
    }

    /// Record one delivery of the uncapped notification kind.
    pub fn record_block_before_send(&mut self)
        ensures
            final(self).spec_block_seen(),
            final(self).spec_track_seen() == old(self).spec_track_seen(),
    {
        self.block_seen = true;
    }

    /// Whether the capped notification kind was ever received.
    pub fn track_before_send_received(&self) -> (r: bool)
        ensures
            r == self.spec_track_seen(),
    {
        self.track_seen
    }

    /// Whether the uncapped notification kind was ever received.
    pub fn block_before_send_received(&self) -> (r: bool)
        ensures
            r == self.spec_block_seen(),
    {
        self.block_seen
    }
}

} // verus!
