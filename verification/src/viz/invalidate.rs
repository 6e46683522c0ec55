//! When to regenerate after the configuration changed.
//!
//! Changes that should show at once are bumped. Changes that come in bursts,
//! such as a slider being dragged, are queued: a queued change counts only
//! once no further one has come for the length of the debounce window.

use vstd::prelude::*;

verus! {

/// How long a queued change waits for a further one, in milliseconds.
pub const DEBOUNCE: u64 = 200;

/// Counts configuration revisions. Times are milliseconds of one monotonic
/// clock.
#[derive(Debug, Clone, Copy, PartialEq, Eq, Structural)]
pub struct Invalidator {
    last_config_revision: u64,
    current: u64,
    pending_since: Option<u64>,
}

/// The revision after `r`.
pub open spec fn next_revision(r: u64) -> u64 {
    if r == u64::MAX {
        0
    } else {
        (r + 1) as u64
    }
}

/// Time passed from `since` to `now`; none if the clock stands behind.
pub open spec fn elapsed(since: u64, now: u64) -> int {
    if now >= since {
        now - since
    } else {
        0
    }
}

fn time_since(since: u64, now: u64) -> (e: u64)
    ensures
        e == elapsed(since, now),
{
    if now >= since {
        now - since
    } else {
        0
    }
}

impl Invalidator {
    /// The revision last taken.
    pub closed spec fn taken(&self) -> u64 {
        self.last_config_revision
    }

    /// The newest revision.
    pub closed spec fn newest(&self) -> u64 {
        self.current
    }

    /// When the queued change was last restarted, if one waits.
    pub closed spec fn waiting(&self) -> Option<u64> {
        self.pending_since
    }

    pub fn new() -> (i: Self)
        ensures
            i.taken() == 0,
            i.newest() == 0,
            i.waiting() is None,
    {
        Invalidator { last_config_revision: 0, current: 0, pending_since: None }
    }

    /// Count a new revision at once and drop a queued change.
    pub fn bump(&mut self)
        ensures
            final(self).newest() == next_revision(old(self).newest()),
            final(self).taken() == old(self).taken(),
            final(self).waiting() is None,
    {
        self.current = if self.current == u64::MAX {
            0
        } else {
            self.current + 1
        };
        self.pending_since = None;
    }

    /// Queue a change at time `now`, restarting the debounce window.
    pub fn queue(&mut self, now: u64)
        ensures
            final(self).waiting() == Some(now),
            final(self).newest() == old(self).newest(),
            final(self).taken() == old(self).taken(),
    {
        self.pending_since = Some(now);
    }

    /// Count a queued change whose debounce window is over at time `now`.
    pub fn tick(&mut self, now: u64)
        ensures
            final(self).taken() == old(self).taken(),
            match old(self).waiting() {
                Some(t) => if elapsed(t, now) >= DEBOUNCE {
                    final(self).newest() == next_revision(old(self).newest())
                        && final(self).waiting() is None
                } else {
                    *final(self) == *old(self)
                },
                None => *final(self) == *old(self),
            },
    {
        if let Some(t) = self.pending_since {
            if time_since(t, now) >= DEBOUNCE {
                self.bump();
            }
        }
    }

    /// How much longer a queued change waits at time `now`; none once its
    /// window is over.
    pub fn pending_remaining(&self, now: u64) -> (r: Option<u64>)
        ensures
            match self.waiting() {
                Some(t) => if elapsed(t, now) >= DEBOUNCE {
                    r is None
                } else {
                    r matches Some(ms) && ms == DEBOUNCE - elapsed(t, now)
                },
                None => r is None,
            },
    {
        match self.pending_since {
            Some(t) => {
                let e: u64 = time_since(t, now);
                if e >= DEBOUNCE {
                    None
                } else {
                    Some(DEBOUNCE - e)
                }
            },
            None => None,
        }
    }

    /// The newest revision.
    pub fn revision(&self) -> (r: u64)
        ensures
            r == self.newest(),
    {
        self.current
    }

    /// Whether a revision came since the last call; takes it.
    pub fn take_pending(&mut self) -> (b: bool)
        ensures
            b == (old(self).newest() != old(self).taken()),
            final(self).taken() == old(self).newest(),
            final(self).newest() == old(self).newest(),
            final(self).waiting() == old(self).waiting(),
    {
        if self.current != self.last_config_revision {
            self.last_config_revision = self.current;
            true
        } else {
            false
        }
    }
}

/// The revision after `n` bumps.
pub open spec fn revision_after(r: u64, n: nat) -> u64
    decreases n,
{
    if n == 0 {
        r
    } else {
        next_revision(revision_after(r, (n - 1) as nat))
    }
}

proof fn lemma_revision_after(r: u64, n: nat)
    ensures
        revision_after(r, n) == (r + n) % 0x1_0000_0000_0000_0000,
    decreases n,
{
    if n > 0 {
        lemma_revision_after(r, (n - 1) as nat);
        let before = (r + n - 1) % 0x1_0000_0000_0000_0000;
        vstd::arithmetic::div_mod::lemma_add_mod_noop(
            r + n - 1,
            1,
            0x1_0000_0000_0000_0000,
        );
        assert((before + 1) % 0x1_0000_0000_0000_0000 == (r + n) % 0x1_0000_0000_0000_0000);
    }
}

/// Any number of bumps below the counter's range leaves a revision to take,
/// and taking it leaves none: bumps between two takes count once.
pub proof fn law_bumps_collapse_to_one(taken: u64, bumps: nat)
    requires
        0 < bumps < 0x1_0000_0000_0000_0000,
    ensures
        revision_after(taken, bumps) != taken,
{
    lemma_revision_after(taken, bumps);
    if taken + bumps < 0x1_0000_0000_0000_0000 {
        vstd::arithmetic::div_mod::lemma_small_mod(
            (taken + bumps) as nat,
            0x1_0000_0000_0000_0000,
        );
    } else {
        vstd::arithmetic::div_mod::lemma_mod_add_multiples_vanish(
            taken + bumps - 0x1_0000_0000_0000_0000,
            0x1_0000_0000_0000_0000,
        );
        vstd::arithmetic::div_mod::lemma_small_mod(
            (taken + bumps - 0x1_0000_0000_0000_0000) as nat,
            0x1_0000_0000_0000_0000,
        );
    }
}

/// A change queued again within the window of the first waits a whole window
/// from the second on.
pub proof fn law_queue_restarts_window(first: u64, second: u64, now: u64)
    requires
        first <= second <= now,
        elapsed(second, now) < DEBOUNCE,
    ensures
        now < second + DEBOUNCE,
        elapsed(second, now) <= elapsed(first, now),
{
}

} // verus!
