//! Auto-reload throttling: counting mutation events and signalling when the
//! display snapshot must be rebuilt, so that bulk loads amortize the cost of
//! re-sorting over many insertions.

use vstd::prelude::*;

verus! {

/// Counts mutation events and signals when the display snapshot must be
/// recreated.
///
/// `reload_after` is the threshold: once that many mutation events have been
/// counted the snapshot is invalidated and the count starts over. `None`
/// disables automatic reloading; the count then only grows (saturating).
pub struct AutoReload {
    pub reload_after: Option<u32>,
    pub reload_count: u32,
}

impl AutoReload {
    /// The state after one more mutation event, paired with whether that
    /// event triggers a reload.
    pub open spec fn spec_increment(self) -> (Self, bool) {
        let bumped: u32 = if self.reload_count < u32::MAX {
            (self.reload_count + 1) as u32
        } else {
            u32::MAX
        };
        match self.reload_after {
            Some(threshold) => if bumped >= threshold {
                (AutoReload { reload_after: self.reload_after, reload_count: 0 }, true)
            } else {
                (AutoReload { reload_after: self.reload_after, reload_count: bumped }, false)
            },
            None => (AutoReload { reload_after: self.reload_after, reload_count: bumped }, false),
        }
    }

    /// The state after `n` further mutation events, paired with whether the
    /// `n`-th of them triggered a reload (`false` for `n == 0`).
    pub open spec fn spec_increment_n(self, n: nat) -> (Self, bool)
        decreases n,
    {
        if n == 0 {
            (self, false)
        } else {
            self.spec_increment_n((n - 1) as nat).0.spec_increment()
        }
    }

    /// Record one mutation event; `true` means the display snapshot must be
    /// recreated now and the count has started over.
    pub fn increment_count(&mut self) -> (reload: bool)
        ensures
            *final(self) == old(self).spec_increment().0,
            reload == old(self).spec_increment().1,
    {
        if self.reload_count < u32::MAX {
            self.reload_count = self.reload_count + 1;
        }
        if let Some(count) = self.reload_after {
            let reload = self.reload_count >= count;
            if reload {
                self.reload_count = 0;
            }
            reload
        } else {
            false
        }
    }

    /// With a threshold of `t` configured and a fresh count, the first
    /// `t - 1` mutation events do not signal a reload and leave the count at
    /// their number, while the `t`-th event signals one and resets the count.
    pub proof fn lemma_reload_at_threshold(self, t: u32, n: nat)
        requires
            self.reload_after == Some(t),
            self.reload_count == 0,
            0 < t,
            0 < n <= t,
        ensures
            n < t ==> !self.spec_increment_n(n).1 && self.spec_increment_n(n).0 == (AutoReload {
                reload_after: Some(t),
                reload_count: n as u32,
            }),
            n == t ==> self.spec_increment_n(n).1 && self.spec_increment_n(n).0 == (AutoReload {
                reload_after: Some(t),
                reload_count: 0,
            }),
        decreases n,
    {
        if n == 1 {
            assert(self.spec_increment_n(1) == self.spec_increment_n(0).0.spec_increment());
            assert(self.spec_increment_n(0).0 == self);
        } else {
            self.lemma_reload_at_threshold(t, (n - 1) as nat);
            assert(self.spec_increment_n(n) == self.spec_increment_n((n - 1) as nat)
                .0.spec_increment());
        }
    }
}

impl crate::SelectableTable {
    /// Enable automatic snapshot recreation after every `count` mutation
    /// events, while building the table.
    pub fn auto_reload(self, count: u32) -> (table: Self)
        requires
            self.wf(),
        ensures
            table.wf(),
            table == (crate::SelectableTable {
                auto_reload: (AutoReload { reload_after: Some(count), reload_count: 0 }),
                ..self
            }),
    {
        let mut table = self;
        table.auto_reload = AutoReload { reload_after: Some(count), reload_count: 0 };
        proof {
            crate::lemma_wf_frame(self, table);
        }
        table
    }

    /// Set or disable (`None`) the auto-reload threshold at runtime; the
    /// running count starts over either way.
    pub fn set_auto_reload(&mut self, count: Option<u32>)
        requires
            old(self).wf(),
        ensures
            final(self).wf(),
            *final(self) == (crate::SelectableTable {
                auto_reload: (AutoReload { reload_after: count, reload_count: 0 }),
                ..*old(self)
            }),
    {
        self.auto_reload = AutoReload { reload_after: count, reload_count: 0 };
        proof {
            crate::lemma_wf_frame(*old(self), *self);
        }
    }
}

} // verus!
