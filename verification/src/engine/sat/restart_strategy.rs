//! When to restart the search, as far as it is a matter of counting
//! conflicts. The decision also rests on averages over the recent past;
//! those are kept by the caller, who hands in what they say.

use vstd::prelude::*;

verus! {

#[derive(Clone, Copy, Debug, PartialEq, Eq)]
pub struct RestartStrategy {
    /// The number of conflicts since the last restart, or since the last
    /// restart that was blocked.
    pub number_of_conflicts_encountered_since_restart: u64,
    /// The number of conflicts before which no restart takes place.
    pub number_of_conflicts_until_restart: u64,
    /// The number of conflicts before which the first restart does not take
    /// place.
    pub minimum_number_of_conflicts_before_first_restart: u64,
    pub number_of_restarts: u64,
    pub number_of_blocked_restarts: u64,
}

impl RestartStrategy {
    /// Enough conflicts were found for a restart: as many as the current
    /// interval asks for, and, before the first restart, as many as the
    /// minimum.
    pub open spec fn is_due(&self) -> bool {
        &&& self.number_of_restarts > 0 || self.number_of_conflicts_encountered_since_restart
            >= self.minimum_number_of_conflicts_before_first_restart
        &&& self.number_of_conflicts_encountered_since_restart >= self.number_of_conflicts_until_restart
    }

    /// The strategy with one more conflict counted.
    pub open spec fn with_conflict(&self) -> RestartStrategy {
        RestartStrategy {
            number_of_conflicts_encountered_since_restart: (
            self.number_of_conflicts_encountered_since_restart + 1) as u64,
            ..*self
        }
    }

    /// The strategy with the count of conflicts back at zero and a new
    /// interval.
    pub open spec fn with_interval(&self, interval: u64) -> RestartStrategy {
        RestartStrategy {
            number_of_conflicts_encountered_since_restart: 0,
            number_of_conflicts_until_restart: interval,
            ..*self
        }
    }

    /// A strategy that has counted nothing, with its first interval.
    pub fn new(first_interval: u64, minimum_number_of_conflicts_before_first_restart: u64) -> (r:
        RestartStrategy)
        ensures
            r == (RestartStrategy {
                number_of_conflicts_encountered_since_restart: 0,
                number_of_conflicts_until_restart: first_interval,
                minimum_number_of_conflicts_before_first_restart,
                number_of_restarts: 0,
                number_of_blocked_restarts: 0,
            }),
    {
        RestartStrategy {
            number_of_conflicts_encountered_since_restart: 0,
            number_of_conflicts_until_restart: first_interval,
            minimum_number_of_conflicts_before_first_restart,
            number_of_restarts: 0,
            number_of_blocked_restarts: 0,
        }
    }

    pub fn number_of_restarts(&self) -> (r: u64)
        ensures
            r == self.number_of_restarts,
    {
        self.number_of_restarts
    }

    /// Whether to restart now: a restart is due, and the clauses learned of
    /// late are poor, which the caller's averages say.
    pub fn should_restart(&self, learning_is_poor: bool) -> (r: bool)
        ensures
            r == (self.is_due() && learning_is_poor),
    {
        if self.number_of_restarts == 0 && self.number_of_conflicts_encountered_since_restart
            < self.minimum_number_of_conflicts_before_first_restart {
            return false;
        }
        if self.number_of_conflicts_encountered_since_restart < self.number_of_conflicts_until_restart {
            return false;
        }
        learning_is_poor
    }

    /// Counts a conflict. Where a restart is due then and the trail is
    /// longer than of late, which the caller's averages say, the restart is
    /// blocked: the count starts again, with `next_interval`. Returns
    /// whether it was.
    pub fn notify_conflict(&mut self, trail_is_long: bool, next_interval: u64) -> (blocked: bool)
        requires
            old(self).number_of_conflicts_encountered_since_restart < u64::MAX,
            old(self).number_of_blocked_restarts < u64::MAX,
        ensures
            blocked == (old(self).with_conflict().is_due() && trail_is_long),
            *final(self) == if blocked {
                RestartStrategy {
                    number_of_blocked_restarts: (old(self).number_of_blocked_restarts + 1) as u64,
                    ..old(self).with_interval(next_interval)
                }
            } else {
                old(self).with_conflict()
            },
    {
        self.number_of_conflicts_encountered_since_restart += 1;
        if (self.number_of_restarts > 0 || self.number_of_conflicts_encountered_since_restart
            >= self.minimum_number_of_conflicts_before_first_restart)
            && self.number_of_conflicts_until_restart
            <= self.number_of_conflicts_encountered_since_restart && trail_is_long {
            self.number_of_blocked_restarts += 1;
            self.reset_values(next_interval);
            true
        } else {
            false
        }
    }

    /// Counts a restart that took place: the count of conflicts starts
    /// again, with `next_interval`.
    pub fn notify_restart(&mut self, next_interval: u64)
        requires
            old(self).number_of_restarts < u64::MAX,
        ensures
            *final(self) == (RestartStrategy {
                number_of_restarts: (old(self).number_of_restarts + 1) as u64,
                ..old(self).with_interval(next_interval)
            }),
    {
        self.number_of_restarts += 1;
        self.reset_values(next_interval);
    }

    fn reset_values(&mut self, next_interval: u64)
        ensures
            *final(self) == old(self).with_interval(next_interval),
    {
        self.number_of_conflicts_until_restart = next_interval;
        self.number_of_conflicts_encountered_since_restart = 0;
    }
}

} // verus!
