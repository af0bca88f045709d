//! A permanent scrollbar beside a list: when scrolling by hand locks the list to
//! its bottom, and when the lock button pulses.
use vstd::prelude::*;

verus! {

/// How long the pulse lasts when the scroll locks, in nanoseconds.
pub const PULSE_TIME: u64 = 900_000_000;

/// What scrolling the list by hand does to its lock: locks it when the list is
/// left at the bottom, and unlocks it when it isn't. A list with nothing to
/// scroll keeps its lock as it is.
pub fn follow(locked: bool, scrolls: bool, at_bottom: bool) -> (r: bool)
    ensures
        r == (if scrolls {
            at_bottom
        } else {
            locked
        }),
{
    if scrolls {
        at_bottom
    } else {
        locked
    }
}

/// What the lock button's tooltip says.
pub fn lock_tooltip(locked: bool) -> (r: &'static str)
    ensures
        r@ == (if locked {
            "Unlock the scroll from the bottom"@
        } else {
            "Lock the scroll to the bottom"@
        }),
{
    if locked {
        "Unlock the scroll from the bottom"
    } else {
        "Lock the scroll to the bottom"
    }
}

/// Whether the lock button is pulsing, from how the scroll was locked in the
/// frames before. Times are in nanoseconds from some moment.
#[derive(Clone, Copy, Debug, PartialEq, Eq, Structural)]
pub struct Pulse {
    /// Whether the scroll was locked last frame; `None` before the first.
    pub locked: Option<bool>,
    pub started: Option<u64>,
}

/// How long after another a time is, if it is.
pub open spec fn since(now: u64, started: u64) -> u64 {
    if now > started {
        (now - started) as u64
    } else {
        0
    }
}

impl Default for Pulse {
    fn default() -> (r: Pulse)
        ensures
            r == (Pulse { locked: None, started: None }),
    {
        Pulse { locked: None, started: None }
    }
}

impl Pulse {
    /// When the pulse under way, if any, started, once the scroll is seen
    /// `locked` or not.
    pub open spec fn start(self, locked: bool, now: u64) -> Option<u64> {
        if !locked {
            None
        } else if self.locked == Some(false) {
            Some(now)
        } else {
            self.started
        }
    }

    /// How far into the pulse it is while one is under way.
    pub open spec fn elapsed(self, locked: bool, now: u64) -> Option<u64> {
        match self.start(locked, now) {
            Some(started) => if since(now, started) < PULSE_TIME {
                Some(since(now, started))
            } else {
                None
            },
            None => None,
        }
    }

    /// As it is once the scroll is seen `locked` or not.
    pub open spec fn observed(self, locked: bool, now: u64) -> Pulse {
        Pulse {
            locked: Some(locked),
            started: if self.elapsed(locked, now) is Some {
                self.start(locked, now)
            } else {
                None
            },
        }
    }

    /// Notes whether the scroll is locked `now`, returning how far into the
    /// pulse it is while one is under way. Locking starts one; a list first
    /// shown locked doesn't, and unlocking stops one.
    pub fn observe(&mut self, locked: bool, now: u64) -> (r: Option<u64>)
        ensures
            *final(self) == old(self).observed(locked, now),
            r == old(self).elapsed(locked, now),
    {
        if let Some(before) = self.locked {
            if locked && !before {
                self.started = Some(now);
            }
        }
        if !locked {
            self.started = None;
        }
        self.locked = Some(locked);
        let elapsed: Option<u64> = match self.started {
            Some(started) => {
                let passed: u64 = if now > started {
                    now - started
                } else {
                    0
                };
                if passed < PULSE_TIME {
                    Some(passed)
                } else {
                    None
                }
            },
            None => None,
        };
        if elapsed.is_none() {
            self.started = None;
        }
        elapsed
    }
}

/// What the pulse is once the scroll is seen locked or not at each of some
/// times, in order.
pub open spec fn observed_each(pulse: Pulse, seen: Seq<(bool, u64)>) -> Pulse
    decreases seen.len(),
{
    if seen.len() == 0 {
        pulse
    } else {
        observed_each(pulse, seen.drop_last()).observed(seen.last().0, seen.last().1)
    }
}

/// Whether the scroll is seen locked every time.
pub open spec fn all_locked(seen: Seq<(bool, u64)>) -> bool {
    forall|i: int| 0 <= i < seen.len() ==> (#[trigger] seen[i]).0
}

proof fn lemma_stays_locked(pulse: Pulse, seen: Seq<(bool, u64)>)
    requires
        pulse.locked != Some(false),
        all_locked(seen),
    ensures
        observed_each(pulse, seen).locked != Some(false),
        observed_each(pulse, seen).started is None || observed_each(pulse, seen).started
            == pulse.started,
    decreases seen.len(),
{
    if seen.len() > 0 {
        let rest = seen.drop_last();
        assert forall|i: int| 0 <= i < rest.len() implies (#[trigger] rest[i]).0 by {
            assert(rest[i] == seen[i]);
        }
        lemma_stays_locked(pulse, rest);
        assert(seen[seen.len() - 1].0);
    }
}

/// A list first shown locked doesn't pulse for as long as it stays so.
pub proof fn a_list_shown_locked_does_not_pulse(seen: Seq<(bool, u64)>, now: u64)
    requires
        all_locked(seen),
    ensures
        observed_each(Pulse { locked: None, started: None }, seen).elapsed(true, now) is None,
{
    lemma_stays_locked(Pulse { locked: None, started: None }, seen);
}

/// Locking starts a pulse, from its start.
pub proof fn locking_starts_a_pulse(pulse: Pulse, before: u64, now: u64)
    ensures
        pulse.observed(false, before).elapsed(true, now) == Some(0u64),
{
}

/// Unlocking stops a pulse under way.
pub proof fn unlocking_stops_a_pulse(pulse: Pulse, now: u64)
    ensures
        pulse.elapsed(false, now) is None,
        pulse.observed(false, now).started is None,
{
}

/// Locking pulses once: once the pulse has run out there is no other for as long
/// as the scroll stays locked.
pub proof fn a_pulse_runs_out_once(pulse: Pulse, at: u64, seen: Seq<(bool, u64)>, now: u64)
    requires
        pulse.elapsed(true, at) is None,
        all_locked(seen),
    ensures
        observed_each(pulse.observed(true, at), seen).elapsed(true, now) is None,
{
    lemma_stays_locked(pulse.observed(true, at), seen);
}

} // verus!
