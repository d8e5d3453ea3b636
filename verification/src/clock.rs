use vstd::prelude::*;

verus! {

/// A wall clock that stands still until it is moved: it takes the place of the system clock
/// where time has to be steered. Instants are milliseconds.
pub struct VirtualClock {
    instant: u64,
}

impl View for VirtualClock {
    type V = u64;

    /// The instant that the clock shows.
    closed spec fn view(&self) -> u64 {
        self.instant
    }
}

impl VirtualClock {
    /// A clock that shows `start`.
    pub fn new(start: u64) -> (clock: VirtualClock)
        ensures
            clock@ == start,
    {
        VirtualClock { instant: start }
    }

    /// The instant that the clock shows.
    pub fn now(&self) -> (instant: u64)
        ensures
            instant == self@,
    {
        self.instant
    }

    /// Lets `by` milliseconds pass.
    pub fn advance(&mut self, by: u64)
        requires
            old(self)@ + by <= u64::MAX,
        ensures
            final(self)@ == old(self)@ + by,
    {
        self.instant = self.instant + by;
    }

    /// Sets the clock to `instant`, forwards or backwards, as an adjustment of the system
    /// clock does.
    pub fn set(&mut self, instant: u64)
        ensures
            final(self)@ == instant,
    {
        self.instant = instant;
    }
}

/// The one wake-up that the scheduler has asked for: an instant on the wall clock, or none.
pub struct Timer {
    target: Option<u64>,
}

impl View for Timer {
    type V = Option<u64>;

    /// The instant for which the timer is armed, if it is.
    closed spec fn view(&self) -> Option<u64> {
        self.target
    }
}

/// How long a timer has to sleep at `now`: nothing where its instant has come, the rest of
/// the way where it has not, and no answer where it is not armed.
pub open spec fn sleep_for(target: Option<u64>, now: u64) -> Option<u64> {
    match target {
        Some(t) => if t <= now {
            Some(0u64)
        } else {
            Some((t - now) as u64)
        },
        None => None,
    }
}

impl Timer {
    /// A timer that is not armed.
    pub fn idle() -> (timer: Timer)
        ensures
            timer@ == None::<u64>,
    {
        Timer { target: None }
    }

    /// Arms the timer for `target`, or disarms it with `None`. An earlier arming is
    /// forgotten.
    pub fn arm(&mut self, target: Option<u64>)
        ensures
            final(self)@ == target,
    {
        self.target = target;
    }

    /// The instant for which the timer is armed, if it is.
    pub fn target(&self) -> (target: Option<u64>)
        ensures
            target == self@,
    {
        self.target
    }

    /// Whether the timer is armed and its instant has come. It goes by the instant alone,
    /// so a wait that was cut short or a clock that was set does not put it off.
    pub fn is_due(&self, now: u64) -> (due: bool)
        ensures
            due == (self@ matches Some(t) && t <= now),
    {
        match self.target {
            Some(t) => t <= now,
            None => false,
        }
    }

    /// How long to sleep at `now` before looking again.
    pub fn sleep(&self, now: u64) -> (wait: Option<u64>)
        ensures
            wait == sleep_for(self@, now),
    {
        match self.target {
            Some(t) => if t <= now {
                Some(0)
            } else {
                Some(t - now)
            },
            None => None,
        }
    }
}

} // verus!
