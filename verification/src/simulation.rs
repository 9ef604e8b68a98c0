//! The simulation clock: game minutes, the calendar they drive, and the
//! scheduler whose tasks come due as the minutes pass.
use vstd::prelude::*;

use crate::scheduler::{took_ready, ScheduledTask, Scheduler};
use crate::time::{advance_spec, date_ok, CalendarDate, DateTriple, GameClock, MINUTES_PER_DAY};

verus! {

/// The first day of every game.
pub open spec fn start_date() -> DateTriple {
    (2025int, 1int, 1int)
}

/// The calendar date after `minutes` game minutes: one day per full day of
/// minutes since the start.
pub open spec fn date_after_minutes(minutes: int) -> DateTriple {
    advance_spec(start_date(), (minutes / (MINUTES_PER_DAY as int)) as nat)
}

pub struct SimulationClock {
    clock: GameClock,
    calendar: CalendarDate,
    day_progress_minutes: u32,
    scheduler: Scheduler,
    elapsed: Ghost<nat>,
}

impl SimulationClock {
    /// All the minutes the clock has been moved forward, without the `u64` cap
    /// of the clock itself.
    pub closed spec fn elapsed(self) -> nat {
        self.elapsed@
    }

    pub closed spec fn clock_minutes(self) -> u64 {
        self.clock@
    }

    pub closed spec fn date(self) -> DateTriple {
        self.calendar.triple()
    }

    pub closed spec fn tasks(self) -> Scheduler {
        self.scheduler
    }

    pub closed spec fn wf(self) -> bool {
        &&& self.scheduler.wf()
        &&& self.calendar.triple() == date_after_minutes(self.elapsed@ as int)
        &&& self.day_progress_minutes == self.elapsed@ % (MINUTES_PER_DAY as nat)
        &&& self.clock@ == if self.elapsed@ <= u64::MAX {
            self.elapsed@
        } else {
            u64::MAX as nat
        }
    }

    pub fn new(scheduler: Scheduler) -> (r: SimulationClock)
        requires
            scheduler.wf(),
        ensures
            r.wf(),
            r.elapsed() == 0,
            r.clock_minutes() == 0,
            r.date() == start_date(),
            r.tasks() == scheduler,
    {
        let r = SimulationClock {
            clock: GameClock::new(),
            calendar: CalendarDate::from_start(),
            day_progress_minutes: 0,
            scheduler,
            elapsed: Ghost(0),
        };
        proof {
            assert(date_after_minutes(0) == start_date());
        }
        r
    }

    /// The calendar date now.
    pub fn calendar_date(&self) -> (r: CalendarDate)
        ensures
            r.triple() == self.date(),
    {
        self.calendar
    }

    /// The game minute now.
    pub fn simulation_minutes(&self) -> (r: u64)
        ensures
            r == self.clock_minutes(),
    {
        self.clock.total_minutes()
    }

    /// Minutes from now until the next task runs: 0 while a task waits in
    /// arrival order, else until the earliest timed task (0 if already due),
    /// else nothing.
    pub fn next_event_in_minutes(&self) -> (r: Option<u64>)
        requires
            self.wf(),
        ensures
            self.tasks().waiting().len() > 0 ==> r == Some(0u64),
            self.tasks().waiting().len() == 0 && self.tasks().timed().len() > 0 ==> {
                let next = self.tasks().timed()[0].execute_at.minutes;
                r == Some(
                    if next >= self.clock_minutes() {
                        (next - self.clock_minutes()) as u64
                    } else {
                        0u64
                    },
                )
            },
            self.tasks().waiting().len() == 0 && self.tasks().timed().len() == 0 ==> r.is_none(),
    {
        let current = self.clock.total_minutes();
        match self.scheduler.peek_next_minutes(current) {
            Some(next) => Some(next.saturating_sub(current)),
            None => None,
        }
    }

    /// Moves the clock `minutes` whole minutes forward, turns the calendar one
    /// day for each full day of minutes passed, and takes the tasks now due.
    pub fn advance(&mut self, minutes: u64) -> (ready: Vec<ScheduledTask>)
        requires
            old(self).wf(),
            date_after_minutes(old(self).elapsed() + minutes).0 <= u16::MAX,
        ensures
            final(self).wf(),
            final(self).elapsed() == old(self).elapsed() + minutes,
            final(self).date() == date_after_minutes(final(self).elapsed() as int),
            final(self).clock_minutes() == if final(self).elapsed() <= u64::MAX {
                final(self).elapsed()
            } else {
                u64::MAX as nat
            },
            took_ready(old(self).tasks(), final(self).tasks(), final(self).clock_minutes() as int, ready@),
    {
        let ghost e0 = self.elapsed@;
        self.clock.advance_minutes(minutes);
        let days_passed = minutes / MINUTES_PER_DAY;
        let remainder = minutes % MINUTES_PER_DAY;
        let mut total_days: u64 = days_passed;
        let mut progress: u32 = self.day_progress_minutes + remainder as u32;
        if progress as u64 >= MINUTES_PER_DAY {
            total_days = total_days + 1;
            progress = progress - 1440;
        }
        self.day_progress_minutes = progress;
        let ghost e1: nat = (e0 + minutes) as nat;
        proof {
            let day: int = 1440;
            let a: int = e0 as int;
            let m: int = minutes as int;
            let b: int = e1 as int;
            let t: int = total_days as int;
            let p: int = progress as int;
            vstd::arithmetic::div_mod::lemma_fundamental_div_mod(a, day);
            vstd::arithmetic::div_mod::lemma_fundamental_div_mod(m, day);
            vstd::arithmetic::div_mod::lemma_fundamental_div_mod(b, day);
            assert(b / day == a / day + t && p == b % day) by (nonlinear_arith)
                requires
                    a == day * (a / day) + a % day,
                    m == day * (m / day) + m % day,
                    b == day * (b / day) + b % day,
                    b == a + m,
                    0 <= a % day < day,
                    0 <= m % day < day,
                    0 <= b % day < day,
                    day == 1440,
                    t == m / day + (if a % day + m % day >= day {
                        1int
                    } else {
                        0int
                    }),
                    p == a % day + m % day - (if a % day + m % day >= day {
                        day
                    } else {
                        0int
                    }),
            ;
            crate::time::lemma_advance_add(start_date(), (a / day) as nat, total_days as nat);
            crate::time::lemma_advance_keeps_date_ok(start_date(), (a / day) as nat);
            crate::time::lemma_advance_keeps_date_ok(
                start_date(),
                (a / day + total_days) as nat,
            );
        }
        if total_days > 0 {
            self.calendar.advance_days(total_days);
        }
        self.elapsed = Ghost(e1);
        self.scheduler.next_ready_tasks(&self.clock)
    }
}

} // verus!
