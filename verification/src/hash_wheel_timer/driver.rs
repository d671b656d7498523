//! The decisions of a timer service on top of the cancellable wheel.
//!
//! A driver hands out timer ids, keeps the wheel, and turns elapsed
//! milliseconds into the list of timers that fired in them. Sleeping,
//! measuring time and calling callbacks is left to whoever drives it: a
//! thread with a clock, or a simulation that jumps from event to event.

use super::wheels::cancellable::{has_id, QuadWheelWithOverflow, TimerModel, WheelState};
use super::{CancellableTimerEntry, Skip, TimerEntryWithDelay};
use std::sync::Arc;
use vstd::prelude::*;

verus! {

/// A scheduled timer: its id, the delay before it first fires, and the
/// period after which it fires again (0 for a timer that fires once).
#[derive(Debug, Clone, Copy, PartialEq, Eq, Structural)]
pub struct TimerTask {
    /// The id under which the timer can be cancelled.
    pub id: u64,
    /// Ticks (milliseconds) until the timer fires.
    pub delay: u64,
    /// Ticks between firings of a periodic timer; 0 for a one-shot timer.
    pub period: u64,
}

impl TimerEntryWithDelay for TimerTask {
    open spec fn delay_spec(&self) -> u64 {
        self.delay
    }

    fn delay(&self) -> (d: u64) {
        self.delay
    }
}

impl CancellableTimerEntry for TimerTask {
    open spec fn id_spec(&self) -> u64 {
        self.id
    }

    fn id(&self) -> (id: &u64) {
        &self.id
    }
}

/// Why the driver refused a request.
#[derive(Debug, Clone, Copy, PartialEq, Eq, Structural)]
pub enum DriverError {
    /// The delay was zero.
    Expired,
    /// No live timer has the id.
    NotFound,
    /// The driver has been shut down.
    Shutdown,
}

/// What a driver is: whether it still runs, the next id it hands out, and
/// the state of its wheel.
pub struct DriverModel {
    /// Whether the driver has not been shut down.
    pub running: bool,
    /// The id that the next scheduled timer gets.
    pub next_id: u64,
    /// The wheel: the clock, the live timers, and what else the wheel
    /// holds.
    pub wheel: WheelState<TimerTask>,
}

/// The timers of `m` that fire within the next `n` ticks.
pub open spec fn due_within(m: TimerModel<TimerTask>, n: nat, id: u64) -> bool {
    m.live.contains_key(id) && m.now < m.live[id].1 <= m.now + n
}

/// Whether `out` lists exactly the timers of `m` that fire within the next
/// `n` ticks, each once, in the order in which they fire.
pub open spec fn fired_within(m: TimerModel<TimerTask>, n: nat, out: Seq<Arc<TimerTask>>) -> bool {
    &&& forall|k: int|
        0 <= k < out.len() ==> due_within(m, n, (#[trigger] out[k]).id_spec())
            && m.live[out[k].id_spec()].0 == out[k]
    &&& forall|id: u64| #[trigger] due_within(m, n, id) ==> has_id(out, id)
    &&& forall|k: int, l: int|
        0 <= k < l < out.len() ==> (#[trigger] out[k]).id_spec() != (#[trigger] out[l]).id_spec()
            && m.live[out[k].id_spec()].1 <= m.live[out[l].id_spec()].1
}

/// `n + 1` ticks are `n` ticks and one more.
pub proof fn lemma_ticks_more(m: TimerModel<TimerTask>, n: nat)
    ensures
        m.ticks(n + 1) == m.ticks(n).tick(),
    decreases n,
{
    if n > 0 {
        lemma_ticks_more(m.tick(), (n - 1) as nat);
        assert(m.ticks(n + 1) == m.tick().ticks(n));
    } else {
        assert(m.ticks(1) == m.tick().ticks(0));
    }
}

/// Hands out ids, keeps the wheel, and tells what fired.
pub struct TimerDriver {
    wheel: QuadWheelWithOverflow<TimerTask>,
    next_id: u64,
    running: bool,
}

impl View for TimerDriver {
    type V = DriverModel;

    closed spec fn view(&self) -> DriverModel {
        DriverModel { running: self.running, next_id: self.next_id, wheel: self.wheel.state() }
    }
}

impl TimerDriver {
    /// The wheel is well formed.
    pub closed spec fn wf(&self) -> bool {
        self.wheel.wf()
    }

    /// Whether another timer can be scheduled: ids and tickets are 64-bit
    /// numbers and none is used twice.
    pub closed spec fn has_room(&self) -> bool {
        self.wheel.has_room() && self.next_id < u64::MAX
    }

    /// A running driver without timers, at tick 0, that hands out ids from
    /// 1 on.
    pub fn new() -> (d: TimerDriver)
        ensures
            d.wf(),
            d.has_room(),
            d@ == (DriverModel { running: true, next_id: 1, wheel: WheelState::empty() }),
    {
        TimerDriver { wheel: QuadWheelWithOverflow::new(), next_id: 1, running: true }
    }

    /// Whether another timer can be scheduled.
    pub fn can_schedule(&self) -> (r: bool)
        ensures
            r == self.has_room(),
    {
        self.wheel.can_insert() && self.next_id < u64::MAX
    }

    /// Schedules a task under a fresh id.
    fn schedule(&mut self, delay: u64, period: u64) -> (r: Result<u64, DriverError>)
        requires
            old(self).wf(),
            old(self).has_room(),
        ensures
            final(self).wf(),
            !old(self)@.running ==> r == Err::<u64, DriverError>(DriverError::Shutdown)
                && final(self)@ == old(self)@,
            old(self)@.running && delay == 0 ==> r == Err::<u64, DriverError>(DriverError::Expired)
                && final(self)@ == old(self)@,
            old(self)@.running && delay > 0 ==> r == Ok::<u64, DriverError>(old(self)@.next_id)
                && final(self)@ == (DriverModel {
                next_id: (old(self)@.next_id + 1) as u64,
                wheel: old(self)@.wheel.insert(
                    Arc::new(TimerTask { id: old(self)@.next_id, delay, period }),
                    delay as nat,
                ),
                ..old(self)@
            }),
    {
        if !self.running {
            return Err(DriverError::Shutdown);
        }
        if delay == 0 {
            return Err(DriverError::Expired);
        }
        let id = self.next_id;
        match self.wheel.insert(TimerTask { id, delay, period }) {
            Ok(()) => {
                self.next_id = id + 1;
                Ok(id)
            },
            Err(_) => Err(DriverError::Expired),
        }
    }

    /// Schedules a timer that fires once, `delay` ticks from now, and
    /// returns its id.
    ///
    /// Fails with `Shutdown` after shutdown and with `Expired` for a delay
    /// of zero.
    pub fn schedule_once(&mut self, delay: u64) -> (r: Result<u64, DriverError>)
        requires
            old(self).wf(),
            old(self).has_room(),
        ensures
            final(self).wf(),
            !old(self)@.running ==> r == Err::<u64, DriverError>(DriverError::Shutdown)
                && final(self)@ == old(self)@,
            old(self)@.running && delay == 0 ==> r == Err::<u64, DriverError>(DriverError::Expired)
                && final(self)@ == old(self)@,
            old(self)@.running && delay > 0 ==> r == Ok::<u64, DriverError>(old(self)@.next_id)
                && final(self)@ == (DriverModel {
                next_id: (old(self)@.next_id + 1) as u64,
                wheel: old(self)@.wheel.insert(
                    Arc::new(TimerTask { id: old(self)@.next_id, delay, period: 0 }),
                    delay as nat,
                ),
                ..old(self)@
            }),
    {
        self.schedule(delay, 0)
    }

    /// Schedules a timer that fires `initial` ticks from now and, as long
    /// as it is rescheduled, every `period` ticks after that; returns its
    /// id.
    ///
    /// Fails with `Shutdown` after shutdown and with `Expired` for an
    /// initial delay of zero.
    pub fn schedule_periodic(&mut self, initial: u64, period: u64) -> (r: Result<u64, DriverError>)
        requires
            old(self).wf(),
            old(self).has_room(),
        ensures
            final(self).wf(),
            !old(self)@.running ==> r == Err::<u64, DriverError>(DriverError::Shutdown)
                && final(self)@ == old(self)@,
            old(self)@.running && initial == 0 ==> r == Err::<u64, DriverError>(
                DriverError::Expired,
            ) && final(self)@ == old(self)@,
            old(self)@.running && initial > 0 ==> r == Ok::<u64, DriverError>(old(self)@.next_id)
                && final(self)@ == (DriverModel {
                next_id: (old(self)@.next_id + 1) as u64,
                wheel: old(self)@.wheel.insert(
                    Arc::new(TimerTask { id: old(self)@.next_id, delay: initial, period }),
                    initial as nat,
                ),
                ..old(self)@
            }),
    {
        self.schedule(initial, period)
    }

    /// Schedules a timer that has fired to fire again after its period,
    /// under the same id.
    ///
    /// Fails with `Shutdown` after shutdown and with `Expired` if the
    /// period is zero, as it is for a one-shot timer.
    pub fn reschedule(&mut self, task: Arc<TimerTask>) -> (r: Result<(), DriverError>)
        requires
            old(self).wf(),
            old(self).has_room(),
        ensures
            final(self).wf(),
            !old(self)@.running ==> r == Err::<(), DriverError>(DriverError::Shutdown)
                && final(self)@ == old(self)@,
            old(self)@.running && task.period == 0 ==> r == Err::<(), DriverError>(
                DriverError::Expired,
            ) && final(self)@ == old(self)@,
            old(self)@.running && task.period > 0 ==> r.is_ok() && final(self)@ == (DriverModel {
                wheel: old(self)@.wheel.insert(task, task.period as nat),
                ..old(self)@
            }),
    {
        if !self.running {
            return Err(DriverError::Shutdown);
        }
        let period = task.period;
        match self.wheel.insert_ref_with_delay(task, period) {
            Ok(()) => Ok(()),
            Err(_) => Err(DriverError::Expired),
        }
    }

    /// Cancels the timer with id `id`: it will not fire, nor be
    /// rescheduled by itself.
    ///
    /// Fails with `Shutdown` after shutdown and with `NotFound` if no live
    /// timer has this id.
    pub fn cancel(&mut self, id: u64) -> (r: Result<(), DriverError>)
        requires
            old(self).wf(),
        ensures
            final(self).wf(),
            final(self).has_room() == old(self).has_room(),
            !old(self)@.running ==> r == Err::<(), DriverError>(DriverError::Shutdown)
                && final(self)@ == old(self)@,
            old(self)@.running && !old(self)@.wheel.timers.live.contains_key(id) ==> r == Err::<
                (),
                DriverError,
            >(DriverError::NotFound) && final(self)@ == old(self)@,
            old(self)@.running && old(self)@.wheel.timers.live.contains_key(id) ==> r.is_ok()
                && final(self)@ == (DriverModel { wheel: old(self)@.wheel.cancel(id), ..old(self)@ }),
    {
        if !self.running {
            return Err(DriverError::Shutdown);
        }
        match self.wheel.cancel(&id) {
            Ok(()) => Ok(()),
            Err(_) => Err(DriverError::NotFound),
        }
    }

    /// Stops the driver for good and drops every timer that is still
    /// scheduled. Shutting down twice is the same as once.
    pub fn shutdown(&mut self)
        ensures
            final(self).wf(),
            final(self)@ == (DriverModel {
                running: false,
                next_id: old(self)@.next_id,
                wheel: WheelState::empty(),
            }),
    {
        self.running = false;
        self.wheel = QuadWheelWithOverflow::new();
    }

    /// Whether the driver has not been shut down.
    pub fn is_running(&self) -> (r: bool)
        ensures
            r == self@.running,
    {
        self.running
    }

    /// How long the driver may sleep: `Empty` if nothing is scheduled,
    /// `Millis(m)` if no timer fires within the next `m` ticks, `Zero` if
    /// the next tick has work to do.
    pub fn next_wake(&self) -> (r: Skip)
        requires
            self.wf(),
        ensures
            match r {
                Skip::Empty => self@.wheel.slots.is_empty() && self@.wheel.timers.live == Map::<
                    u64,
                    (Arc<TimerTask>, nat),
                >::empty(),
                Skip::Millis(m) => m >= 1 && self@.wheel.slots.idle_for(m as nat)
                    && self@.wheel.slots.wakes_after(m as nat) && forall|id: u64|
                    !due_within(self@.wheel.timers, m as nat, id),
                Skip::Zero => self@.wheel.slots.wakes_after(0),
            },
    {
        self.wheel.can_skip()
    }

    /// Moves the clock forward by `elapsed` ticks and returns the timers
    /// that fire in them, in the order in which they fire. Stretches
    /// without timers are skipped rather than ticked through.
    pub fn advance(&mut self, elapsed: u64) -> (out: Vec<Arc<TimerTask>>)
        requires
            old(self).wf(),
        ensures
            final(self).wf(),
            final(self).has_room() == old(self).has_room(),
            final(self)@ == (DriverModel {
                wheel: old(self)@.wheel.ticks(elapsed as nat),
                ..old(self)@
            }),
            fired_within(old(self)@.wheel.timers, elapsed as nat, out@),
    {
        let ghost origin = self.wheel.state();
        let ghost start = self.wheel@;
        let mut out: Vec<Arc<TimerTask>> = Vec::new();
        let mut left: u64 = elapsed;
        while left > 0
            invariant
                left <= elapsed,
                self.wheel.wf(),
                self.wheel.has_room() == old(self).wheel.has_room(),
                self.next_id == old(self).next_id,
                self.running == old(self).running,
                start == old(self).wheel@,
                origin == old(self).wheel.state(),
                self.wheel.state() == origin.ticks((elapsed - left) as nat),
                fired_within(start, (elapsed - left) as nat, out@),
            decreases left,
        {
            let ghost done = (elapsed - left) as nat;
            let ghost here = self.wheel@;
            let ghost full = self.wheel.state();
            proof {
                origin.lemma_ticks_timers(done);
                start.lemma_ticks(done, 0);
            }
            let hint = self.wheel.can_skip();
            let step: u32 = match hint {
                Skip::Empty => if left > 4294967295 {
                    4294967295
                } else {
                    left as u32
                },
                Skip::Millis(m) => if left > m as u64 {
                    m
                } else {
                    left as u32
                },
                Skip::Zero => 0,
            };
            proof {
                self.wheel.lemma_slots_wf();
                self.wheel.slots().lemma_idle_for(
                    match hint {
                        Skip::Millis(m) => m as nat,
                        _ => 0,
                    },
                    step as nat,
                );
                assert forall|id: u64| #[trigger]
                    here.live.contains_key(id) implies !(here.now < here.live[id].1 <= here.now
                    + step) by {}
                full.lemma_skip_is_ticks(step as nat);
                origin.lemma_ticks_add(done, step as nat);
                origin.lemma_ticks_timers(done + step as nat);
                assert forall|id: u64| #[trigger] due_within(start, done + step as nat, id) implies has_id(
                    out@,
                    id,
                ) by {
                    start.lemma_ticks(done, id);
                    assert(due_within(start, done, id));
                }
            }
            self.wheel.skip(step);
            left = left - step as u64;
            if left > 0 {
                let ghost before = self.wheel@;
                let ghost passed = (elapsed - left) as nat;
                let ghost prev = out@;
                let mut fired = self.wheel.tick();
                let ghost batch = fired@;
                out.append(&mut fired);
                left = left - 1;
                proof {
                    origin.lemma_ticks_add(passed, 1);
                    assert(origin.ticks(passed).ticks(1) == origin.ticks(passed).tick().ticks(0));
                    origin.lemma_ticks_timers(passed);
                    origin.lemma_ticks_timers(passed + 1);
                    lemma_ticks_more(start, passed);
                    start.lemma_ticks(passed, 0);
                    assert forall|k: int| 0 <= k < out@.len() implies due_within(
                        start,
                        passed + 1,
                        (#[trigger] out@[k]).id_spec(),
                    ) && start.live[out@[k].id_spec()].0 == out@[k] by {
                        if k >= prev.len() {
                            let e = batch[k - prev.len()];
                            assert(out@[k] == e);
                            start.lemma_ticks(passed, e.id_spec());
                            assert(before.due().contains_key(e.id_spec()));
                        } else {
                            assert(out@[k] == prev[k]);
                        }
                    }
                    assert forall|id: u64| #[trigger] due_within(start, passed + 1, id) implies has_id(
                        out@,
                        id,
                    ) by {
                        start.lemma_ticks(passed, id);
                        if due_within(start, passed, id) {
                            let k = choose|k: int|
                                0 <= k < prev.len() && (#[trigger] prev[k]).id_spec() == id;
                            assert(out@[k] == prev[k]);
                        } else {
                            assert(before.due().contains_key(id));
                            let k = choose|k: int|
                                0 <= k < batch.len() && (#[trigger] batch[k]).id_spec() == id;
                            assert(out@[prev.len() + k] == batch[k]);
                        }
                    }
                    assert forall|k: int, l: int| 0 <= k < l < out@.len() implies (
                    #[trigger] out@[k]).id_spec() != (#[trigger] out@[l]).id_spec()
                        && start.live[out@[k].id_spec()].1 <= start.live[out@[l].id_spec()].1 by {
                        if l >= prev.len() {
                            let e = batch[l - prev.len()];
                            assert(out@[l] == e);
                            start.lemma_ticks(passed, e.id_spec());
                            assert(before.due().contains_key(e.id_spec()));
                            if k >= prev.len() {
                                let f = batch[k - prev.len()];
                                assert(out@[k] == f);
                                start.lemma_ticks(passed, f.id_spec());
                                assert(before.due().contains_key(f.id_spec()));
                            } else {
                                assert(out@[k] == prev[k]);
                                assert(due_within(start, passed, prev[k].id_spec()));
                            }
                        } else {
                            assert(out@[k] == prev[k]);
                            assert(out@[l] == prev[l]);
                        }
                    }
                }
            }
        }
        out
    }
}

} // verus!
