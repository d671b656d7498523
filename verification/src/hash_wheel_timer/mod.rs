//! Shared vocabulary of the timing wheels: errors, skip hints, pruning
//! decisions and the capabilities an entry can offer.

use vstd::prelude::*;

pub mod driver;
pub mod wheels;

verus! {

/// Why a wheel operation did not succeed.
#[derive(Debug)]
pub enum TimerError<EntryType> {
    /// No timer with the requested id is scheduled.
    NotFound,
    /// The delay was zero; the entry is handed back to the caller.
    Expired(EntryType),
}

/// How far the clock may be advanced without looking at any entry.
#[derive(Debug, Clone, Copy, PartialEq, Eq, Structural)]
pub enum Skip {
    /// Nothing is scheduled at all.
    Empty,
    /// This many ticks can be skipped before a slot has to be looked at.
    Millis(u32),
    /// The very next tick has work to do.
    Zero,
}

impl Skip {
    /// The hint for `ms` idle ticks: `Zero` when there are no idle ticks.
    pub fn from_millis(ms: u32) -> (r: Skip)
        ensures
            r == (if ms == 0 { Skip::Zero } else { Skip::Millis(ms) }),
    {
        if ms == 0 {
            Skip::Zero
        } else {
            Skip::Millis(ms)
        }
    }

    /// The hint of a wheel that holds nothing.
    pub fn empty() -> (r: Skip)
        ensures
            r == Skip::Empty,
    {
        Skip::Empty
    }
}

/// Verdict of a pruner on one entry.
#[derive(Debug, Clone, Copy, PartialEq, Eq, Structural)]
pub enum PruneDecision {
    /// The entry is still wanted.
    Keep,
    /// The entry is dead and can be forgotten.
    Drop,
}

impl PruneDecision {
    /// Whether this verdict keeps the entry.
    pub fn should_keep(&self) -> (r: bool)
        ensures
            r == (*self == PruneDecision::Keep),
    {
        match self {
            PruneDecision::Keep => true,
            PruneDecision::Drop => false,
        }
    }

    /// Whether this verdict drops the entry.
    pub fn should_drop(&self) -> (r: bool)
        ensures
            r == (*self == PruneDecision::Drop),
    {
        !self.should_keep()
    }
}

/// An entry that knows after how many ticks it wants to fire.
///
/// `delay` must return what `delay_spec` says; an implementation that is
/// not verified is trusted to do so.
pub trait TimerEntryWithDelay {
    /// The delay, in ticks, that [`Self::delay`] returns.
    spec fn delay_spec(&self) -> u64;

    /// The delay in ticks (milliseconds).
    fn delay(&self) -> (d: u64)
        ensures
            d == self.delay_spec(),
    ;
}

/// An entry with an id under which it can be cancelled.
///
/// `id` must return what `id_spec` says, and the same id every time; an
/// implementation that is not verified is trusted to do so.
pub trait CancellableTimerEntry {
    /// The id that [`Self::id`] returns.
    spec fn id_spec(&self) -> u64;

    /// The id of this timer.
    fn id(&self) -> (id: &u64)
        ensures
            *id == self.id_spec(),
    ;
}

/// The plainest entry there is: an id and a delay in ticks.
#[derive(Debug, Clone, Copy, PartialEq, Eq, Structural)]
pub struct IdOnlyTimerEntry {
    /// The id of the timer.
    pub id: u64,
    /// Ticks (milliseconds) until it fires.
    pub delay: u64,
}

impl IdOnlyTimerEntry {
    /// An entry with the given id and delay.
    pub fn new(id: u64, delay: u64) -> (e: Self)
        ensures
            e == (IdOnlyTimerEntry { id, delay }),
    {
        IdOnlyTimerEntry { id, delay }
    }
}

impl TimerEntryWithDelay for IdOnlyTimerEntry {
    open spec fn delay_spec(&self) -> u64 {
        self.delay
    }

    fn delay(&self) -> (d: u64) {
        self.delay
    }
}

impl CancellableTimerEntry for IdOnlyTimerEntry {
    open spec fn id_spec(&self) -> u64 {
        self.id
    }

    fn id(&self) -> (id: &u64) {
        &self.id
    }
}

} // verus!
