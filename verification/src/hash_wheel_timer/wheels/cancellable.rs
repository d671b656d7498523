//! A quad wheel whose entries can be cancelled in constant time.
//!
//! Every scheduled timer gets a token that is never handed out twice. The
//! wheel below holds a *ticket* per scheduled timer, the entry with its
//! token; a side table maps the id of every live timer to the token of its
//! ticket. Cancelling only removes the id from the table. The ticket stays
//! where it is until the wheel next looks at it, finds that it matches no
//! live timer, and drops it.

use super::clock::{lemma_visit_bounds, lemma_wraps, level, next_revolution, slot_of};
use super::model::WheelModel;
use super::quad_wheel::{Pruner, QuadWheelWithOverflow as BasicQuadWheelWithOverflow};
use crate::hash_wheel_timer::{
    CancellableTimerEntry, PruneDecision, Skip, TimerEntryWithDelay, TimerError,
};
use crate::lookup::{lookup_entries, no_entries, LookupTable};
use std::convert::Infallible;
use std::sync::Arc;
use vstd::multiset::*;
use vstd::prelude::*;

verus! {

/// What the wheel holds for one scheduled timer: the entry and the token
/// under which the side table knows it.
pub struct Ticket<E> {
    /// Unique among all tickets ever issued by one wheel.
    pub token: u64,
    /// The timer entry.
    pub entry: Arc<E>,
}

/// Whether the side table `table` still knows the ticket `t`.
pub open spec fn is_live<E: CancellableTimerEntry>(table: Map<u64, u64>, t: Ticket<E>) -> bool {
    table.contains_key(t.entry.id_spec()) && table[t.entry.id_spec()] == t.token
}

/// Keeps the tickets that the side table still knows.
pub fn rc_prune<E: CancellableTimerEntry>(table: &LookupTable, t: &Ticket<E>) -> (d: PruneDecision)
    ensures
        d == (if is_live(lookup_entries(*table), *t) {
            PruneDecision::Keep
        } else {
            PruneDecision::Drop
        }),
{
    match table.get(t.entry.id()) {
        Some(token) => {
            if *token == t.token {
                PruneDecision::Keep
            } else {
                PruneDecision::Drop
            }
        },
        None => PruneDecision::Drop,
    }
}

impl<E: CancellableTimerEntry> Pruner<Ticket<E>> for LookupTable {
    open spec fn keeps(&self, t: Ticket<E>) -> bool {
        is_live(lookup_entries(*self), t)
    }

    fn prune(&self, t: &Ticket<E>) -> (d: PruneDecision) {
        rc_prune(self, t)
    }
}

/// What a cancellable wheel is to its users: a clock and, per id, the live
/// timer with that id and the tick at which it fires.
pub struct TimerModel<E> {
    /// Ticks performed so far.
    pub now: nat,
    /// The live timers by id.
    pub live: Map<u64, (Arc<E>, nat)>,
}

impl<E: CancellableTimerEntry> TimerModel<E> {
    /// No timers, at tick 0.
    pub open spec fn empty() -> Self {
        TimerModel { now: 0, live: Map::empty() }
    }

    /// The state after scheduling `e` to fire `delay` ticks from now. A live
    /// timer with the same id is replaced.
    pub open spec fn insert(self, e: Arc<E>, delay: nat) -> Self {
        TimerModel { live: self.live.insert(e.id_spec(), (e, self.now + delay)), ..self }
    }

    /// The state after cancelling the timer with id `id`.
    pub open spec fn cancel(self, id: u64) -> Self {
        TimerModel { live: self.live.remove(id), ..self }
    }

    /// The timers that fire at the next tick.
    pub open spec fn due(self) -> Map<u64, (Arc<E>, nat)> {
        Map::new(
            |id: u64| self.live.contains_key(id) && self.live[id].1 == self.now + 1,
            |id: u64| self.live[id],
        )
    }

    /// The state after one tick: the clock has advanced and the timers that
    /// were due are gone.
    pub open spec fn tick(self) -> Self {
        TimerModel {
            now: self.now + 1,
            live: Map::new(
                |id: u64| self.live.contains_key(id) && self.live[id].1 != self.now + 1,
                |id: u64| self.live[id],
            ),
        }
    }

    /// The state after skipping `n` ticks.
    pub open spec fn skip(self, n: nat) -> Self {
        TimerModel { now: self.now + n, ..self }
    }

    /// The state after `n` ticks.
    pub open spec fn ticks(self, n: nat) -> Self
        decreases n,
    {
        if n == 0 {
            self
        } else {
            self.tick().ticks((n - 1) as nat)
        }
    }

    /// Whether `out` is what the next tick yields: the entry of every due
    /// timer, each exactly once, and nothing else.
    pub open spec fn yields(self, out: Seq<Arc<E>>) -> bool {
        &&& forall|k: int|
            0 <= k < out.len() ==> self.due().contains_key((#[trigger] out[k]).id_spec())
                && self.due()[out[k].id_spec()].0 == out[k]
        &&& forall|id: u64| #[trigger] self.due().contains_key(id) ==> has_id(out, id)
        &&& forall|k: int, l: int|
            0 <= k < l < out.len() ==> (#[trigger] out[k]).id_spec() != (#[trigger] out[l]).id_spec()
    }
}

impl<E: CancellableTimerEntry> TimerModel<E> {
    /// The clock after `n` ticks, and what the ticks leave of the timers:
    /// nothing new, and everything that fires later.
    pub proof fn lemma_ticks(self, n: nat, id: u64)
        ensures
            self.ticks(n).now == self.now + n,
            self.ticks(n).live.contains_key(id) ==> self.live.contains_key(id),
            self.ticks(n).live.contains_key(id) ==> self.ticks(n).live[id] == self.live[id],
            self.live.contains_key(id) && (self.live[id].1 <= self.now || self.live[id].1 > self.now
                + n) ==> self.ticks(n).live.contains_key(id),
            self.live.contains_key(id) && self.now < self.live[id].1 <= self.now + n
                ==> !self.ticks(n).live.contains_key(id),
        decreases n,
    {
        if n > 0 {
            self.tick().lemma_ticks((n - 1) as nat, id);
        }
    }

    /// Cancellation is final: a cancelled timer is not live and is not due
    /// at any later tick.
    pub proof fn lemma_cancelled_never_fires(self, id: u64, n: nat)
        ensures
            !self.cancel(id).ticks(n).live.contains_key(id),
            !self.cancel(id).ticks(n).due().contains_key(id),
    {
        self.cancel(id).lemma_ticks(n, id);
    }

    /// Scheduling a timer under an id that is not live and cancelling it
    /// again leaves the timers and the clock as they were.
    pub proof fn lemma_insert_cancel(self, e: Arc<E>, delay: nat)
        requires
            !self.live.contains_key(e.id_spec()),
        ensures
            self.insert(e, delay).cancel(e.id_spec()) == self,
    {
        assert(self.insert(e, delay).cancel(e.id_spec()).live =~= self.live);
    }

    /// A timer scheduled with delay `d` is due at the `d`-th tick from now
    /// and at none before; it is live until then and not afterwards.
    pub proof fn lemma_fires_after_delay(self, e: Arc<E>, d: nat, n: nat)
        requires
            d > 0,
        ensures
            n < d ==> self.insert(e, d).ticks(n).live.contains_key(e.id_spec()) && self.insert(
                e,
                d,
            ).ticks(n).live[e.id_spec()] == (e, self.now + d),
            n + 1 < d ==> !self.insert(e, d).ticks(n).due().contains_key(e.id_spec()),
            n + 1 == d ==> self.insert(e, d).ticks(n).due().contains_key(e.id_spec())
                && self.insert(e, d).ticks(n).due()[e.id_spec()] == (e, self.now + d),
            n >= d ==> !self.insert(e, d).ticks(n).live.contains_key(e.id_spec()),
    {
        self.insert(e, d).lemma_ticks(n, e.id_spec());
    }

    /// Conservation: the timers before a tick are those after it together
    /// with those that were due, and no timer is both.
    pub proof fn lemma_conservation(self)
        ensures
            self.live == self.tick().live.union_prefer_right(self.due()),
            self.tick().live.dom().disjoint(self.due().dom()),
    {
        assert(self.live =~= self.tick().live.union_prefer_right(self.due()));
    }

    /// Skip safety: while no timer fires within the next `m` ticks, ticking
    /// `m` times is the same as skipping `m` ticks.
    pub proof fn lemma_skip_is_ticks(self, m: nat)
        requires
            forall|id: u64| #[trigger]
                self.live.contains_key(id) ==> !(self.now < self.live[id].1 <= self.now + m),
        ensures
            self.ticks(m) == self.skip(m),
        decreases m,
    {
        if m == 0 {
            assert(self.skip(0) == self);
        } else {
            assert(self.tick().live =~= self.live);
            self.tick().lemma_skip_is_ticks((m - 1) as nat);
            assert(self.tick().skip((m - 1) as nat) == self.skip(m));
        }
    }
}

/// Everything that a cancellable wheel's behaviour depends on: the live
/// timers with the clock, the tickets in the wheel below (those of
/// cancelled timers included), the token of each live timer's ticket, and
/// the number of tickets issued.
pub struct WheelState<E> {
    /// The clock and the live timers.
    pub timers: TimerModel<E>,
    /// The tickets in the wheel below.
    pub slots: WheelModel<Ticket<E>>,
    /// The token of each live timer's ticket, by id.
    pub tokens: Map<u64, u64>,
    /// Number of tickets issued so far; the next ticket gets this token.
    pub issued: nat,
}

impl<E: CancellableTimerEntry> WheelState<E> {
    /// The state of a new wheel.
    pub open spec fn empty() -> Self {
        WheelState {
            timers: TimerModel::empty(),
            slots: WheelModel::empty(),
            tokens: Map::empty(),
            issued: 0,
        }
    }

    /// The state after scheduling `e` to fire `delay` ticks from now.
    pub open spec fn insert(self, e: Arc<E>, delay: nat) -> Self {
        WheelState {
            timers: self.timers.insert(e, delay),
            slots: self.slots.insert(Ticket { token: self.issued as u64, entry: e }, delay),
            tokens: self.tokens.insert(e.id_spec(), self.issued as u64),
            issued: self.issued + 1,
        }
    }

    /// The state after cancelling the timer with id `id`: the ticket stays
    /// in the wheel.
    pub open spec fn cancel(self, id: u64) -> Self {
        WheelState { timers: self.timers.cancel(id), tokens: self.tokens.remove(id), ..self }
    }

    /// The state after one tick: the wheel below ticks with the pruner that
    /// keeps the tickets of live timers, and the timers that fire are live
    /// no longer.
    pub open spec fn tick(self) -> Self {
        WheelState {
            timers: self.timers.tick(),
            slots: self.slots.tick(|t: Ticket<E>| is_live(self.tokens, t)),
            tokens: self.tokens.remove_keys(self.timers.due().dom()),
            issued: self.issued,
        }
    }

    /// The state after skipping `n` ticks.
    pub open spec fn skip(self, n: nat) -> Self {
        WheelState { timers: self.timers.skip(n), slots: self.slots.skip(n), ..self }
    }

    /// The state after `n` ticks.
    pub open spec fn ticks(self, n: nat) -> Self
        decreases n,
    {
        if n == 0 {
            self
        } else {
            self.tick().ticks((n - 1) as nat)
        }
    }

    /// The timers after `n` ticks are the timers ticked `n` times.
    pub proof fn lemma_ticks_timers(self, n: nat)
        ensures
            self.ticks(n).timers == self.timers.ticks(n),
            self.ticks(n).issued == self.issued,
        decreases n,
    {
        if n > 0 {
            self.tick().lemma_ticks_timers((n - 1) as nat);
        }
    }

    /// `a + b` ticks are `a` ticks and then `b` more.
    pub proof fn lemma_ticks_add(self, a: nat, b: nat)
        ensures
            self.ticks(a + b) == self.ticks(a).ticks(b),
        decreases a,
    {
        if a > 0 {
            self.tick().lemma_ticks_add((a - 1) as nat, b);
            assert(self.ticks(a + b) == self.tick().ticks((a + b - 1) as nat));
        }
    }

    /// Skip safety: while the wheel below looks at nothing for `m` ticks
    /// and no timer fires in them, ticking `m` times is the same as
    /// skipping `m` ticks.
    pub proof fn lemma_skip_is_ticks(self, m: nat)
        requires
            self.slots.wf(),
            self.slots.idle_for(m),
            forall|id: u64| #[trigger]
                self.timers.live.contains_key(id) ==> !(self.timers.now < self.timers.live[id].1
                    <= self.timers.now + m),
        ensures
            self.ticks(m) == self.skip(m),
    {
        self.lemma_skip_steps(m, m);
    }

    /// The first `k` of `m` idle ticks are `k` skipped ticks.
    proof fn lemma_skip_steps(self, m: nat, k: nat)
        requires
            k <= m,
            self.slots.wf(),
            self.slots.idle_for(m),
            forall|id: u64| #[trigger]
                self.timers.live.contains_key(id) ==> !(self.timers.now < self.timers.live[id].1
                    <= self.timers.now + m),
        ensures
            self.ticks(k) == self.skip(k),
        decreases k,
    {
        if k == 0 {
            assert(self.skip(0) == self);
        } else {
            let keep = |t: Ticket<E>| is_live(self.tokens, t);
            let prev = (k - 1) as nat;
            self.lemma_skip_steps(m, prev);
            self.lemma_ticks_add(prev, 1);
            let at = self.skip(prev);
            assert(at.ticks(1) == at.tick().ticks(0));
            self.slots.lemma_skip_is_ticks(keep, m);
            self.slots.lemma_idle_for(m, prev);
            self.slots.lemma_skip_is_ticks(keep, prev);
            self.slots.lemma_ticks_now(keep, prev);
            self.slots.lemma_idle_for(m, k);
            self.slots.lemma_skip_is_ticks(keep, k);
            assert(self.slots.ticks(keep, k) == self.slots.ticks(keep, prev).tick(keep)) by {
                self.slots.lemma_ticks_more(keep, prev);
            }
            assert(at.timers.tick().live =~= at.timers.live);
            assert(at.timers.due().dom() =~= Set::<u64>::empty());
            assert(at.tokens.remove_keys(at.timers.due().dom()) =~= at.tokens);
            assert(at.tick() == self.skip(k));
        }
    }
}

/// Whether some entry of `s` has the id `id`.
pub open spec fn has_id<E: CancellableTimerEntry>(s: Seq<Arc<E>>, id: u64) -> bool {
    exists|k: int| 0 <= k < s.len() && (#[trigger] s[k]).id_spec() == id
}

/// Whether some ticket of `s` is for the id `id`.
spec fn holds_id<E: CancellableTimerEntry>(s: Seq<Ticket<E>>, id: u64) -> bool {
    exists|k: int| 0 <= k < s.len() && (#[trigger] s[k]).entry.id_spec() == id
}

/// The four-level wheel with overflow list and cancellation.
pub struct QuadWheelWithOverflow<E: CancellableTimerEntry> {
    wheel: BasicQuadWheelWithOverflow<Ticket<E>>,
    timers: LookupTable,
    issued: u64,
    live: Ghost<Map<u64, (Arc<E>, nat)>>,
}

impl<E: CancellableTimerEntry> View for QuadWheelWithOverflow<E> {
    type V = TimerModel<E>;

    closed spec fn view(&self) -> TimerModel<E> {
        TimerModel { now: self.wheel@.now, live: self.live@ }
    }
}

impl<E: CancellableTimerEntry> QuadWheelWithOverflow<E> {
    /// The tickets in the wheel below, those of cancelled timers included.
    pub closed spec fn slots(&self) -> WheelModel<Ticket<E>> {
        self.wheel@
    }

    /// The token of each live timer's ticket, by id.
    pub closed spec fn tokens(&self) -> Map<u64, u64> {
        lookup_entries(self.timers)
    }

    /// Number of tickets issued so far.
    pub closed spec fn issued(&self) -> nat {
        self.issued as nat
    }

    /// Everything that the wheel's behaviour depends on.
    pub open spec fn state(&self) -> WheelState<E> {
        WheelState {
            timers: self@,
            slots: self.slots(),
            tokens: self.tokens(),
            issued: self.issued(),
        }
    }

    /// The ticket of the live timer with id `id`, with its firing tick.
    pub open spec fn ticket(&self, id: u64) -> (Ticket<E>, nat) {
        (Ticket { token: self.tokens()[id], entry: self@.live[id].0 }, self@.live[id].1)
    }

    /// The wheel below is well formed, no two tickets in it share a token,
    /// and the live timers are exactly the ids of the side table, each with
    /// its ticket in the wheel.
    pub closed spec fn wf(&self) -> bool {
        &&& self.wheel.wf()
        &&& self.unique()
        &&& self.tokens().dom() == self.live@.dom()
        &&& forall|id: u64| #[trigger]
            self.live@.contains_key(id) ==> self.live@[id].0.id_spec() == id
                && self.wheel@.pending().count(self.ticket(id)) > 0
    }

    /// No two tickets in the wheel share a token, and every token in use has
    /// been issued.
    closed spec fn unique(&self) -> bool {
        &&& forall|x: (Ticket<E>, nat)| #[trigger]
            self.wheel@.pending().count(x) > 0 ==> x.0.token < self.issued
                && self.wheel@.pending().count(x) == 1
        &&& forall|x: (Ticket<E>, nat), y: (Ticket<E>, nat)|
            self.wheel@.pending().count(x) > 0 && self.wheel@.pending().count(y) > 0 && x.0.token
                == y.0.token ==> x == y
    }

    /// Whether another timer can be scheduled: tokens are 64-bit numbers
    /// and none is used twice.
    pub open spec fn has_room(&self) -> bool {
        self.issued() < u64::MAX
    }

    /// Every live timer has its ticket in the wheel below, and fires when
    /// the ticket does.
    pub proof fn lemma_live_in_slots(&self, id: u64)
        requires
            self.wf(),
            self@.live.contains_key(id),
        ensures
            self.slots().pending().count(self.ticket(id)) > 0,
            self.tokens().contains_key(id),
            self@.live[id].0.id_spec() == id,
            self.slots().wf(),
            self.slots().now == self@.now,
    {
        self.wheel.lemma_view_wf();
        assert(self.tokens().dom().contains(id));
    }

    /// The tickets in the wheel below make a well-formed wheel, whose clock
    /// is the timers' clock.
    pub proof fn lemma_slots_wf(&self)
        requires
            self.wf(),
        ensures
            self.slots().wf(),
            self.slots().now == self@.now,
    {
        self.wheel.lemma_view_wf();
    }

    /// Whether slot `j` of wheel `k` of the wheel below holds the ticket
    /// `x`.
    pub closed spec fn slot_holds(&self, k: nat, j: int, x: (Ticket<E>, nat)) -> bool {
        self.wheel.slot_holds(k, j, x)
    }

    /// Well-placedness: the ticket of every live timer is in the overflow
    /// list, if the timer fires in a later revolution, or else in the wheel
    /// and the slot that its firing tick and the clock dictate.
    pub proof fn lemma_live_well_placed(&self, id: u64)
        requires
            self.wf(),
            self@.live.contains_key(id),
        ensures
            self@.now < self@.live[id].1,
            self.slots().overflow.count(self.ticket(id)) > 0 || self.slot_holds(
                level(self@.now, self@.live[id].1),
                slot_of(self@.now, self@.live[id].1) as int,
                self.ticket(id),
            ),
            self.slots().overflow.count(self.ticket(id)) > 0 ==> next_revolution(self@.now)
                <= self@.live[id].1,
    {
        broadcast use group_multiset_axioms;

        let x = self.ticket(id);
        self.wheel.lemma_view_wf();
        self.wheel.lemma_well_placed(x);
        assert(self.wheel@.pending().count(x) > 0);
        lemma_wraps(self@.now);
    }

    /// An empty wheel at tick 0.
    pub fn new() -> (w: Self)
        ensures
            w.wf(),
            w.state() == WheelState::<E>::empty(),
            w.has_room(),
    {
        let w = QuadWheelWithOverflow {
            wheel: BasicQuadWheelWithOverflow::new(),
            timers: LookupTable::new(),
            issued: 0,
            live: Ghost(Map::empty()),
        };
        proof {
            broadcast use group_multiset_axioms;

            assert(w.tokens().dom() =~= w.live@.dom());
            assert(w.tokens() == no_entries());
        }
        w
    }

    /// Whether another timer can be scheduled.
    pub fn can_insert(&self) -> (r: bool)
        ensures
            r == self.has_room(),
    {
        self.issued < u64::MAX
    }

    /// Schedules the shared entry `e` to fire `delay` ticks from now.
    ///
    /// A delay of zero is refused and the entry handed back. Otherwise the
    /// timer is live from now on; a live timer with the same id is replaced
    /// and will not fire.
    pub fn insert_ref_with_delay(&mut self, e: Arc<E>, delay: u64) -> (r: Result<
        (),
        TimerError<Arc<E>>,
    >)
        requires
            old(self).wf(),
            old(self).has_room(),
        ensures
            final(self).wf(),
            delay == 0 ==> r == Err::<(), TimerError<Arc<E>>>(TimerError::Expired(e))
                && final(self).state() == old(self).state(),
            delay > 0 ==> r.is_ok() && final(self).state() == old(self).state().insert(
                e,
                delay as nat,
            ),
    {
        if delay == 0 {
            return Err(TimerError::Expired(e));
        }
        let token: u64 = self.issued;
        let id: u64 = *e.id();
        let ghost before = self.wheel@;
        let ghost deadline = before.now + delay as nat;
        let ghost x = (Ticket { token, entry: e }, deadline);
        let ghost old_tokens = self.tokens();
        let ghost old_live = self.live@;
        proof {
            before.lemma_insert_pending(x.0, delay as nat);
        }
        match self.wheel.insert_with_delay(Ticket { token, entry: e }, delay) {
            Ok(()) => {
                self.issued = token + 1;
                self.timers.insert(id, token);
                self.live = Ghost(self.live@.insert(id, (e, deadline)));
                proof {
                    broadcast use group_multiset_axioms;

                    assert(self.tokens().dom() =~= self.live@.dom());
                    assert forall|id2: u64| #[trigger] self.live@.contains_key(id2) implies self.live@[id2].0.id_spec()
                        == id2 && self.wheel@.pending().count(self.ticket(id2)) > 0 by {
                        if id2 != id {
                            assert(old_live.contains_key(id2));
                            assert(self.ticket(id2) == old(self).ticket(id2));
                        } else {
                            assert(self.ticket(id2) == x);
                        }
                    }
                    assert forall|y: (Ticket<E>, nat)| #[trigger]
                        self.wheel@.pending().count(y) > 0 implies y.0.token < self.issued
                        && self.wheel@.pending().count(y) == 1 by {
                        if y != x {
                            assert(before.pending().count(y) > 0);
                        }
                    }
                    assert forall|y: (Ticket<E>, nat), z: (Ticket<E>, nat)|
                        self.wheel@.pending().count(y) > 0 && self.wheel@.pending().count(z) > 0
                            && y.0.token == z.0.token implies y == z by {
                        if y != x {
                            assert(before.pending().count(y) > 0);
                        }
                        if z != x {
                            assert(before.pending().count(z) > 0);
                        }
                    }
                }
                Ok(())
            },
            Err(TimerError::Expired(t)) => Err(TimerError::Expired(t.entry)),
            Err(TimerError::NotFound) => Err(TimerError::NotFound),
        }
    }

    /// Cancels the timer with id `id`.
    ///
    /// Only the side table is touched: the timer is not live afterwards and
    /// no tick will yield it. Fails with `NotFound` if no live timer has
    /// this id.
    pub fn cancel(&mut self, id: &u64) -> (r: Result<(), TimerError<Infallible>>)
        requires
            old(self).wf(),
        ensures
            final(self).wf(),
            old(self)@.live.contains_key(*id) ==> r.is_ok()
                && final(self).state() == old(self).state().cancel(*id),
            !old(self)@.live.contains_key(*id) ==> r == Err::<(), TimerError<Infallible>>(
                TimerError::NotFound,
            ) && final(self).state() == old(self).state(),
    {
        proof {
            assert(self.tokens().dom().contains(*id) == self.live@.dom().contains(*id));
        }
        match self.timers.remove_entry(id) {
            Some(_) => {
                self.live = Ghost(self.live@.remove(*id));
                proof {
                    assert(self.tokens().dom() =~= self.live@.dom());
                    assert forall|id2: u64| #[trigger] self.live@.contains_key(id2) implies self.live@[id2].0.id_spec()
                        == id2 && self.wheel@.pending().count(self.ticket(id2)) > 0 by {
                        assert(old(self).live@.contains_key(id2));
                        assert(self.ticket(id2) == old(self).ticket(id2));
                    }
                }
                Ok(())
            },
            None => {
                proof {
                    assert(self.tokens() =~= old(self).tokens());
                }
                Err(TimerError::NotFound)
            },
        }
    }

    /// Schedules the shared entry `e` after the delay that it asks for.
    pub fn insert_ref(&mut self, e: Arc<E>) -> (r: Result<(), TimerError<Arc<E>>>) where
        E: TimerEntryWithDelay,

        requires
            old(self).wf(),
            old(self).has_room(),
        ensures
            final(self).wf(),
            e.delay_spec() == 0 ==> r == Err::<(), TimerError<Arc<E>>>(TimerError::Expired(e))
                && final(self).state() == old(self).state(),
            e.delay_spec() > 0 ==> r.is_ok() && final(self).state() == old(self).state().insert(
                e,
                e.delay_spec() as nat,
            ),
    {
        let delay = e.delay();
        self.insert_ref_with_delay(e, delay)
    }

    /// Schedules `e` after the delay that it asks for.
    ///
    /// With a delay of zero the entry is handed back as it came.
    pub fn insert(&mut self, e: E) -> (r: Result<(), TimerError<E>>) where E: TimerEntryWithDelay
        requires
            old(self).wf(),
            old(self).has_room(),
        ensures
            final(self).wf(),
            e.delay_spec() == 0 ==> r == Err::<(), TimerError<E>>(TimerError::Expired(e))
                && final(self).state() == old(self).state(),
            e.delay_spec() > 0 ==> r.is_ok() && final(self).state() == old(self).state().insert(
                Arc::new(e),
                e.delay_spec() as nat,
            ),
    {
        let delay = e.delay();
        if delay == 0 {
            return Err(TimerError::Expired(e));
        }
        match self.insert_ref_with_delay(Arc::new(e), delay) {
            Ok(()) => Ok(()),
            Err(_) => Err(TimerError::NotFound),
        }
    }

    /// Moves the clock forward by `amount` ticks without looking at any
    /// ticket.
    ///
    /// This is only meaningful while none of those ticks would have looked
    /// at anything, which is what [`Self::can_skip`] reports.
    pub fn skip(&mut self, amount: u32)
        requires
            old(self).wf(),
            old(self).slots().idle_for(amount as nat),
        ensures
            final(self).wf(),
            final(self).state() == old(self).state().skip(amount as nat),
    {
        self.wheel.skip(amount);
        proof {
            assert(self.wheel@.pending() == old(self).wheel@.pending());
            assert(self.tokens() == old(self).tokens());
            assert forall|id2: u64| #[trigger] self.live@.contains_key(id2) implies self.live@[id2].0.id_spec()
                == id2 && self.wheel@.pending().count(self.ticket(id2)) > 0 by {
                assert(self.ticket(id2) == old(self).ticket(id2));
            }
        }
    }

    /// How many ticks can be skipped before a tick has to look at a ticket.
    ///
    /// Tickets of cancelled timers count until the wheel has dropped them,
    /// so the answer can be smaller than the live timers alone would allow,
    /// but never larger: whatever is reported as skippable is short of the
    /// firing tick of every live timer.
    pub fn can_skip(&self) -> (r: Skip)
        requires
            self.wf(),
        ensures
            match r {
                Skip::Empty => self.slots().is_empty() && self@.live == Map::<
                    u64,
                    (Arc<E>, nat),
                >::empty(),
                Skip::Millis(m) => m >= 1 && self.slots().idle_for(m as nat)
                    && self.slots().wakes_after(m as nat) && forall|id: u64| #[trigger]
                    self@.live.contains_key(id) ==> self@.now + m < self@.live[id].1,
                Skip::Zero => self.slots().wakes_after(0),
            },
    {
        let r = self.wheel.can_skip();
        proof {
            broadcast use group_multiset_axioms;

            self.wheel.lemma_view_wf();
            match r {
                Skip::Empty => {
                    assert forall|id: u64| !self.live@.contains_key(id) by {
                        if self.live@.contains_key(id) {
                            assert(self.wheel@.pending().count(self.ticket(id)) > 0);
                        }
                    }
                    assert(self.live@ =~= Map::<u64, (Arc<E>, nat)>::empty());
                },
                Skip::Millis(m) => {
                    assert forall|id: u64| #[trigger] self@.live.contains_key(id) implies self@.now
                        + m < self@.live[id].1 by {
                        let x = self.ticket(id);
                        assert(self.wheel@.pending().count(x) > 0);
                        if self.wheel@.scheduled.count(x) > 0 {
                            lemma_visit_bounds(self.wheel@.now, x.1);
                        } else {
                            assert(self.wheel@.overflow.count(x) > 0);
                        }
                    }
                },
                Skip::Zero => {},
            }
        }
        r
    }

    /// Whether no timer is live.
    pub fn is_empty(&self) -> (r: bool)
        requires
            self.wf(),
        ensures
            r == (self@.live == Map::<u64, (Arc<E>, nat)>::empty()),
    {
        let r = self.timers.is_empty();
        proof {
            if r {
                assert(self.live@.dom() =~= Set::<u64>::empty());
                assert(self.live@ =~= Map::<u64, (Arc<E>, nat)>::empty());
            } else {
                if self.live@ == Map::<u64, (Arc<E>, nat)>::empty() {
                    assert(self.tokens().dom() =~= Set::<u64>::empty());
                    assert(self.tokens() =~= no_entries());
                }
            }
        }
        r
    }

    /// Moves the wheel forward by one tick and returns the entries of the
    /// live timers that fire at it.
    ///
    /// Each of them is live no longer. Tickets of cancelled timers that the
    /// tick comes across are dropped on the way.
    pub fn tick(&mut self) -> (out: Vec<Arc<E>>)
        requires
            old(self).wf(),
        ensures
            final(self).wf(),
            final(self).state() == old(self).state().tick(),
            old(self)@.yields(out@),
    {
        let ghost before = self.wheel@;
        let ghost old_tokens = self.tokens();
        let ghost old_live = self.live@;
        let ghost t1 = (before.now + 1) as nat;
        let ghost keep = |t: Ticket<E>| self.timers.keeps(t);
        let mut fired = self.wheel.tick(&self.timers);
        let ghost after = self.wheel@;
        let ghost all = fired@;
        proof {
            broadcast use group_multiset_axioms;

            assert(keep =~= (|t: Ticket<E>| is_live(old_tokens, t)));
            old(self).wheel.lemma_view_wf();
            let stamps = all.map_values(|t: Ticket<E>| (t, t1));
            stamps.to_multiset_ensures();
            assert forall|x: (Ticket<E>, nat)| stamps.to_multiset().contains(x) implies stamps.to_multiset().count(
                x,
            ) == 1 by {
                before.lemma_fires_sound(keep, x);
            }
            stamps.lemma_multiset_has_no_duplicates_conv();
            assert forall|i: int| 0 <= i < all.len() implies {
                let id = (#[trigger] all[i]).entry.id_spec();
                &&& old_live.contains_key(id)
                &&& old_live[id] == (all[i].entry, t1)
                &&& old_tokens[id] == all[i].token
            } by {
                let x = (all[i], t1);
                assert(stamps[i] == x);
                assert(stamps.contains(x));
                before.lemma_fires_sound(keep, x);
                let id = all[i].entry.id_spec();
                assert(old_tokens.dom().contains(id));
                assert(before.pending().count(old(self).ticket(id)) > 0);
            }
            assert forall|i: int, j: int| 0 <= i < j < all.len() implies (#[trigger] all[i]).entry.id_spec()
                != (#[trigger] all[j]).entry.id_spec() by {
                assert(stamps[i] == (all[i], t1));
                assert(stamps[j] == (all[j], t1));
            }
            assert forall|id: u64|
                old_live.contains_key(id) && old_live[id].1 == t1 implies #[trigger] holds_id(
                all,
                id,
            ) by {
                let x = old(self).ticket(id);
                assert(before.pending().count(x) > 0);
                assert(old_tokens.dom().contains(id));
                before.lemma_fires_complete(keep, x);
                assert(stamps.contains(x));
                let k = choose|k: int| 0 <= k < stamps.len() && stamps[k] == x;
                assert(all[k].entry.id_spec() == id);
            }
        }
        let mut out: Vec<Arc<E>> = Vec::new();
        let ghost mut done: Set<u64> = Set::empty();
        proof {
            assert(old_tokens.remove_keys(done) =~= old_tokens);
            assert(old_live.remove_keys(done) =~= old_live);
        }
        while fired.len() > 0
            invariant
                self.wheel@ == after,
                self.wheel.wf(),
                self.issued == old(self).issued,
                self.tokens() == old_tokens.remove_keys(done),
                self.live@ == old_live.remove_keys(done),
                forall|i: int|
                    0 <= i < fired@.len() ==> {
                        let id = (#[trigger] fired@[i]).entry.id_spec();
                        &&& old_live.contains_key(id)
                        &&& old_live[id] == (fired@[i].entry, t1)
                        &&& old_tokens.contains_key(id)
                        &&& !done.contains(id)
                    },
                forall|i: int, j: int|
                    0 <= i < j < fired@.len() ==> (#[trigger] fired@[i]).entry.id_spec() != (
                    #[trigger] fired@[j]).entry.id_spec(),
                forall|k: int|
                    0 <= k < out@.len() ==> {
                        let id = (#[trigger] out@[k]).id_spec();
                        &&& done.contains(id)
                        &&& old_live.contains_key(id)
                        &&& old_live[id] == (out@[k], t1)
                    },
                forall|k: int, l: int|
                    0 <= k < l < out@.len() ==> (#[trigger] out@[k]).id_spec() != (
                    #[trigger] out@[l]).id_spec(),
                forall|id: u64| #[trigger] done.contains(id) ==> has_id(out@, id),
                forall|id: u64|
                    old_live.contains_key(id) && old_live[id].1 == t1 ==> done.contains(id)
                        || #[trigger] holds_id(fired@, id),
            decreases fired.len(),
        {
            let ghost rest = fired@;
            let ghost prev_out = out@;
            let ghost prev_done = done;
            let t = fired.pop().unwrap();
            let id: u64 = *t.entry.id();
            let removed = self.timers.remove_entry(&id);
            self.live = Ghost(self.live@.remove(id));
            out.push(t.entry);
            proof {
                done = done.insert(id);
                assert(t == rest[rest.len() - 1]);
                assert(self.tokens() =~= old_tokens.remove_keys(done));
                assert(self.live@ =~= old_live.remove_keys(done));
                assert forall|i: int| 0 <= i < fired@.len() implies {
                    let id2 = (#[trigger] fired@[i]).entry.id_spec();
                    &&& old_live.contains_key(id2)
                    &&& old_live[id2] == (fired@[i].entry, t1)
                    &&& old_tokens.contains_key(id2)
                    &&& !done.contains(id2)
                } by {
                    assert(fired@[i] == rest[i]);
                }
                assert forall|k: int| 0 <= k < out@.len() implies {
                    let id2 = (#[trigger] out@[k]).id_spec();
                    &&& done.contains(id2)
                    &&& old_live.contains_key(id2)
                    &&& old_live[id2] == (out@[k], t1)
                } by {
                    if k < prev_out.len() {
                        assert(out@[k] == prev_out[k]);
                    }
                }
                assert forall|k: int, l: int| 0 <= k < l < out@.len() implies (
                #[trigger] out@[k]).id_spec() != (#[trigger] out@[l]).id_spec() by {
                    assert(out@[k] == prev_out[k]);
                    if l < prev_out.len() {
                        assert(out@[l] == prev_out[l]);
                    }
                }
                assert forall|id2: u64| #[trigger] done.contains(id2) implies has_id(out@, id2) by {
                    if id2 == id {
                        assert(out@[out@.len() - 1].id_spec() == id);
                    } else {
                        assert(prev_done.contains(id2));
                        let k = choose|k: int|
                            0 <= k < prev_out.len() && (#[trigger] prev_out[k]).id_spec() == id2;
                        assert(out@[k] == prev_out[k]);
                    }
                }
                assert forall|id2: u64|
                    old_live.contains_key(id2) && old_live[id2].1 == t1 implies done.contains(id2)
                    || #[trigger] holds_id(fired@, id2) by {
                    if !prev_done.contains(id2) && id2 != id {
                        assert(holds_id(rest, id2));
                        let k = choose|k: int|
                            0 <= k < rest.len() && (#[trigger] rest[k]).entry.id_spec() == id2;
                        assert(fired@[k] == rest[k]);
                    }
                }
            }
        }
        proof {
            broadcast use group_multiset_axioms;

            assert forall|id: u64| done.contains(id) implies old_live.contains_key(id)
                && old_live[id].1 == t1 by {
                assert(has_id(out@, id));
                let k = choose|k: int| 0 <= k < out@.len() && (#[trigger] out@[k]).id_spec() == id;
            }
            assert forall|id: u64| old_live.contains_key(id) && old_live[id].1 == t1 implies done.contains(
                id,
            ) by {
                if !done.contains(id) {
                    assert(holds_id(fired@, id));
                }
            }
            assert(self.live@ =~= old(self)@.tick().live);
            assert(done =~= old(self)@.due().dom());
            assert(self.tokens().dom() =~= self.live@.dom());
            assert forall|id: u64| #[trigger] self.live@.contains_key(id) implies self.live@[id].0.id_spec()
                == id && self.wheel@.pending().count(self.ticket(id)) > 0 by {
                assert(old_live.contains_key(id));
                let x = old(self).ticket(id);
                assert(self.ticket(id) == x);
                assert(old_tokens.dom().contains(id));
                before.lemma_tick_keeps(keep, x);
            }
            assert forall|x: (Ticket<E>, nat)| #[trigger]
                self.wheel@.pending().count(x) > 0 implies x.0.token < self.issued
                && self.wheel@.pending().count(x) == 1 by {
                before.lemma_tick_shrinks(keep, x);
            }
            assert forall|x: (Ticket<E>, nat), y: (Ticket<E>, nat)|
                self.wheel@.pending().count(x) > 0 && self.wheel@.pending().count(y) > 0
                    && x.0.token == y.0.token implies x == y by {
                before.lemma_tick_shrinks(keep, x);
                before.lemma_tick_shrinks(keep, y);
            }
            assert forall|id: u64| #[trigger] old(self)@.due().contains_key(id) implies has_id(
                out@,
                id,
            ) by {
                assert(done.contains(id));
            }
        }
        out
    }
}

impl<E: CancellableTimerEntry> Default for QuadWheelWithOverflow<E> {
    /// An empty wheel at tick 0.
    fn default() -> (w: Self)
        ensures
            w.wf(),
            w.state() == WheelState::<E>::empty(),
            w.has_room(),
    {
        Self::new()
    }
}

} // verus!
