//! What a quad wheel *is*, mathematically.
//!
//! A wheel is a clock, a bag of entries stamped with the tick at which each
//! one fires, and a second bag for entries too far off to fit 32 bits of
//! ticks. The executable wheel is proved to behave exactly like the
//! transitions defined here.

use super::clock::{
    lemma_level_stable, lemma_new_revolution, lemma_same_revolution, lemma_visit_bounds, lemma_wraps,
    next_revolution, visit_tick,
};
use vstd::multiset::*;
use vstd::prelude::*;

verus! {

/// The entries of `s`, each stamped with the tick `t`.
pub open spec fn stamped<E>(s: Seq<E>, t: nat) -> Multiset<(E, nat)> {
    s.map_values(|e: E| (e, t)).to_multiset()
}

/// Stamping distributes over `push`.
pub proof fn lemma_stamped_push<E>(s: Seq<E>, e: E, t: nat)
    ensures
        stamped(s.push(e), t) == stamped(s, t).insert((e, t)),
{
    let f = |e: E| (e, t);
    assert(s.push(e).map_values(f) =~= s.map_values(f).push((e, t)));
    s.map_values(f).to_multiset_ensures();
}

/// Nothing stamped is nothing.
pub proof fn lemma_stamped_empty<E>(s: Seq<E>, t: nat)
    requires
        s.len() == 0,
    ensures
        stamped(s, t) == Multiset::<(E, nat)>::empty(),
{
    let f = |e: E| (e, t);
    let m = s.map_values(f);
    m.to_multiset_ensures();
    assert(m.to_multiset().len() == 0);
    assert(m.to_multiset() =~= Multiset::<(E, nat)>::empty());
}

/// Filtering after an insertion is inserting after the filter, if the new
/// element passes it.
pub proof fn lemma_filter_insert<V>(m: Multiset<V>, v: V, f: spec_fn(V) -> bool)
    ensures
        m.insert(v).filter(f) == (if f(v) {
            m.filter(f).insert(v)
        } else {
            m.filter(f)
        }),
{
    broadcast use group_multiset_axioms;

    assert(m.insert(v).filter(f) =~= (if f(v) {
        m.filter(f).insert(v)
    } else {
        m.filter(f)
    }));
}

/// An insertion can be moved from one summand to the other.
pub proof fn lemma_insert_moves<V>(a: Multiset<V>, b: Multiset<V>, v: V)
    ensures
        a.insert(v).add(b) == a.add(b.insert(v)),
        a.insert(v).add(b) == a.add(b).insert(v),
{
    broadcast use group_multiset_axioms;

    assert(a.insert(v).add(b) =~= a.add(b.insert(v)));
    assert(a.insert(v).add(b) =~= a.add(b).insert(v));
}

/// Abstract state of a quad wheel over entries of type `E`.
pub struct WheelModel<E> {
    /// Ticks performed so far.
    pub now: nat,
    /// Entries in the byte wheels, each with the tick at which it fires.
    pub scheduled: Multiset<(E, nat)>,
    /// Entries in the overflow list, each with the tick at which it fires.
    pub overflow: Multiset<(E, nat)>,
}

impl<E> WheelModel<E> {
    /// A wheel at tick 0 that holds nothing.
    pub open spec fn empty() -> Self {
        WheelModel { now: 0, scheduled: Multiset::empty(), overflow: Multiset::empty() }
    }

    /// Scheduled entries fire within one revolution from now; overflow
    /// entries fire in a later revolution than the current one.
    pub open spec fn wf(self) -> bool {
        &&& forall|x: (E, nat)| #[trigger]
            self.scheduled.count(x) > 0 ==> self.now < x.1 < self.now + 4294967296
        &&& forall|x: (E, nat)| #[trigger]
            self.overflow.count(x) > 0 ==> next_revolution(self.now) <= x.1
    }

    /// Nothing is stored anywhere.
    pub open spec fn is_empty(self) -> bool {
        self.scheduled.len() == 0 && self.overflow.len() == 0
    }

    /// All entries, wherever they are stored.
    pub open spec fn pending(self) -> Multiset<(E, nat)> {
        self.scheduled.add(self.overflow)
    }

    /// The state after scheduling `e` to fire `delay` ticks from now
    /// (`delay > 0`): delays of a full revolution or more go to the overflow
    /// list.
    pub open spec fn insert(self, e: E, delay: nat) -> Self {
        if delay >= 4294967296 {
            WheelModel { overflow: self.overflow.insert((e, self.now + delay)), ..self }
        } else {
            WheelModel { scheduled: self.scheduled.insert((e, self.now + delay)), ..self }
        }
    }

    /// Whether the next tick starts a new revolution.
    pub open spec fn wraps(self) -> bool {
        next_revolution(self.now) == self.now + 1
    }

    /// The overflow entries the next tick looks at: all of them when it
    /// starts a new revolution, none otherwise.
    pub open spec fn scanned(self) -> Multiset<(E, nat)> {
        if self.wraps() {
            self.overflow
        } else {
            Multiset::empty()
        }
    }

    /// The entries the next tick yields under the pruner `keep`.
    pub open spec fn fires(self, keep: spec_fn(E) -> bool) -> Multiset<(E, nat)> {
        let t = self.now + 1;
        self.scheduled.filter(|x: (E, nat)| x.1 == t && keep(x.0)).add(
            self.scanned().filter(|x: (E, nat)| x.1 == t && keep(x.0)),
        )
    }

    /// The state after one tick under the pruner `keep`. Entries that the
    /// tick looks at and that `keep` rejects are gone; of the others, those
    /// due fire and the rest stay, overflow entries moving into the wheels
    /// once they are less than a revolution away.
    pub open spec fn tick(self, keep: spec_fn(E) -> bool) -> Self {
        let t = self.now + 1;
        let now = self.now;
        WheelModel {
            now: t as nat,
            scheduled: self.scheduled.filter(
                |x: (E, nat)| visit_tick(now, x.1) != t || (keep(x.0) && x.1 != t),
            ).add(
                self.scanned().filter(|x: (E, nat)| keep(x.0) && t < x.1 < t + 4294967296),
            ),
            overflow: if self.wraps() {
                self.overflow.filter(|x: (E, nat)| keep(x.0) && x.1 >= t + 4294967296)
            } else {
                self.overflow
            },
        }
    }

    /// Whether none of the next `m` ticks looks at any entry.
    pub open spec fn idle_for(self, m: nat) -> bool {
        &&& forall|x: (E, nat)| #[trigger]
            self.scheduled.count(x) > 0 ==> self.now + m < visit_tick(self.now, x.1)
        &&& forall|x: (E, nat)| #[trigger]
            self.overflow.count(x) > 0 ==> self.now + m < next_revolution(self.now)
    }

    /// Whether the tick after the next `m` looks at some entry.
    pub open spec fn wakes_after(self, m: nat) -> bool {
        ||| exists|x: (E, nat)| #[trigger]
            self.scheduled.count(x) > 0 && visit_tick(self.now, x.1) == self.now + m + 1
        ||| self.overflow.len() > 0 && next_revolution(self.now) == self.now + m + 1
    }

    /// The state after advancing the clock by `n` ticks without looking at
    /// anything.
    pub open spec fn skip(self, n: nat) -> Self {
        WheelModel { now: self.now + n, ..self }
    }

    /// Everything that the next `n` ticks yield under the pruner `keep`.
    pub open spec fn fires_within(self, keep: spec_fn(E) -> bool, n: nat) -> Multiset<(E, nat)>
        decreases n,
    {
        if n == 0 {
            Multiset::empty()
        } else {
            self.fires(keep).add(self.tick(keep).fires_within(keep, (n - 1) as nat))
        }
    }

    /// The state after `n` ticks under the pruner `keep`.
    pub open spec fn ticks(self, keep: spec_fn(E) -> bool, n: nat) -> Self
        decreases n,
    {
        if n == 0 {
            self
        } else {
            self.tick(keep).ticks(keep, (n - 1) as nat)
        }
    }
}

impl<E> WheelModel<E> {
    /// Scheduling adds exactly one entry to what is pending.
    pub proof fn lemma_insert_pending(self, e: E, delay: nat)
        ensures
            self.insert(e, delay).pending() == self.pending().insert((e, self.now + delay)),
            self.insert(e, delay).now == self.now,
    {
        broadcast use group_multiset_axioms;

        assert(self.insert(e, delay).pending() =~= self.pending().insert((e, self.now + delay)));
    }

    /// Scheduling with a positive delay keeps the model well formed.
    pub proof fn lemma_insert_wf(self, e: E, delay: nat)
        requires
            self.wf(),
            delay > 0,
        ensures
            self.insert(e, delay).wf(),
    {
        broadcast use group_multiset_axioms;

        lemma_wraps(self.now);
        lemma_same_revolution(self.now, self.now);
    }

    /// A tick keeps the model well formed.
    pub proof fn lemma_tick_wf(self, keep: spec_fn(E) -> bool)
        requires
            self.wf(),
        ensures
            self.tick(keep).wf(),
    {
        broadcast use group_multiset_axioms;

        let next = self.tick(keep);
        let t = (self.now + 1) as nat;
        lemma_wraps(self.now);
        if self.wraps() {
            lemma_new_revolution(self.now);
        } else {
            lemma_same_revolution(self.now, t);
        }
        assert forall|x: (E, nat)| #[trigger] next.scheduled.count(x) > 0 implies next.now < x.1
            < next.now + 4294967296 by {
            if self.scheduled.count(x) > 0 {
                lemma_visit_bounds(self.now, x.1);
            }
        }
        assert forall|x: (E, nat)| #[trigger] next.overflow.count(x) > 0 implies next_revolution(
            next.now,
        ) <= x.1 by {
            assert(self.overflow.count(x) > 0);
        }
    }

    /// A tick never adds to what is pending.
    pub proof fn lemma_tick_shrinks(self, keep: spec_fn(E) -> bool, x: (E, nat))
        ensures
            self.tick(keep).pending().count(x) <= self.pending().count(x),
    {
        broadcast use group_multiset_axioms;

    }

    /// A tick leaves alone every entry that the pruner keeps and that is not
    /// due.
    pub proof fn lemma_tick_keeps(self, keep: spec_fn(E) -> bool, x: (E, nat))
        requires
            self.wf(),
            keep(x.0),
            x.1 != self.now + 1,
        ensures
            self.tick(keep).pending().count(x) == self.pending().count(x),
    {
        broadcast use group_multiset_axioms;

        lemma_wraps(self.now);
        if self.overflow.count(x) > 0 {
            assert(next_revolution(self.now) <= x.1);
        }
    }

    /// What fires is due now, kept by the pruner, and was pending.
    pub proof fn lemma_fires_sound(self, keep: spec_fn(E) -> bool, x: (E, nat))
        requires
            self.fires(keep).count(x) > 0,
        ensures
            x.1 == self.now + 1,
            keep(x.0),
            self.fires(keep).count(x) <= self.pending().count(x),
    {
        broadcast use group_multiset_axioms;

    }

    /// Whatever is due now and kept by the pruner fires, as often as it is
    /// pending, and is gone afterwards.
    pub proof fn lemma_fires_complete(self, keep: spec_fn(E) -> bool, x: (E, nat))
        requires
            self.wf(),
            x.1 == self.now + 1,
            keep(x.0),
        ensures
            self.fires(keep).count(x) == self.pending().count(x),
            self.tick(keep).pending().count(x) == 0,
    {
        broadcast use group_multiset_axioms;

        lemma_wraps(self.now);
        if self.overflow.count(x) > 0 {
            assert(next_revolution(self.now) <= x.1);
        }
        if self.scheduled.count(x) > 0 {
            lemma_visit_bounds(self.now, x.1);
        }
    }

    /// Conservation: with a pruner that keeps everything, what was pending
    /// before a tick is what is pending after it together with what fired.
    pub proof fn lemma_conservation(self)
        requires
            self.wf(),
        ensures
            self.pending() == self.tick(|e: E| true).pending().add(self.fires(|e: E| true)),
    {
        broadcast use group_multiset_axioms;

        let keep = |e: E| true;
        lemma_wraps(self.now);
        assert forall|x: (E, nat)|
            self.pending().count(x) == #[trigger] self.tick(keep).pending().add(
                self.fires(keep),
            ).count(x) by {
            if x.1 == self.now + 1 {
                self.lemma_fires_complete(keep, x);
            } else {
                self.lemma_tick_keeps(keep, x);
                if self.fires(keep).count(x) > 0 {
                    self.lemma_fires_sound(keep, x);
                }
            }
        }
        assert(self.pending() =~= self.tick(keep).pending().add(self.fires(keep)));
    }

    /// Ticks that can be skipped: none always, any number if nothing is
    /// stored, and fewer than can be skipped anyway.
    pub proof fn lemma_idle_for(self, m: nat, s: nat)
        requires
            self.wf(),
            s == 0 || self.is_empty() || (s <= m && self.idle_for(m)),
        ensures
            self.idle_for(s),
    {
        broadcast use group_multiset_axioms;

        lemma_wraps(self.now);
        assert forall|x: (E, nat)| #[trigger] self.scheduled.count(x) > 0 implies self.now + s
            < visit_tick(self.now, x.1) by {
            lemma_visit_bounds(self.now, x.1);
        }
    }

    /// Conservation over time: with a pruner that keeps everything, what
    /// `n` ticks yield is what was pending before them less what is still
    /// pending after them.
    pub proof fn lemma_conservation_over(self, n: nat)
        requires
            self.wf(),
        ensures
            self.pending() == self.ticks(|e: E| true, n).pending().add(
                self.fires_within(|e: E| true, n),
            ),
        decreases n,
    {
        broadcast use group_multiset_axioms;

        let keep = |e: E| true;
        if n == 0 {
            assert(self.pending() =~= self.pending().add(Multiset::empty()));
        } else {
            self.lemma_conservation();
            self.lemma_tick_wf(keep);
            self.tick(keep).lemma_conservation_over((n - 1) as nat);
            assert(self.pending() =~= self.ticks(keep, n).pending().add(
                self.fires_within(keep, n),
            ));
        }
    }

    /// A tick that looks at nothing only moves the clock.
    pub proof fn lemma_idle_tick(self, keep: spec_fn(E) -> bool)
        requires
            self.wf(),
            self.idle_for(1),
        ensures
            self.tick(keep) == self.skip(1),
            self.fires(keep) == Multiset::<(E, nat)>::empty(),
    {
        broadcast use group_multiset_axioms;

        let next = self.tick(keep);
        lemma_wraps(self.now);
        if self.overflow.len() > 0 {
            let x = self.overflow.choose();
            assert(self.overflow.count(x) > 0);
        } else {
            assert(self.overflow =~= Multiset::<(E, nat)>::empty());
        }
        assert forall|x: (E, nat)| #[trigger]
            self.scheduled.count(x) > 0 implies x.1 != self.now + 1 by {
            lemma_visit_bounds(self.now, x.1);
        }
        assert(next.scheduled =~= self.scheduled);
        assert(next.overflow =~= self.overflow);
        assert(self.fires(keep) =~= Multiset::<(E, nat)>::empty());
    }

    /// Skip safety: while nothing is looked at for `m` ticks, ticking `m`
    /// times is the same as skipping `m` ticks, whatever the pruner.
    pub proof fn lemma_skip_is_ticks(self, keep: spec_fn(E) -> bool, m: nat)
        requires
            self.wf(),
            self.idle_for(m),
        ensures
            self.ticks(keep, m) == self.skip(m),
        decreases m,
    {
        if m == 0 {
            assert(self.skip(0) == self);
        } else {
            let next = self.skip(1);
            assert(self.idle_for(1));
            self.lemma_idle_tick(keep);
            self.lemma_tick_wf(keep);
            assert forall|x: (E, nat)| #[trigger] next.scheduled.count(x) > 0 implies next.now + (m
                - 1) < visit_tick(next.now, x.1) by {
                lemma_level_stable(self.now, 1, x.1);
            }
            assert forall|x: (E, nat)| #[trigger] next.overflow.count(x) > 0 implies next.now + (m
                - 1) < next_revolution(next.now) by {
                lemma_same_revolution(self.now, next.now);
            }
            next.lemma_skip_is_ticks(keep, (m - 1) as nat);
            assert(next.skip((m - 1) as nat) == self.skip(m));
        }
    }

    /// `n + 1` ticks are `n` ticks and one more.
    pub proof fn lemma_ticks_more(self, keep: spec_fn(E) -> bool, n: nat)
        ensures
            self.ticks(keep, n + 1) == self.ticks(keep, n).tick(keep),
        decreases n,
    {
        if n > 0 {
            self.tick(keep).lemma_ticks_more(keep, (n - 1) as nat);
            assert(self.ticks(keep, n + 1) == self.tick(keep).ticks(keep, n));
        } else {
            assert(self.ticks(keep, 1) == self.tick(keep).ticks(keep, 0));
        }
    }

    /// The clock after `n` ticks.
    pub proof fn lemma_ticks_now(self, keep: spec_fn(E) -> bool, n: nat)
        requires
            self.wf(),
        ensures
            self.ticks(keep, n).now == self.now + n,
            self.ticks(keep, n).wf(),
        decreases n,
    {
        if n > 0 {
            self.lemma_tick_wf(keep);
            self.tick(keep).lemma_ticks_now(keep, (n - 1) as nat);
        }
    }

    /// An entry that the pruner keeps stays pending through every tick
    /// before the one at which it fires.
    pub proof fn lemma_waits(self, keep: spec_fn(E) -> bool, x: (E, nat), n: nat)
        requires
            self.wf(),
            keep(x.0),
            self.now + n < x.1,
        ensures
            self.ticks(keep, n).pending().count(x) == self.pending().count(x),
        decreases n,
    {
        if n > 0 {
            self.lemma_tick_wf(keep);
            self.lemma_tick_keeps(keep, x);
            self.tick(keep).lemma_waits(keep, x, (n - 1) as nat);
        }
    }

    /// Scheduling an entry with delay `d` and ticking `d` times yields it at
    /// the last of those ticks, once more than it was already due then, and
    /// at none of the ticks before.
    pub proof fn lemma_fires_after_delay(self, keep: spec_fn(E) -> bool, e: E, d: nat, n: nat)
        requires
            self.wf(),
            keep(e),
            d > 0,
            n < d,
        ensures
            self.insert(e, d).ticks(keep, n).fires(keep).count((e, self.now + d)) == (if n + 1
                == d {
                self.pending().count((e, self.now + d)) + 1
            } else {
                0
            }),
    {
        broadcast use group_multiset_axioms;

        let x = (e, self.now + d);
        let start = self.insert(e, d);
        self.lemma_insert_pending(e, d);
        self.lemma_insert_wf(e, d);
        let at = start.ticks(keep, n);
        start.lemma_ticks_now(keep, n);
        start.lemma_waits(keep, x, n);
        if n + 1 == d {
            at.lemma_fires_complete(keep, x);
        } else if at.fires(keep).count(x) > 0 {
            at.lemma_fires_sound(keep, x);
        }
    }
}

} // verus!
