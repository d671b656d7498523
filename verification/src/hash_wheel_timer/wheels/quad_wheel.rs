//! Four byte wheels stacked into a 32-bit tick counter, plus an overflow
//! list for entries more than a revolution away.
//!
//! The wheel does not know which entries are still wanted: a [`Pruner`] is
//! consulted whenever a tick looks at an entry, and what it rejects is
//! dropped on the spot.

use super::byte_wheel::ByteWheel;
use super::clock::{
    digit, lemma_add_low, lemma_due_now, lemma_flat, lemma_flat_low,
    lemma_level_stable, lemma_new_revolution, lemma_placement, lemma_revolution_distance,
    lemma_same_low, lemma_same_revolution, lemma_shift, lemma_visit_bounds, lemma_visit_distance,
    lemma_visited_next, lemma_wraps, level, low, next_revolution, slot_of, visit_tick,
};
use super::model::{
    lemma_filter_insert, lemma_insert_moves, lemma_stamped_empty, lemma_stamped_push, stamped,
    WheelModel,
};
use crate::hash_wheel_timer::{PruneDecision, Skip, TimerEntryWithDelay, TimerError};
use vstd::multiset::*;
use vstd::prelude::*;

verus! {

/// Decides, each time the wheel looks at an entry, whether it is still
/// wanted.
///
/// `prune` must decide as `keeps` says; an implementation that is not
/// verified is trusted to do so.
pub trait Pruner<E> {
    /// The entries this pruner keeps.
    spec fn keeps(&self, e: E) -> bool;

    /// The verdict on `e`.
    fn prune(&self, e: &E) -> (d: PruneDecision)
        ensures
            d == (if self.keeps(*e) {
                PruneDecision::Keep
            } else {
                PruneDecision::Drop
            }),
    ;
}

/// The pruner that keeps everything.
pub struct KeepAll;

impl<E> Pruner<E> for KeepAll {
    open spec fn keeps(&self, e: E) -> bool {
        true
    }

    fn prune(&self, e: &E) -> (d: PruneDecision) {
        PruneDecision::Keep
    }
}

/// An entry in a wheel slot: the low 32 bits of the tick at which it fires,
/// and the full firing tick for the proof.
struct Timed<E> {
    entry: E,
    due: u32,
    deadline: Ghost<nat>,
}

/// An entry in the overflow list: how far past the start of the next
/// revolution it fires.
struct Deferred<E> {
    entry: E,
    remaining: u64,
    deadline: Ghost<nat>,
}

/// The four-level wheel with its overflow list.
pub struct QuadWheelWithOverflow<E> {
    primary: ByteWheel<Timed<E>>,
    secondary: ByteWheel<Timed<E>>,
    tertiary: ByteWheel<Timed<E>>,
    quaternary: ByteWheel<Timed<E>>,
    overflow: Vec<Deferred<E>>,
    clock: Ghost<nat>,
}

spec fn stamp<E>(t: Timed<E>) -> (E, nat) {
    (t.entry, t.deadline@)
}

spec fn items<E>(s: Seq<Timed<E>>) -> Multiset<(E, nat)> {
    s.map_values(|t: Timed<E>| stamp(t)).to_multiset()
}

spec fn late_stamp<E>(t: Deferred<E>) -> (E, nat) {
    (t.entry, t.deadline@)
}

spec fn late_items<E>(s: Seq<Deferred<E>>) -> Multiset<(E, nat)> {
    s.map_values(|t: Deferred<E>| late_stamp(t)).to_multiset()
}

/// What the first `n` slots of a byte wheel hold.
spec fn upto<E>(w: ByteWheel<Timed<E>>, n: nat) -> Multiset<(E, nat)>
    decreases n,
{
    if n == 0 {
        Multiset::empty()
    } else {
        upto(w, (n - 1) as nat).add(items(w.bag(n - 1)))
    }
}

/// An entry in slot `j` of wheel `k` is where the clock says it belongs.
spec fn fits<E>(t: Timed<E>, k: nat, j: int, now: nat) -> bool {
    &&& now < t.deadline@ < now + 4294967296
    &&& level(now, t.deadline@) == k
    &&& slot_of(now, t.deadline@) == j
    &&& t.due == t.deadline@ % 4294967296
}

/// Every entry of wheel `k` is in its place.
spec fn placed<E>(w: ByteWheel<Timed<E>>, k: nat, now: nat) -> bool {
    forall|j: int, i: int|
        0 <= j < 256 && 0 <= i < w.bag(j).len() ==> fits(#[trigger] w.bag(j)[i], k, j, now)
}

spec fn deferred_ok<E>(s: Seq<Deferred<E>>, now: nat) -> bool {
    forall|i: int|
        0 <= i < s.len() ==> (#[trigger] s[i]).deadline@ == next_revolution(now) + s[i].remaining
}

proof fn lemma_items_push<E>(s: Seq<Timed<E>>, x: Timed<E>)
    ensures
        items(s.push(x)) == items(s).insert(stamp(x)),
{
    let f = |t: Timed<E>| stamp(t);
    assert(s.push(x).map_values(f) =~= s.map_values(f).push(stamp(x)));
    s.map_values(f).to_multiset_ensures();
}

proof fn lemma_items_empty<E>(s: Seq<Timed<E>>)
    requires
        s.len() == 0,
    ensures
        items(s) == Multiset::<(E, nat)>::empty(),
{
    let f = |t: Timed<E>| stamp(t);
    let m = s.map_values(f);
    m.to_multiset_ensures();
    assert(m.to_multiset().len() == 0);
    assert(m.to_multiset() =~= Multiset::<(E, nat)>::empty());
}

proof fn lemma_items_member<E>(s: Seq<Timed<E>>, x: (E, nat))
    requires
        items(s).count(x) > 0,
    ensures
        exists|i: int| 0 <= i < s.len() && stamp(#[trigger] s[i]) == x,
{
    let f = |t: Timed<E>| stamp(t);
    let m = s.map_values(f);
    m.to_multiset_ensures();
    assert(m.contains(x));
    let i = choose|i: int| 0 <= i < m.len() && m[i] == x;
    assert(stamp(s[i]) == x);
}

proof fn lemma_late_push<E>(s: Seq<Deferred<E>>, x: Deferred<E>)
    ensures
        late_items(s.push(x)) == late_items(s).insert(late_stamp(x)),
{
    let f = |t: Deferred<E>| late_stamp(t);
    assert(s.push(x).map_values(f) =~= s.map_values(f).push(late_stamp(x)));
    s.map_values(f).to_multiset_ensures();
}

proof fn lemma_late_empty<E>(s: Seq<Deferred<E>>)
    requires
        s.len() == 0,
    ensures
        late_items(s) == Multiset::<(E, nat)>::empty(),
{
    let f = |t: Deferred<E>| late_stamp(t);
    let m = s.map_values(f);
    m.to_multiset_ensures();
    assert(m.to_multiset().len() == 0);
    assert(m.to_multiset() =~= Multiset::<(E, nat)>::empty());
}

proof fn lemma_late_len<E>(s: Seq<Deferred<E>>)
    ensures
        late_items(s).len() == s.len(),
{
    let f = |t: Deferred<E>| late_stamp(t);
    s.map_values(f).to_multiset_ensures();
}

proof fn lemma_late_member<E>(s: Seq<Deferred<E>>, x: (E, nat))
    requires
        late_items(s).count(x) > 0,
    ensures
        exists|i: int| 0 <= i < s.len() && late_stamp(#[trigger] s[i]) == x,
{
    let f = |t: Deferred<E>| late_stamp(t);
    let m = s.map_values(f);
    m.to_multiset_ensures();
    assert(m.contains(x));
    let i = choose|i: int| 0 <= i < m.len() && m[i] == x;
    assert(late_stamp(s[i]) == x);
}

proof fn lemma_upto_same<E>(a: ByteWheel<Timed<E>>, b: ByteWheel<Timed<E>>, n: nat)
    requires
        n <= 256,
        forall|j: int| 0 <= j < n ==> #[trigger] a.bag(j) == b.bag(j),
    ensures
        upto(a, n) == upto(b, n),
    decreases n,
{
    if n > 0 {
        lemma_upto_same(a, b, (n - 1) as nat);
        assert(a.bag(n - 1) == b.bag(n - 1));
    }
}

proof fn lemma_upto_push<E>(
    a: ByteWheel<Timed<E>>,
    b: ByteWheel<Timed<E>>,
    slot: int,
    x: Timed<E>,
    n: nat,
)
    requires
        0 <= slot < 256,
        n <= 256,
        b.bag(slot) == a.bag(slot).push(x),
        b.same_except(&a, slot),
    ensures
        upto(b, n) == (if slot < n {
            upto(a, n).insert(stamp(x))
        } else {
            upto(a, n)
        }),
    decreases n,
{
    broadcast use group_multiset_axioms;

    if n > 0 {
        lemma_upto_push(a, b, slot, x, (n - 1) as nat);
        if slot == n - 1 {
            lemma_items_push(a.bag(slot), x);
        } else {
            assert(b.bag(n - 1) == a.bag(n - 1));
        }
        assert(upto(b, n) =~= (if slot < n {
            upto(a, n).insert(stamp(x))
        } else {
            upto(a, n)
        }));
    }
}

proof fn lemma_upto_take<E>(a: ByteWheel<Timed<E>>, b: ByteWheel<Timed<E>>, slot: int, n: nat)
    requires
        0 <= slot < 256,
        n <= 256,
        b.bag(slot).len() == 0,
        b.same_except(&a, slot),
    ensures
        upto(a, n) == (if slot < n {
            upto(b, n).add(items(a.bag(slot)))
        } else {
            upto(b, n)
        }),
    decreases n,
{
    broadcast use group_multiset_axioms;

    if n > 0 {
        lemma_upto_take(a, b, slot, (n - 1) as nat);
        if slot == n - 1 {
            lemma_items_empty(b.bag(slot));
        } else {
            assert(b.bag(n - 1) == a.bag(n - 1));
        }
        assert(upto(a, n) =~= (if slot < n {
            upto(b, n).add(items(a.bag(slot)))
        } else {
            upto(b, n)
        }));
    }
}

proof fn lemma_upto_member<E>(w: ByteWheel<Timed<E>>, n: nat, x: (E, nat))
    requires
        n <= 256,
        upto(w, n).count(x) > 0,
    ensures
        exists|j: int, i: int|
            0 <= j < n && 0 <= i < w.bag(j).len() && stamp(#[trigger] w.bag(j)[i]) == x,
    decreases n,
{
    broadcast use group_multiset_axioms;

    if n > 0 {
        if items(w.bag(n - 1)).count(x) > 0 {
            lemma_items_member(w.bag(n - 1), x);
            let i = choose|i: int| 0 <= i < w.bag(n - 1).len() && stamp(#[trigger] w.bag(n - 1)[i]) == x;
            assert(stamp(w.bag(n - 1)[i]) == x);
        } else {
            lemma_upto_member(w, (n - 1) as nat, x);
        }
    }
}

proof fn lemma_upto_empty<E>(w: ByteWheel<Timed<E>>, n: nat)
    requires
        n <= 256,
        forall|j: int| 0 <= j < n ==> (#[trigger] w.bag(j)).len() == 0,
    ensures
        upto(w, n) == Multiset::<(E, nat)>::empty(),
    decreases n,
{
    broadcast use group_multiset_axioms;

    if n > 0 {
        lemma_upto_empty(w, (n - 1) as nat);
        lemma_items_empty(w.bag(n - 1));
        assert(upto(w, n) =~= Multiset::<(E, nat)>::empty());
    }
}

proof fn lemma_upto_holds<E>(w: ByteWheel<Timed<E>>, n: nat, j: int, i: int)
    requires
        n <= 256,
        0 <= j < n,
        0 <= i < w.bag(j).len(),
    ensures
        upto(w, n).count(stamp(w.bag(j)[i])) > 0,
    decreases n,
{
    broadcast use group_multiset_axioms;

    if j == n - 1 {
        let f = |t: Timed<E>| stamp(t);
        let m = w.bag(j).map_values(f);
        m.to_multiset_ensures();
        assert(m[i] == stamp(w.bag(j)[i]));
        assert(m.contains(stamp(w.bag(j)[i])));
    } else {
        lemma_upto_holds(w, (n - 1) as nat, j, i);
    }
}

proof fn lemma_late_holds<E>(s: Seq<Deferred<E>>, i: int)
    requires
        0 <= i < s.len(),
    ensures
        late_items(s).count(late_stamp(s[i])) > 0,
{
    let f = |t: Deferred<E>| late_stamp(t);
    let m = s.map_values(f);
    m.to_multiset_ensures();
    assert(m[i] == late_stamp(s[i]));
    assert(m.contains(late_stamp(s[i])));
}

/// A wheel whose entries are all left alone for `n` ticks is still well
/// placed `n` ticks later.
proof fn lemma_placed_later<E>(
    before: ByteWheel<Timed<E>>,
    after: ByteWheel<Timed<E>>,
    k: nat,
    now: nat,
    n: nat,
)
    requires
        placed(before, k, now),
        forall|j: int| 0 <= j < 256 ==> #[trigger] after.bag(j) == before.bag(j),
        forall|x: (E, nat)| #[trigger]
            upto(before, 256).count(x) > 0 ==> now + n < visit_tick(now, x.1),
    ensures
        placed(after, k, now + n),
        upto(after, 256) == upto(before, 256),
{
    lemma_upto_same(after, before, 256);
    assert forall|j: int, i: int| 0 <= j < 256 && 0 <= i < after.bag(j).len() implies fits(
        #[trigger] after.bag(j)[i],
        k,
        j,
        now + n,
    ) by {
        assert(after.bag(j) == before.bag(j));
        let item = before.bag(j)[i];
        assert(fits(item, k, j, now));
        lemma_upto_holds(before, 256, j, i);
        lemma_level_stable(now, n, item.deadline@);
    }
}

/// Slots `from..to` of a wheel are empty.
spec fn clear<E>(w: ByteWheel<Timed<E>>, from: int, to: int) -> bool {
    forall|i: int| from <= i < to ==> (#[trigger] w.bag(i)).len() == 0
}

/// Ticks from `now` to the tick that looks at slot `j` of wheel `k`.
spec fn reach(now: nat, k: nat, j: int) -> int {
    let c0 = digit(now, 0);
    let c1 = digit(now, 1);
    let c2 = digit(now, 2);
    let c3 = digit(now, 3);
    if k == 0 {
        j - c0
    } else if k == 1 {
        (j - c1) * 256 - c0
    } else if k == 2 {
        (j - c2) * 65536 - (c1 * 256 + c0)
    } else if j > c3 {
        (j - c3) * 16777216 - (c2 * 65536 + c1 * 256 + c0)
    } else {
        (j + 256 - c3) * 16777216 - (c2 * 65536 + c1 * 256 + c0)
    }
}

/// Whether wheel `k`, slot `j` is where an entry firing at `deadline`
/// belongs.
spec fn home(now: nat, deadline: nat, k: nat, j: int) -> bool {
    level(now, deadline) == k && slot_of(now, deadline) == j
}

/// Whatever a well-placed wheel holds is in range and at home there.
proof fn lemma_member_fits<E>(w: ByteWheel<Timed<E>>, k: nat, now: nat, x: (E, nat))
    requires
        placed(w, k, now),
        upto(w, 256).count(x) > 0,
    ensures
        now < x.1 < now + 4294967296,
        level(now, x.1) == k,
        0 <= slot_of(now, x.1) < 256,
        w.bag(slot_of(now, x.1) as int).len() > 0,
{
    lemma_upto_member(w, 256, x);
    let (j, i) = choose|j: int, i: int|
        0 <= j < 256 && 0 <= i < w.bag(j).len() && stamp(#[trigger] w.bag(j)[i]) == x;
    assert(fits(w.bag(j)[i], k, j, now));
}

/// Emptying slot `j0` of a well-placed wheel splits what it held by home.
proof fn lemma_taken<E>(
    before: ByteWheel<Timed<E>>,
    after: ByteWheel<Timed<E>>,
    k: nat,
    j0: int,
    now: nat,
    x: (E, nat),
)
    requires
        0 <= j0 < 256,
        placed(before, k, now),
        after.same_except(&before, j0),
        after.bag(j0).len() == 0,
    ensures
        placed(after, k, now),
        upto(before, 256).count(x) == upto(after, 256).count(x) + items(before.bag(j0)).count(x),
        items(before.bag(j0)).count(x) > 0 ==> home(now, x.1, k, j0),
        upto(after, 256).count(x) > 0 ==> !home(now, x.1, k, j0),
{
    broadcast use group_multiset_axioms;

    lemma_upto_take(before, after, j0, 256);
    assert forall|j: int, i: int| 0 <= j < 256 && 0 <= i < after.bag(j).len() implies fits(
        #[trigger] after.bag(j)[i],
        k,
        j,
        now,
    ) by {
        assert(after.bag(j) == before.bag(j));
        assert(after.bag(j)[i] == before.bag(j)[i]);
    }
    if items(before.bag(j0)).count(x) > 0 {
        lemma_items_member(before.bag(j0), x);
        let i = choose|i: int| 0 <= i < before.bag(j0).len() && stamp(#[trigger] before.bag(j0)[i]) == x;
        assert(fits(before.bag(j0)[i], k, j0, now));
    }
    if upto(after, 256).count(x) > 0 {
        lemma_member_fits(after, k, now, x);
    }
}

/// Emptying one slot of one wheel, seen from all four wheels: what was
/// taken is exactly what is at home in that slot.
proof fn lemma_split<E>(
    before: ByteWheel<Timed<E>>,
    after: ByteWheel<Timed<E>>,
    k: nat,
    j0: int,
    a: ByteWheel<Timed<E>>,
    ka: nat,
    b: ByteWheel<Timed<E>>,
    kb: nat,
    c: ByteWheel<Timed<E>>,
    kc: nat,
    now: nat,
)
    requires
        0 <= j0 < 256,
        placed(before, k, now),
        after.same_except(&before, j0),
        after.bag(j0).len() == 0,
        placed(a, ka, now),
        placed(b, kb, now),
        placed(c, kc, now),
        ka != k,
        kb != k,
        kc != k,
    ensures
        placed(after, k, now),
        forall|x: (E, nat)|
            #![trigger items(before.bag(j0)).count(x)]
            items(before.bag(j0)).count(x) == (if home(now, x.1, k, j0) {
                upto(before, 256).count(x) + upto(a, 256).count(x) + upto(b, 256).count(x) + upto(
                    c,
                    256,
                ).count(x)
            } else {
                0
            }),
        forall|x: (E, nat)|
            #![trigger upto(after, 256).count(x)]
            upto(after, 256).count(x) + upto(a, 256).count(x) + upto(b, 256).count(x) + upto(
                c,
                256,
            ).count(x) == (if home(now, x.1, k, j0) {
                0
            } else {
                upto(before, 256).count(x) + upto(a, 256).count(x) + upto(b, 256).count(x) + upto(
                    c,
                    256,
                ).count(x)
            }),
{
    assert forall|x: (E, nat)|
        #![trigger items(before.bag(j0)).count(x)]
        #![trigger upto(after, 256).count(x)]
        items(before.bag(j0)).count(x) == (if home(now, x.1, k, j0) {
            upto(before, 256).count(x) + upto(a, 256).count(x) + upto(b, 256).count(x) + upto(
                c,
                256,
            ).count(x)
        } else {
            0
        }) && upto(after, 256).count(x) + upto(a, 256).count(x) + upto(b, 256).count(x) + upto(
            c,
            256,
        ).count(x) == (if home(now, x.1, k, j0) {
            0
        } else {
            upto(before, 256).count(x) + upto(a, 256).count(x) + upto(b, 256).count(x) + upto(
                c,
                256,
            ).count(x)
        }) by {
        lemma_taken(before, after, k, j0, now, x);
        if upto(a, 256).count(x) > 0 {
            lemma_member_fits(a, ka, now, x);
        }
        if upto(b, 256).count(x) > 0 {
            lemma_member_fits(b, kb, now, x);
        }
        if upto(c, 256).count(x) > 0 {
            lemma_member_fits(c, kc, now, x);
        }
    }
    lemma_taken(before, after, k, j0, now, arbitrary());
}

/// Adds an entry to the slot of wheel `k` in which it belongs.
fn put<E>(
    w: &mut ByteWheel<Timed<E>>,
    slot: u8,
    item: Timed<E>,
    Ghost(k): Ghost<nat>,
    Ghost(now): Ghost<nat>,
)
    requires
        old(w).wf(),
        placed(*old(w), k, now),
        fits(item, k, slot as int, now),
    ensures
        final(w).wf(),
        final(w).index() == old(w).index(),
        placed(*final(w), k, now),
        upto(*final(w), 256) == upto(*old(w), 256).insert(stamp(item)),
{
    let ghost before = *w;
    w.insert_at(slot, item);
    proof {
        lemma_upto_push(before, *w, slot as int, item, 256);
        assert forall|j: int, i: int| 0 <= j < 256 && 0 <= i < w.bag(j).len() implies fits(
            #[trigger] w.bag(j)[i],
            k,
            j,
            now,
        ) by {
            if j == slot as int {
                if i < before.bag(j).len() {
                    assert(w.bag(j)[i] == before.bag(j)[i]);
                } else {
                    assert(w.bag(j)[i] == item);
                }
            } else {
                assert(w.bag(j) == before.bag(j));
                assert(w.bag(j)[i] == before.bag(j)[i]);
            }
        }
    }
}

/// Hands the entries of `taken` that the pruner keeps over to `fired`.
fn yield_kept<E, P: Pruner<E>>(
    pruner: &P,
    taken: Vec<Timed<E>>,
    fired: &mut Vec<E>,
    Ghost(t): Ghost<nat>,
)
    requires
        forall|i: int| 0 <= i < taken@.len() ==> (#[trigger] taken@[i]).deadline@ == t,
    ensures
        stamped(final(fired)@, t) == stamped(old(fired)@, t).add(
            items(taken@).filter(|x: (E, nat)| pruner.keeps(x.0)),
        ),
{
    let mut taken = taken;
    let ghost orig = taken@;
    let ghost start = fired@;
    let ghost kp = |x: (E, nat)| pruner.keeps(x.0);
    while taken.len() > 0
        invariant
            forall|x: (E, nat)| #[trigger] kp(x) == pruner.keeps(x.0),
            forall|i: int| 0 <= i < taken@.len() ==> (#[trigger] taken@[i]).deadline@ == t,
            stamped(fired@, t).add(items(taken@).filter(kp)) == stamped(start, t).add(
                items(orig).filter(kp),
            ),
        decreases taken.len(),
    {
        let ghost prev = taken@;
        let ghost prev_fired = fired@;
        let x = taken.pop().unwrap();
        proof {
            assert(prev =~= taken@.push(x));
            lemma_items_push(taken@, x);
            assert(x.deadline@ == t);
        }
        let verdict = pruner.prune(&x.entry);
        if verdict.should_keep() {
            fired.push(x.entry);
            proof {
                lemma_stamped_push(prev_fired, x.entry, t);
            }
        }
        proof {
            lemma_filter_insert(items(taken@), stamp(x), kp);
            lemma_insert_moves(stamped(prev_fired, t), items(taken@).filter(kp), stamp(x));
            assert(kp(stamp(x)) == pruner.keeps(x.entry));
        }
    }
    proof {
        broadcast use group_multiset_axioms;

        lemma_items_empty(taken@);
        assert(stamped(fired@, t) =~= stamped(start, t).add(
            items(orig).filter(|x: (E, nat)| pruner.keeps(x.0)),
        ));
    }
}

impl<E> View for QuadWheelWithOverflow<E> {
    type V = WheelModel<E>;

    closed spec fn view(&self) -> WheelModel<E> {
        WheelModel {
            now: self.clock@,
            scheduled: upto(self.primary, 256).add(upto(self.secondary, 256)).add(
                upto(self.tertiary, 256),
            ).add(upto(self.quaternary, 256)),
            overflow: late_items(self.overflow@),
        }
    }
}

impl<E> QuadWheelWithOverflow<E> {
    /// The four indices spell the clock modulo 2^32, every wheel entry sits
    /// in the wheel and slot that its firing tick and the clock dictate, and
    /// every overflow entry fires after the current revolution.
    pub closed spec fn wf(&self) -> bool {
        &&& self.primary.wf()
        &&& self.secondary.wf()
        &&& self.tertiary.wf()
        &&& self.quaternary.wf()
        &&& self.primary.index() == digit(self.clock@, 0)
        &&& self.secondary.index() == digit(self.clock@, 1)
        &&& self.tertiary.index() == digit(self.clock@, 2)
        &&& self.quaternary.index() == digit(self.clock@, 3)
        &&& placed(self.primary, 0, self.clock@)
        &&& placed(self.secondary, 1, self.clock@)
        &&& placed(self.tertiary, 2, self.clock@)
        &&& placed(self.quaternary, 3, self.clock@)
        &&& deferred_ok(self.overflow@, self.clock@)
    }

    /// A well-formed wheel is a well-formed model.
    pub proof fn lemma_view_wf(&self)
        requires
            self.wf(),
        ensures
            self@.wf(),
    {
        broadcast use group_multiset_axioms;

        assert forall|x: (E, nat)| #[trigger] self@.scheduled.count(x) > 0 implies self@.now < x.1
            < self@.now + 4294967296 by {
            if upto(self.primary, 256).count(x) > 0 {
                lemma_upto_member(self.primary, 256, x);
            } else if upto(self.secondary, 256).count(x) > 0 {
                lemma_upto_member(self.secondary, 256, x);
            } else if upto(self.tertiary, 256).count(x) > 0 {
                lemma_upto_member(self.tertiary, 256, x);
            } else {
                lemma_upto_member(self.quaternary, 256, x);
            }
        }
        assert forall|x: (E, nat)| #[trigger] self@.overflow.count(x) > 0 implies next_revolution(
            self@.now,
        ) <= x.1 by {
            lemma_late_member(self.overflow@, x);
        }
    }

    /// Wheel `k` of the four.
    closed spec fn wheel(&self, k: nat) -> ByteWheel<Timed<E>> {
        if k == 0 {
            self.primary
        } else if k == 1 {
            self.secondary
        } else if k == 2 {
            self.tertiary
        } else {
            self.quaternary
        }
    }

    /// Whether slot `j` of wheel `k` holds the entry `x`.
    pub closed spec fn slot_holds(&self, k: nat, j: int, x: (E, nat)) -> bool {
        k < 4 && 0 <= j < 256 && items(self.wheel(k).bag(j)).count(x) > 0
    }

    /// Well-placedness: whatever is scheduled sits in the wheel and the
    /// slot that its firing tick and the clock dictate, and what sits in a
    /// slot is scheduled and belongs there.
    pub proof fn lemma_well_placed(&self, x: (E, nat))
        requires
            self.wf(),
        ensures
            self@.scheduled.count(x) > 0 ==> self.slot_holds(
                level(self@.now, x.1),
                slot_of(self@.now, x.1) as int,
                x,
            ),
            forall|k: nat, j: int| #[trigger]
                self.slot_holds(k, j, x) ==> self@.scheduled.count(x) > 0 && k == level(
                    self@.now,
                    x.1,
                ) && j == slot_of(self@.now, x.1),
    {
        broadcast use group_multiset_axioms;

        let now = self.clock@;
        assert forall|k: nat, j: int| #[trigger] self.slot_holds(k, j, x) implies self@.scheduled.count(
            x,
        ) > 0 && k == level(now, x.1) && j == slot_of(now, x.1) by {
            let w = self.wheel(k);
            lemma_items_member(w.bag(j), x);
            let i = choose|i: int| 0 <= i < w.bag(j).len() && stamp(#[trigger] w.bag(j)[i]) == x;
            assert(placed(w, k, now));
            assert(fits(w.bag(j)[i], k, j, now));
            lemma_upto_holds(w, 256, j, i);
        }
        if self@.scheduled.count(x) > 0 {
            let k: nat = if upto(self.primary, 256).count(x) > 0 {
                0
            } else if upto(self.secondary, 256).count(x) > 0 {
                1
            } else if upto(self.tertiary, 256).count(x) > 0 {
                2
            } else {
                3
            };
            let w = self.wheel(k);
            lemma_upto_member(w, 256, x);
            let (j, i) = choose|j: int, i: int|
                0 <= j < 256 && 0 <= i < w.bag(j).len() && stamp(#[trigger] w.bag(j)[i]) == x;
            assert(placed(w, k, now));
            assert(fits(w.bag(j)[i], k, j, now));
            let f = |t: Timed<E>| stamp(t);
            let m = w.bag(j).map_values(f);
            m.to_multiset_ensures();
            assert(m[i] == x);
            assert(m.contains(x));
        }
    }

    /// Whatever is scheduled sits in its home slot.
    proof fn lemma_item_home(&self, x: (E, nat))
        requires
            self.wf(),
            self@.scheduled.count(x) > 0,
        ensures
            self@.now < x.1 < self@.now + 4294967296,
            level(self@.now, x.1) < 4,
            0 <= slot_of(self@.now, x.1) < 256,
            self.wheel(level(self@.now, x.1)).bag(slot_of(self@.now, x.1) as int).len() > 0,
    {
        broadcast use group_multiset_axioms;

        if upto(self.primary, 256).count(x) > 0 {
            lemma_member_fits(self.primary, 0, self.clock@, x);
        } else if upto(self.secondary, 256).count(x) > 0 {
            lemma_member_fits(self.secondary, 1, self.clock@, x);
        } else if upto(self.tertiary, 256).count(x) > 0 {
            lemma_member_fits(self.tertiary, 2, self.clock@, x);
        } else {
            lemma_member_fits(self.quaternary, 3, self.clock@, x);
        }
    }

    /// A non-empty slot holds something that is scheduled and at home there.
    proof fn lemma_slot_witness(&self, k: nat, j: int) -> (x: (E, nat))
        requires
            self.wf(),
            k < 4,
            0 <= j < 256,
            self.wheel(k).bag(j).len() > 0,
        ensures
            self@.scheduled.count(x) > 0,
            self@.now < x.1 < self@.now + 4294967296,
            level(self@.now, x.1) == k,
            slot_of(self@.now, x.1) == j,
    {
        broadcast use group_multiset_axioms;

        let w = self.wheel(k);
        let item = w.bag(j)[0];
        assert(placed(w, k, self.clock@));
        assert(fits(item, k, j, self.clock@));
        lemma_upto_holds(w, 256, j, 0);
        stamp(item)
    }

    /// The first occupied slot in scanning order is the first to be looked
    /// at.
    proof fn lemma_earliest(&self, k: nat, j: int, m: nat)
        requires
            self.wf(),
            k < 4,
            0 <= j < 256,
            self.wheel(k).bag(j).len() > 0,
            clear(self.primary, (digit(self@.now, 0) + 1) as int, if k == 0 { j } else { 256 }),
            k >= 1 ==> clear(self.secondary, (digit(self@.now, 1) + 1) as int, if k == 1 { j } else { 256 }),
            k >= 2 ==> clear(self.tertiary, (digit(self@.now, 2) + 1) as int, if k == 2 { j } else { 256 }),
            k == 3 && j > digit(self@.now, 3) ==> clear(
                self.quaternary,
                (digit(self@.now, 3) + 1) as int,
                j,
            ),
            k == 3 && j <= digit(self@.now, 3) ==> clear(
                self.quaternary,
                (digit(self@.now, 3) + 1) as int,
                256,
            ) && clear(self.quaternary, 0, j) && self@.overflow.len() == 0,
            m + 1 == reach(self@.now, k, j),
        ensures
            self@.idle_for(m),
            self@.wakes_after(m),
    {
        broadcast use group_multiset_axioms;

        let now = self@.now;
        lemma_shift(now);
        lemma_revolution_distance(now);
        let w = self.lemma_slot_witness(k, j);
        lemma_visit_distance(now, w.1);
        assert(visit_tick(now, w.1) == now + m + 1);
        assert forall|x: (E, nat)| #[trigger] self@.scheduled.count(x) > 0 implies now + m
            < visit_tick(now, x.1) by {
            self.lemma_item_home(x);
            lemma_visit_distance(now, x.1);
        }
    }

    /// With the wheels clear, the overflow list is what is looked at first:
    /// at the start of the next revolution.
    proof fn lemma_earliest_overflow(&self, m: nat)
        requires
            self.wf(),
            clear(self.primary, (digit(self@.now, 0) + 1) as int, 256),
            clear(self.secondary, (digit(self@.now, 1) + 1) as int, 256),
            clear(self.tertiary, (digit(self@.now, 2) + 1) as int, 256),
            clear(self.quaternary, (digit(self@.now, 3) + 1) as int, 256),
            self@.overflow.len() > 0,
            m + 1 == 4294967296 - low(self@.now),
        ensures
            self@.idle_for(m),
            self@.wakes_after(m),
    {
        broadcast use group_multiset_axioms;

        let now = self@.now;
        lemma_shift(now);
        lemma_revolution_distance(now);
        assert forall|x: (E, nat)| #[trigger] self@.scheduled.count(x) > 0 implies now + m
            < visit_tick(now, x.1) by {
            self.lemma_item_home(x);
            lemma_visit_distance(now, x.1);
        }
    }

    /// With every slot clear and no overflow, nothing is stored.
    proof fn lemma_all_clear(&self)
        requires
            self.wf(),
            clear(self.primary, (digit(self@.now, 0) + 1) as int, 256),
            clear(self.secondary, (digit(self@.now, 1) + 1) as int, 256),
            clear(self.tertiary, (digit(self@.now, 2) + 1) as int, 256),
            clear(self.quaternary, 0, 256),
            self.overflow@.len() == 0,
        ensures
            self@.is_empty(),
    {
        broadcast use group_multiset_axioms;

        let now = self@.now;
        lemma_late_len(self.overflow@);
        if self@.scheduled.len() > 0 {
            let x = self@.scheduled.choose();
            self.lemma_item_home(x);
            lemma_visit_distance(now, x.1);
        }
    }

    /// An empty wheel at tick 0.
    pub fn new() -> (w: Self)
        ensures
            w.wf(),
            w@ == WheelModel::<E>::empty(),
    {
        let w = QuadWheelWithOverflow {
            primary: ByteWheel::new(),
            secondary: ByteWheel::new(),
            tertiary: ByteWheel::new(),
            quaternary: ByteWheel::new(),
            overflow: Vec::new(),
            clock: Ghost(0),
        };
        proof {
            broadcast use group_multiset_axioms;

            lemma_shift(0);
            lemma_upto_empty(w.primary, 256);
            lemma_upto_empty(w.secondary, 256);
            lemma_upto_empty(w.tertiary, 256);
            lemma_upto_empty(w.quaternary, 256);
            lemma_late_empty(w.overflow@);
            assert(w@.scheduled =~= Multiset::<(E, nat)>::empty());
        }
        w
    }

    /// The clock modulo 2^32, read off the four indices.
    fn counter(&self) -> (c: u32)
        requires
            self.wf(),
        ensures
            c == self@.now % 4294967296,
    {
        let c0: u32 = self.primary.current() as u32;
        let c1: u32 = self.secondary.current() as u32;
        let c2: u32 = self.tertiary.current() as u32;
        let c3: u32 = self.quaternary.current() as u32;
        proof {
            lemma_shift(self.clock@);
            lemma_flat(self.clock@);
        }
        c3 * 16777216 + c2 * 65536 + c1 * 256 + c0
    }

    /// Puts an entry that fires within a revolution into its wheel and slot.
    fn place(&mut self, item: Timed<E>)
        requires
            old(self).wf(),
            old(self)@.now < item.deadline@ < old(self)@.now + 4294967296,
            item.due == item.deadline@ % 4294967296,
        ensures
            final(self).wf(),
            final(self)@ == (WheelModel {
                scheduled: old(self)@.scheduled.insert(stamp(item)),
                ..old(self)@
            }),
    {
        let c: u32 = self.counter();
        let due: u32 = item.due;
        let delta: u64 = if due >= c {
            (due - c) as u64
        } else {
            due as u64 + 4294967296 - c as u64
        };
        let ghost now = self.clock@;
        proof {
            lemma_placement(now, item.deadline@, c as nat, due as nat, delta as nat);
        }
        if (c % 256) as u64 + delta < 256 {
            put(&mut self.primary, (due % 256) as u8, item, Ghost(0), Ghost(now));
        } else if (c % 65536) as u64 + delta < 65536 {
            put(&mut self.secondary, ((due / 256) % 256) as u8, item, Ghost(1), Ghost(now));
        } else if (c % 16777216) as u64 + delta < 16777216 {
            put(&mut self.tertiary, ((due / 65536) % 256) as u8, item, Ghost(2), Ghost(now));
        } else {
            put(&mut self.quaternary, (due / 16777216) as u8, item, Ghost(3), Ghost(now));
        }
        assert(self@.scheduled =~= old(self)@.scheduled.insert(stamp(item))) by {
            broadcast use group_multiset_axioms;

        }
    }

    /// Empties slot `slot` of wheel `k`: out comes exactly what is at home
    /// there.
    fn take_slot(&mut self, k: u8, slot: u8) -> (out: Vec<Timed<E>>)
        requires
            old(self).wf(),
            k < 4,
        ensures
            final(self).wf(),
            final(self)@.now == old(self)@.now,
            final(self)@.overflow == old(self)@.overflow,
            items(out@) == old(self)@.scheduled.filter(
                |x: (E, nat)| home(old(self)@.now, x.1, k as nat, slot as int),
            ),
            final(self)@.scheduled == old(self)@.scheduled.filter(
                |x: (E, nat)| !home(old(self)@.now, x.1, k as nat, slot as int),
            ),
            forall|i: int|
                0 <= i < out@.len() ==> fits(
                    #[trigger] out@[i],
                    k as nat,
                    slot as int,
                    old(self)@.now,
                ),
    {
        let ghost now = self.clock@;
        let ghost p = self.primary;
        let ghost s = self.secondary;
        let ghost t = self.tertiary;
        let ghost q = self.quaternary;
        let out = if k == 0 {
            let out = self.primary.take_at(slot);
            proof {
                lemma_split(p, self.primary, 0, slot as int, s, 1, t, 2, q, 3, now);
            }
            out
        } else if k == 1 {
            let out = self.secondary.take_at(slot);
            proof {
                lemma_split(s, self.secondary, 1, slot as int, p, 0, t, 2, q, 3, now);
            }
            out
        } else if k == 2 {
            let out = self.tertiary.take_at(slot);
            proof {
                lemma_split(t, self.tertiary, 2, slot as int, p, 0, s, 1, q, 3, now);
            }
            out
        } else {
            let out = self.quaternary.take_at(slot);
            proof {
                lemma_split(q, self.quaternary, 3, slot as int, p, 0, s, 1, t, 2, now);
            }
            out
        };
        proof {
            broadcast use group_multiset_axioms;

            assert(items(out@) =~= old(self)@.scheduled.filter(
                |x: (E, nat)| home(now, x.1, k as nat, slot as int),
            ));
            assert(self@.scheduled =~= old(self)@.scheduled.filter(
                |x: (E, nat)| !home(now, x.1, k as nat, slot as int),
            ));
        }
        out
    }

    /// Moves the clock forward by `amount` ticks without looking at any
    /// entry.
    ///
    /// This is only meaningful while none of those ticks would have looked
    /// at anything, which is what [`Self::can_skip`] reports.
    pub fn skip(&mut self, amount: u32)
        requires
            old(self).wf(),
            old(self)@.idle_for(amount as nat),
        ensures
            final(self).wf(),
            final(self)@ == old(self)@.skip(amount as nat),
    {
        let c: u32 = self.counter();
        let target: u32 = ((c as u64 + amount as u64) % 4294967296) as u32;
        let ghost now = self.clock@;
        let ghost later = now + amount as nat;
        let ghost p = self.primary;
        let ghost s = self.secondary;
        let ghost t = self.tertiary;
        let ghost q = self.quaternary;
        proof {
            lemma_add_low(now, c as nat, amount as nat, target as nat);
            lemma_same_low(later, target as nat);
            lemma_flat(target as nat);
            lemma_flat_low(target as nat);
        }
        self.primary.advance_to((target % 256) as u8);
        self.secondary.advance_to(((target / 256) % 256) as u8);
        self.tertiary.advance_to(((target / 65536) % 256) as u8);
        self.quaternary.advance_to((target / 16777216) as u8);
        self.clock = Ghost(later);
        proof {
            broadcast use group_multiset_axioms;

            assert forall|x: (E, nat)|
                upto(p, 256).count(x) > 0 || upto(s, 256).count(x) > 0 || upto(t, 256).count(x) > 0
                    || upto(q, 256).count(x) > 0 implies now + amount < visit_tick(now, x.1) by {
                assert(old(self)@.scheduled.count(x) > 0);
            }
            lemma_placed_later(p, self.primary, 0, now, amount as nat);
            lemma_placed_later(s, self.secondary, 1, now, amount as nat);
            lemma_placed_later(t, self.tertiary, 2, now, amount as nat);
            lemma_placed_later(q, self.quaternary, 3, now, amount as nat);
            assert forall|i: int| 0 <= i < self.overflow@.len() implies (
            #[trigger] self.overflow@[i]).deadline@ == next_revolution(later)
                + self.overflow@[i].remaining by {
                lemma_late_holds(self.overflow@, i);
                assert(old(self)@.overflow.count(late_stamp(self.overflow@[i])) > 0);
                lemma_same_revolution(now, later);
            }
        }
    }

    /// Deals with the entries of a slot that has just become current on a
    /// higher wheel: of those that the pruner keeps, the ones due now fire
    /// and the others move down to the wheel and slot where they belong.
    fn settle<P: Pruner<E>>(&mut self, pruner: &P, moved: Vec<Timed<E>>, fired: &mut Vec<E>)
        requires
            old(self).wf(),
            forall|i: int|
                0 <= i < moved@.len() ==> {
                    &&& old(self)@.now <= (#[trigger] moved@[i]).deadline@ < old(self)@.now
                        + 4294967296
                    &&& moved@[i].due == moved@[i].deadline@ % 4294967296
                },
        ensures
            final(self).wf(),
            final(self)@ == (WheelModel {
                scheduled: old(self)@.scheduled.add(
                    items(moved@).filter(
                        |x: (E, nat)| pruner.keeps(x.0) && x.1 != old(self)@.now,
                    ),
                ),
                ..old(self)@
            }),
            stamped(final(fired)@, old(self)@.now) == stamped(old(fired)@, old(self)@.now).add(
                items(moved@).filter(|x: (E, nat)| x.1 == old(self)@.now && pruner.keeps(x.0)),
            ),
    {
        let mut moved = moved;
        let ghost orig = moved@;
        let ghost start = self@;
        let ghost start_fired = fired@;
        let ghost now = self.clock@;
        let ghost stay = |x: (E, nat)| pruner.keeps(x.0) && x.1 != now;
        let ghost due = |x: (E, nat)| x.1 == now && pruner.keeps(x.0);
        let c: u32 = self.counter();
        while moved.len() > 0
            invariant
                forall|x: (E, nat)| #[trigger] stay(x) == (pruner.keeps(x.0) && x.1 != now),
                forall|x: (E, nat)| #[trigger] due(x) == (x.1 == now && pruner.keeps(x.0)),
                self.wf(),
                self@.now == now,
                c == now % 4294967296,
                self@.overflow == start.overflow,
                forall|i: int|
                    0 <= i < moved@.len() ==> {
                        &&& now <= (#[trigger] moved@[i]).deadline@ < now + 4294967296
                        &&& moved@[i].due == moved@[i].deadline@ % 4294967296
                    },
                self@.scheduled.add(items(moved@).filter(stay)) == start.scheduled.add(
                    items(orig).filter(stay),
                ),
                stamped(fired@, now).add(items(moved@).filter(due)) == stamped(start_fired, now).add(
                    items(orig).filter(due),
                ),
            decreases moved.len(),
        {
            let ghost prev = moved@;
            let ghost before = self@;
            let ghost prev_fired = fired@;
            let x = moved.pop().unwrap();
            proof {
                assert(prev =~= moved@.push(x));
                lemma_items_push(moved@, x);
                assert(x == prev[prev.len() - 1]);
                lemma_due_now(now, x.deadline@, c as nat, x.due as nat);
            }
            let verdict = pruner.prune(&x.entry);
            if verdict.should_keep() {
                if x.due == c {
                    fired.push(x.entry);
                    proof {
                        lemma_stamped_push(prev_fired, x.entry, now);
                    }
                } else {
                    self.place(x);
                }
            }
            proof {
                let v = stamp(x);
                lemma_filter_insert(items(moved@), v, stay);
                lemma_filter_insert(items(moved@), v, due);
                lemma_insert_moves(before.scheduled, items(moved@).filter(stay), v);
                lemma_insert_moves(stamped(prev_fired, now), items(moved@).filter(due), v);
                assert(stay(v) == (pruner.keeps(x.entry) && x.deadline@ != now));
                assert(due(v) == (pruner.keeps(x.entry) && x.deadline@ == now));
            }
        }
        proof {
            broadcast use group_multiset_axioms;

            lemma_items_empty(moved@);
            assert(self@.scheduled =~= start.scheduled.add(
                items(orig).filter(|x: (E, nat)| pruner.keeps(x.0) && x.1 != now),
            ));
            assert(stamped(fired@, now) =~= stamped(start_fired, now).add(
                items(orig).filter(|x: (E, nat)| x.1 == now && pruner.keeps(x.0)),
            ));
        }
    }

    /// Goes through what the overflow list held at the start of a
    /// revolution: entries due right now fire, entries less than a
    /// revolution away move into the wheels, the rest wait for the next
    /// revolution; what the pruner rejects is dropped.
    fn promote<P: Pruner<E>>(&mut self, pruner: &P, late: Vec<Deferred<E>>, fired: &mut Vec<E>)
        requires
            old(self).wf(),
            old(self)@.overflow.len() == 0,
            old(self)@.now % 4294967296 == 0,
            next_revolution(old(self)@.now) == old(self)@.now + 4294967296,
            forall|i: int|
                0 <= i < late@.len() ==> (#[trigger] late@[i]).deadline@ == old(self)@.now
                    + late@[i].remaining,
        ensures
            final(self).wf(),
            final(self)@.now == old(self)@.now,
            final(self)@.scheduled == old(self)@.scheduled.add(
                late_items(late@).filter(
                    |x: (E, nat)|
                        pruner.keeps(x.0) && old(self)@.now < x.1 < old(self)@.now + 4294967296,
                ),
            ),
            final(self)@.overflow == late_items(late@).filter(
                |x: (E, nat)| pruner.keeps(x.0) && x.1 >= old(self)@.now + 4294967296,
            ),
            stamped(final(fired)@, old(self)@.now) == stamped(old(fired)@, old(self)@.now).add(
                late_items(late@).filter(
                    |x: (E, nat)| x.1 == old(self)@.now && pruner.keeps(x.0),
                ),
            ),
    {
        let mut late = late;
        let ghost orig = late@;
        let ghost start = self@;
        let ghost start_fired = fired@;
        let ghost now = self.clock@;
        let ghost near = |x: (E, nat)| pruner.keeps(x.0) && now < x.1 < now + 4294967296;
        let ghost far = |x: (E, nat)| pruner.keeps(x.0) && x.1 >= now + 4294967296;
        let ghost due = |x: (E, nat)| x.1 == now && pruner.keeps(x.0);
        proof {
            broadcast use group_multiset_axioms;

            lemma_late_len(self.overflow@);
            lemma_late_empty(self.overflow@);
            assert(self@.overflow.add(late_items(late@).filter(far)) =~= late_items(orig).filter(
                far,
            ));
        }
        while late.len() > 0
            invariant
                forall|x: (E, nat)|
                    #[trigger] near(x) == (pruner.keeps(x.0) && now < x.1 < now + 4294967296),
                forall|x: (E, nat)|
                    #[trigger] far(x) == (pruner.keeps(x.0) && x.1 >= now + 4294967296),
                forall|x: (E, nat)| #[trigger] due(x) == (x.1 == now && pruner.keeps(x.0)),
                self.wf(),
                self@.now == now,
                now % 4294967296 == 0,
                next_revolution(now) == now + 4294967296,
                forall|i: int|
                    0 <= i < late@.len() ==> (#[trigger] late@[i]).deadline@ == now
                        + late@[i].remaining,
                self@.scheduled.add(late_items(late@).filter(near)) == start.scheduled.add(
                    late_items(orig).filter(near),
                ),
                self@.overflow.add(late_items(late@).filter(far)) == late_items(orig).filter(far),
                stamped(fired@, now).add(late_items(late@).filter(due)) == stamped(
                    start_fired,
                    now,
                ).add(late_items(orig).filter(due)),
            decreases late.len(),
        {
            let ghost prev = late@;
            let ghost before = self@;
            let ghost prev_fired = fired@;
            let ghost prev_overflow = self.overflow@;
            let x = late.pop().unwrap();
            proof {
                assert(prev =~= late@.push(x));
                lemma_late_push(late@, x);
                assert(x == prev[prev.len() - 1]);
            }
            let verdict = pruner.prune(&x.entry);
            if verdict.should_keep() {
                let r: u64 = x.remaining;
                if r == 0 {
                    fired.push(x.entry);
                    proof {
                        lemma_stamped_push(prev_fired, x.entry, now);
                    }
                } else if r < 4294967296 {
                    let item = Timed { entry: x.entry, due: r as u32, deadline: x.deadline };
                    proof {
                        lemma_add_low(now, 0, r as nat, r as nat);
                    }
                    self.place(item);
                } else {
                    let item = Deferred {
                        entry: x.entry,
                        remaining: r - 4294967296,
                        deadline: x.deadline,
                    };
                    self.overflow.push(item);
                    proof {
                        lemma_late_push(prev_overflow, item);
                        assert forall|i: int| 0 <= i < self.overflow@.len() implies (
                        #[trigger] self.overflow@[i]).deadline@ == next_revolution(now)
                            + self.overflow@[i].remaining by {
                            if i < prev_overflow.len() {
                                assert(self.overflow@[i] == prev_overflow[i]);
                            }
                        }
                    }
                }
            }
            proof {
                let v = late_stamp(x);
                lemma_filter_insert(late_items(late@), v, near);
                lemma_filter_insert(late_items(late@), v, far);
                lemma_filter_insert(late_items(late@), v, due);
                lemma_insert_moves(before.scheduled, late_items(late@).filter(near), v);
                lemma_insert_moves(before.overflow, late_items(late@).filter(far), v);
                lemma_insert_moves(stamped(prev_fired, now), late_items(late@).filter(due), v);
                assert(near(v) == (pruner.keeps(x.entry) && 0 < x.remaining < 4294967296));
                assert(far(v) == (pruner.keeps(x.entry) && x.remaining >= 4294967296));
                assert(due(v) == (pruner.keeps(x.entry) && x.remaining == 0));
            }
        }
        proof {
            broadcast use group_multiset_axioms;

            lemma_late_empty(late@);
            assert(self@.scheduled =~= start.scheduled.add(
                late_items(orig).filter(
                    |x: (E, nat)| pruner.keeps(x.0) && now < x.1 < now + 4294967296,
                ),
            ));
            assert(self@.overflow =~= late_items(orig).filter(
                |x: (E, nat)| pruner.keeps(x.0) && x.1 >= now + 4294967296,
            ));
            assert(stamped(fired@, now) =~= stamped(start_fired, now).add(
                late_items(orig).filter(|x: (E, nat)| x.1 == now && pruner.keeps(x.0)),
            ));
        }
    }

    /// Schedules `e` after the delay that it asks for.
    pub fn insert(&mut self, e: E) -> (r: Result<(), TimerError<E>>) where E: TimerEntryWithDelay
        requires
            old(self).wf(),
        ensures
            final(self).wf(),
            e.delay_spec() == 0 ==> r == Err::<(), TimerError<E>>(TimerError::Expired(e))
                && final(self)@ == old(self)@,
            e.delay_spec() > 0 ==> r.is_ok() && final(self)@ == old(self)@.insert(
                e,
                e.delay_spec() as nat,
            ),
    {
        let delay = e.delay();
        self.insert_with_delay(e, delay)
    }

    /// Moves the wheel forward by one tick and returns the entries that
    /// fire.
    ///
    /// The lowest wheel moves on by one slot; what the pruner keeps of the
    /// slot it reaches fires. Where a wheel wraps, the next wheel up moves
    /// on as well, and of the entries in the slot it reaches those due now
    /// fire and the others are redistributed downwards. When the highest
    /// wheel wraps, the overflow list is gone through in the same way. The
    /// pruner sees every entry that the tick looks at, and only those.
    pub fn tick<P: Pruner<E>>(&mut self, pruner: &P) -> (fired: Vec<E>)
        requires
            old(self).wf(),
        ensures
            final(self).wf(),
            final(self)@ == old(self)@.tick(|e: E| pruner.keeps(e)),
            stamped(fired@, final(self)@.now) == old(self)@.fires(|e: E| pruner.keeps(e)),
    {
        let ghost before = self@;
        let ghost now = self.clock@;
        let c0: u8 = self.primary.current();
        let c1: u8 = self.secondary.current();
        let c2: u8 = self.tertiary.current();
        let c3: u8 = self.quaternary.current();
        let wraps = c0 == 255 && c1 == 255 && c2 == 255 && c3 == 255;
        let next0: u8 = c0.wrapping_add(1);
        proof {
            self.lemma_view_wf();
            lemma_wraps(now);
            if wraps {
                lemma_new_revolution(now);
            }
        }
        let mut fired: Vec<E> = Vec::new();
        let due = self.take_slot(0, next0);
        proof {
            lemma_stamped_empty(fired@, now + 1);
            assert forall|i: int| 0 <= i < due@.len() implies (#[trigger] due@[i]).deadline@ == now
                + 1 by {
                assert(fits(due@[i], 0, next0 as int, now));
                lemma_visited_next(now, due@[i].deadline@);
            }
        }
        yield_kept(pruner, due, &mut fired, Ghost(now + 1));
        let ghost slot: int = if c1 != 255 {
            c1 + 1
        } else if c2 != 255 {
            c2 + 1
        } else if c3 != 255 {
            c3 + 1
        } else {
            0
        };
        let ghost k: nat = if c1 != 255 {
            1
        } else if c2 != 255 {
            2
        } else {
            3
        };
        let moved: Vec<Timed<E>> = if c0 != 255 {
            Vec::new()
        } else if c1 != 255 {
            self.take_slot(1, c1 + 1)
        } else if c2 != 255 {
            self.take_slot(2, c2 + 1)
        } else {
            self.take_slot(3, c3.wrapping_add(1))
        };
        let mut late: Vec<Deferred<E>> = Vec::new();
        proof {
            assert(deferred_ok(self.overflow@, now));
        }
        if wraps {
            std::mem::swap(&mut late, &mut self.overflow);
        }
        let ghost idle = self@;
        proof {
            broadcast use group_multiset_axioms;

            if wraps {
                lemma_late_empty(self.overflow@);
            }
            if c0 != 255 {
                lemma_items_empty(moved@);
            }
            assert forall|x: (E, nat)| #[trigger] idle.scheduled.count(x) > 0 implies now + 1
                < visit_tick(now, x.1) by {
                assert(before.scheduled.count(x) > 0);
                lemma_visited_next(now, x.1);
                lemma_visit_bounds(now, x.1);
            }
            assert(self@.idle_for(1));
        }
        self.skip(1);
        proof {
            assert forall|i: int| 0 <= i < moved@.len() implies {
                &&& now + 1 <= (#[trigger] moved@[i]).deadline@ < now + 1 + 4294967296
                &&& moved@[i].due == moved@[i].deadline@ % 4294967296
            } by {
                assert(fits(moved@[i], k, slot, now));
            }
        }
        self.settle(pruner, moved, &mut fired);
        if wraps {
            proof {
                broadcast use group_multiset_axioms;

                assert forall|i: int| 0 <= i < late@.len() implies (#[trigger] late@[i]).deadline@
                    == now + 1 + late@[i].remaining by {}
                assert(self@.overflow.len() == 0);
            }
            self.promote(pruner, late, &mut fired);
        }
        proof {
            broadcast use group_multiset_axioms;

            let keep = |e: E| pruner.keeps(e);
            let goal = before.tick(keep);
            assert forall|x: (E, nat)| #[trigger]
                before.scheduled.count(x) > 0 implies (c0 != 255 ==> (visit_tick(now, x.1) == now
                + 1 <==> home(now, x.1, 0, next0 as int)) && (visit_tick(now, x.1) == now + 1
                ==> x.1 == now + 1)) && (c0 == 255 ==> !home(now, x.1, 0, next0 as int) && (
            visit_tick(now, x.1) == now + 1 <==> home(now, x.1, k, slot))) && (x.1 == now + 1
                ==> visit_tick(now, x.1) == now + 1) by {
                lemma_visited_next(now, x.1);
            }
            assert forall|x: (E, nat)| #[trigger]
                before.overflow.count(x) > 0 implies x.1 >= next_revolution(now) by {}
            assert(self@.scheduled =~= goal.scheduled);
            assert(self@.overflow =~= goal.overflow);
            assert(stamped(fired@, now + 1) =~= before.fires(keep));
        }
        fired
    }

    /// How many ticks can be skipped before a tick has to look at an entry.
    ///
    /// `Empty` means that nothing is stored at all. `Millis(m)` means that
    /// the next `m` ticks look at nothing and the one after them does.
    /// `Zero` means that the very next tick looks at something. The wheels
    /// are scanned from the lowest up, each from its current position, and
    /// the overflow list counts as one slot at the start of the next
    /// revolution.
    pub fn can_skip(&self) -> (r: Skip)
        requires
            self.wf(),
        ensures
            match r {
                Skip::Empty => self@.is_empty(),
                Skip::Millis(m) => m >= 1 && self@.idle_for(m as nat) && self@.wakes_after(
                    m as nat,
                ),
                Skip::Zero => self@.wakes_after(0),
            },
    {
        let c0: u8 = self.primary.current();
        let c1: u8 = self.secondary.current();
        let c2: u8 = self.tertiary.current();
        let c3: u8 = self.quaternary.current();
        let low16: u32 = c1 as u32 * 256 + c0 as u32;
        let low24: u32 = c2 as u32 * 65536 + low16;
        let low32: u32 = c3 as u32 * 16777216 + low24;
        if c0 < 255 {
            match self.primary.first_occupied(c0 + 1) {
                Some(j) => {
                    let m: u32 = (j - c0) as u32 - 1;
                    proof {
                        self.lemma_earliest(0, j as int, m as nat);
                    }
                    return Skip::from_millis(m);
                },
                None => {},
            }
        }
        if c1 < 255 {
            match self.secondary.first_occupied(c1 + 1) {
                Some(j) => {
                    let m: u32 = (j - c1) as u32 * 256 - c0 as u32 - 1;
                    proof {
                        self.lemma_earliest(1, j as int, m as nat);
                    }
                    return Skip::from_millis(m);
                },
                None => {},
            }
        }
        if c2 < 255 {
            match self.tertiary.first_occupied(c2 + 1) {
                Some(j) => {
                    let m: u32 = (j - c2) as u32 * 65536 - low16 - 1;
                    proof {
                        self.lemma_earliest(2, j as int, m as nat);
                    }
                    return Skip::from_millis(m);
                },
                None => {},
            }
        }
        if c3 < 255 {
            match self.quaternary.first_occupied(c3 + 1) {
                Some(j) => {
                    let m: u32 = (j - c3) as u32 * 16777216 - low24 - 1;
                    proof {
                        self.lemma_earliest(3, j as int, m as nat);
                    }
                    return Skip::from_millis(m);
                },
                None => {},
            }
        }
        if self.overflow.len() > 0 {
            let m: u32 = (4294967296u64 - low32 as u64 - 1) as u32;
            proof {
                lemma_late_len(self.overflow@);
                self.lemma_earliest_overflow(m as nat);
            }
            return Skip::from_millis(m);
        }
        match self.quaternary.first_occupied(0) {
            Some(j) => {
                proof {
                    lemma_late_len(self.overflow@);
                }
                let m: u32 = ((j as u64 + 256 - c3 as u64) * 16777216 - low24 as u64 - 1) as u32;
                proof {
                    self.lemma_earliest(3, j as int, m as nat);
                }
                Skip::from_millis(m)
            },
            None => {
                proof {
                    self.lemma_all_clear();
                }
                Skip::Empty
            },
        }
    }

    /// Schedules `e` to fire `delay` ticks from now.
    ///
    /// A delay of zero is refused and the entry handed back. A delay of a
    /// full revolution (2^32 ticks) or more goes to the overflow list;
    /// anything shorter goes straight into the wheels.
    pub fn insert_with_delay(&mut self, e: E, delay: u64) -> (r: Result<(), TimerError<E>>)
        requires
            old(self).wf(),
        ensures
            final(self).wf(),
            delay == 0 ==> r == Err::<(), TimerError<E>>(TimerError::Expired(e)) && final(self)@
                == old(self)@,
            delay > 0 ==> r.is_ok() && final(self)@ == old(self)@.insert(e, delay as nat),
    {
        if delay == 0 {
            return Err(TimerError::Expired(e));
        }
        let c: u32 = self.counter();
        let ghost now = self.clock@;
        if delay >= 4294967296 {
            let remaining: u64 = delay - (4294967296 - c as u64);
            let ghost before = self.overflow@;
            let item = Deferred { entry: e, remaining, deadline: Ghost(now + delay as nat) };
            self.overflow.push(item);
            proof {
                lemma_late_push(before, item);
                lemma_revolution_distance(now);
                lemma_same_low(now, c as nat);
                assert(deferred_ok(self.overflow@, now)) by {
                    assert forall|i: int| 0 <= i < self.overflow@.len() implies (
                    #[trigger] self.overflow@[i]).deadline@ == next_revolution(now)
                        + self.overflow@[i].remaining by {
                        if i < before.len() {
                            assert(self.overflow@[i] == before[i]);
                        }
                    }
                }
            }
        } else {
            let due: u32 = ((c as u64 + delay) % 4294967296) as u32;
            proof {
                lemma_add_low(now, c as nat, delay as nat, due as nat);
            }
            self.place(Timed { entry: e, due, deadline: Ghost(now + delay as nat) });
        }
        Ok(())
    }
}

} // verus!
