//! Arithmetic of the tick counter.
//!
//! The clock is read in base 256: digit `k` is the index of wheel `k`. All
//! that the wheels need to know about an entry — which wheel, which slot,
//! when it is next looked at — is a function of the clock and of the tick
//! at which the entry fires.

use vstd::arithmetic::div_mod::lemma_fundamental_div_mod_converse;
use vstd::prelude::*;

verus! {

/// Ticks covered by one slot of wheel `k`: `256^k`.
pub open spec fn unit(k: nat) -> nat {
    if k == 0 {
        1
    } else if k == 1 {
        256
    } else if k == 2 {
        65536
    } else if k == 3 {
        16777216
    } else {
        4294967296
    }
}

/// `v` without its `k` lowest base-256 digits: `v / 256^k`, for `k <= 4`.
#[verifier::opaque]
pub open spec fn shift(v: nat, k: nat) -> nat {
    if k == 0 {
        v
    } else if k == 1 {
        v / 256
    } else if k == 2 {
        v / 256 / 256
    } else if k == 3 {
        v / 256 / 256 / 256
    } else {
        v / 256 / 256 / 256 / 256
    }
}

/// Base-256 digit `k` of `v`, for `k <= 3`.
pub open spec fn digit(v: nat, k: nat) -> nat {
    (shift(v, k) - shift(v, k + 1) * 256) as nat
}

/// The four low digits of `v` as a number: `v % 2^32`.
pub open spec fn low(v: nat) -> nat {
    digit(v, 3) * 16777216 + digit(v, 2) * 65536 + digit(v, 1) * 256 + digit(v, 0)
}

/// The wheel that holds an entry firing at `deadline` while the clock reads
/// `now`: the lowest wheel on whose current lap `deadline` lies, the highest
/// wheel if it lies on none.
pub open spec fn level(now: nat, deadline: nat) -> nat {
    if shift(deadline, 1) == shift(now, 1) {
        0
    } else if shift(deadline, 2) == shift(now, 2) {
        1
    } else if shift(deadline, 3) == shift(now, 3) {
        2
    } else {
        3
    }
}

/// The slot, within its wheel, of an entry firing at `deadline`.
pub open spec fn slot_of(now: nat, deadline: nat) -> nat {
    digit(deadline, level(now, deadline))
}

/// The tick at which the wheel next looks at an entry firing at `deadline`:
/// the tick at which the entry's slot becomes current. On the lowest wheel
/// that is the firing tick itself; on a higher wheel the entry fires then
/// if it is due, and moves down to a lower wheel if it is not.
pub open spec fn visit_tick(now: nat, deadline: nat) -> nat {
    let k = level(now, deadline);
    if k == 0 {
        deadline
    } else {
        shift(deadline, k) * unit(k)
    }
}

/// The first tick of the next revolution of the highest wheel.
pub open spec fn next_revolution(now: nat) -> nat {
    (shift(now, 4) + 1) * 4294967296
}

/// What `shift` and `digit` mean: each shift peels one digit off.
pub proof fn lemma_shift(v: nat)
    ensures
        shift(v, 0) == v,
        shift(v, 0) == shift(v, 1) * 256 + digit(v, 0),
        shift(v, 1) == shift(v, 2) * 256 + digit(v, 1),
        shift(v, 2) == shift(v, 3) * 256 + digit(v, 2),
        shift(v, 3) == shift(v, 4) * 256 + digit(v, 3),
        digit(v, 0) < 256,
        digit(v, 1) < 256,
        digit(v, 2) < 256,
        digit(v, 3) < 256,
        v == shift(v, 1) * 256 + digit(v, 0),
        v == shift(v, 2) * 65536 + digit(v, 1) * 256 + digit(v, 0),
        v == shift(v, 3) * 16777216 + digit(v, 2) * 65536 + digit(v, 1) * 256 + digit(v, 0),
        v == shift(v, 4) * 4294967296 + low(v),
        low(v) < 4294967296,
{
    reveal(shift);
    let a = v / 256;
    let b = a / 256;
    let c = b / 256;
    let h = c / 256;
    assert(v == a * 256 + v % 256);
    assert(a == b * 256 + a % 256);
    assert(b == c * 256 + b % 256);
    assert(c == h * 256 + c % 256);
}

/// `shift` and `digit` in terms of division and remainder by powers of 256.
pub proof fn lemma_flat(v: nat)
    ensures
        v / 256 == shift(v, 1),
        v / 65536 == shift(v, 2),
        v / 16777216 == shift(v, 3),
        v / 4294967296 == shift(v, 4),
        v % 256 == digit(v, 0),
        v % 65536 == digit(v, 1) * 256 + digit(v, 0),
        v % 16777216 == digit(v, 2) * 65536 + digit(v, 1) * 256 + digit(v, 0),
        v % 4294967296 == low(v),
        (v / 256) % 256 == digit(v, 1),
        (v / 65536) % 256 == digit(v, 2),
        (v / 16777216) % 256 == digit(v, 3),
{
    lemma_shift(v);
    let s1 = shift(v, 1) as int;
    let s2 = shift(v, 2) as int;
    let s3 = shift(v, 3) as int;
    let s4 = shift(v, 4) as int;
    let d0 = digit(v, 0) as int;
    let d1 = digit(v, 1) as int;
    let d2 = digit(v, 2) as int;
    let d3 = digit(v, 3) as int;
    lemma_fundamental_div_mod_converse(v as int, 256, s1, d0);
    lemma_fundamental_div_mod_converse(v as int, 65536, s2, d1 * 256 + d0);
    lemma_fundamental_div_mod_converse(v as int, 16777216, s3, d2 * 65536 + d1 * 256 + d0);
    lemma_fundamental_div_mod_converse(v as int, 4294967296, s4, low(v) as int);
    lemma_fundamental_div_mod_converse(s1, 256, s2, d1);
    lemma_fundamental_div_mod_converse(s2, 256, s3, d2);
    lemma_fundamental_div_mod_converse(s3, 256, s4, d3);
}

/// A number below 2^32 is its own four low digits.
pub proof fn lemma_flat_low(c: nat)
    requires
        c < 4294967296,
    ensures
        shift(c, 4) == 0,
        c == low(c),
        c / 16777216 == digit(c, 3),
{
    lemma_shift(c);
    lemma_flat(c);
}

/// Two numbers that agree modulo 2^32 have the same four low digits.
pub proof fn lemma_same_low(v: nat, c: nat)
    requires
        c == v % 4294967296,
    ensures
        digit(v, 0) == digit(c, 0),
        digit(v, 1) == digit(c, 1),
        digit(v, 2) == digit(c, 2),
        digit(v, 3) == digit(c, 3),
        low(v) == c,
{
    lemma_shift(v);
    lemma_flat(v);
    lemma_shift(c);
    lemma_flat_low(c);
    let d0 = digit(v, 0) as int;
    let d1 = digit(v, 1) as int;
    let d2 = digit(v, 2) as int;
    let d3 = digit(v, 3) as int;
    lemma_fundamental_div_mod_converse(c as int, 256, d3 * 65536 + d2 * 256 + d1, d0);
    lemma_fundamental_div_mod_converse(c as int, 65536, d3 * 256 + d2, d1 * 256 + d0);
    lemma_fundamental_div_mod_converse(c as int, 16777216, d3, d2 * 65536 + d1 * 256 + d0);
    lemma_flat(c);
}

/// Shifting is monotone.
pub proof fn lemma_shift_monotone(x: nat, y: nat)
    requires
        x <= y,
    ensures
        shift(x, 1) <= shift(y, 1),
        shift(x, 2) <= shift(y, 2),
        shift(x, 3) <= shift(y, 3),
        shift(x, 4) <= shift(y, 4),
{
    lemma_shift(x);
    lemma_shift(y);
}

/// The wheel never looks at an entry before the next tick, nor after the
/// tick at which the entry fires.
pub proof fn lemma_visit_bounds(now: nat, deadline: nat)
    requires
        now < deadline,
    ensures
        now < visit_tick(now, deadline) <= deadline,
{
    lemma_shift(now);
    lemma_shift(deadline);
    lemma_shift_monotone(now, deadline);
}

/// While the clock stays short of the tick that looks at an entry, the
/// entry's wheel and slot do not change.
pub proof fn lemma_level_stable(now: nat, n: nat, deadline: nat)
    requires
        now < deadline,
        now + n < visit_tick(now, deadline),
    ensures
        now + n < deadline,
        level(now + n, deadline) == level(now, deadline),
        slot_of(now + n, deadline) == slot_of(now, deadline),
        visit_tick(now + n, deadline) == visit_tick(now, deadline),
{
    let m = now + n;
    lemma_visit_bounds(now, deadline);
    lemma_shift(now);
    lemma_shift(deadline);
    lemma_shift(m);
    lemma_shift_monotone(now, m);
    lemma_shift_monotone(m, deadline);
}

/// The next revolution starts after now, and at the same tick for every
/// clock value short of it.
pub proof fn lemma_same_revolution(now: nat, later: nat)
    requires
        now <= later < next_revolution(now),
    ensures
        next_revolution(later) == next_revolution(now),
        now < next_revolution(now) <= now + 4294967296,
{
    lemma_shift(now);
    lemma_shift(later);
    lemma_shift_monotone(now, later);
}

/// Which entries the next tick looks at. Unless the lowest wheel wraps,
/// they are the entries of its next slot, and all of them fire. If it
/// wraps, they are the entries of the slot that becomes current on the
/// lowest wheel that does not wrap (on the highest wheel, if all wrap).
pub proof fn lemma_visited_next(now: nat, deadline: nat)
    requires
        now < deadline < now + 4294967296,
    ensures
        ({
            let c0 = digit(now, 0);
            let c1 = digit(now, 1);
            let c2 = digit(now, 2);
            let c3 = digit(now, 3);
            let visited = visit_tick(now, deadline) == now + 1;
            let k = level(now, deadline);
            let j = slot_of(now, deadline);
            &&& deadline == now + 1 ==> visited
            &&& c0 != 255 ==> (visited <==> k == 0 && j == c0 + 1)
            &&& c0 != 255 && visited ==> deadline == now + 1
            &&& c0 == 255 ==> k != 0
            &&& c0 == 255 && c1 != 255 ==> (visited <==> k == 1 && j == c1 + 1)
            &&& c0 == 255 && c1 == 255 && c2 != 255 ==> (visited <==> k == 2 && j == c2 + 1)
            &&& c0 == 255 && c1 == 255 && c2 == 255 ==> (visited <==> k == 3 && j == (if c3
                == 255 {
                0
            } else {
                c3 + 1
            }))
        }),
{
    lemma_shift(now);
    lemma_shift(deadline);
    lemma_shift_monotone(now, deadline);
}

/// How far off the tick is that looks at an entry, in terms of the entry's
/// wheel and slot and the digits of the clock.
pub proof fn lemma_visit_distance(now: nat, deadline: nat)
    requires
        now < deadline < now + 4294967296,
    ensures
        ({
            let c0 = digit(now, 0);
            let c1 = digit(now, 1);
            let c2 = digit(now, 2);
            let c3 = digit(now, 3);
            let k = level(now, deadline);
            let j = slot_of(now, deadline);
            let visit = visit_tick(now, deadline);
            &&& 0 <= j < 256
            &&& k == 0 ==> c0 < j && visit == now + (j - c0)
            &&& k == 1 ==> c1 < j && visit == now + (j - c1) * 256 - c0
            &&& k == 2 ==> c2 < j && visit == now + (j - c2) * 65536 - (c1 * 256 + c0)
            &&& k == 3 && c3 < j ==> visit == now + (j - c3) * 16777216 - (c2 * 65536 + c1 * 256
                + c0)
            &&& k == 3 && j <= c3 ==> visit == now + (j + 256 - c3) * 16777216 - (c2 * 65536 + c1
                * 256 + c0)
        }),
{
    lemma_shift(now);
    lemma_shift(deadline);
    lemma_shift_monotone(now, deadline);
}

/// How far off the next revolution is.
pub proof fn lemma_revolution_distance(now: nat)
    ensures
        next_revolution(now) == now + 4294967296 - low(now),
{
    lemma_shift(now);
}

/// The next tick starts a new revolution exactly if all four digits of the
/// clock are 255.
pub proof fn lemma_wraps(now: nat)
    ensures
        next_revolution(now) == now + 1 <==> digit(now, 0) == 255 && digit(now, 1) == 255 && digit(
            now,
            2,
        ) == 255 && digit(now, 3) == 255,
        now < next_revolution(now),
{
    lemma_shift(now);
}

/// Adding to the clock can be done modulo 2^32.
pub proof fn lemma_add_low(now: nat, c: nat, amount: nat, target: nat)
    requires
        c == now % 4294967296,
        target == (c + amount) % 4294967296,
    ensures
        target == (now + amount) % 4294967296,
{
    let q = now / 4294967296;
    let r = (c + amount) / 4294967296;
    assert(now == q * 4294967296 + c);
    assert(c + amount == r * 4294967296 + target);
    lemma_fundamental_div_mod_converse(
        (now + amount) as int,
        4294967296,
        (q + r) as int,
        target as int,
    );
}

/// At the first tick of a revolution the four low digits are zero and the
/// next revolution is a full one away.
pub proof fn lemma_new_revolution(now: nat)
    requires
        next_revolution(now) == now + 1,
    ensures
        low((now + 1) as nat) == 0,
        (now + 1) % 4294967296 == 0,
        next_revolution((now + 1) as nat) == now + 1 + 4294967296,
{
    let t = (now + 1) as nat;
    lemma_shift(now);
    lemma_shift(t);
    lemma_shift_monotone(now, t);
    lemma_flat(t);
}

/// The index of the highest non-zero digit of a delay below 2^32.
pub open spec fn top_digit(d: nat) -> nat {
    if shift(d, 3) > 0 {
        3
    } else if shift(d, 2) > 0 {
        2
    } else if shift(d, 1) > 0 {
        1
    } else {
        0
    }
}

/// Placement by the bytes of the delay. An entry scheduled `d` ticks ahead
/// goes to the wheel of the highest non-zero digit `k` of `d`, at the slot
/// `digit k of the clock + digit k of d`, provided that adding `d` to the
/// clock carries neither into digit `k` nor out of it. (Where it carries,
/// the entry belongs to a higher wheel or a later slot: see `level`.)
pub proof fn lemma_slot_by_delay(now: nat, d: nat)
    requires
        0 < d < 4294967296,
        (now - shift(now, top_digit(d)) * unit(top_digit(d))) + (d - shift(d, top_digit(d)) * unit(
            top_digit(d),
        )) < unit(top_digit(d)),
        digit(now, top_digit(d)) + digit(d, top_digit(d)) < 256,
    ensures
        level(now, now + d) == top_digit(d),
        slot_of(now, now + d) == digit(now, top_digit(d)) + digit(d, top_digit(d)),
{
    let k = top_digit(d);
    let t = now + d;
    lemma_shift(now);
    lemma_shift(d);
    lemma_shift(t);
    if k == 0 {
        assert(d == digit(d, 0));
        assert(t == shift(now, 1) * 256 + (digit(now, 0) + digit(d, 0)));
    } else if k == 1 {
        assert((now - shift(now, 1) * 256) + (d - shift(d, 1) * 256) < 256);
        assert(shift(d, 1) == digit(d, 1));
        assert(t == (shift(now, 1) + shift(d, 1)) * 256 + (digit(now, 0) + digit(d, 0)));
        assert(shift(t, 1) == shift(now, 1) + shift(d, 1));
        assert(shift(t, 1) == shift(now, 2) * 256 + (digit(now, 1) + digit(d, 1)));
    } else if k == 2 {
        assert((now - shift(now, 2) * 65536) + (d - shift(d, 2) * 65536) < 65536);
        assert(shift(d, 2) == digit(d, 2));
        assert(t == (shift(now, 2) + shift(d, 2)) * 65536 + ((now - shift(now, 2) * 65536) + (d
            - shift(d, 2) * 65536)));
        assert(shift(t, 2) == shift(now, 2) + shift(d, 2));
        assert(shift(t, 2) == shift(now, 3) * 256 + (digit(now, 2) + digit(d, 2)));
    } else {
        assert((now - shift(now, 3) * 16777216) + (d - shift(d, 3) * 16777216) < 16777216);
        assert(shift(d, 4) == 0);
        assert(shift(d, 3) == digit(d, 3));
        assert(t == (shift(now, 3) + shift(d, 3)) * 16777216 + ((now - shift(now, 3) * 16777216)
            + (d - shift(d, 3) * 16777216)));
        assert(shift(t, 3) == shift(now, 3) + shift(d, 3));
        assert(shift(t, 3) == shift(now, 4) * 256 + (digit(now, 3) + digit(d, 3)));
    }
}

/// Whether an entry is due right now can be told modulo 2^32.
pub proof fn lemma_due_now(now: nat, deadline: nat, c: nat, due: nat)
    requires
        now <= deadline < now + 4294967296,
        c == now % 4294967296,
        due == deadline % 4294967296,
    ensures
        due == c <==> deadline == now,
{
    lemma_same_low(now, c);
    lemma_same_low(deadline, due);
    lemma_shift(now);
    lemma_shift(deadline);
    lemma_shift_monotone(now, deadline);
}

/// Where an entry goes, in terms of what executable code has at hand: the
/// clock and the firing tick, both modulo 2^32, and their distance.
pub proof fn lemma_placement(now: nat, deadline: nat, c: nat, due: nat, delta: nat)
    requires
        now < deadline < now + 4294967296,
        c == now % 4294967296,
        due == deadline % 4294967296,
        delta == (if due >= c {
            due - c
        } else {
            due + 4294967296 - c
        }),
    ensures
        delta == deadline - now,
        level(now, deadline) == (if c % 256 + delta < 256 {
            0nat
        } else if c % 65536 + delta < 65536 {
            1nat
        } else if c % 16777216 + delta < 16777216 {
            2nat
        } else {
            3nat
        }),
        level(now, deadline) == 0 ==> slot_of(now, deadline) == due % 256,
        level(now, deadline) == 1 ==> slot_of(now, deadline) == (due / 256) % 256,
        level(now, deadline) == 2 ==> slot_of(now, deadline) == (due / 65536) % 256,
        level(now, deadline) == 3 ==> slot_of(now, deadline) == due / 16777216,
{
    lemma_same_low(now, c);
    lemma_same_low(deadline, due);
    lemma_flat(c);
    lemma_flat(due);
    lemma_flat_low(due);
    lemma_shift(now);
    lemma_shift(deadline);
    lemma_shift_monotone(now, deadline);
    assert(delta == deadline - now);
}

} // verus!
