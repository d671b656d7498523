//! A single rotating wheel of 256 slots.
//!
//! Each slot is an unordered bag. The wheel knows nothing about time beyond
//! its own index; the quad wheel stacks four of these into a 32-bit counter.

use vstd::prelude::*;

verus! {

/// Number of slots of a byte wheel.
pub const SLOTS: usize = 256;

/// 256 bags and the index of the one that is current.
pub struct ByteWheel<T> {
    slots: Vec<Vec<T>>,
    current: u8,
}

impl<T> ByteWheel<T> {
    /// The wheel has exactly 256 slots.
    pub closed spec fn wf(&self) -> bool {
        self.slots@.len() == 256
    }

    /// Contents of slot `i`, in insertion order.
    pub closed spec fn bag(&self, i: int) -> Seq<T> {
        self.slots@[i]@
    }

    /// The current index.
    pub closed spec fn index(&self) -> nat {
        self.current as nat
    }

    /// Every slot is empty.
    pub open spec fn all_empty(&self) -> bool {
        forall|i: int| 0 <= i < 256 ==> (#[trigger] self.bag(i)).len() == 0
    }

    /// All slots but `i` hold what they hold in `other`.
    pub open spec fn same_except(&self, other: &Self, i: int) -> bool {
        forall|j: int| 0 <= j < 256 && j != i ==> #[trigger] self.bag(j) == other.bag(j)
    }

    /// A wheel of empty slots at index 0.
    pub fn new() -> (w: Self)
        ensures
            w.wf(),
            w.index() == 0,
            w.all_empty(),
    {
        let mut slots: Vec<Vec<T>> = Vec::new();
        let mut i: usize = 0;
        while i < SLOTS
            invariant
                i <= 256,
                slots@.len() == i,
                forall|j: int| 0 <= j < i ==> (#[trigger] slots@[j])@.len() == 0,
            decreases 256 - i,
        {
            slots.push(Vec::new());
            i = i + 1;
        }
        ByteWheel { slots, current: 0 }
    }

    /// The current index.
    pub fn current(&self) -> (c: u8)
        ensures
            c == self.index(),
    {
        self.current
    }

    /// Number of entries in slot `slot`.
    pub fn slot_len(&self, slot: u8) -> (n: usize)
        requires
            self.wf(),
        ensures
            n == self.bag(slot as int).len(),
    {
        self.slots[slot as usize].len()
    }

    /// Appends `entry` to slot `slot`.
    pub fn insert_at(&mut self, slot: u8, entry: T)
        requires
            old(self).wf(),
        ensures
            final(self).wf(),
            final(self).index() == old(self).index(),
            final(self).bag(slot as int) == old(self).bag(slot as int).push(entry),
            final(self).same_except(old(self), slot as int),
    {
        self.slots[slot as usize].push(entry);
    }

    /// Appends `entry` to the slot `offset` places after the current one,
    /// wrapping around the wheel.
    pub fn insert_at_offset(&mut self, entry: T, offset: u8)
        requires
            old(self).wf(),
        ensures
            final(self).wf(),
            final(self).index() == old(self).index(),
            final(self).bag((old(self).index() + offset) % 256) == old(self).bag(
                (old(self).index() + offset) % 256,
            ).push(entry),
            final(self).same_except(old(self), (old(self).index() + offset) % 256),
    {
        let slot = self.current.wrapping_add(offset);
        self.insert_at(slot, entry);
    }

    /// Moves the contents of slot `slot` out, leaving it empty.
    pub fn take_at(&mut self, slot: u8) -> (out: Vec<T>)
        requires
            old(self).wf(),
        ensures
            final(self).wf(),
            final(self).index() == old(self).index(),
            out@ == old(self).bag(slot as int),
            final(self).bag(slot as int).len() == 0,
            final(self).same_except(old(self), slot as int),
    {
        let mut out: Vec<T> = Vec::new();
        std::mem::swap(&mut out, &mut self.slots[slot as usize]);
        out
    }

    /// Moves the contents of the current slot out, leaving it empty.
    pub fn take_current(&mut self) -> (out: Vec<T>)
        requires
            old(self).wf(),
        ensures
            final(self).wf(),
            final(self).index() == old(self).index(),
            out@ == old(self).bag(old(self).index() as int),
            final(self).bag(old(self).index() as int).len() == 0,
            final(self).same_except(old(self), old(self).index() as int),
    {
        self.take_at(self.current)
    }

    /// Steps the index forward by one slot; reports whether it came back to 0.
    pub fn advance(&mut self) -> (wrapped: bool)
        requires
            old(self).wf(),
        ensures
            final(self).wf(),
            final(self).index() == (old(self).index() + 1) % 256,
            wrapped == (final(self).index() == 0),
            forall|j: int| 0 <= j < 256 ==> #[trigger] final(self).bag(j) == old(self).bag(j),
    {
        self.current = self.current.wrapping_add(1);
        self.current == 0
    }

    /// Points the wheel at `index` without touching any slot.
    pub fn advance_to(&mut self, index: u8)
        requires
            old(self).wf(),
        ensures
            final(self).wf(),
            final(self).index() == index,
            forall|j: int| 0 <= j < 256 ==> #[trigger] final(self).bag(j) == old(self).bag(j),
    {
        self.current = index;
    }

    /// Takes the contents of the current slot, then steps the index forward.
    /// The flag tells whether the index came back to 0.
    pub fn tick(&mut self) -> (r: (Vec<T>, bool))
        requires
            old(self).wf(),
        ensures
            final(self).wf(),
            r.0@ == old(self).bag(old(self).index() as int),
            final(self).index() == (old(self).index() + 1) % 256,
            r.1 == (final(self).index() == 0),
            final(self).bag(old(self).index() as int).len() == 0,
            final(self).same_except(old(self), old(self).index() as int),
    {
        let out = self.take_current();
        let wrapped = self.advance();
        (out, wrapped)
    }

    /// First non-empty slot at or after `from`, if any.
    pub fn first_occupied(&self, from: u8) -> (r: Option<u8>)
        requires
            self.wf(),
        ensures
            match r {
                Some(j) => from <= j && self.bag(j as int).len() > 0 && forall|i: int|
                    from <= i < j ==> (#[trigger] self.bag(i)).len() == 0,
                None => forall|i: int| from <= i < 256 ==> (#[trigger] self.bag(i)).len() == 0,
            },
    {
        let mut i: usize = from as usize;
        while i < SLOTS
            invariant
                self.wf(),
                from <= i <= 256,
                forall|k: int| from <= k < i ==> (#[trigger] self.bag(k)).len() == 0,
            decreases 256 - i,
        {
            if self.slots[i].len() > 0 {
                return Some(i as u8);
            }
            i = i + 1;
        }
        None
    }

    /// Whether every slot is empty.
    pub fn is_empty(&self) -> (r: bool)
        requires
            self.wf(),
        ensures
            r == self.all_empty(),
    {
        let first = self.first_occupied(0);
        first.is_none()
    }
}

} // verus!
