//! One level of the wheel: a fixed circle of slots with a moving cursor.

use vstd::prelude::*;
use vstd::arithmetic::power::pow;
use vstd::arithmetic::power::lemma_pow_increases;
use vstd::arithmetic::power::lemma_pow_positive;
use vstd::arithmetic::div_mod::lemma_small_mod;
use vstd::arithmetic::div_mod::lemma_mod_add_multiples_vanish;

use crate::model::RingState;
use crate::model::ring_advanced;
use crate::model::span_of;

verus! {

pub(crate) struct Ring<T> {
    pub(crate) level: u32,
    pub(crate) cursor: usize,
    pub(crate) slots: Vec<Vec<(usize, T)>>,
}

impl<T> View for Ring<T> {
    type V = RingState<T>;

    closed spec fn view(&self) -> RingState<T> {
        RingState {
            level: self.level as nat,
            cursor: self.cursor as int,
            slots: self.slots@.map_values(|q: Vec<(usize, T)>| q@),
        }
    }
}

impl<T> Ring<T> {
    pub(crate) fn new(level: u32, slot_capacity: usize, slots_per_level: usize) -> (r: Ring<T>)
        ensures
            r@ == (RingState::<T> {
                level: level as nat,
                cursor: 0,
                slots: Seq::new(slots_per_level as nat, |i: int| Seq::<(usize, T)>::empty()),
            }),
    {
        let mut slots: Vec<Vec<(usize, T)>> = Vec::new();
        let mut i: usize = 0;
        while i < slots_per_level
            invariant
                i <= slots_per_level,
                slots@.len() == i,
                forall|j: int| 0 <= j < i ==> (#[trigger] slots@[j])@ == Seq::<(usize, T)>::empty(),
            decreases slots_per_level - i,
        {
            slots.push(Vec::with_capacity(slot_capacity));
            i = i + 1;
        }
        let r = Ring { level, cursor: 0, slots };
        proof {
            assert(r@.slots =~= Seq::new(slots_per_level as nat, |i: int| Seq::<(usize, T)>::empty()));
        }
        r
    }

    /// Base ticks represented by one slot of this ring.
    pub(crate) fn span(&self) -> (r: usize)
        requires
            self@.slots.len() >= 1,
            pow(self@.slots.len() as int, (self@.level + 1) as nat) <= usize::MAX as int,
        ensures
            r as int == span_of(self@.slots.len() as int, self@.level as int),
            r >= 1,
    {
        let s = self.slots.len();
        let mut result: usize = 1;
        let mut i: u32 = 0;
        proof {
            vstd::arithmetic::power::lemma_pow0(s as int);
        }
        while i < self.level
            invariant
                i <= self.level,
                s == self@.slots.len(),
                s >= 1,
                result as int == pow(s as int, i as nat),
                pow(s as int, (self.level + 1) as nat) <= usize::MAX as int,
            decreases self.level - i,
        {
            proof {
                lemma_pow_increases(s as nat, (i + 1) as nat, (self.level + 1) as nat);
                vstd::arithmetic::power::lemma_pow1(s as int);
                vstd::arithmetic::power::lemma_pow_adds(s as int, i as nat, 1);
                assert(pow(s as int, (i + 1) as nat) == pow(s as int, i as nat) * s as int);
            }
            result = result * s;
            i = i + 1;
        }
        proof {
            lemma_pow_positive(s as int, self.level as nat);
        }
        result
    }

    /// Base ticks representable by this ring before overflow to the next level.
    pub(crate) fn capacity(&self) -> (r: usize)
        requires
            self@.slots.len() >= 1,
            pow(self@.slots.len() as int, (self@.level + 1) as nat) <= usize::MAX as int,
        ensures
            r as int == span_of(self@.slots.len() as int, self@.level as int + 1),
    {
        let sp = self.span();
        proof {
            vstd::arithmetic::power::lemma_pow1(self@.slots.len() as int);
            vstd::arithmetic::power::lemma_pow_adds(self@.slots.len() as int, self.level as nat, 1);
            assert(pow(self@.slots.len() as int, (self.level + 1) as nat)
                == pow(self@.slots.len() as int, self.level as nat) * self@.slots.len() as int);
        }
        sp * self.slots.len()
    }

    /// The index of the slot representing "now" for this ring.
    pub(crate) fn cursor_pos(&self) -> (c: usize)
        ensures
            c as int == self@.cursor,
    {
        self.cursor
    }

    /// Advance the cursor one slot and drain the slot it lands on.
    pub(crate) fn tick(&mut self) -> (drained: Vec<(usize, T)>)
        requires
            old(self)@.slots.len() >= 1,
            0 <= old(self)@.cursor < old(self)@.slots.len(),
        ensures
            final(self)@ == ring_advanced(old(self)@, old(self)@.slots.len() as int),
            drained@ == old(self)@.slots[(old(self)@.cursor + 1) % (old(self)@.slots.len() as int)],
    {
        let len = self.slots.len();
        self.cursor = (self.cursor + 1) % len;
        let drained = self.slots.remove(self.cursor);
        self.slots.insert(self.cursor, Vec::new());
        proof {
            let c = self.cursor as int;
            let before = old(self)@.slots;
            assert(self@.slots =~= before.update(c, Seq::<(usize, T)>::empty()));
            assert(self@ == ring_advanced(old(self)@, old(self)@.slots.len() as int));
        }
        drained
    }

    /// Insert `(remaining mod span, timer)` at the back of the slot
    /// `(cursor + remaining / span) mod slot_count`; the caller has already
    /// validated that the delay fits within one rotation of this ring.
    pub(crate) fn place(&mut self, remaining: usize, timer: T) -> (slot: usize)
        requires
            old(self)@.slots.len() >= 1,
            0 <= old(self)@.cursor < old(self)@.slots.len(),
            pow(old(self)@.slots.len() as int, (old(self)@.level + 1) as nat) <= usize::MAX as int,
            remaining as int / span_of(old(self)@.slots.len() as int, old(self)@.level as int)
                < old(self)@.slots.len(),
        ensures
            ({
                let s = old(self)@.slots.len() as int;
                let sp = span_of(s, old(self)@.level as int);
                let idx = (old(self)@.cursor + remaining as int / sp) % s;
                &&& slot as int == idx
                &&& final(self)@ == (RingState {
                    slots: old(self)@.slots.update(
                        idx,
                        old(self)@.slots[idx].push(((remaining as int % sp) as usize, timer)),
                    ),
                    ..old(self)@
                })
            }),
    {
        let span = self.span();
        let slot_offset = remaining / span;
        let len = self.slots.len();
        let slot = if slot_offset < len - self.cursor {
            self.cursor + slot_offset
        } else {
            slot_offset - (len - self.cursor)
        };
        proof {
            let c = self.cursor as int;
            let o = slot_offset as int;
            let s = len as int;
            if o < s - c {
                lemma_small_mod((c + o) as nat, s as nat);
            } else {
                lemma_mod_add_multiples_vanish(c + o - s, s);
                lemma_small_mod((c + o - s) as nat, s as nat);
            }
            assert(slot as int == (c + o) % s);
        }
        let adjusted_remaining = remaining % span;
        let mut q = self.slots.remove(slot);
        q.push((adjusted_remaining, timer));
        self.slots.insert(slot, q);
        proof {
            let s = old(self)@.slots.len() as int;
            let sp = span_of(s, old(self)@.level as int);
            let idx = (old(self)@.cursor + remaining as int / sp) % s;
            assert(self@.slots =~= old(self)@.slots.update(
                idx,
                old(self)@.slots[idx].push(((remaining as int % sp) as usize, timer)),
            ));
        }
        slot
    }
}

} // verus!
