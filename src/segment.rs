//! One node of the queue's chain: a fixed array of slots together with the
//! producers' and the consumers' reservation counters.
//!
//! Each method is one atomic step of the enqueue or dequeue protocol:
//! reserving an index (a fetch-and-add), publishing into a slot (a
//! compare-and-swap from empty), and claiming a slot (a swap with empty).
use vstd::prelude::*;

use crate::padded::{pad, padded_value, read_padded, write_padded};
use flize::CachePadded;

verus! {

/// Number of slots in every segment.
pub const CAPACITY: usize = 1024;

pub struct Segment<T> {
    slots: Vec<Option<T>>,
    enq_index: CachePadded<usize>,
    deq_index: CachePadded<usize>,
}

/// A run of `n` empty slots.
pub open spec fn empty_cells<T>(n: nat) -> Seq<Option<T>> {
    Seq::new(n, |j: int| None::<T>)
}

impl<T> Segment<T> {
    /// The slots, each empty or holding a payload.
    pub closed spec fn cells(&self) -> Seq<Option<T>> {
        self.slots@
    }

    /// The producers' reservation counter.
    pub closed spec fn enq(&self) -> nat {
        padded_value(self.enq_index) as nat
    }

    /// The consumers' reservation counter.
    pub closed spec fn deq(&self) -> nat {
        padded_value(self.deq_index) as nat
    }

    /// Index one past the last slot that a producer reservation can name.
    pub open spec fn limit(&self) -> nat {
        if self.enq() < CAPACITY { self.enq() } else { CAPACITY as nat }
    }

    pub open spec fn wf(&self) -> bool {
        self.cells().len() == CAPACITY
    }

    /// A segment made at construction of a queue: every slot empty, both
    /// counters at zero.
    pub fn sentinel() -> (s: Self)
        ensures
            s.wf(),
            s.cells() == empty_cells::<T>(CAPACITY as nat),
            s.enq() == 0,
            s.deq() == 0,
    {
        let mut slots: Vec<Option<T>> = Vec::new();
        let mut j: usize = 0;
        while j < CAPACITY
            invariant
                j <= CAPACITY,
                slots@ == empty_cells::<T>(j as nat),
            decreases CAPACITY - j,
        {
            slots.push(None);
            j = j + 1;
            assert(slots@ =~= empty_cells::<T>(j as nat));
        }
        Segment { slots, enq_index: pad(0), deq_index: pad(0) }
    }

    /// A segment made by the producer that overflowed the tail: its payload is
    /// already in slot 0 and the producers' counter starts past it.
    pub fn with_first(value: T) -> (s: Self)
        ensures
            s.wf(),
            s.cells() == empty_cells::<T>(CAPACITY as nat).update(0, Some(value)),
            s.enq() == 1,
            s.deq() == 0,
    {
        let mut s = Self::sentinel();
        s.slots.set(0, Some(value));
        write_padded(&mut s.enq_index, 1);
        s
    }

    /// The current value of the producers' counter.
    pub fn enq_index(&self) -> (r: usize)
        ensures
            r == self.enq(),
    {
        read_padded(&self.enq_index)
    }

    /// The current value of the consumers' counter.
    pub fn deq_index(&self) -> (r: usize)
        ensures
            r == self.deq(),
    {
        read_padded(&self.deq_index)
    }

    /// Whether consumers have reserved every index that producers have
    /// (the early-empty test of a dequeue).
    pub fn looks_drained(&self) -> (r: bool)
        ensures
            r == (self.deq() >= self.enq()),
    {
        self.deq_index() >= self.enq_index()
    }

    /// A producer's reservation: fetch-and-add on the producers' counter.
    /// An index below `CAPACITY` names a slot; any other is an overflow.
    pub fn reserve_enqueue(&mut self) -> (i: usize)
        requires
            old(self).enq() < usize::MAX,
        ensures
            i == old(self).enq(),
            final(self).enq() == old(self).enq() + 1,
            final(self).deq() == old(self).deq(),
            final(self).cells() == old(self).cells(),
    {
        let i = read_padded(&self.enq_index);
        write_padded(&mut self.enq_index, i + 1);
        i
    }

    /// A consumer's reservation: fetch-and-add on the consumers' counter.
    /// An index below `CAPACITY` names a slot; any other means the segment is
    /// exhausted.
    pub fn reserve_dequeue(&mut self) -> (i: usize)
        requires
            old(self).deq() < usize::MAX,
        ensures
            i == old(self).deq(),
            final(self).deq() == old(self).deq() + 1,
            final(self).enq() == old(self).enq(),
            final(self).cells() == old(self).cells(),
    {
        let i = read_padded(&self.deq_index);
        write_padded(&mut self.deq_index, i + 1);
        i
    }

    /// Publishes `value` into slot `i` if that slot is empty (a
    /// compare-and-swap from empty); otherwise hands the value back.
    pub fn try_store(&mut self, i: usize, value: T) -> (r: Result<(), T>)
        requires
            old(self).wf(),
            i < CAPACITY,
        ensures
            final(self).enq() == old(self).enq(),
            final(self).deq() == old(self).deq(),
            old(self).cells()[i as int] is None ==> r is Ok && final(self).cells()
                == old(self).cells().update(i as int, Some(value)),
            old(self).cells()[i as int] is Some ==> r == Err::<(), T>(value) && *final(self)
                == *old(self),
    {
        if self.slots[i].is_none() {
            self.slots.set(i, Some(value));
            Ok(())
        } else {
            Err(value)
        }
    }

    /// Claims slot `i`: swaps it with empty and returns what it held. A slot
    /// is therefore handed out at most once after each store.
    pub fn take(&mut self, i: usize) -> (r: Option<T>)
        requires
            old(self).wf(),
            i < CAPACITY,
        ensures
            r == old(self).cells()[i as int],
            final(self).cells() == old(self).cells().update(i as int, None),
            final(self).enq() == old(self).enq(),
            final(self).deq() == old(self).deq(),
    {
        let r = self.slots[i].take();
        r
    }
}

} // verus!
