//! The reusable pool of draw-call slots, grown and shrunk each frame to
//! match demand exactly.
//!
//! Slots live in an arena indexed by stable integer handles: a slot's
//! handle is its index, growth appends, shrinking truncates and reports
//! the released handles so the host can free their backend resources
//! exhaustively. A slot walks Unused -> Bound -> Drawn within a frame and
//! is reset to Unused when the next frame begins; destruction is reachable
//! only from Unused.

use vstd::prelude::*;

verus! {

/// Where a slot stands in its per-frame lifecycle.
#[derive(PartialEq, Eq, Structural, Clone, Copy, Debug)]
pub enum SlotState {
    /// Pooled and idle; the only state a slot may be destroyed in.
    Unused,
    /// Assigned a key and instances this frame.
    Bound,
    /// Its draw call has been issued (or deliberately skipped) this frame.
    Drawn,
}

/// One draw call's worth of reusable resources.
#[derive(PartialEq, Eq, Structural, Clone, Copy, Debug)]
pub struct BatchSlot {
    /// Stable handle: the slot's index in the pool arena.
    pub id: usize,
    pub state: SlotState,
}

/// The pool of batch slots, plus the fixed per-slot instance capacity.
pub struct BatchPool {
    pub slots: Vec<BatchSlot>,
    pub capacity: usize,
}

/// Upper bound on the per-slot capacity, so that buffer word counts
/// (16 words per instance) can never overflow a `usize`.
pub open spec fn capacity_bound() -> int {
    usize::MAX as int / 16
}

impl BatchPool {
    /// Handles match indices and the capacity is usable by the encoder.
    pub open spec fn wf(self) -> bool {
        &&& 1 <= self.capacity <= capacity_bound()
        &&& forall|i: int| 0 <= i < self.slots@.len() ==> #[trigger] self.slots@[i].id == i
    }

    /// All slots are pooled and idle, as at the start of a frame.
    pub open spec fn all_unused(self) -> bool {
        forall|i: int|
            0 <= i < self.slots@.len() ==> #[trigger] self.slots@[i].state == SlotState::Unused
    }

    /// An empty pool with the given per-slot instance capacity.
    pub fn new(capacity: usize) -> (pool: BatchPool)
        requires
            1 <= capacity <= capacity_bound(),
        ensures
            pool.wf(),
            pool.all_unused(),
            pool.slots@.len() == 0,
            pool.capacity == capacity,
    {
        BatchPool { slots: Vec::new(), capacity }
    }

    /// How many slots the pool currently holds.
    pub fn len(&self) -> (n: usize)
        ensures
            n == self.slots@.len(),
    {
        self.slots.len()
    }

    /// Grows or shrinks the pool to exactly `required` slots.
    ///
    /// Kept slots keep their handles and states; new slots come up Unused
    /// with the next handles in order. The returned list names every
    /// released handle (the truncated tail, in ascending order), so the
    /// host can free the backend resources of exactly those slots.
    pub fn resize(&mut self, required: usize) -> (released: Vec<usize>)
        requires
            old(self).wf(),
            old(self).all_unused(),
        ensures
            final(self).wf(),
            final(self).all_unused(),
            final(self).capacity == old(self).capacity,
            final(self).slots@.len() == required,
            forall|i: int|
                0 <= i < required && i < old(self).slots@.len()
                    ==> #[trigger] final(self).slots@[i] == old(self).slots@[i],
            released@.len() == if required < old(self).slots@.len() {
                old(self).slots@.len() - required
            } else {
                0
            },
            forall|t: int| 0 <= t < released@.len() ==> #[trigger] released@[t] == required + t,
    {
        let mut released: Vec<usize> = Vec::new();
        let current: usize = self.slots.len();
        if required < current {
            let mut i: usize = required;
            while i < current
                invariant
                    required <= i <= current,
                    current == self.slots@.len(),
                    released@.len() == i - required,
                    forall|t: int|
                        0 <= t < released@.len() ==> #[trigger] released@[t] == required + t,
                decreases current - i,
            {
                released.push(i);
                i = i + 1;
            }
            self.slots.truncate(required);
        } else {
            let mut i: usize = current;
            while i < required
                invariant
                    old(self).wf(),
                    old(self).all_unused(),
                    current <= i <= required,
                    self.capacity == old(self).capacity,
                    self.slots@.len() == i,
                    forall|t: int|
                        0 <= t < current ==> #[trigger] self.slots@[t] == old(self).slots@[t],
                    forall|t: int|
                        current <= t < i ==> #[trigger] self.slots@[t] == (BatchSlot {
                            id: t as usize,
                            state: SlotState::Unused,
                        }),
                    released@.len() == 0,
                decreases required - i,
            {
                self.slots.push(BatchSlot { id: i, state: SlotState::Unused });
                i = i + 1;
            }
        }
        released
    }

    /// Assigns the slot a key and instances for this frame:
    /// Unused -> Bound.
    pub fn bind(&mut self, slot: usize)
        requires
            old(self).wf(),
            slot < old(self).slots@.len(),
            old(self).slots@[slot as int].state == SlotState::Unused,
        ensures
            final(self).wf(),
            final(self).capacity == old(self).capacity,
            final(self).slots@ == old(self).slots@.update(
                slot as int,
                BatchSlot { id: slot, state: SlotState::Bound },
            ),
    {
        self.slots.set(slot, BatchSlot { id: slot, state: SlotState::Bound });
    }

    /// Records that the slot's draw call has been handled: Bound -> Drawn.
    pub fn mark_drawn(&mut self, slot: usize)
        requires
            old(self).wf(),
            slot < old(self).slots@.len(),
            old(self).slots@[slot as int].state == SlotState::Bound,
        ensures
            final(self).wf(),
            final(self).capacity == old(self).capacity,
            final(self).slots@ == old(self).slots@.update(
                slot as int,
                BatchSlot { id: slot, state: SlotState::Drawn },
            ),
    {
        self.slots.set(slot, BatchSlot { id: slot, state: SlotState::Drawn });
    }

    /// Returns every slot to the pooled idle state, as the next frame
    /// tick does before sizing the pool anew.
    pub fn reset_all(&mut self)
        requires
            old(self).wf(),
        ensures
            final(self).wf(),
            final(self).all_unused(),
            final(self).capacity == old(self).capacity,
            final(self).slots@.len() == old(self).slots@.len(),
    {
        let n: usize = self.slots.len();
        let mut i: usize = 0;
        while i < n
            invariant
                i <= n,
                n == self.slots@.len(),
                self.capacity == old(self).capacity,
                forall|t: int| 0 <= t < n ==> #[trigger] self.slots@[t].id == t,
                forall|t: int|
                    0 <= t < i ==> #[trigger] self.slots@[t].state == SlotState::Unused,
            decreases n - i,
        {
            self.slots.set(i, BatchSlot { id: i, state: SlotState::Unused });
            i = i + 1;
        }
    }
}

} // verus!
