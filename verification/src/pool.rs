//! A bounded pool of indicator-slot identifiers.
//!
//! Slots are numbered `1..=capacity`. A slot is either free (held here) or
//! assigned to exactly one tracked service; the engine enforces the latter
//! half of that invariant. The pool never fabricates slots: it only hands
//! out what it holds and takes back what it handed out.

use vstd::prelude::*;

verus! {

/// Slot capacity of the reference deployment: eleven indicator slots,
/// numbered 1 through 11.
pub const DEFAULT_CAPACITY: i8 = 11;

/// The set of currently free slot identifiers, with a fixed capacity.
pub struct SlotPool {
    available: Vec<i8>,
    capacity: i8,
}

impl View for SlotPool {
    type V = Seq<i8>;

    /// The free slots, in the order they will be handed out from the back.
    closed spec fn view(&self) -> Seq<i8> {
        self.available@
    }
}

impl SlotPool {
    /// The capacity the pool was built with.
    pub closed spec fn spec_capacity(&self) -> int {
        self.capacity as int
    }

    /// Free slots are pairwise distinct and all within `1..=capacity`.
    pub open spec fn wf(&self) -> bool {
        &&& self@.no_duplicates()
        &&& forall|k: int| 0 <= k < self@.len() ==> 1 <= #[trigger] self@[k] <= self.spec_capacity()
        &&& 0 <= self.spec_capacity()
    }

    /// Builds a pool holding every slot `1..=capacity`, in ascending order.
    pub fn new(capacity: i8) -> (p: SlotPool)
        requires
            0 <= capacity,
        ensures
            p.wf(),
            p.spec_capacity() == capacity as int,
            p@.len() == capacity as int,
            forall|k: int| 0 <= k < capacity as int ==> #[trigger] p@[k] == k + 1,
    {
        let mut available: Vec<i8> = Vec::new();
        let mut k: usize = 0;
        while k < capacity as usize
            invariant
                0 <= capacity,
                k <= capacity as usize,
                available@.len() == k as int,
                forall|m: int| 0 <= m < k as int ==> #[trigger] available@[m] == m + 1,
            decreases capacity as usize - k,
        {
            available.push((k as i8) + 1);
            k += 1;
        }
        let p = SlotPool { available, capacity };
        proof {
            assert forall|a: int, b: int| 0 <= a < b < p@.len() implies p@[a] != p@[b] by {
                assert(p@[a] == a + 1 && p@[b] == b + 1);
            }
        }
        p
    }

    /// Removes and returns one free slot (the most recently freed), or
    /// `None` when every slot is assigned.
    pub fn allocate(&mut self) -> (r: Option<i8>)
        requires
            old(self).wf(),
        ensures
            final(self).wf(),
            final(self).spec_capacity() == old(self).spec_capacity(),
            match r {
                Some(slot) => old(self)@.len() > 0 && slot == old(self)@.last() && final(self)@
                    == old(self)@.drop_last(),
                None => old(self)@.len() == 0 && final(self)@ == old(self)@,
            },
    {
        let r = self.available.pop();
        proof {
            if old(self)@.len() > 0 {
                assert forall|a: int, b: int| 0 <= a < b < self@.len() implies self@[a] != self@[b] by {
                    assert(old(self)@[a] == self@[a] && old(self)@[b] == self@[b]);
                }
            }
        }
        r
    }

    /// Returns a slot to the pool. Only a slot that is genuinely out on
    /// loan may come back: it must be in range and not already free.
    pub fn release(&mut self, slot: i8)
        requires
            old(self).wf(),
            1 <= slot as int <= old(self).spec_capacity(),
            !old(self)@.contains(slot),
        ensures
            final(self).wf(),
            final(self).spec_capacity() == old(self).spec_capacity(),
            final(self)@ == old(self)@.push(slot),
    {
        self.available.push(slot);
        proof {
            assert forall|a: int, b: int| 0 <= a < b < self@.len() implies self@[a] != self@[b] by {
                if b == self@.len() - 1 {
                    assert(old(self)@[a] == self@[a]);
                    assert(!old(self)@.contains(slot));
                }
            }
        }
    }

    /// How many slots are currently free.
    pub fn available_count(&self) -> (n: usize)
        ensures
            n as int == self@.len(),
    {
        self.available.len()
    }

    /// Whether a given slot identifier is currently free.
    pub fn is_available(&self, slot: i8) -> (b: bool)
        ensures
            b == self@.contains(slot),
    {
        let mut k: usize = 0;
        while k < self.available.len()
            invariant
                k <= self.available.len(),
                forall|m: int| 0 <= m < k as int ==> self@[m] != slot,
            decreases self.available.len() - k,
        {
            if self.available[k] == slot {
                return true;
            }
            k += 1;
        }
        false
    }
}

} // verus!
