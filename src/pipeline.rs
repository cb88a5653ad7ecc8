//! The replenishment ring: pending truck arrivals indexed by day modulo the
//! lead time.
use vstd::prelude::*;

verus! {

/// Slot read (and cleared) at the start of `day`.
pub open spec fn arrival_slot(day: int, lead_time: int) -> int {
    day % lead_time
}

/// Slot written by an order placed at the end of `day`: the slot emptied at
/// the start of that day, read again `lead_time` days later.
pub open spec fn order_slot(day: int, lead_time: int) -> int {
    day % lead_time
}

/// The day on which an order placed at the end of `day` arrives.
pub open spec fn delivery_day(day: int, lead_time: int) -> int {
    day + lead_time
}

/// A ring of `lead_time` slots, each holding at most one pending quantity.
/// Scheduling into a slot replaces whatever it held.
pub struct Pipeline {
    slots: Vec<u64>,
}

impl View for Pipeline {
    type V = Seq<u64>;

    closed spec fn view(&self) -> Seq<u64> {
        self.slots@
    }
}

impl Pipeline {
    pub open spec fn wf(&self) -> bool {
        1 <= self@.len() <= u32::MAX
    }

    /// An empty ring with one slot per day of lead time.
    pub fn new(lead_time: u32) -> (r: Pipeline)
        requires
            lead_time >= 1,
        ensures
            r.wf(),
            r@ == Seq::new(lead_time as nat, |i: int| 0u64),
    {
        let mut slots: Vec<u64> = Vec::new();
        let mut i: u32 = 0;
        while i < lead_time
            invariant
                i <= lead_time,
                slots@ == Seq::new(i as nat, |k: int| 0u64),
            decreases lead_time - i,
        {
            slots.push(0);
            i = i + 1;
        }
        Pipeline { slots }
    }

    /// Returns and clears the quantity due at the start of `day`.
    pub fn arrival_due_today(&mut self, day: u32) -> (r: u64)
        requires
            old(self).wf(),
        ensures
            final(self).wf(),
            r == old(self)@[arrival_slot(day as int, old(self)@.len() as int)],
            final(self)@ == old(self)@.update(arrival_slot(day as int, old(self)@.len() as int), 0),
    {
        let len = self.slots.len();
        let slot: usize = ((day as u64) % (len as u64)) as usize;
        let q = self.slots[slot];
        self.slots.set(slot, 0);
        q
    }

    /// Places an order of `quantity` at the end of `day`, replacing whatever
    /// the target slot held.
    pub fn schedule(&mut self, day: u32, quantity: u64)
        requires
            old(self).wf(),
        ensures
            final(self).wf(),
            final(self)@ == old(self)@.update(order_slot(day as int, old(self)@.len() as int), quantity),
    {
        let len = self.slots.len();
        let slot: usize = ((day as u64) % (len as u64)) as usize;
        self.slots.set(slot, quantity);
    }
}

/// An order placed on `day` is read back exactly `lead_time` days later,
/// and on no day strictly between: no earlier arrival can take it, and no
/// later order can overwrite it before it is delivered.
pub proof fn lemma_delivery(day: int, lead_time: int)
    requires
        day >= 0,
        lead_time >= 1,
    ensures
        delivery_day(day, lead_time) == day + lead_time,
        arrival_slot(delivery_day(day, lead_time), lead_time) == order_slot(day, lead_time),
        forall|k: int|
            day < k < delivery_day(day, lead_time) ==> arrival_slot(k, lead_time) != order_slot(
                day,
                lead_time,
            ),
        forall|k: int|
            day < k < delivery_day(day, lead_time) ==> order_slot(k, lead_time) != order_slot(
                day,
                lead_time,
            ),
{
    vstd::arithmetic::div_mod::lemma_mod_add_multiples_vanish(day, lead_time);
    assert forall|k: int| day < k < delivery_day(day, lead_time) implies arrival_slot(
        k,
        lead_time,
    ) != order_slot(day, lead_time) && order_slot(k, lead_time) != order_slot(day, lead_time) by {
        vstd::arithmetic::div_mod::lemma_mod_equivalence(k, day, lead_time);
        vstd::arithmetic::div_mod::lemma_small_mod((k - day) as nat, lead_time as nat);
    }
}

} // verus!
