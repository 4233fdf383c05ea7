//! The owning store behind a price level.
//!
//! Orders live in numbered slots and are referred to by handle, never by
//! address. A slot is used again once its order has left, under a new
//! generation, so that a handle kept past the life of its order is told apart
//! from the handle of the slot's next tenant.

use crate::order::{Order, OrderId, OrderStatus};
use vstd::prelude::*;

verus! {

/// One storage slot: its generation, and the order it holds, if any.
struct Slot {
    generation: u64,
    order: Option<Order>,
}

/// A store of orders addressed by `OrderId`.
pub struct Arena {
    slots: Vec<Slot>,
    free: Vec<usize>,
}

impl View for Arena {
    type V = Map<OrderId, Order>;

    /// The orders in the store, by handle.
    closed spec fn view(&self) -> Map<OrderId, Order> {
        Map::new(
            |id: OrderId| self.live(id),
            |id: OrderId| self.slots@[id.slot as int].order.unwrap(),
        )
    }
}

impl Arena {
    /// The handle names a slot that holds an order under the handle's
    /// generation.
    spec fn live(&self, id: OrderId) -> bool {
        &&& id.slot < self.slots@.len()
        &&& self.slots@[id.slot as int].generation == id.generation
        &&& self.slots@[id.slot as int].order is Some
    }

    /// The slot is empty and can take an order.
    spec fn vacant(&self, slot: usize) -> bool {
        &&& slot < self.slots@.len()
        &&& self.slots@[slot as int].order is None
        &&& self.slots@[slot as int].generation < u64::MAX
    }

    /// The store's invariant.
    pub closed spec fn wf(&self) -> bool {
        &&& forall|i: int|
            0 <= i < self.slots@.len() && (#[trigger] self.slots@[i]).order is Some
                ==> self.slots@[i].generation < u64::MAX
        &&& forall|k: int| 0 <= k < self.free@.len() ==> self.vacant(#[trigger] self.free@[k])
        &&& self.free@.no_duplicates()
    }

    /// Every handle the store has given out so far, whether its order is
    /// still held or has left.
    pub closed spec fn issued(&self) -> Set<OrderId> {
        Set::new(
            |id: OrderId|
                id.slot < self.slots@.len() && (id.generation < self.slots@[id.slot as int].generation
                    || self.live(id)),
        )
    }

    /// The handles of the orders held are among those given out.
    pub proof fn lemma_held_are_issued(&self)
        ensures
            forall|id: OrderId| #[trigger] self@.contains_key(id) ==> self.issued().contains(id),
    {
    }

    /// An empty store.
    pub fn new() -> (arena: Arena)
        ensures
            arena.wf(),
            arena@ == Map::<OrderId, Order>::empty(),
            arena.issued() == Set::<OrderId>::empty(),
    {
        let arena = Arena { slots: Vec::new(), free: Vec::new() };
        assert(arena@ =~= Map::<OrderId, Order>::empty());
        assert(arena.issued() =~= Set::<OrderId>::empty());
        arena
    }

    /// Tells whether `id` is the handle of an order held.
    pub fn holds(&self, id: OrderId) -> (held: bool)
        ensures
            held == self@.contains_key(id),
    {
        id.slot < self.slots.len() && self.slots[id.slot].generation == id.generation
            && self.slots[id.slot].order.is_some()
    }

    /// The order behind `id`, if one is held.
    pub fn get(&self, id: OrderId) -> (found: Option<&Order>)
        ensures
            match found {
                Some(order) => self@.contains_key(id) && *order == self@[id],
                None => !self@.contains_key(id),
            },
    {
        if id.slot < self.slots.len() && self.slots[id.slot].generation == id.generation {
            self.slots[id.slot].order.as_ref()
        } else {
            None
        }
    }

    /// The order behind a handle that is known to be held.
    pub fn order(&self, id: OrderId) -> (order: &Order)
        requires
            self@.contains_key(id),
        ensures
            *order == self@[id],
    {
        self.slots[id.slot].order.as_ref().unwrap()
    }

    /// Stores `order` and returns its handle, one that was never given out
    /// before.
    pub fn allocate(&mut self, order: Order) -> (id: OrderId)
        requires
            old(self).wf(),
        ensures
            final(self).wf(),
            !old(self).issued().contains(id),
            final(self)@ == old(self)@.insert(id, order),
            final(self).issued() == old(self).issued().insert(id),
    {
        let id = match self.free.pop() {
            Some(slot) => {
                assert(old(self).vacant(old(self).free@[old(self).free@.len() - 1]));
                let place = &mut self.slots[slot];
                place.order = Some(order);
                OrderId { slot, generation: place.generation }
            },
            None => {
                let slot = self.slots.len();
                self.slots.push(Slot { generation: 0, order: Some(order) });
                OrderId { slot, generation: 0 }
            },
        };
        proof {
            assert forall|k: int| 0 <= k < self.free@.len() implies self.vacant(
                #[trigger] self.free@[k],
            ) by {
                assert(old(self).vacant(old(self).free@[k]));
                assert(self.free@[k] == old(self).free@[k]);
            }
            assert(self@ =~= old(self)@.insert(id, order));
            assert(self.issued() =~= old(self).issued().insert(id));
        }
        id
    }

    /// Takes the order behind `id` out of the store. The handle stays given
    /// out, and names nothing from now on.
    pub fn release(&mut self, id: OrderId) -> (order: Order)
        requires
            old(self).wf(),
            old(self)@.contains_key(id),
        ensures
            final(self).wf(),
            order == old(self)@[id],
            final(self)@ == old(self)@.remove(id),
            final(self).issued() == old(self).issued(),
    {
        let place = &mut self.slots[id.slot];
        let taken = place.order.take();
        place.generation = place.generation + 1;
        let reusable = place.generation < u64::MAX;
        if reusable {
            self.free.push(id.slot);
        }
        proof {
            assert forall|k: int| 0 <= k < self.free@.len() implies self.vacant(
                #[trigger] self.free@[k],
            ) by {
                if k < old(self).free@.len() {
                    assert(old(self).vacant(old(self).free@[k]));
                }
            }
            assert forall|j: int, k: int| 0 <= j < k < self.free@.len() implies self.free@[j]
                != self.free@[k] by {
                if k < old(self).free@.len() {
                } else {
                    assert(old(self).vacant(old(self).free@[j]));
                }
            }
            assert(self@ =~= old(self)@.remove(id));
            assert(self.issued() =~= old(self).issued());
        }
        taken.unwrap()
    }

    /// Sets the forward link of the order behind `id`.
    pub fn set_next(&mut self, id: OrderId, next: Option<OrderId>)
        requires
            old(self).wf(),
            old(self)@.contains_key(id),
        ensures
            final(self).wf(),
            final(self)@ == old(self)@.insert(id, Order { next, ..old(self)@[id] }),
            final(self).issued() == old(self).issued(),
    {
        match &mut self.slots[id.slot].order {
            Some(order) => {
                order.next = next;
            },
            None => {},
        }
        proof {
            assert forall|k: int| 0 <= k < self.free@.len() implies self.vacant(
                #[trigger] self.free@[k],
            ) by {
                assert(old(self).vacant(old(self).free@[k]));
            }
            assert(self@ =~= old(self)@.insert(id, Order { next, ..old(self)@[id] }));
            assert(self.issued() =~= old(self).issued());
        }
    }

    /// Sets the backward link of the order behind `id`.
    pub fn set_prev(&mut self, id: OrderId, prev: Option<OrderId>)
        requires
            old(self).wf(),
            old(self)@.contains_key(id),
        ensures
            final(self).wf(),
            final(self)@ == old(self)@.insert(id, Order { prev, ..old(self)@[id] }),
            final(self).issued() == old(self).issued(),
    {
        match &mut self.slots[id.slot].order {
            Some(order) => {
                order.prev = prev;
            },
            None => {},
        }
        proof {
            assert forall|k: int| 0 <= k < self.free@.len() implies self.vacant(
                #[trigger] self.free@[k],
            ) by {
                assert(old(self).vacant(old(self).free@[k]));
            }
            assert(self@ =~= old(self)@.insert(id, Order { prev, ..old(self)@[id] }));
            assert(self.issued() =~= old(self).issued());
        }
    }

    /// Records an execution against the order behind `id`: what is left of
    /// it, and its status from now on.
    pub fn set_remaining(&mut self, id: OrderId, shares: u32, order_status: OrderStatus)
        requires
            old(self).wf(),
            old(self)@.contains_key(id),
        ensures
            final(self).wf(),
            final(self)@ == old(self)@.insert(id, Order { shares, order_status, ..old(self)@[id] }),
            final(self).issued() == old(self).issued(),
    {
        match &mut self.slots[id.slot].order {
            Some(order) => {
                order.shares = shares;
                order.order_status = order_status;
            },
            None => {},
        }
        proof {
            assert forall|k: int| 0 <= k < self.free@.len() implies self.vacant(
                #[trigger] self.free@[k],
            ) by {
                assert(old(self).vacant(old(self).free@[k]));
            }
            assert(self@ =~= old(self)@.insert(
                id,
                Order { shares, order_status, ..old(self)@[id] },
            ));
            assert(self.issued() =~= old(self).issued());
        }
    }
}

} // verus!
