//! The queue of one price level.
//!
//! A `Limit` owns the orders that rest at its price and keeps them in arrival
//! order as a doubly linked chain threaded through its store. Every operation
//! that changes the level takes it by exclusive reference, so all changes to
//! one level happen one after another and no reader ever sees a chain, a
//! count or a volume that is half updated: an order is linked first, and the
//! count and the volume move with it before the level can be looked at again.

use crate::arena::Arena;
use crate::order::{Order, OrderId, OrderStatus, OrderType};
use crate::queue::{
    handle_at, lemma_remove_keeps_others, lemma_total_shares_push, lemma_total_shares_remove,
    lemma_total_shares_update, total_shares,
};
use vstd::prelude::*;

verus! {

/// Why a price level turned an operation down. The level is unchanged
/// whenever one of these is returned.
#[derive(Debug, Clone, Copy, PartialEq, Eq, Structural)]
pub enum LimitError {
    /// The order offered has already ended its life as `FULL` or `CANCEL`.
    Terminated,
    /// The order offered carries links or a `PARTIAL` status: it is, or is a
    /// copy of, an order that already rests in a queue.
    AlreadyLinked,
    /// The order offered has another price or another side than the level.
    WrongLevel,
    /// The level's count or volume would no longer fit its counter.
    Overflow,
    /// The handle names no order that rests at this level.
    NotLinked,
    /// An order can leave only as `FULL` or `CANCEL`.
    InvalidStatus,
    /// The shares of a resting order never grow.
    SharesIncrease,
}

/// All resting orders of one price and one side, first come, first served.
pub struct Limit {
    price: u64,
    order_type: OrderType,
    volume: u32,
    size: u32,
    head: Option<OrderId>,
    tail: Option<OrderId>,
    orders: Arena,
    queue: Ghost<Seq<OrderId>>,
}

impl View for Limit {
    type V = Seq<Order>;

    /// The resting orders from first to last, each without its links.
    open spec fn view(&self) -> Seq<Order> {
        Seq::new(self.ids().len(), |i: int| self.order_of(self.ids()[i]).detached())
    }
}

/// `post` is `pre` after `order` has joined it under the handle `id`.
pub open spec fn inserted(pre: Limit, order: Order, id: OrderId, post: Limit) -> bool {
    &&& post.price() == pre.price()
    &&& post.order_type() == pre.order_type()
    &&& !pre.issued().contains(id)
    &&& post.issued() == pre.issued().insert(id)
    &&& post.ids() == pre.ids().push(id)
    &&& post@ == pre@.push(order)
}

/// What the arrival of `order` under the handle `id` does to the chain and to
/// the aggregates: the count grows by one and the volume by the order's
/// shares; `tail` names the newcomer, and so does `head` where the level was
/// empty; the newcomer is linked back to the old tail and the old tail
/// forward to the newcomer; every other order stays as it was.
pub open spec fn appended(pre: Limit, order: Order, id: OrderId, post: Limit) -> bool {
    &&& post.size() == pre.size() + 1
    &&& post.volume() == pre.volume() + order.shares
    &&& post.tail() == Some(id)
    &&& post.head() == if pre.head() is None {
        Some(id)
    } else {
        pre.head()
    }
    &&& post.order_of(id) == (Order { prev: pre.tail(), ..order })
    &&& forall|other: OrderId| #[trigger]
        pre.ids().contains(other) ==> post.order_of(other) == (Order {
            next: if pre.tail() == Some(other) {
                Some(id)
            } else {
                pre.order_of(other).next
            },
            ..pre.order_of(other)
        })
}

/// `post` is `pre` after the order behind `id` has left it as `order`, with
/// the status `status`.
pub open spec fn removed(
    pre: Limit,
    id: OrderId,
    status: OrderStatus,
    order: Order,
    post: Limit,
) -> bool {
    let k = pre.ids().index_of(id);
    &&& pre.ids().contains(id)
    &&& post.price() == pre.price()
    &&& post.order_type() == pre.order_type()
    &&& post.issued() == pre.issued()
    &&& post.ids() == pre.ids().remove(k)
    &&& post@ == pre@.remove(k)
    &&& order == (Order { order_status: status, ..pre@[k] })
}

/// What the departure of the order behind `id` does to the chain and to the
/// aggregates: the count drops by one and the volume by the shares the order
/// had left; `head` and `tail` move on where they named it; every order that
/// stays keeps its state, and a link that led to the departed order now leads
/// to what lay beyond it.
pub open spec fn unlinked(pre: Limit, id: OrderId, post: Limit) -> bool {
    let gone = pre.order_of(id);
    &&& post.size() == pre.size() - 1
    &&& post.volume() == pre.volume() - gone.shares
    &&& post.head() == if pre.head() == Some(id) {
        gone.next
    } else {
        pre.head()
    }
    &&& post.tail() == if pre.tail() == Some(id) {
        gone.prev
    } else {
        pre.tail()
    }
    &&& forall|other: OrderId| #[trigger]
        post.ids().contains(other) ==> post.order_of(other) == (Order {
            next: if pre.order_of(other).next == Some(id) {
                gone.next
            } else {
                pre.order_of(other).next
            },
            prev: if pre.order_of(other).prev == Some(id) {
                gone.prev
            } else {
                pre.order_of(other).prev
            },
            ..pre.order_of(other)
        })
}

/// The state of a resting order after an execution has left it `remaining`
/// shares: it is `PARTIAL` once anything of it has been executed.
pub open spec fn executed(order: Order, remaining: u32) -> Order {
    Order {
        shares: remaining,
        order_status: if remaining < order.shares {
            OrderStatus::PARTIAL
        } else {
            order.order_status
        },
        ..order
    }
}

/// `post` is `pre` after the order behind `id` has been brought down to
/// `remaining` shares.
pub open spec fn reduced(pre: Limit, id: OrderId, remaining: u32, post: Limit) -> bool {
    let k = pre.ids().index_of(id);
    &&& pre.ids().contains(id)
    &&& post.price() == pre.price()
    &&& post.order_type() == pre.order_type()
    &&& post.issued() == pre.issued()
    &&& post.ids() == pre.ids()
    &&& post@ == pre@.update(k, executed(pre@[k], remaining))
    &&& post.order_of(id) == executed(pre.order_of(id), remaining)
    &&& forall|other: OrderId| #[trigger]
        pre.ids().contains(other) && other != id ==> post.order_of(other) == pre.order_of(other)
}

impl Limit {
    /// The price all orders of this level share.
    pub closed spec fn spec_price(&self) -> u64 {
        self.price
    }

    /// The side all orders of this level are on.
    pub closed spec fn spec_order_type(&self) -> OrderType {
        self.order_type
    }

    /// The volume the level keeps count of.
    pub closed spec fn spec_volume(&self) -> u32 {
        self.volume
    }

    /// The number of orders the level keeps count of.
    pub closed spec fn spec_size(&self) -> u32 {
        self.size
    }

    /// The handle the level keeps as its first.
    pub closed spec fn spec_head(&self) -> Option<OrderId> {
        self.head
    }

    /// The handle the level keeps as its last.
    pub closed spec fn spec_tail(&self) -> Option<OrderId> {
        self.tail
    }

    /// The handles of the resting orders, from first to last.
    pub closed spec fn ids(&self) -> Seq<OrderId> {
        self.queue@
    }

    /// The order behind a handle as the level holds it, links included.
    pub closed spec fn order_of(&self, id: OrderId) -> Order {
        self.orders@[id]
    }

    /// Every handle this level has given out so far.
    pub closed spec fn issued(&self) -> Set<OrderId> {
        self.orders.issued()
    }

    /// The store holds exactly the orders of the queue.
    pub closed spec fn store_wf(&self) -> bool {
        &&& self.orders.wf()
        &&& forall|id: OrderId| self.orders@.contains_key(id) <==> self.ids().contains(id)
    }

    /// The order at position `i` is linked to its neighbours, still has a
    /// life ahead of it, and belongs at this level.
    pub open spec fn rests_at(&self, i: int) -> bool {
        let order = self.order_of(self.ids()[i]);
        &&& order.next == handle_at(self.ids(), i + 1)
        &&& order.prev == handle_at(self.ids(), i - 1)
        &&& !order.order_status.is_terminal()
        &&& order.price == self.price()
        &&& order.order_type == self.order_type()
    }

    /// The level's invariant: the chain runs from `head` to `tail` through
    /// every resting order once, forward and backward; no handle occurs
    /// twice; and the count and the volume say what the chain holds, so
    /// neither can fall below zero when an order leaves.
    pub open spec fn wf(&self) -> bool {
        &&& self.store_wf()
        &&& self.ids().no_duplicates()
        &&& forall|i: int|
            0 <= i < self.ids().len() ==> self.issued().contains(#[trigger] self.ids()[i])
        &&& self.size() == self.ids().len()
        &&& self.volume() == total_shares(self@)
        &&& self.head() == handle_at(self.ids(), 0)
        &&& self.tail() == handle_at(self.ids(), self.ids().len() - 1)
        &&& forall|i: int| 0 <= i < self.ids().len() ==> #[trigger] self.rests_at(i)
    }

    /// Why `insert` turns `order` down, if it does.
    pub open spec fn insert_error(&self, order: Order) -> Option<LimitError> {
        if order.order_status.is_terminal() {
            Some(LimitError::Terminated)
        } else if order.order_status != OrderStatus::WAIT || !order.is_detached() {
            Some(LimitError::AlreadyLinked)
        } else if order.price != self.price() || order.order_type != self.order_type() {
            Some(LimitError::WrongLevel)
        } else if self.size() == u32::MAX || self.volume() + order.shares > u32::MAX {
            Some(LimitError::Overflow)
        } else {
            None
        }
    }

    /// Why `remove` turns a handle and a status down, if it does.
    pub open spec fn remove_error(&self, id: OrderId, status: OrderStatus) -> Option<LimitError> {
        if !self.ids().contains(id) {
            Some(LimitError::NotLinked)
        } else if !status.is_terminal() {
            Some(LimitError::InvalidStatus)
        } else {
            None
        }
    }

    /// Why `reduce_shares` turns a handle and a number of shares down, if it
    /// does.
    pub open spec fn reduce_error(&self, id: OrderId, remaining: u32) -> Option<LimitError> {
        if !self.ids().contains(id) {
            Some(LimitError::NotLinked)
        } else if remaining > self.order_of(id).shares {
            Some(LimitError::SharesIncrease)
        } else {
            None
        }
    }

    /// An empty level for one price and one side.
    pub fn new(price: u64, order_type: OrderType) -> (level: Limit)
        ensures
            level.wf(),
            level.price() == price,
            level.order_type() == order_type,
            level.ids() == Seq::<OrderId>::empty(),
            level@ == Seq::<Order>::empty(),
            level.issued() == Set::<OrderId>::empty(),
            level.size() == 0,
            level.volume() == 0,
            level.head() is None,
            level.tail() is None,
    {
        let level = Limit {
            price,
            order_type,
            volume: 0,
            size: 0,
            head: None,
            tail: None,
            orders: Arena::new(),
            queue: Ghost(Seq::empty()),
        };
        assert(level@ =~= Seq::<Order>::empty());
        level
    }

    /// The price all orders of this level share.
    #[verifier::when_used_as_spec(spec_price)]
    pub fn price(&self) -> (price: u64)
        ensures
            price == self.spec_price(),
    {
        self.price
    }

    /// The side all orders of this level are on.
    #[verifier::when_used_as_spec(spec_order_type)]
    pub fn order_type(&self) -> (order_type: OrderType)
        ensures
            order_type == self.spec_order_type(),
    {
        self.order_type
    }

    /// The shares that remain over all resting orders.
    #[verifier::when_used_as_spec(spec_volume)]
    pub fn volume(&self) -> (volume: u32)
        ensures
            volume == self.spec_volume(),
    {
        self.volume
    }

    /// The number of resting orders.
    #[verifier::when_used_as_spec(spec_size)]
    pub fn size(&self) -> (size: u32)
        ensures
            size == self.spec_size(),
    {
        self.size
    }

    /// The order that came first, if any order rests here.
    #[verifier::when_used_as_spec(spec_head)]
    pub fn head(&self) -> (head: Option<OrderId>)
        ensures
            head == self.spec_head(),
    {
        self.head
    }

    /// The order that came last, if any order rests here.
    #[verifier::when_used_as_spec(spec_tail)]
    pub fn tail(&self) -> (tail: Option<OrderId>)
        ensures
            tail == self.spec_tail(),
    {
        self.tail
    }

    /// Appends `order` behind the last resting order and returns its handle.
    ///
    /// Only an order that waits, carries no links and has the level's price
    /// and side is taken, and only while the count and the volume still fit;
    /// `insert_error` names the reason otherwise, and the level stays as it
    /// was. The order is linked into the chain first and counted after, and
    /// both happen under the one exclusive borrow, so no caller ever sees
    /// one without the other.
    pub fn insert(&mut self, order: Order) -> (result: Result<OrderId, LimitError>)
        requires
            old(self).wf(),
        ensures
            final(self).wf(),
            match result {
                Ok(id) => {
                    &&& old(self).insert_error(order) is None
                    &&& inserted(*old(self), order, id, *final(self))
                    &&& appended(*old(self), order, id, *final(self))
                },
                Err(error) => {
                    &&& old(self).insert_error(order) == Some(error)
                    &&& *final(self) == *old(self)
                },
            },
    {
        if order.order_status.terminal() {
            return Err(LimitError::Terminated);
        }
        let waits = match order.order_status {
            OrderStatus::WAIT => true,
            _ => false,
        };
        if !waits || order.next.is_some() || order.prev.is_some() {
            return Err(LimitError::AlreadyLinked);
        }
        if order.price != self.price || order.order_type != self.order_type {
            return Err(LimitError::WrongLevel);
        }
        if self.size == u32::MAX {
            return Err(LimitError::Overflow);
        }
        let volume = match self.volume.checked_add(order.shares) {
            Some(volume) => volume,
            None => {
                return Err(LimitError::Overflow);
            },
        };
        let ghost arrival = order;
        let tail = self.tail;
        let mut order = order;
        order.prev = tail;
        proof {
            self.orders.lemma_held_are_issued();
        }
        let id = self.orders.allocate(order);
        match tail {
            Some(last) => {
                assert(old(self).rests_at(old(self).ids().len() - 1));
                assert(old(self).ids()[old(self).ids().len() - 1] == last);
                assert(old(self).ids().contains(last));
                self.orders.set_next(last, Some(id));
            },
            None => {
                self.head = Some(id);
            },
        }
        self.tail = Some(id);
        self.size = self.size + 1;
        self.volume = volume;
        self.queue = Ghost(self.queue@.push(id));
        proof {
            let n = old(self).ids().len() as int;
            assert(!old(self).ids().contains(id));
            assert forall|other: OrderId| self.orders@.contains_key(other) <==> self.ids().contains(
                other,
            ) by {
                if other == id {
                    assert(self.ids()[n] == id);
                } else if old(self).ids().contains(other) {
                    let k = choose|k: int| 0 <= k < n && old(self).ids()[k] == other;
                    assert(self.ids()[k] == other);
                }
            }
            assert forall|i: int| 0 <= i < self.ids().len() implies #[trigger] self.rests_at(i) by {
                if i < n {
                    assert(old(self).rests_at(i));
                    assert(old(self).ids().contains(old(self).ids()[i]));
                }
            }
            assert(self@ =~= old(self)@.push(arrival)) by {
                assert forall|i: int| 0 <= i < n implies self@[i] == old(self)@[i] by {
                    assert(old(self).ids().contains(old(self).ids()[i]));
                }
            }
            lemma_total_shares_push(old(self)@, arrival);
            assert forall|other: OrderId| #[trigger]
                old(self).ids().contains(other) implies self.order_of(other) == (Order {
                next: if old(self).tail() == Some(other) {
                    Some(id)
                } else {
                    old(self).order_of(other).next
                },
                ..old(self).order_of(other)
            }) by {
                let j = choose|j: int| 0 <= j < n && old(self).ids()[j] == other;
                assert(old(self).rests_at(j));
            }
        }
        Ok(id)
    }

    /// Takes the order behind `id` out of the chain and hands it over with
    /// the status `status` and without links.
    fn unlink(&mut self, id: OrderId, status: OrderStatus) -> (order: Order)
        requires
            old(self).wf(),
            old(self).ids().contains(id),
            status.is_terminal(),
        ensures
            final(self).wf(),
            removed(*old(self), id, status, order, *final(self)),
            unlinked(*old(self), id, *final(self)),
    {
        let ghost k = old(self).ids().index_of(id);
        let ghost n = old(self).ids().len() as int;
        assert(old(self).rests_at(k));
        let resting = self.orders.order(id);
        let prev = resting.prev;
        let next = resting.next;
        let shares = resting.shares;
        match prev {
            Some(ahead) => {
                assert(old(self).ids()[k - 1] == ahead);
                assert(old(self).ids().contains(ahead));
                self.orders.set_next(ahead, next);
            },
            None => {
                self.head = next;
            },
        }
        match next {
            Some(behind) => {
                assert(old(self).ids()[k + 1] == behind);
                assert(old(self).ids().contains(behind));
                self.orders.set_prev(behind, prev);
            },
            None => {
                self.tail = prev;
            },
        }
        let mut order = self.orders.release(id);
        order.order_status = status;
        order.next = None;
        order.prev = None;
        proof {
            lemma_total_shares_remove(old(self)@, k);
        }
        self.size = self.size - 1;
        self.volume = self.volume - shares;
        self.queue = Ghost(self.queue@.remove(k));
        proof {
            lemma_remove_keeps_others(old(self).ids(), k);
            assert forall|other: OrderId| self.orders@.contains_key(other) <==> self.ids().contains(
                other,
            ) by {
                assert(self.ids().contains(other) <==> old(self).ids().contains(other) && other != id);
            }
            assert forall|i: int| 0 <= i < self.ids().len() implies #[trigger] self.rests_at(i) by {
                if i < k {
                    assert(old(self).rests_at(i));
                    assert(old(self).ids().contains(old(self).ids()[i]));
                } else {
                    assert(old(self).rests_at(i + 1));
                    assert(old(self).ids().contains(old(self).ids()[i + 1]));
                }
            }
            assert(self@ =~= old(self)@.remove(k)) by {
                assert forall|i: int| 0 <= i < n - 1 implies self@[i] == old(self)@.remove(k)[i] by {
                    if i < k {
                        assert(old(self).ids().contains(old(self).ids()[i]));
                    } else {
                        assert(old(self).ids().contains(old(self).ids()[i + 1]));
                    }
                }
            }
            assert forall|other: OrderId| #[trigger]
                self.ids().contains(other) implies self.order_of(other) == (Order {
                next: if old(self).order_of(other).next == Some(id) {
                    next
                } else {
                    old(self).order_of(other).next
                },
                prev: if old(self).order_of(other).prev == Some(id) {
                    prev
                } else {
                    old(self).order_of(other).prev
                },
                ..old(self).order_of(other)
            }) by {
                let j = choose|j: int| 0 <= j < n - 1 && self.ids()[j] == other;
                if j < k {
                    assert(old(self).rests_at(j));
                    assert(old(self).ids()[j] == other);
                } else {
                    assert(old(self).rests_at(j + 1));
                    assert(old(self).ids()[j + 1] == other);
                }
            }
        }
        order
    }

    /// Unlinks the order behind a handle, wherever it sits in the chain, and
    /// hands it over with the status `status`.
    ///
    /// No handle at all is no work and no fault. A handle that names no
    /// order resting here, or a status other than `FULL` and `CANCEL`, is
    /// turned down and the level stays as it was. The volume drops by the
    /// shares the order has left at this moment, not by those it came with.
    pub fn remove(&mut self, order: Option<OrderId>, status: OrderStatus) -> (result: Result<
        Option<Order>,
        LimitError,
    >)
        requires
            old(self).wf(),
        ensures
            final(self).wf(),
            match result {
                Ok(None) => order is None && *final(self) == *old(self),
                Ok(Some(gone)) => {
                    &&& order matches Some(id)
                    &&& old(self).remove_error(id, status) is None
                    &&& removed(*old(self), id, status, gone, *final(self))
                    &&& unlinked(*old(self), id, *final(self))
                },
                Err(error) => {
                    &&& order matches Some(id)
                    &&& old(self).remove_error(id, status) == Some(error)
                    &&& *final(self) == *old(self)
                },
            },
    {
        let id = match order {
            Some(id) => id,
            None => {
                return Ok(None);
            },
        };
        if !self.orders.holds(id) {
            return Err(LimitError::NotLinked);
        }
        if !status.terminal() {
            return Err(LimitError::InvalidStatus);
        }
        Ok(Some(self.unlink(id, status)))
    }

    /// Takes the order that came first out of the queue and hands it over as
    /// `FULL`: this is how the book consumes a level in time priority. An
    /// empty level gives nothing and stays as it is.
    pub fn pop(&mut self) -> (popped: Option<Order>)
        requires
            old(self).wf(),
        ensures
            final(self).wf(),
            match popped {
                Some(first) => {
                    &&& old(self).head() matches Some(id)
                    &&& removed(*old(self), id, OrderStatus::FULL, first, *final(self))
                    &&& unlinked(*old(self), id, *final(self))
                },
                None => old(self).size() == 0 && *final(self) == *old(self),
            },
    {
        match self.head {
            Some(id) => {
                assert(self.ids()[0] == id);
                Some(self.unlink(id, OrderStatus::FULL))
            },
            None => None,
        }
    }

    /// Records an execution against a resting order: `remaining` is what is
    /// left of it. The order becomes `PARTIAL` once anything of it has been
    /// executed, and the volume drops by what was executed. A handle that
    /// names no order resting here, or a number above the shares the order
    /// has left, is turned down and the level stays as it was.
    pub fn reduce_shares(&mut self, id: OrderId, remaining: u32) -> (result: Result<(), LimitError>)
        requires
            old(self).wf(),
        ensures
            final(self).wf(),
            match result {
                Ok(_) => {
                    &&& old(self).reduce_error(id, remaining) is None
                    &&& reduced(*old(self), id, remaining, *final(self))
                    &&& final(self).size() == old(self).size()
                    &&& final(self).volume() == old(self).volume() - (old(self).order_of(id).shares
                        - remaining)
                    &&& final(self).head() == old(self).head()
                    &&& final(self).tail() == old(self).tail()
                },
                Err(error) => {
                    &&& old(self).reduce_error(id, remaining) == Some(error)
                    &&& *final(self) == *old(self)
                },
            },
    {
        if !self.orders.holds(id) {
            return Err(LimitError::NotLinked);
        }
        let resting = self.orders.order(id);
        let shares = resting.shares;
        let order_status = resting.order_status;
        if remaining > shares {
            return Err(LimitError::SharesIncrease);
        }
        let ghost k = old(self).ids().index_of(id);
        let ghost n = old(self).ids().len() as int;
        proof {
            lemma_total_shares_update(old(self)@, k, executed(old(self)@[k], remaining));
            lemma_total_shares_remove(old(self)@, k);
        }
        let order_status = if remaining < shares {
            OrderStatus::PARTIAL
        } else {
            order_status
        };
        self.orders.set_remaining(id, remaining, order_status);
        self.volume = self.volume - (shares - remaining);
        proof {
            assert forall|i: int| 0 <= i < self.ids().len() implies #[trigger] self.rests_at(i) by {
                assert(old(self).rests_at(i));
                assert(old(self).ids().contains(old(self).ids()[i]));
            }
            assert(self@ =~= old(self)@.update(k, executed(old(self)@[k], remaining))) by {
                assert forall|i: int| 0 <= i < n implies self@[i] == old(self)@.update(
                    k,
                    executed(old(self)@[k], remaining),
                )[i] by {
                    assert(old(self).ids().contains(old(self).ids()[i]));
                }
            }
        }
        Ok(())
    }

    /// The resting orders from first to last, each copied without its links.
    /// The copies are gathered by walking the chain from `head` along the
    /// forward links.
    pub fn orders(&self) -> (listed: Vec<Order>)
        requires
            self.wf(),
        ensures
            listed@ == self@,
    {
        let mut listed: Vec<Order> = Vec::new();
        let mut cursor = self.head;
        let ghost mut i: int = 0;
        while cursor.is_some()
            invariant
                self.wf(),
                0 <= i <= self.ids().len(),
                cursor == handle_at(self.ids(), i),
                listed@ == self@.subrange(0, i),
            decreases self.ids().len() - i,
        {
            let id = cursor.unwrap();
            assert(self.ids().contains(id));
            assert(self.rests_at(i));
            let resting = self.orders.order(id);
            listed.push(resting.clone());
            cursor = resting.next;
            proof {
                assert(listed@ =~= self@.subrange(0, i + 1));
                i = i + 1;
            }
        }
        assert(listed@ =~= self@);
        listed
    }

    /// The order behind a handle as it rests in the queue, links included,
    /// or nothing where the handle names no order resting here.
    pub fn get(&self, id: OrderId) -> (found: Option<&Order>)
        requires
            self.wf(),
        ensures
            match found {
                Some(order) => self.ids().contains(id) && *order == self.order_of(id),
                None => !self.ids().contains(id),
            },
    {
        self.orders.get(id)
    }
}

} // verus!
