//! Orders, their life cycle, and the handles by which a price level refers to
//! the orders it holds.

use vstd::prelude::*;

verus! {

/// The side of the book an order rests on.
#[allow(non_camel_case_types)]
#[derive(Debug, Clone, Copy, PartialEq, Eq, Structural)]
pub enum OrderType {
    /// An order to buy.
    BID,
    /// An order to sell.
    ASK,
}

/// Where an order stands in its life.
///
/// An order starts as `WAIT`, may become `PARTIAL` any number of times while
/// it rests in a queue, and ends as `FULL` or `CANCEL`, at which point it has
/// left the queue for good.
#[allow(non_camel_case_types)]
#[derive(Debug, Clone, Copy, PartialEq, Eq, Structural)]
pub enum OrderStatus {
    /// Nothing of the order has been executed yet.
    WAIT,
    /// Part of the order has been executed; the rest still rests in the book.
    PARTIAL,
    /// The order was executed in full and has left the book.
    FULL,
    /// The order was cancelled and has left the book.
    CANCEL,
}

impl OrderStatus {
    /// A terminal status is one that an order carries only once it has left
    /// its queue.
    pub open spec fn is_terminal(self) -> bool {
        self == OrderStatus::FULL || self == OrderStatus::CANCEL
    }

    /// Tells whether the status is `FULL` or `CANCEL`.
    pub fn terminal(self) -> (t: bool)
        ensures
            t == self.is_terminal(),
    {
        match self {
            OrderStatus::FULL => true,
            OrderStatus::CANCEL => true,
            OrderStatus::WAIT => false,
            OrderStatus::PARTIAL => false,
        }
    }
}

/// A point in time: whole seconds since the Unix epoch and the nanoseconds
/// past that second.
#[derive(Debug, Clone, Copy, PartialEq, Eq, Structural)]
pub struct Timestamp {
    pub secs: i64,
    pub nanos: u32,
}

/// A stable handle to an order held by a price level.
///
/// A handle names a storage slot together with the generation of that slot at
/// the time the order was stored. A slot's generation moves on whenever its
/// order leaves, so a handle that outlives its order never comes to name
/// another one.
#[derive(Debug, Clone, Copy, PartialEq, Eq, Structural)]
pub struct OrderId {
    pub slot: usize,
    pub generation: u64,
}

/// One resting order.
///
/// `price` is an opaque 64-bit code for the limit price; the queue only
/// stores it and compares it for identity. `next` and `prev` are the queue's
/// own links: they are empty on every order that is not held by a queue.
#[derive(Debug, PartialEq, Eq)]
pub struct Order {
    /// Identifier given to the order by whoever created it.
    pub sequence: i32,
    /// The side the order is on.
    pub order_type: OrderType,
    /// The limit price.
    pub price: u64,
    /// The shares that are still to be executed.
    pub shares: u32,
    /// When the order was created.
    pub entry_time: Timestamp,
    /// Where the order stands in its life.
    pub order_status: OrderStatus,
    /// The order behind this one in its queue.
    pub next: Option<OrderId>,
    /// The order ahead of this one in its queue.
    pub prev: Option<OrderId>,
}

/// Reads the clock through `chrono::Utc::now` and splits the reading with
/// `DateTime::timestamp` and `DateTime::timestamp_subsec_nanos`.
///
/// Nothing is claimed of the value: it is whatever the system clock says.
/// `chrono` aborts when that clock is set before the Unix epoch.
#[verifier::external_body]
fn current_time() -> (now: Timestamp) {
    let now = chrono::Utc::now();
    Timestamp { secs: now.timestamp(), nanos: now.timestamp_subsec_nanos() }
}

impl Order {
    /// The order that `with_entry_time` builds from its arguments.
    pub open spec fn fresh(
        sequence: i32,
        order_type: OrderType,
        price: u64,
        shares: u32,
        entry_time: Timestamp,
    ) -> Order {
        Order {
            sequence,
            order_type,
            price,
            shares,
            entry_time,
            order_status: OrderStatus::WAIT,
            next: None,
            prev: None,
        }
    }

    /// The same order with both links empty.
    pub open spec fn detached(self) -> Order {
        Order { next: None, prev: None, ..self }
    }

    /// An order carries no link.
    pub open spec fn is_detached(self) -> bool {
        self.next is None && self.prev is None
    }

    /// Creates an order stamped with the current time. It waits, and it is
    /// linked into no queue.
    pub fn new(sequence: i32, order_type: OrderType, price: u64, shares: u32) -> (order: Order)
        ensures
            order == Order::fresh(sequence, order_type, price, shares, order.entry_time),
    {
        Order::with_entry_time(sequence, order_type, price, shares, current_time())
    }

    /// Creates an order with a given creation time. It waits, and it is
    /// linked into no queue.
    pub fn with_entry_time(
        sequence: i32,
        order_type: OrderType,
        price: u64,
        shares: u32,
        entry_time: Timestamp,
    ) -> (order: Order)
        ensures
            order == Order::fresh(sequence, order_type, price, shares, entry_time),
    {
        Order {
            sequence,
            order_type,
            price,
            shares,
            entry_time,
            order_status: OrderStatus::WAIT,
            next: None,
            prev: None,
        }
    }
}

impl Clone for Order {
    /// Copies the order's own state and leaves the copy unlinked: links say
    /// where an order sits in one particular queue, and a copy sits in none.
    fn clone(&self) -> (copy: Order)
        ensures
            copy == self.detached(),
    {
        Order {
            sequence: self.sequence,
            order_type: self.order_type,
            price: self.price,
            shares: self.shares,
            entry_time: self.entry_time,
            order_status: self.order_status,
            next: None,
            prev: None,
        }
    }
}

} // verus!
